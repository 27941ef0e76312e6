use vstd::prelude::*;

use std::sync::Arc;

use crate::parse::frontmatter::Frontmatter;
use crate::text::string_of;
use crate::vault::Vault;

verus! {

/// A request to create a note.
pub struct CreateNoteRequest {
    /// Path for the new note, relative to the vault root.
    pub path: String,
    /// Note content (markdown); empty when absent.
    pub content: Option<String>,
    /// Initial frontmatter fields.
    pub frontmatter: Option<Frontmatter>,
}

impl CreateNoteRequest {
    /// The content of the new note: the one given, or none at all.
    pub fn content_or_empty(&self) -> (r: String)
        ensures
            r@ == (match self.content {
                Some(c) => c@,
                None => Seq::<char>::empty(),
            }),
    {
        match &self.content {
            Some(c) => string_of(c.as_str()),
            None => String::new(),
        }
    }
}

/// A request to update a note.
pub struct UpdateNoteRequest {
    /// Path to the note to update.
    pub path: String,
    /// Content to write.
    pub content: String,
    /// `append` to add to the end, `replace` to overwrite the body (keeping the frontmatter).
    pub mode: String,
}

/// A request to set frontmatter fields.
pub struct SetFrontmatterRequest {
    /// Path to the note.
    pub path: String,
    /// Frontmatter fields to set (merged with the existing ones).
    pub fields: Frontmatter,
}

/// The tools that change notes.
#[derive(Clone)]
pub struct WriteTools {
    pub vault: Arc<Vault>,
}

impl WriteTools {
    pub fn new(vault: Arc<Vault>) -> (r: Self)
        ensures
            r.vault == vault,
    {
        Self { vault }
    }
}

} // verus!
