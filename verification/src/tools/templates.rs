use vstd::prelude::*;

use std::sync::Arc;

use crate::vault::Vault;

verus! {

/// A request to apply a template to a note.
pub struct ApplyTemplateRequest {
    /// Template name, without `.md`.
    pub template: String,
    /// Path to the note to apply the template to.
    pub path: String,
}

/// A request for a daily note.
pub struct GetDailyNoteRequest {
    /// Date in YYYY-MM-DD form; today when absent.
    pub date: Option<String>,
}

/// The tools for templates and daily notes.
#[derive(Clone)]
pub struct TemplateTools {
    pub vault: Arc<Vault>,
}

impl TemplateTools {
    pub fn new(vault: Arc<Vault>) -> (r: Self)
        ensures
            r.vault == vault,
    {
        Self { vault }
    }
}

} // verus!
