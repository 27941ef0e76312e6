use vstd::prelude::*;

use std::sync::Arc;

use crate::vault::Vault;

verus! {

/// A request to read a note.
pub struct ReadNoteRequest {
    /// Path to the note relative to the vault root (e.g. `folder/note.md`).
    pub path: String,
}

/// A request to list the vault.
pub struct ListVaultRequest {
    /// Subpath to list from; the vault root when absent.
    pub path: Option<String>,
    /// Max depth to traverse; 10 when absent, 20 at most.
    pub depth: Option<usize>,
}

/// A request for a note's metadata.
pub struct GetMetadataRequest {
    /// Path to the note relative to the vault root.
    pub path: String,
}

/// The tools that read the vault.
#[derive(Clone)]
pub struct ReadTools {
    pub vault: Arc<Vault>,
}

impl ReadTools {
    pub fn new(vault: Arc<Vault>) -> (r: Self)
        ensures
            r.vault == vault,
    {
        Self { vault }
    }
}

} // verus!
