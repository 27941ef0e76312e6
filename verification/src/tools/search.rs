use vstd::prelude::*;

use crate::parse::frontmatter::Frontmatter;
use crate::text::{chars_of, string_from_chars, string_of};

verus! {

/// A full-text search.
pub struct SearchNotesRequest {
    /// Search query (full text).
    pub query: String,
    /// Max results to return; 20 when absent.
    pub limit: Option<usize>,
}

/// A search by tags.
pub struct SearchByTagRequest {
    /// Tags to search for (e.g. `project`, `todo`).
    pub tags: Vec<String>,
    /// Match mode: `any` (OR) or `all` (AND); `any` when absent.
    pub match_mode: Option<String>,
}

/// A search by frontmatter fields.
pub struct SearchByFrontmatterRequest {
    /// Frontmatter filters as key-value pairs.
    pub filters: Frontmatter,
}

/// How many results a full-text search returns when no limit is asked for.
pub const DEFAULT_SEARCH_LIMIT: usize = 20;

/// How many characters of a note's body a search result shows.
pub const PREVIEW_CHARS: usize = 200;

impl SearchNotesRequest {
    /// The limit of the search: the one asked for, or the default.
    pub fn limit_or_default(&self) -> (r: usize)
        ensures
            r == (match self.limit {
                Some(l) => l,
                None => DEFAULT_SEARCH_LIMIT,
            }),
    {
        match self.limit {
            Some(l) => l,
            None => DEFAULT_SEARCH_LIMIT,
        }
    }
}

impl SearchByTagRequest {
    /// The match mode of the search: the one asked for, or `any`.
    pub fn mode_or_default(&self) -> (r: String)
        ensures
            r@ == (match self.match_mode {
                Some(m) => m@,
                None => "any"@,
            }),
    {
        match &self.match_mode {
            Some(m) => string_of(m.as_str()),
            None => string_of("any"),
        }
    }
}

/// The start of a note's body that a search result shows: its first `PREVIEW_CHARS`
/// characters, or all of it when it is shorter.
pub fn preview(body: &str) -> (r: String)
    ensures
        r@ == (if body@.len() <= PREVIEW_CHARS {
            body@
        } else {
            body@.take(PREVIEW_CHARS as int)
        }),
{
    let cs = chars_of(body);
    if cs.len() <= PREVIEW_CHARS {
        string_from_chars(cs.as_slice())
    } else {
        string_from_chars(vstd::slice::slice_subrange(cs.as_slice(), 0, PREVIEW_CHARS))
    }
}

} // verus!
