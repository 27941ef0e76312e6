use vstd::prelude::*;

verus! {

/// A request for the shortest path between two notes.
pub struct GraphPathRequest {
    /// Source note path.
    pub from: String,
    /// Target note path.
    pub to: String,
}

/// A request for the graph's statistics.
pub struct GraphStatsRequest {}

/// A request for the graph's communities.
pub struct GraphCommunitiesRequest {}

/// The number of hops of a path of notes: one less than its notes, and none for no note.
pub fn hops(path_len: usize) -> (r: usize)
    ensures
        r == (if path_len == 0 {
            0
        } else {
            path_len - 1
        }),
{
    if path_len == 0 {
        0
    } else {
        path_len - 1
    }
}

} // verus!
