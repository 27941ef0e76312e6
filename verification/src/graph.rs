use vstd::prelude::*;

use crate::config::Config;
use crate::paths::{join_path, path_join};
use crate::text::{cat, string_from_chars, views};

verus! {

/// A note of Obsidian's graph data.
#[derive(Debug)]
pub struct GraphNode {
    pub id: String,
    pub path: Option<String>,
}

/// A link between two notes of Obsidian's graph data.
#[derive(Debug)]
pub struct GraphEdge {
    pub source: String,
    pub target: String,
}

/// Obsidian's graph data: its notes and the links between them.
#[derive(Debug)]
pub struct ObsidianGraph {
    pub nodes: Vec<GraphNode>,
    pub edges: Vec<GraphEdge>,
}

/// A connected group of notes, numbered from 0 in the order in which it is found.
#[derive(Debug, Clone)]
pub struct Community {
    pub id: usize,
    pub nodes: Vec<String>,
}

/// Analyses the graph data of one vault.
pub struct GraphAnalyzer {
    config: Config,
}

/// Why a graph question has no answer.
#[derive(Debug)]
pub enum GraphError {
    /// The graph data file does not exist.
    Unavailable { path: String },
    /// No chain of links joins the two notes.
    NoPath { from: String, to: String },
}

// ----------------------------------------------------------------------------
// The model: notes joined by links, in both directions.
// ----------------------------------------------------------------------------

/// The ids of the graph's nodes, in order.
pub open spec fn node_ids(g: ObsidianGraph) -> Seq<Seq<char>> {
    g.nodes@.map_values(|n: GraphNode| n.id@)
}

/// Edge `e` joins `a` and `b`, in one direction or the other.
pub open spec fn edge_joins(e: GraphEdge, a: Seq<char>, b: Seq<char>) -> bool {
    (e.source@ == a && e.target@ == b) || (e.source@ == b && e.target@ == a)
}

/// Some edge of the graph joins `a` and `b`.
pub open spec fn linked(g: ObsidianGraph, a: Seq<char>, b: Seq<char>) -> bool {
    exists|k: int| 0 <= k < g.edges@.len() && #[trigger] edge_joins(g.edges@[k], a, b)
}

/// Step `i` of `w` follows an edge.
pub open spec fn walk_step(g: ObsidianGraph, w: Seq<Seq<char>>, i: int) -> bool {
    linked(g, w[i], w[i + 1])
}

/// `w` is a non-empty sequence of ids in which each two neighbours are linked.
pub open spec fn is_walk(g: ObsidianGraph, w: Seq<Seq<char>>) -> bool {
    &&& w.len() >= 1
    &&& forall|i: int| 0 <= i < w.len() - 1 ==> #[trigger] walk_step(g, w, i)
}

/// Some walk leads from `a` to `b` (every id is connected to itself).
pub open spec fn connected(g: ObsidianGraph, a: Seq<char>, b: Seq<char>) -> bool {
    exists|w: Seq<Seq<char>>| #[trigger] is_walk(g, w) && w[0] == a && w.last() == b
}

/// Where `a` first meets `b` in the links from link `k` on, each link read from its source to
/// its target and then back: `2 * j` when link `j` leads from `a` to `b`, `2 * j + 1` when it
/// leads from `b` to `a`; -1 when none of them joins the two.
pub open spec fn link_slot(g: ObsidianGraph, a: Seq<char>, b: Seq<char>, k: int) -> int
    decreases g.edges@.len() - k,
{
    if k < 0 || k >= g.edges@.len() {
        -1
    } else if g.edges@[k].source@ == a && g.edges@[k].target@ == b {
        2 * k
    } else if g.edges@[k].target@ == a && g.edges@[k].source@ == b {
        2 * k + 1
    } else {
        link_slot(g, a, b, k + 1)
    }
}

/// For each step of the walk `w`, where its two notes first meet in the links: the order in
/// which a note's neighbours come when the links are read in that way.
pub open spec fn walk_code(g: ObsidianGraph, w: Seq<Seq<char>>) -> Seq<int> {
    Seq::new((w.len() - 1) as nat, |i: int| link_slot(g, w[i], w[i + 1], 0))
}

/// `a` comes before `b` in dictionary order: at the first place where they differ, `a` holds
/// the smaller number.
pub open spec fn lex_less(a: Seq<int>, b: Seq<int>) -> bool
    decreases a.len(),
{
    if a.len() == 0 || b.len() == 0 {
        false
    } else if a[0] != b[0] {
        a[0] < b[0]
    } else {
        lex_less(a.drop_first(), b.drop_first())
    }
}

// ----------------------------------------------------------------------------
// The same graph over indices into a table of distinct names.
// ----------------------------------------------------------------------------

spec fn ijoins(e: (usize, usize), a: int, b: int) -> bool {
    (e.0 == a && e.1 == b) || (e.0 == b && e.1 == a)
}

spec fn ilinked(ie: Seq<(usize, usize)>, a: int, b: int) -> bool {
    exists|k: int| 0 <= k < ie.len() && #[trigger] ijoins(ie[k], a, b)
}

spec fn istep(ie: Seq<(usize, usize)>, w: Seq<int>, i: int) -> bool {
    ilinked(ie, w[i], w[i + 1])
}

spec fn iwalk(ie: Seq<(usize, usize)>, w: Seq<int>) -> bool {
    &&& w.len() >= 1
    &&& forall|i: int| 0 <= i < w.len() - 1 ==> #[trigger] istep(ie, w, i)
}

spec fn iconn(ie: Seq<(usize, usize)>, a: int, b: int) -> bool {
    exists|w: Seq<int>| #[trigger] iwalk(ie, w) && w[0] == a && w.last() == b
}

/// Every edge end is an index below `n`.
spec fn edges_below(ie: Seq<(usize, usize)>, n: int) -> bool {
    forall|k: int| 0 <= k < ie.len() ==> (#[trigger] ie[k]).0 < n && ie[k].1 < n
}

/// `names` and `ie` describe the graph `g`: the names are distinct, and edge `k` joins the
/// names of its two indices.
spec fn represents(g: ObsidianGraph, names: Seq<Seq<char>>, ie: Seq<(usize, usize)>) -> bool {
    &&& names.no_duplicates()
    &&& ie.len() == g.edges@.len()
    &&& edges_below(ie, names.len() as int)
    &&& forall|k: int|
        0 <= k < ie.len() ==> names[(#[trigger] ie[k]).0 as int] == g.edges@[k].source@
            && names[ie[k].1 as int] == g.edges@[k].target@
}

/// A set of indices, given by flags, that no edge leaves.
spec fn closed(ie: Seq<(usize, usize)>, vis: Seq<bool>) -> bool {
    forall|a: int, b: int|
        0 <= a < vis.len() && vis[a] && #[trigger] ilinked(ie, a, b) ==> 0 <= b < vis.len()
            && vis[b]
}

proof fn lemma_ilinked_sym(ie: Seq<(usize, usize)>, a: int, b: int)
    requires
        ilinked(ie, a, b),
    ensures
        ilinked(ie, b, a),
{
    let k = choose|k: int| 0 <= k < ie.len() && #[trigger] ijoins(ie[k], a, b);
    assert(ijoins(ie[k], b, a));
}

proof fn lemma_ilinked_below(ie: Seq<(usize, usize)>, n: int, a: int, b: int)
    requires
        ilinked(ie, a, b),
        edges_below(ie, n),
    ensures
        0 <= a < n,
        0 <= b < n,
{
    let k = choose|k: int| 0 <= k < ie.len() && #[trigger] ijoins(ie[k], a, b);
    assert(ie[k].0 < n && ie[k].1 < n);
}

/// Every index of a walk that starts in range is in range.
proof fn lemma_iwalk_below(ie: Seq<(usize, usize)>, n: int, w: Seq<int>)
    requires
        iwalk(ie, w),
        edges_below(ie, n),
        0 <= w[0] < n,
    ensures
        forall|i: int| 0 <= i < w.len() ==> 0 <= #[trigger] w[i] < n,
{
    assert forall|i: int| 0 <= i < w.len() implies 0 <= #[trigger] w[i] < n by {
        if i > 0 {
            assert(istep(ie, w, i - 1));
            lemma_ilinked_below(ie, n, w[i - 1], w[i]);
        }
    }
}

proof fn lemma_iwalk_single(ie: Seq<(usize, usize)>, a: int)
    ensures
        iwalk(ie, seq![a]),
        iconn(ie, a, a),
{
    let w = seq![a];
    assert(iwalk(ie, w));
    assert(w.last() == a);
}

proof fn lemma_iwalk_push(ie: Seq<(usize, usize)>, w: Seq<int>, b: int)
    requires
        iwalk(ie, w),
        ilinked(ie, w.last(), b),
    ensures
        iwalk(ie, w.push(b)),
{
    let w2 = w.push(b);
    assert forall|i: int| 0 <= i < w2.len() - 1 implies #[trigger] istep(ie, w2, i) by {
        if i < w.len() - 1 {
            assert(istep(ie, w, i));
        }
    }
}

proof fn lemma_iconn_push(ie: Seq<(usize, usize)>, a: int, b: int, c: int)
    requires
        iconn(ie, a, b),
        ilinked(ie, b, c),
    ensures
        iconn(ie, a, c),
{
    let w = choose|w: Seq<int>| #[trigger] iwalk(ie, w) && w[0] == a && w.last() == b;
    lemma_iwalk_push(ie, w, c);
    assert(w.push(c).last() == c);
    assert(w.push(c)[0] == a);
}

proof fn lemma_iwalk_prefix(ie: Seq<(usize, usize)>, w: Seq<int>, j: int)
    requires
        iwalk(ie, w),
        0 <= j < w.len(),
    ensures
        iwalk(ie, w.take(j + 1)),
{
    let p = w.take(j + 1);
    assert forall|i: int| 0 <= i < p.len() - 1 implies #[trigger] istep(ie, p, i) by {
        assert(istep(ie, w, i));
    }
}

proof fn lemma_iwalk_reverse(ie: Seq<(usize, usize)>, w: Seq<int>)
    requires
        iwalk(ie, w),
    ensures
        iwalk(ie, w.reverse()),
{
    let r = w.reverse();
    let n = w.len();
    assert forall|i: int| 0 <= i < r.len() - 1 implies #[trigger] istep(ie, r, i) by {
        assert(istep(ie, w, n - 2 - i));
        lemma_ilinked_sym(ie, w[n - 2 - i], w[n - 1 - i]);
    }
}

proof fn lemma_iwalk_concat(ie: Seq<(usize, usize)>, w1: Seq<int>, w2: Seq<int>)
    requires
        iwalk(ie, w1),
        iwalk(ie, w2),
        w1.last() == w2[0],
    ensures
        iwalk(ie, w1 + w2.drop_first()),
    decreases w2.len(),
{
    if w2.len() == 1 {
        assert(w1 + w2.drop_first() =~= w1);
    } else {
        assert(istep(ie, w2, 0));
        lemma_iwalk_push(ie, w1, w2[1]);
        let w1b = w1.push(w2[1]);
        let w2b = w2.drop_first();
        assert forall|i: int| 0 <= i < w2b.len() - 1 implies #[trigger] istep(ie, w2b, i) by {
            assert(istep(ie, w2, i + 1));
        }
        lemma_iwalk_concat(ie, w1b, w2b);
        assert(w1b + w2b.drop_first() =~= w1 + w2.drop_first());
    }
}

proof fn lemma_iconn_trans(ie: Seq<(usize, usize)>, a: int, b: int, c: int)
    requires
        iconn(ie, a, b),
        iconn(ie, b, c),
    ensures
        iconn(ie, a, c),
{
    let w1 = choose|w: Seq<int>| #[trigger] iwalk(ie, w) && w[0] == a && w.last() == b;
    let w2 = choose|w: Seq<int>| #[trigger] iwalk(ie, w) && w[0] == b && w.last() == c;
    lemma_iwalk_concat(ie, w1, w2);
    let w = w1 + w2.drop_first();
    assert(w[0] == a);
    if w2.len() == 1 {
        assert(w.last() == c);
    } else {
        assert(w.last() == w2.last());
    }
}

/// A walk that starts inside a closed set stays inside it.
proof fn lemma_closed_walk(ie: Seq<(usize, usize)>, vis: Seq<bool>, w: Seq<int>)
    requires
        closed(ie, vis),
        iwalk(ie, w),
        0 <= w[0] < vis.len(),
        vis[w[0]],
    ensures
        0 <= w.last() < vis.len(),
        vis[w.last()],
    decreases w.len(),
{
    if w.len() > 1 {
        let p = w.drop_last();
        assert forall|i: int| 0 <= i < p.len() - 1 implies #[trigger] istep(ie, p, i) by {
            assert(istep(ie, w, i));
        }
        lemma_closed_walk(ie, vis, p);
        assert(istep(ie, w, w.len() - 2));
    }
}

proof fn lemma_closed_conn(ie: Seq<(usize, usize)>, vis: Seq<bool>, a: int, b: int)
    requires
        closed(ie, vis),
        iconn(ie, a, b),
        0 <= a < vis.len(),
        vis[a],
    ensures
        0 <= b < vis.len(),
        vis[b],
{
    let w = choose|w: Seq<int>| #[trigger] iwalk(ie, w) && w[0] == a && w.last() == b;
    lemma_closed_walk(ie, vis, w);
}

// ----------------------------------------------------------------------------
// Between the two views.
// ----------------------------------------------------------------------------

proof fn lemma_linked_to_index(
    g: ObsidianGraph,
    names: Seq<Seq<char>>,
    ie: Seq<(usize, usize)>,
    a: int,
    b: int,
)
    requires
        represents(g, names, ie),
        0 <= a < names.len(),
        0 <= b < names.len(),
    ensures
        ilinked(ie, a, b) <==> linked(g, names[a], names[b]),
{
    if ilinked(ie, a, b) {
        let k = choose|k: int| 0 <= k < ie.len() && #[trigger] ijoins(ie[k], a, b);
        assert(edge_joins(g.edges@[k], names[a], names[b]));
    }
    if linked(g, names[a], names[b]) {
        let k = choose|k: int|
            0 <= k < g.edges@.len() && #[trigger] edge_joins(g.edges@[k], names[a], names[b]);
        let e = ie[k];
        assert(e.0 < names.len() && e.1 < names.len());
        if g.edges@[k].source@ == names[a] && g.edges@[k].target@ == names[b] {
            assert(names[e.0 as int] == names[a]);
            assert(names[e.1 as int] == names[b]);
        } else {
            assert(names[e.0 as int] == names[b]);
            assert(names[e.1 as int] == names[a]);
        }
        assert(ijoins(ie[k], a, b));
    }
}

/// The ends of a link are names of the table.
proof fn lemma_linked_named(
    g: ObsidianGraph,
    names: Seq<Seq<char>>,
    ie: Seq<(usize, usize)>,
    x: Seq<char>,
    y: Seq<char>,
)
    requires
        represents(g, names, ie),
        linked(g, x, y),
    ensures
        names.contains(x),
        names.contains(y),
{
    let k = choose|k: int| 0 <= k < g.edges@.len() && #[trigger] edge_joins(g.edges@[k], x, y);
    let e = ie[k];
    assert(e.0 < names.len() && e.1 < names.len());
    assert(names[e.0 as int] == g.edges@[k].source@);
    assert(names[e.1 as int] == g.edges@[k].target@);
}

/// Read through the table, the links meet where the index edges do.
proof fn lemma_slot_named(
    g: ObsidianGraph,
    names: Seq<Seq<char>>,
    ie: Seq<(usize, usize)>,
    a: int,
    b: int,
    k: int,
)
    requires
        represents(g, names, ie),
        0 <= a < names.len(),
        0 <= b < names.len(),
        0 <= k,
    ensures
        link_slot(g, names[a], names[b], k) == slot_from(ie, a, b, k),
    decreases ie.len() - k,
{
    if k < ie.len() {
        let e = ie[k];
        assert(e.0 < names.len() && e.1 < names.len());
        assert(names[e.0 as int] == g.edges@[k].source@);
        assert(names[e.1 as int] == g.edges@[k].target@);
        assert((e.0 == a) == (names[e.0 as int] == names[a]));
        assert((e.1 == a) == (names[e.1 as int] == names[a]));
        assert((e.0 == b) == (names[e.0 as int] == names[b]));
        assert((e.1 == b) == (names[e.1 as int] == names[b]));
        lemma_slot_named(g, names, ie, a, b, k + 1);
    }
}

/// Read through the table, an index walk has the code of its names.
proof fn lemma_code_named(g: ObsidianGraph, names: Seq<Seq<char>>, ie: Seq<(usize, usize)>, w: Seq<int>)
    requires
        represents(g, names, ie),
        w.len() >= 1,
        forall|i: int| 0 <= i < w.len() ==> 0 <= #[trigger] w[i] < names.len(),
    ensures
        walk_code(g, names_at(names, w)) == icode(ie, w),
{
    assert forall|i: int| 0 <= i < w.len() - 1 implies #[trigger] walk_code(g, names_at(names, w))[i] == icode(ie, w)[i] by {
        lemma_slot_named(g, names, ie, w[i], w[i + 1], 0);
    }
    assert(walk_code(g, names_at(names, w)) =~= icode(ie, w));
}

/// The positions of the names of `sw` in the table.
spec fn indices_of(names: Seq<Seq<char>>, sw: Seq<Seq<char>>) -> Seq<int> {
    sw.map_values(|x: Seq<char>| index_of(names, x))
}

/// The names at the positions of `w`.
spec fn names_at(names: Seq<Seq<char>>, w: Seq<int>) -> Seq<Seq<char>> {
    w.map_values(|i: int| names[i])
}

/// The position of `x` in a table of distinct names.
spec fn index_of(names: Seq<Seq<char>>, x: Seq<char>) -> int {
    choose|i: int| 0 <= i < names.len() && names[i] == x
}

proof fn lemma_index_of(names: Seq<Seq<char>>, x: Seq<char>)
    requires
        names.no_duplicates(),
        names.contains(x),
    ensures
        0 <= index_of(names, x) < names.len(),
        names[index_of(names, x)] == x,
        forall|j: int| 0 <= j < names.len() && names[j] == x ==> j == index_of(names, x),
{
}

proof fn lemma_conn_to_index(
    g: ObsidianGraph,
    names: Seq<Seq<char>>,
    ie: Seq<(usize, usize)>,
    a: int,
    b: int,
)
    requires
        represents(g, names, ie),
        0 <= a < names.len(),
        0 <= b < names.len(),
    ensures
        iconn(ie, a, b) <==> connected(g, names[a], names[b]),
{
    if iconn(ie, a, b) {
        let w = choose|w: Seq<int>| #[trigger] iwalk(ie, w) && w[0] == a && w.last() == b;
        lemma_iwalk_below(ie, names.len() as int, w);
        lemma_iwalk_named(g, names, ie, w);
        let sw = names_at(names, w);
        assert(sw[0] == names[a]);
        assert(sw.last() == names[b]);
    }
    if connected(g, names[a], names[b]) {
        let sw = choose|w: Seq<Seq<char>>| #[trigger] is_walk(g, w) && w[0] == names[a] && w.last() == names[b];
        if sw.len() == 1 {
            assert(names[a] == names[b]);
            assert(a == b);
            lemma_iwalk_single(ie, a);
        } else {
            lemma_walk_indexed(g, names, ie, sw);
            let w = indices_of(names, sw);
            lemma_index_of(names, names[a]);
            lemma_index_of(names, names[b]);
            assert(w[0] == a);
            assert(w.last() == b);
        }
    }
}

/// An index walk, read through the table, is a walk of the graph.
proof fn lemma_iwalk_named(
    g: ObsidianGraph,
    names: Seq<Seq<char>>,
    ie: Seq<(usize, usize)>,
    w: Seq<int>,
)
    requires
        represents(g, names, ie),
        iwalk(ie, w),
        forall|i: int| 0 <= i < w.len() ==> 0 <= #[trigger] w[i] < names.len(),
    ensures
        is_walk(g, names_at(names, w)),
{
    let sw = names_at(names, w);
    assert forall|i: int| 0 <= i < sw.len() - 1 implies #[trigger] walk_step(g, sw, i) by {
        assert(istep(ie, w, i));
        lemma_linked_to_index(g, names, ie, w[i], w[i + 1]);
    }
}

/// A walk of two or more names, read as indices, is an index walk.
proof fn lemma_walk_indexed(
    g: ObsidianGraph,
    names: Seq<Seq<char>>,
    ie: Seq<(usize, usize)>,
    sw: Seq<Seq<char>>,
)
    requires
        represents(g, names, ie),
        is_walk(g, sw),
        sw.len() >= 2,
    ensures
        forall|i: int| 0 <= i < sw.len() ==> #[trigger] names.contains(sw[i]),
        iwalk(ie, indices_of(names, sw)),
        forall|i: int|
            0 <= i < sw.len() ==> 0 <= #[trigger] indices_of(names, sw)[i]
                < names.len(),
{
    let w = indices_of(names, sw);
    assert forall|i: int| 0 <= i < sw.len() implies #[trigger] names.contains(sw[i]) by {
        if i < sw.len() - 1 {
            assert(walk_step(g, sw, i));
            lemma_linked_named(g, names, ie, sw[i], sw[i + 1]);
        } else {
            assert(walk_step(g, sw, i - 1));
            lemma_linked_named(g, names, ie, sw[i - 1], sw[i]);
        }
    }
    assert forall|i: int| 0 <= i < sw.len() implies 0 <= #[trigger] w[i] < names.len() by {
        assert(names.contains(sw[i]));
        lemma_index_of(names, sw[i]);
    }
    assert forall|i: int| 0 <= i < w.len() - 1 implies #[trigger] istep(ie, w, i) by {
        assert(names.contains(sw[i]));
        assert(names.contains(sw[i + 1]));
        lemma_index_of(names, sw[i]);
        lemma_index_of(names, sw[i + 1]);
        assert(walk_step(g, sw, i));
        lemma_linked_to_index(g, names, ie, w[i], w[i + 1]);
    }
}

} // verus!

verus! {

// ----------------------------------------------------------------------------
// Counting distinct indices.
// ----------------------------------------------------------------------------

spec fn as_ints(s: Seq<usize>) -> Seq<int> {
    s.map_values(|x: usize| x as int)
}

proof fn lemma_distinct_below(s: Seq<usize>, n: int)
    requires
        s.no_duplicates(),
        forall|i: int| 0 <= i < s.len() ==> #[trigger] s[i] < n,
        n >= 0,
    ensures
        s.len() <= n,
{
    let t = as_ints(s);
    assert(t.no_duplicates()) by {
        assert forall|i: int, j: int| 0 <= i < t.len() && 0 <= j < t.len() && i != j implies t[i]
            != t[j] by {
            assert(s[i] != s[j]);
        }
    }
    t.unique_seq_to_set();
    assert(t.to_set().subset_of(vstd::set_lib::set_int_range(0, n))) by {
        assert forall|x: int| t.to_set().contains(x) implies vstd::set_lib::set_int_range(
            0,
            n,
        ).contains(x) by {
            let i = choose|i: int| 0 <= i < t.len() && t[i] == x;
            assert(s[i] < n);
        }
    }
    vstd::set_lib::lemma_int_range(0, n);
    vstd::set_lib::lemma_len_subset(t.to_set(), vstd::set_lib::set_int_range(0, n));
}

// ----------------------------------------------------------------------------
// Interning names.
// ----------------------------------------------------------------------------

/// The position of the name `s` in `names`, if it is there.
fn find_name(names: &Vec<String>, s: &String) -> (r: Option<usize>)
    ensures
        match r {
            Some(i) => i < names.len() && views(names@)[i as int] == s@,
            None => !views(names@).contains(s@),
        },
{
    let mut i: usize = 0;
    while i < names.len()
        invariant
            i <= names.len(),
            forall|j: int| 0 <= j < i ==> views(names@)[j] != s@,
        decreases names.len() - i,
    {
        if names[i] == *s {
            return Some(i);
        }
        i += 1;
    }
    None
}

/// The position of the name `s` in `names`, which gets it appended if it is not there.
fn add_name(names: &mut Vec<String>, s: &String) -> (i: usize)
    requires
        views(old(names)@).no_duplicates(),
    ensures
        views(final(names)@).no_duplicates(),
        views(final(names)@) == (if views(old(names)@).contains(s@) {
            views(old(names)@)
        } else {
            views(old(names)@).push(s@)
        }),
        i < final(names).len(),
        views(final(names)@)[i as int] == s@,
{
    match find_name(names, s) {
        Some(i) => i,
        None => {
            let i = names.len();
            names.push(s.clone());
            proof {
                assert(views(names@) =~= views(old(names)@).push(s@));
            }
            i
        },
    }
}

/// The graph, with each name replaced by its position in a table of distinct names.
struct Interned {
    names: Vec<String>,
    edges: Vec<(usize, usize)>,
    node_index: Vec<usize>,
}

spec fn interned_ok(g: ObsidianGraph, it: Interned) -> bool {
    &&& represents(g, views(it.names@), it.edges@)
    &&& it.node_index.len() == g.nodes.len()
    &&& forall|k: int|
        0 <= k < g.nodes.len() ==> (#[trigger] it.node_index@[k]) < it.names.len() && views(
            it.names@,
        )[it.node_index@[k] as int] == g.nodes@[k].id@
}

fn intern(g: &ObsidianGraph) -> (it: Interned)
    ensures
        interned_ok(*g, it),
{
    let mut names: Vec<String> = Vec::new();
    let mut node_index: Vec<usize> = Vec::new();
    let mut k: usize = 0;
    proof {
        assert(views(names@) =~= Seq::<Seq<char>>::empty());
    }
    while k < g.nodes.len()
        invariant
            k <= g.nodes.len(),
            views(names@).no_duplicates(),
            node_index.len() == k,
            forall|j: int|
                0 <= j < k ==> (#[trigger] node_index@[j]) < names.len() && views(
                    names@,
                )[node_index@[j] as int] == g.nodes@[j].id@,
        decreases g.nodes.len() - k,
    {
        let i = add_name(&mut names, &g.nodes[k].id);
        node_index.push(i);
        k += 1;
    }
    let mut edges: Vec<(usize, usize)> = Vec::new();
    let mut e: usize = 0;
    while e < g.edges.len()
        invariant
            e <= g.edges.len(),
            views(names@).no_duplicates(),
            node_index.len() == g.nodes.len(),
            forall|j: int|
                0 <= j < g.nodes.len() ==> (#[trigger] node_index@[j]) < names.len() && views(
                    names@,
                )[node_index@[j] as int] == g.nodes@[j].id@,
            edges.len() == e,
            edges_below(edges@, names.len() as int),
            forall|j: int|
                0 <= j < e ==> views(names@)[(#[trigger] edges@[j]).0 as int]
                    == g.edges@[j].source@ && views(names@)[edges@[j].1 as int]
                    == g.edges@[j].target@,
        decreases g.edges.len() - e,
    {
        let a = add_name(&mut names, &g.edges[e].source);
        let b = add_name(&mut names, &g.edges[e].target);
        edges.push((a, b));
        e += 1;
    }
    Interned { names, edges, node_index }
}

/// The names at the given positions.
fn names_of(names: &Vec<String>, idx: &Vec<usize>) -> (r: Vec<String>)
    requires
        forall|i: int| 0 <= i < idx.len() ==> #[trigger] idx@[i] < names.len(),
    ensures
        views(r@) == names_at(views(names@), as_ints(idx@)),
{
    let mut r: Vec<String> = Vec::new();
    let mut i: usize = 0;
    while i < idx.len()
        invariant
            i <= idx.len(),
            forall|j: int| 0 <= j < idx.len() ==> #[trigger] idx@[j] < names.len(),
            views(r@) =~= names_at(views(names@), as_ints(idx@)).take(i as int),
        decreases idx.len() - i,
    {
        let s = names[idx[i]].clone();
        let ghost r0 = r@;
        r.push(s);
        proof {
            assert(views(r@) =~= views(r0).push(s@)) by {
                assert(views(r@).len() == views(r0).len() + 1);
            }
        }
        i += 1;
    }
    r
}

// ----------------------------------------------------------------------------
// Components.
// ----------------------------------------------------------------------------

/// The indices connected to `start`, found by a depth-first search; they get marked in
/// `visited`.
fn component(ie: &Vec<(usize, usize)>, visited: &mut Vec<bool>, start: usize) -> (comp: Vec<usize>)
    requires
        edges_below(ie@, old(visited).len() as int),
        start < old(visited).len(),
        !old(visited)@[start as int],
        closed(ie@, old(visited)@),
    ensures
        final(visited).len() == old(visited).len(),
        comp.len() > 0,
        comp@[0] == start,
        comp@.no_duplicates(),
        forall|i: int|
            0 <= i < comp.len() ==> (#[trigger] comp@[i]) < old(visited).len() && iconn(
                ie@,
                start as int,
                comp@[i] as int,
            ),
        forall|u: int|
            iconn(ie@, start as int, u) ==> exists|i: int|
                0 <= i < comp.len() && #[trigger] comp@[i] == u,
        forall|u: int|
            0 <= u < final(visited).len() ==> (#[trigger] final(visited)@[u] <==> (old(
                visited,
            )@[u] || iconn(ie@, start as int, u))),
{
    let ghost old_vis = visited@;
    let n = visited.len();
    let mut comp: Vec<usize> = Vec::new();
    let mut stack: Vec<usize> = Vec::new();
    visited.set(start, true);
    stack.push(start);
    proof {
        lemma_iwalk_single(ie@, start as int);
        assert(stack@[0] == start);
        assert forall|u: int| 0 <= u < n implies (#[trigger] visited@[u] <==> (old_vis[u]
            || comp@.contains(u as usize) || stack@.contains(u as usize))) by {
            if u == start as int {
                assert(stack@.contains(u as usize));
            }
        }
    }
    while stack.len() > 0
        invariant
            visited.len() == n,
            old_vis.len() == n,
            edges_below(ie@, n as int),
            start < n,
            closed(ie@, old_vis),
            !old_vis[start as int],
            comp@.no_duplicates(),
            stack@.no_duplicates(),
            forall|i: int, j: int|
                0 <= i < comp.len() && 0 <= j < stack.len() ==> comp@[i] != stack@[j],
            forall|i: int|
                0 <= i < comp.len() ==> (#[trigger] comp@[i]) < n && iconn(
                    ie@,
                    start as int,
                    comp@[i] as int,
                ) && !old_vis[comp@[i] as int],
            forall|i: int|
                0 <= i < stack.len() ==> (#[trigger] stack@[i]) < n && iconn(
                    ie@,
                    start as int,
                    stack@[i] as int,
                ) && !old_vis[stack@[i] as int],
            forall|u: int|
                0 <= u < n ==> (#[trigger] visited@[u] <==> (old_vis[u] || comp@.contains(
                    u as usize,
                ) || stack@.contains(u as usize))),
            forall|i: int, b: int|
                0 <= i < comp.len() && #[trigger] ilinked(ie@, comp@[i] as int, b) ==> 0 <= b < n
                    && visited@[b],
            comp.len() == 0 ==> stack@ == seq![start],
            comp.len() > 0 ==> comp@[0] == start,
            comp.len() + stack.len() <= n,
        decreases 2 * n - 2 * comp.len() - stack.len(),
    {
        let ghost stack0 = stack@;
        let x = stack.pop().unwrap();
        let ghost stack1 = stack@;
        let ghost comp0 = comp@;
        comp.push(x);
        proof {
            assert(comp@.last() == x);
            assert forall|u: int| 0 <= u < n implies (#[trigger] visited@[u] <==> (old_vis[u]
                || comp@.contains(u as usize) || stack@.contains(u as usize))) by {
                if stack0.contains(u as usize) {
                    let j = choose|j: int| 0 <= j < stack0.len() && stack0[j] == u as usize;
                    if j == stack0.len() - 1 {
                        assert(comp@[comp.len() - 1] == u as usize);
                    } else {
                        assert(stack@[j] == u as usize);
                    }
                }
                if comp0.contains(u as usize) {
                    let j = choose|j: int| 0 <= j < comp0.len() && comp0[j] == u as usize;
                    assert(comp@[j] == u as usize);
                }
                if comp@.contains(u as usize) {
                    let j = choose|j: int| 0 <= j < comp@.len() && comp@[j] == u as usize;
                    if j < comp.len() - 1 {
                        assert(comp0[j] == u as usize);
                    } else {
                        assert(stack0[stack0.len() - 1] == u as usize);
                    }
                }
                if stack@.contains(u as usize) {
                    let j = choose|j: int| 0 <= j < stack@.len() && stack@[j] == u as usize;
                    assert(stack0[j] == u as usize);
                }
            }
            assert forall|i: int, j: int|
                0 <= i < comp.len() && 0 <= j < stack.len() implies comp@[i] != stack@[j] by {
                if i < comp.len() - 1 {
                    assert(stack1[j] == stack0[j]);
                } else {
                    assert(stack0[stack0.len() - 1] == x);
                }
            }
        }
        let mut k: usize = 0;
        while k < ie.len()
            invariant
                visited.len() == n,
                old_vis.len() == n,
                edges_below(ie@, n as int),
                start < n,
                closed(ie@, old_vis),
                !old_vis[start as int],
                k <= ie.len(),
                comp.len() > 0,
                comp@.last() == x,
                comp@.no_duplicates(),
                stack@.no_duplicates(),
                forall|i: int, j: int|
                    0 <= i < comp.len() && 0 <= j < stack.len() ==> comp@[i] != stack@[j],
                forall|i: int|
                    0 <= i < comp.len() ==> (#[trigger] comp@[i]) < n && iconn(
                        ie@,
                        start as int,
                        comp@[i] as int,
                    ) && !old_vis[comp@[i] as int],
                forall|i: int|
                    0 <= i < stack.len() ==> (#[trigger] stack@[i]) < n && iconn(
                        ie@,
                        start as int,
                        stack@[i] as int,
                    ) && !old_vis[stack@[i] as int],
                forall|u: int|
                    0 <= u < n ==> (#[trigger] visited@[u] <==> (old_vis[u] || comp@.contains(
                        u as usize,
                    ) || stack@.contains(u as usize))),
                forall|i: int, b: int|
                    0 <= i < comp.len() - 1 && #[trigger] ilinked(ie@, comp@[i] as int, b) ==> 0
                        <= b < n && visited@[b],
                forall|j: int, b: int|
                    0 <= j < k && #[trigger] ijoins(ie@[j], x as int, b) ==> 0 <= b < n
                        && visited@[b],
                comp@[0] == start,
                comp.len() + stack.len() <= n,
                stack.len() >= stack1.len(),
            decreases ie.len() - k,
        {
            let (a, b) = ie[k];
            let mut m: usize = 0;
            while m < 2
                invariant
                    visited.len() == n,
                    old_vis.len() == n,
                    edges_below(ie@, n as int),
                    start < n,
                    closed(ie@, old_vis),
                    !old_vis[start as int],
                    k < ie.len(),
                    ie@[k as int] == (a, b),
                    m <= 2,
                    comp.len() > 0,
                    comp@.last() == x,
                    comp@.no_duplicates(),
                    stack@.no_duplicates(),
                    forall|i: int, j: int|
                        0 <= i < comp.len() && 0 <= j < stack.len() ==> comp@[i] != stack@[j],
                    forall|i: int|
                        0 <= i < comp.len() ==> (#[trigger] comp@[i]) < n && iconn(
                            ie@,
                            start as int,
                            comp@[i] as int,
                        ) && !old_vis[comp@[i] as int],
                    forall|i: int|
                        0 <= i < stack.len() ==> (#[trigger] stack@[i]) < n && iconn(
                            ie@,
                            start as int,
                            stack@[i] as int,
                        ) && !old_vis[stack@[i] as int],
                    forall|u: int|
                        0 <= u < n ==> (#[trigger] visited@[u] <==> (old_vis[u]
                            || comp@.contains(u as usize) || stack@.contains(u as usize))),
                    forall|i: int, b2: int|
                        0 <= i < comp.len() - 1 && #[trigger] ilinked(ie@, comp@[i] as int, b2)
                            ==> 0 <= b2 < n && visited@[b2],
                    forall|j: int, b2: int|
                        0 <= j < k && #[trigger] ijoins(ie@[j], x as int, b2) ==> 0 <= b2 < n
                            && visited@[b2],
                    m >= 1 && a == x ==> visited@[b as int],
                    m >= 2 && b == x ==> visited@[a as int],
                    comp@[0] == start,
                    comp.len() + stack.len() <= n,
                    stack.len() >= stack1.len(),
                decreases 2 - m,
            {
                let (here, there) = if m == 0 {
                    (a, b)
                } else {
                    (b, a)
                };
                if here == x && !visited[there] {
                    proof {
                        assert(ijoins(ie@[k as int], x as int, there as int));
                        assert(ilinked(ie@, x as int, there as int));
                        assert(comp@[comp.len() - 1] == x);
                        lemma_iconn_push(ie@, start as int, x as int, there as int);
                        if old_vis[there as int] {
                            lemma_ilinked_sym(ie@, x as int, there as int);
                        }
                        let cs = comp@ + stack@.push(there);
                        assert(forall|i: int| 0 <= i < cs.len() ==> #[trigger] cs[i] < n);
                        assert(cs.no_duplicates()) by {
                            assert forall|i: int, j: int|
                                0 <= i < cs.len() && 0 <= j < cs.len() && i != j implies cs[i]
                                != cs[j] by {
                                if i < comp.len() && j >= comp.len() && j < cs.len() - 1 {
                                    assert(cs[j] == stack@[j - comp.len()]);
                                } else if j < comp.len() && i >= comp.len() && i < cs.len() - 1 {
                                    assert(cs[i] == stack@[i - comp.len()]);
                                } else if i == cs.len() - 1 && j < comp.len() {
                                    assert(comp@.contains(cs[j]));
                                } else if j == cs.len() - 1 && i < comp.len() {
                                    assert(comp@.contains(cs[i]));
                                } else if i == cs.len() - 1 {
                                    assert(stack@.contains(cs[j]));
                                } else if j == cs.len() - 1 {
                                    assert(stack@.contains(cs[i]));
                                }
                            }
                        }
                        lemma_distinct_below(cs, n as int);
                    }
                    let ghost vis0 = visited@;
                    let ghost st0 = stack@;
                    visited.set(there, true);
                    stack.push(there);
                    proof {
                        assert forall|u: int| 0 <= u < n implies (#[trigger] visited@[u] <==> (
                        old_vis[u] || comp@.contains(u as usize) || stack@.contains(u as usize))) by {
                            if u == there as int {
                                assert(stack@[stack@.len() - 1] == there);
                            } else {
                                assert(visited@[u] == vis0[u]);
                                if st0.contains(u as usize) {
                                    let j = choose|j: int| 0 <= j < st0.len() && st0[j] == u as usize;
                                    assert(stack@[j] == u as usize);
                                }
                                if stack@.contains(u as usize) {
                                    let j = choose|j: int| 0 <= j < stack@.len() && stack@[j] == u as usize;
                                    assert(st0[j] == u as usize);
                                }
                            }
                        }
                    }
                }
                m += 1;
            }
            k += 1;
        }
        proof {
            assert forall|i: int, b: int|
                0 <= i < comp.len() && #[trigger] ilinked(ie@, comp@[i] as int, b) implies 0 <= b
                < n && visited@[b] by {
                if i == comp.len() - 1 {
                    let j = choose|j: int| 0 <= j < ie.len() && #[trigger] ijoins(ie@[j], x as int, b);
                }
            }
        }
    }
    proof {
        // The found nodes form a closed set that holds `start`.
        let inc = Seq::new(n as nat, |u: int| comp@.contains(u as usize));
        assert forall|a: int, b: int|
            0 <= a < inc.len() && inc[a] && #[trigger] ilinked(ie@, a, b) implies 0 <= b < inc.len()
            && inc[b] by {
            let i = choose|i: int| 0 <= i < comp.len() && comp@[i] == a as usize;
            assert(ilinked(ie@, comp@[i] as int, b));
            if old_vis[b] {
                lemma_ilinked_sym(ie@, a, b);
            }
        }
        assert(inc[start as int]);
        assert forall|u: int| iconn(ie@, start as int, u) implies exists|i: int|
            0 <= i < comp.len() && #[trigger] comp@[i] == u by {
            lemma_closed_conn(ie@, inc, start as int, u);
        }
        assert forall|u: int| 0 <= u < n implies (#[trigger] visited@[u] <==> (old_vis[u] || iconn(
            ie@,
            start as int,
            u,
        ))) by {
            if iconn(ie@, start as int, u) {
                lemma_closed_conn(ie@, inc, start as int, u);
            }
            if comp@.contains(u as usize) {
                let i = choose|i: int| 0 <= i < comp.len() && comp@[i] == u as usize;
                assert(iconn(ie@, start as int, comp@[i] as int));
            }
        }
    }
    comp
}

} // verus!

verus! {

// ----------------------------------------------------------------------------
// Communities.
// ----------------------------------------------------------------------------

/// Node `k` is the first node of its connected group: no earlier node is connected to it.
pub open spec fn first_of_component(g: ObsidianGraph, k: int) -> bool {
    &&& 0 <= k < g.nodes@.len()
    &&& forall|j: int| 0 <= j < k ==> !connected(g, node_ids(g)[j], node_ids(g)[k])
}

/// `c` lists, once each, exactly the ids connected to its first id.
pub open spec fn community_ok(g: ObsidianGraph, c: Community) -> bool {
    &&& c.nodes.len() > 0
    &&& views(c.nodes@).no_duplicates()
    &&& forall|x: Seq<char>| #[trigger]
        views(c.nodes@).contains(x) <==> connected(g, c.nodes@[0]@, x)
}

/// Some group of `res` lists `x`.
pub open spec fn in_some_community(res: Seq<Community>, x: Seq<char>) -> bool {
    exists|i: int| 0 <= i < res.len() && #[trigger] views(res[i].nodes@).contains(x)
}

/// Node `k` is the first node of its group and gives `c` its first id.
pub open spec fn led_by(g: ObsidianGraph, c: Community, k: int) -> bool {
    first_of_component(g, k) && node_ids(g)[k] == c.nodes@[0]@
}

/// Some node that is the first of its group gives `c` its first id.
pub open spec fn has_first_node(g: ObsidianGraph, c: Community) -> bool {
    exists|k: int| led_by(g, c, k)
}

proof fn lemma_connected_refl(g: ObsidianGraph, a: Seq<char>)
    ensures
        connected(g, a, a),
{
    let w = seq![a];
    assert(is_walk(g, w));
    assert(w.last() == a);
}

/// Whatever a name of the table is connected to is in the table.
proof fn lemma_connected_named(
    g: ObsidianGraph,
    names: Seq<Seq<char>>,
    ie: Seq<(usize, usize)>,
    a: Seq<char>,
    x: Seq<char>,
)
    requires
        represents(g, names, ie),
        names.contains(a),
        connected(g, a, x),
    ensures
        names.contains(x),
{
    let w = choose|w: Seq<Seq<char>>| #[trigger] is_walk(g, w) && w[0] == a && w.last() == x;
    if w.len() >= 2 {
        lemma_walk_indexed(g, names, ie, w);
        assert(names.contains(w[w.len() - 1]));
    }
}

/// Two first nodes of their groups with the same id are the same node.
proof fn lemma_first_unique(g: ObsidianGraph, a: int, b: int)
    requires
        first_of_component(g, a),
        first_of_component(g, b),
        node_ids(g)[a] == node_ids(g)[b],
    ensures
        a == b,
{
    lemma_connected_refl(g, node_ids(g)[a]);
}

/// Some of the first `k` nodes is connected to index `u`.
spec fn covered_by(ie: Seq<(usize, usize)>, nidx: Seq<usize>, k: int, u: int) -> bool {
    exists|j: int| 0 <= j < k && iconn(ie, nidx[j] as int, u)
}

/// Community `c`, found from node `lead`, is what the contract of `communities` asks.
#[verifier::opaque]
spec fn entry_ok(g: ObsidianGraph, c: Community, lead: int) -> bool {
    &&& first_of_component(g, lead)
    &&& c.nodes@.len() > 0
    &&& c.nodes@[0]@ == node_ids(g)[lead]
    &&& community_ok(g, c)
}

spec fn increasing(s: Seq<int>) -> bool {
    forall|i: int, j: int| 0 <= i < j < s.len() ==> s[i] < s[j]
}

/// The names of a component found by the search are the ids connected to its start.
proof fn lemma_component_names(
    g: ObsidianGraph,
    names: Seq<Seq<char>>,
    ie: Seq<(usize, usize)>,
    start: int,
    comp: Seq<usize>,
    vl: Seq<Seq<char>>,
)
    requires
        represents(g, names, ie),
        0 <= start < names.len(),
        comp.len() > 0,
        comp[0] == start,
        comp.no_duplicates(),
        forall|i: int|
            0 <= i < comp.len() ==> (#[trigger] comp[i]) < names.len() && iconn(
                ie,
                start,
                comp[i] as int,
            ),
        forall|u: int| iconn(ie, start, u) ==> exists|i: int| 0 <= i < comp.len() && #[trigger] comp[i] == u,
        vl == names_at(names, as_ints(comp)),
    ensures
        vl.len() > 0,
        vl[0] == names[start],
        vl.no_duplicates(),
        forall|x: Seq<char>| #[trigger] vl.contains(x) <==> connected(g, names[start], x),
{
    assert forall|i: int| 0 <= i < vl.len() implies #[trigger] vl[i] == names[comp[i] as int] by {}
    assert(vl[0] == names[start]);
    assert(vl.no_duplicates()) by {
        assert forall|i: int, j: int| 0 <= i < vl.len() && 0 <= j < vl.len() && i != j implies vl[i] != vl[j] by {
            assert(comp[i] != comp[j]);
            assert(vl[i] == names[comp[i] as int]);
            assert(vl[j] == names[comp[j] as int]);
        }
    }
    assert forall|x: Seq<char>| #[trigger] vl.contains(x) <==> connected(g, names[start], x) by {
        if vl.contains(x) {
            let i = choose|i: int| 0 <= i < vl.len() && vl[i] == x;
            lemma_conn_to_index(g, names, ie, start, comp[i] as int);
        }
        if connected(g, names[start], x) {
            assert(names.contains(names[start]));
            lemma_connected_named(g, names, ie, names[start], x);
            let b = index_of(names, x);
            lemma_index_of(names, x);
            lemma_conn_to_index(g, names, ie, start, b);
            let i = choose|i: int| 0 <= i < comp.len() && #[trigger] comp[i] == b;
            assert(vl[i] == x);
        }
    }
}

impl GraphAnalyzer {
    pub fn new(config: Config) -> (r: Self)
        ensures
            r.config() == config,
    {
        GraphAnalyzer { config }
    }

    /// The configuration the analyzer was made with.
    pub closed spec fn config(self) -> Config {
        self.config
    }

    /// The connected groups of the graph's notes. Each group lists, once each, the ids
    /// connected to its first id, which is the first node of the group in node order; the
    /// groups come in the order of their first nodes and are numbered from 0.
    #[verifier::rlimit(50)]
    #[verifier::spinoff_prover]
    pub fn communities(&self, graph: &ObsidianGraph) -> (res: Vec<Community>)
        ensures
            forall|i: int| 0 <= i < res.len() ==> (#[trigger] res@[i]).id == i,
            forall|i: int| 0 <= i < res.len() ==> #[trigger] community_ok(*graph, res@[i]),
            forall|i: int| 0 <= i < res.len() ==> #[trigger] has_first_node(*graph, res@[i]),
            forall|k: int|
                first_of_component(*graph, k) ==> exists|i: int|
                    0 <= i < res.len() && #[trigger] led_by(*graph, res@[i], k),
            forall|i: int, j: int, ki: int, kj: int|
                0 <= i < j < res.len() && #[trigger] led_by(*graph, res@[i], ki) && #[trigger] led_by(
                    *graph,
                    res@[j],
                    kj,
                ) ==> ki < kj,
            forall|k: int| 0 <= k < graph.nodes@.len() ==> #[trigger] in_some_community(res@, node_ids(*graph)[k]),
            forall|i: int, j: int, x: Seq<char>|
                0 <= i < res.len() && 0 <= j < res.len() && i != j && #[trigger] views(res@[i].nodes@).contains(x)
                    ==> !#[trigger] views(res@[j].nodes@).contains(x),
    {
        let it = intern(graph);
        let ghost g = *graph;
        let ghost names = views(it.names@);
        let ghost ie = it.edges@;
        let ghost nidx = it.node_index@;
        let n = it.names.len();
        let mut visited: Vec<bool> = vec![false; n];
        let mut res: Vec<Community> = Vec::new();
        let ghost mut leaders: Seq<int> = Seq::empty();
        let mut k: usize = 0;
        proof {
            assert forall|u: int| 0 <= u < n implies #[trigger] visited@[u] == covered_by(ie, nidx, 0, u) by {
                assert(cloned(false, visited@[u]));
            }
        }
        while k < graph.nodes.len()
            invariant
                g == *graph,
                names == views(it.names@),
                ie == it.edges@,
                nidx == it.node_index@,
                n == it.names.len(),
                interned_ok(g, it),
                k <= graph.nodes.len(),
                visited.len() == n,
                forall|u: int| 0 <= u < n ==> #[trigger] visited@[u] == covered_by(ie, nidx, k as int, u),
                res.len() == leaders.len(),
                forall|i: int|
                    0 <= i < res.len() ==> (#[trigger] res@[i]).id == i && entry_ok(g, res@[i], leaders[i]),
                increasing(leaders),
                forall|i: int| 0 <= i < leaders.len() ==> 0 <= #[trigger] leaders[i] < k,
                forall|j: int|
                    0 <= j < k && first_of_component(g, j) ==> exists|i: int|
                        0 <= i < leaders.len() && #[trigger] leaders[i] == j,
            decreases graph.nodes.len() - k,
        {
            let idx = it.node_index[k];
            proof {
                assert(nidx[k as int] == idx);
                assert(names[idx as int] == node_ids(g)[k as int]);
            }
            if !visited[idx] {
                proof {
                    assert forall|a: int, b: int|
                        0 <= a < visited@.len() && visited@[a] && #[trigger] ilinked(
                            ie,
                            a,
                            b,
                        ) implies 0 <= b < visited@.len() && visited@[b] by {
                        assert(covered_by(ie, nidx, k as int, a));
                        let j = choose|j: int| 0 <= j < k && iconn(ie, nidx[j] as int, a);
                        lemma_ilinked_below(ie, n as int, a, b);
                        lemma_iconn_push(ie, nidx[j] as int, a, b);
                    }
                }
                let ghost vis0 = visited@;
                let comp = component(&it.edges, &mut visited, idx);
                let list = names_of(&it.names, &comp);
                let c = Community { id: res.len(), nodes: list };
                proof {
                    assert(entry_ok(g, c, k as int)) by {
                        reveal(entry_ok);
                        lemma_component_names(g, names, ie, idx as int, comp@, views(list@));
                        assert forall|j: int| 0 <= j < k implies !connected(g, node_ids(g)[j], node_ids(g)[k as int]) by {
                            if connected(g, node_ids(g)[j], node_ids(g)[k as int]) {
                                assert(names[nidx[j] as int] == node_ids(g)[j]);
                                lemma_conn_to_index(g, names, ie, nidx[j] as int, idx as int);
                                assert(covered_by(ie, nidx, k as int, idx as int));
                                assert(vis0[idx as int]);
                            }
                        }
                    }
                    assert forall|u: int|
                        0 <= u < n implies #[trigger] visited@[u] == covered_by(ie, nidx, k + 1, u) by {
                        if visited@[u] && !vis0[u] {
                            assert(iconn(ie, nidx[k as int] as int, u));
                        }
                        if covered_by(ie, nidx, k + 1, u) {
                            let j = choose|j: int| 0 <= j < k + 1 && iconn(ie, nidx[j] as int, u);
                            if j < k {
                                assert(covered_by(ie, nidx, k as int, u));
                            }
                        }
                        if vis0[u] {
                            let j = choose|j: int| 0 <= j < k && iconn(ie, nidx[j] as int, u);
                        }
                    }
                }
                res.push(c);
                proof {
                    let ghost lead0 = leaders;
                    leaders = leaders.push(k as int);
                    assert(increasing(leaders)) by {
                        assert forall|i: int, j: int| 0 <= i < j < leaders.len() implies leaders[i] < leaders[j] by {
                            assert(leaders[i] == lead0[i]);
                            if j < leaders.len() - 1 {
                                assert(leaders[j] == lead0[j]);
                            }
                        }
                    }
                    assert forall|i: int| 0 <= i < leaders.len() implies 0 <= #[trigger] leaders[i] < k + 1 by {
                        if i < leaders.len() - 1 {
                            assert(leaders[i] == lead0[i]);
                        }
                    }
                    assert forall|j: int|
                        0 <= j < k + 1 && first_of_component(g, j) implies exists|i: int|
                            0 <= i < leaders.len() && #[trigger] leaders[i] == j by {
                        if j == k {
                            assert(leaders[leaders.len() - 1] == j);
                        } else {
                            let i = choose|i: int| 0 <= i < lead0.len() && #[trigger] lead0[i] == j;
                            assert(leaders[i] == j);
                        }
                    }
                }
            } else {
                proof {
                    assert(covered_by(ie, nidx, k as int, idx as int));
                    let j0 = choose|j: int| 0 <= j < k && iconn(ie, nidx[j] as int, idx as int);
                    assert(names[nidx[j0] as int] == node_ids(g)[j0]);
                    lemma_conn_to_index(g, names, ie, nidx[j0] as int, idx as int);
                    assert(!first_of_component(g, k as int));
                    assert forall|u: int|
                        0 <= u < n implies #[trigger] visited@[u] == covered_by(ie, nidx, k + 1, u) by {
                        if covered_by(ie, nidx, k + 1, u) {
                            let j = choose|j: int| 0 <= j < k + 1 && iconn(ie, nidx[j] as int, u);
                            if j == k {
                                lemma_iconn_trans(ie, nidx[j0] as int, idx as int, u);
                            }
                            assert(covered_by(ie, nidx, k as int, u));
                        }
                        if visited@[u] {
                            assert(covered_by(ie, nidx, k as int, u));
                            let j = choose|j: int| 0 <= j < k && iconn(ie, nidx[j] as int, u);
                            assert(covered_by(ie, nidx, k + 1, u));
                        }
                    }
                }
            }
            k += 1;
        }
        proof {
            lemma_communities_found(g, res@, leaders);
            lemma_communities_cover(g, res@, leaders);
            lemma_communities_ordered(g, res@, leaders);
            lemma_communities_partition(g, res@);
        }
        res
    }
}

proof fn lemma_linked_sym(g: ObsidianGraph, a: Seq<char>, b: Seq<char>)
    requires
        linked(g, a, b),
    ensures
        linked(g, b, a),
{
    let k = choose|k: int| 0 <= k < g.edges@.len() && #[trigger] edge_joins(g.edges@[k], a, b);
    assert(edge_joins(g.edges@[k], b, a));
}

proof fn lemma_walk_reverse(g: ObsidianGraph, w: Seq<Seq<char>>)
    requires
        is_walk(g, w),
    ensures
        is_walk(g, w.reverse()),
{
    let r = w.reverse();
    assert forall|i: int| 0 <= i < r.len() - 1 implies #[trigger] walk_step(g, r, i) by {
        let j = w.len() - 2 - i;
        assert(walk_step(g, w, j));
        assert(r[i] == w[j + 1]);
        assert(r[i + 1] == w[j]);
        lemma_linked_sym(g, w[j], w[j + 1]);
    }
}

proof fn lemma_walk_concat(g: ObsidianGraph, w1: Seq<Seq<char>>, w2: Seq<Seq<char>>)
    requires
        is_walk(g, w1),
        is_walk(g, w2),
        w1.last() == w2[0],
    ensures
        is_walk(g, w1 + w2.drop_first()),
{
    let w = w1 + w2.drop_first();
    assert forall|i: int| 0 <= i < w.len() - 1 implies #[trigger] walk_step(g, w, i) by {
        if i < w1.len() - 1 {
            assert(walk_step(g, w1, i));
        } else {
            let j = i - (w1.len() - 1);
            assert(walk_step(g, w2, j));
            assert(w[i] == w2[j]);
            assert(w[i + 1] == w2[j + 1]);
        }
    }
}

/// Being connected is symmetric.
pub proof fn lemma_connected_sym(g: ObsidianGraph, a: Seq<char>, b: Seq<char>)
    requires
        connected(g, a, b),
    ensures
        connected(g, b, a),
{
    let w = choose|w: Seq<Seq<char>>| #[trigger] is_walk(g, w) && w[0] == a && w.last() == b;
    lemma_walk_reverse(g, w);
    assert(w.reverse()[0] == b);
    assert(w.reverse().last() == a);
}

/// Being connected is transitive.
pub proof fn lemma_connected_trans(g: ObsidianGraph, a: Seq<char>, b: Seq<char>, c: Seq<char>)
    requires
        connected(g, a, b),
        connected(g, b, c),
    ensures
        connected(g, a, c),
{
    let w1 = choose|w: Seq<Seq<char>>| #[trigger] is_walk(g, w) && w[0] == a && w.last() == b;
    let w2 = choose|w: Seq<Seq<char>>| #[trigger] is_walk(g, w) && w[0] == b && w.last() == c;
    lemma_walk_concat(g, w1, w2);
    let w = w1 + w2.drop_first();
    assert(w[0] == a);
    if w2.len() == 1 {
        assert(w =~= w1);
    } else {
        assert(w.last() == w2.last());
    }
}

/// The first node connected to node `k`, searching from `j` on, is the first of its group.
proof fn lemma_first_leader(g: ObsidianGraph, k: int, j: int) -> (r: int)
    requires
        0 <= j <= k < g.nodes@.len(),
        forall|i: int| 0 <= i < j ==> !connected(g, node_ids(g)[i], node_ids(g)[k]),
    ensures
        0 <= r <= k,
        first_of_component(g, r),
        connected(g, node_ids(g)[r], node_ids(g)[k]),
    decreases k - j,
{
    if connected(g, node_ids(g)[j], node_ids(g)[k]) {
        assert forall|i: int| 0 <= i < j implies !connected(g, node_ids(g)[i], node_ids(g)[j]) by {
            if connected(g, node_ids(g)[i], node_ids(g)[j]) {
                lemma_connected_trans(g, node_ids(g)[i], node_ids(g)[j], node_ids(g)[k]);
            }
        }
        j
    } else {
        lemma_connected_refl(g, node_ids(g)[k]);
        lemma_first_leader(g, k, j + 1)
    }
}

/// Groups that meet the contract of `communities` split the graph's notes: each note lies
/// in one of them, and no id lies in two.
proof fn lemma_communities_partition(g: ObsidianGraph, res: Seq<Community>)
    requires
        forall|i: int| 0 <= i < res.len() ==> #[trigger] community_ok(g, res[i]),
        forall|i: int| 0 <= i < res.len() ==> #[trigger] has_first_node(g, res[i]),
        forall|k: int|
            first_of_component(g, k) ==> exists|i: int| 0 <= i < res.len() && #[trigger] led_by(g, res[i], k),
        forall|i: int, j: int, ki: int, kj: int|
            0 <= i < j < res.len() && #[trigger] led_by(g, res[i], ki) && #[trigger] led_by(g, res[j], kj) ==> ki < kj,
    ensures
        forall|k: int| 0 <= k < g.nodes@.len() ==> #[trigger] in_some_community(res, node_ids(g)[k]),
        forall|i: int, j: int, x: Seq<char>|
            0 <= i < res.len() && 0 <= j < res.len() && i != j && #[trigger] views(res[i].nodes@).contains(x)
                ==> !#[trigger] views(res[j].nodes@).contains(x),
{
    assert forall|k: int| 0 <= k < g.nodes@.len() implies #[trigger] in_some_community(res, node_ids(g)[k]) by {
        let l = lemma_first_leader(g, k, 0);
        let i = choose|i: int| 0 <= i < res.len() && #[trigger] led_by(g, res[i], l);
        assert(community_ok(g, res[i]));
        assert(led_by(g, res[i], l));
        assert(res[i].nodes@[0]@ == node_ids(g)[l]);
        assert(connected(g, res[i].nodes@[0]@, node_ids(g)[k]));
        assert(views(res[i].nodes@).contains(node_ids(g)[k]));
    }
    assert forall|i: int, j: int, x: Seq<char>|
        0 <= i < res.len() && 0 <= j < res.len() && i != j && #[trigger] views(res[i].nodes@).contains(x)
            implies !#[trigger] views(res[j].nodes@).contains(x) by {
        if views(res[j].nodes@).contains(x) {
            assert(community_ok(g, res[i]));
            assert(community_ok(g, res[j]));
            assert(has_first_node(g, res[i]));
            assert(has_first_node(g, res[j]));
            let ki = choose|k: int| led_by(g, res[i], k);
            let kj = choose|k: int| led_by(g, res[j], k);
            let a = node_ids(g)[ki];
            let b = node_ids(g)[kj];
            assert(connected(g, a, x));
            assert(connected(g, b, x));
            lemma_connected_sym(g, b, x);
            lemma_connected_trans(g, a, x, b);
            lemma_connected_sym(g, a, b);
            if i < j {
                assert(ki < kj);
            } else {
                assert(kj < ki);
            }
        }
    }
}

proof fn lemma_communities_found(g: ObsidianGraph, res: Seq<Community>, leaders: Seq<int>)
    requires
        res.len() == leaders.len(),
        forall|i: int| 0 <= i < res.len() ==> (#[trigger] res[i]).id == i && entry_ok(g, res[i], leaders[i]),
    ensures
        forall|i: int| 0 <= i < res.len() ==> (#[trigger] res[i]).id == i,
        forall|i: int| 0 <= i < res.len() ==> #[trigger] community_ok(g, res[i]),
        forall|i: int| 0 <= i < res.len() ==> #[trigger] has_first_node(g, res[i]),
{
    reveal(entry_ok);
    assert forall|i: int| 0 <= i < res.len() implies #[trigger] has_first_node(g, res[i]) by {
        assert(entry_ok(g, res[i], leaders[i]));
        assert(led_by(g, res[i], leaders[i]));
    }
    assert forall|i: int| 0 <= i < res.len() implies #[trigger] community_ok(g, res[i]) by {
        assert(entry_ok(g, res[i], leaders[i]));
    }
}

proof fn lemma_communities_cover(g: ObsidianGraph, res: Seq<Community>, leaders: Seq<int>)
    requires
        res.len() == leaders.len(),
        forall|i: int| 0 <= i < res.len() ==> (#[trigger] res[i]).id == i && entry_ok(g, res[i], leaders[i]),
        forall|j: int|
            0 <= j < g.nodes@.len() && first_of_component(g, j) ==> exists|i: int|
                0 <= i < leaders.len() && #[trigger] leaders[i] == j,
    ensures
        forall|k: int|
            first_of_component(g, k) ==> exists|i: int|
                0 <= i < res.len() && #[trigger] led_by(g, res[i], k),
{
    assert forall|kk: int|
        first_of_component(g, kk) implies exists|i: int|
            0 <= i < res.len() && #[trigger] led_by(g, res[i], kk) by {
        let i = choose|i: int| 0 <= i < leaders.len() && #[trigger] leaders[i] == kk;
        assert(entry_ok(g, res[i], leaders[i]));
        reveal(entry_ok);
        assert(led_by(g, res[i], kk));
    }
}

proof fn lemma_communities_ordered(g: ObsidianGraph, res: Seq<Community>, leaders: Seq<int>)
    requires
        res.len() == leaders.len(),
        forall|i: int| 0 <= i < res.len() ==> (#[trigger] res[i]).id == i && entry_ok(g, res[i], leaders[i]),
        increasing(leaders),
    ensures
        forall|i: int, j: int, ki: int, kj: int|
            0 <= i < j < res.len() && #[trigger] led_by(g, res[i], ki) && #[trigger] led_by(
                g,
                res[j],
                kj,
            ) ==> ki < kj,
{
    assert forall|i: int, j: int, ki: int, kj: int|
        0 <= i < j < res.len() && #[trigger] led_by(g, res[i], ki) && #[trigger] led_by(
            g,
            res[j],
            kj,
        ) implies ki < kj by {
        assert(entry_ok(g, res[i], leaders[i]));
        assert(entry_ok(g, res[j], leaders[j]));
        reveal(entry_ok);
        lemma_first_unique(g, ki, leaders[i]);
        lemma_first_unique(g, kj, leaders[j]);
    }
}

} // verus!

verus! {

// ----------------------------------------------------------------------------
// Shortest paths.
// ----------------------------------------------------------------------------

/// No walk from `s` to `v` has fewer than `d` steps.
spec fn lower_ok(ie: Seq<(usize, usize)>, s: int, v: int, d: int) -> bool {
    forall|w: Seq<int>| #[trigger] iwalk(ie, w) && w[0] == s && w.last() == v ==> d <= w.len() - 1
}

/// `v` was reached from its parent, one step further than it.
spec fn parent_ok(
    ie: Seq<(usize, usize)>,
    n: int,
    vis: Seq<bool>,
    dist: Seq<usize>,
    parent: Seq<usize>,
    v: int,
) -> bool {
    &&& parent[v] < n
    &&& vis[parent[v] as int]
    &&& dist[v] == dist[parent[v] as int] + 1
    &&& ilinked(ie, parent[v] as int, v)
}

/// The state of the breadth-first search from `s`: `q` holds, in the order of their
/// discovery, the indices found so far, and its first `head` ones have had their links
/// followed.
spec fn bfs_ok(
    ie: Seq<(usize, usize)>,
    n: int,
    s: int,
    vis: Seq<bool>,
    dist: Seq<usize>,
    parent: Seq<usize>,
    q: Seq<usize>,
    head: int,
) -> bool {
    &&& vis.len() == n
    &&& dist.len() == n
    &&& parent.len() == n
    &&& edges_below(ie, n)
    &&& 0 <= s < n
    &&& n <= usize::MAX
    &&& q.len() >= 1
    &&& q[0] == s
    &&& 0 <= head <= q.len()
    &&& q.len() <= n
    &&& q.no_duplicates()
    &&& forall|i: int| 0 <= i < q.len() ==> (#[trigger] q[i]) < n && dist[q[i] as int] <= i
    &&& forall|u: int| 0 <= u < n ==> (#[trigger] vis[u] <==> q.contains(u as usize))
    &&& dist[s] == 0
    &&& forall|i: int, j: int|
        0 <= i < j < q.len() ==> #[trigger] dist[q[i] as int] <= #[trigger] dist[q[j] as int]
    &&& head < q.len() ==> dist[q.last() as int] <= dist[q[head] as int] + 1
    &&& forall|i: int| 1 <= i < q.len() ==> parent_ok(ie, n, vis, dist, parent, #[trigger] q[i] as int)
    &&& forall|i: int| 0 <= i < q.len() ==> lower_ok(ie, s, #[trigger] q[i] as int, dist[q[i] as int] as int)
    &&& forall|i: int, b: int|
        0 <= i < head && #[trigger] ilinked(ie, q[i] as int, b) ==> 0 <= b < n && vis[b]
}

/// `x` is among the first `head` indices of `q`.
spec fn done(q: Seq<usize>, head: int, x: int) -> bool {
    exists|m: int| 0 <= m < head && q[m] == x
}

/// The first position of `w`, from `j` on, whose index is not among the first `head` of `q`.
proof fn lemma_first_undone(q: Seq<usize>, head: int, w: Seq<int>, j: int) -> (r: int)
    requires
        0 <= j < w.len(),
        forall|i: int| 0 <= i < j ==> done(q, head, #[trigger] w[i]),
        !done(q, head, w.last()),
    ensures
        j <= r < w.len(),
        !done(q, head, w[r]),
        forall|i: int| 0 <= i < r ==> done(q, head, #[trigger] w[i]),
    decreases w.len() - j,
{
    if !done(q, head, w[j]) {
        j
    } else {
        lemma_first_undone(q, head, w, j + 1)
    }
}

/// A node not yet found lies at least one step beyond the node being expanded.
#[verifier::rlimit(40)]
#[verifier::spinoff_prover]
proof fn lemma_bfs_lower(
    ie: Seq<(usize, usize)>,
    n: int,
    s: int,
    vis: Seq<bool>,
    dist: Seq<usize>,
    parent: Seq<usize>,
    q: Seq<usize>,
    head: int,
    w: Seq<int>,
    u: int,
)
    requires
        bfs_ok(ie, n, s, vis, dist, parent, q, head),
        head < q.len(),
        iwalk(ie, w),
        w[0] == s,
        w.last() == u,
        0 <= u < n,
        !vis[u],
    ensures
        dist[q[head] as int] + 1 <= w.len() - 1,
{
    assert(!q.contains(u as usize));
    if done(q, head, w.last()) {
        let m = choose|m: int| 0 <= m < head && q[m] == w.last();
        assert(q[m] == u as usize);
    }
    let r = lemma_first_undone(q, head, w, 0);
    assert(vis[s]) by {
        assert(q[0] == s as usize);
    }
    if r == 0 {
        if head > 0 {
            assert(q[0] == w[0]);
        }
        assert(w.len() >= 2);
    } else {
        assert(done(q, head, w[r - 1]));
        let m0 = choose|m: int| 0 <= m < head && q[m] == w[r - 1];
        assert(istep(ie, w, r - 1));
        assert(ilinked(ie, q[m0] as int, w[r]));
        assert(vis[w[r]]);
        let m = choose|m: int| 0 <= m < q.len() && q[m] == w[r] as usize;
        if m < head {
            assert(done(q, head, w[r]));
        }
        assert(m >= head);
        if m > head {
            assert(dist[q[head] as int] <= dist[q[m] as int]);
        }
        lemma_iwalk_prefix(ie, w, r);
        let p = w.take(r + 1);
        assert(p[0] == s && p.last() == w[r]);
        assert(lower_ok(ie, s, q[m] as int, dist[q[m] as int] as int));
        assert(dist[q[m] as int] <= r);
        assert(r < w.len() - 1);
    }
}

} // verus!

verus! {

/// Finding `u` from `c = q[head]` keeps the search state sound.
#[verifier::rlimit(40)]
proof fn lemma_bfs_push(
    ie: Seq<(usize, usize)>,
    n: int,
    s: int,
    vis: Seq<bool>,
    dist: Seq<usize>,
    parent: Seq<usize>,
    q: Seq<usize>,
    head: int,
    u: int,
)
    requires
        bfs_ok(ie, n, s, vis, dist, parent, q, head),
        head < q.len(),
        0 <= u < n,
        !vis[u],
        ilinked(ie, q[head] as int, u),
    ensures
        dist[q[head] as int] + 1 <= n,
        bfs_ok(
            ie,
            n,
            s,
            vis.update(u, true),
            dist.update(u, (dist[q[head] as int] + 1) as usize),
            parent.update(u, q[head]),
            q.push(u as usize),
            head,
        ),
{
    let c = q[head] as int;
    let d = (dist[c] + 1) as usize;
    let vis2 = vis.update(u, true);
    let dist2 = dist.update(u, d);
    let parent2 = parent.update(u, q[head]);
    let q2 = q.push(u as usize);
    assert(!q.contains(u as usize));
    assert(dist[c] <= head);
    assert(q2.no_duplicates()) by {
        assert forall|i: int, j: int| 0 <= i < q2.len() && 0 <= j < q2.len() && i != j implies q2[i] != q2[j] by {
            if i == q.len() {
                assert(q.contains(q2[j]));
            } else if j == q.len() {
                assert(q.contains(q2[i]));
            }
        }
    }
    assert forall|i: int| 0 <= i < q2.len() implies #[trigger] q2[i] < n by {}
    lemma_distinct_below(q2, n);
    assert(vis[s]) by {
        assert(q[0] == s as usize);
    }
    assert(vis[c]) by {
        assert(q.contains(q[head]));
    }
    assert forall|i: int| 0 <= i < q2.len() implies (#[trigger] q2[i]) < n && dist2[q2[i] as int] <= i by {
        if i < q.len() {
            assert(q.contains(q[i]));
            assert(q[i] != u as usize);
        }
    }
    assert forall|x: int| 0 <= x < n implies (#[trigger] vis2[x] <==> q2.contains(x as usize)) by {
        if x != u {
            if q2.contains(x as usize) {
                let i = choose|i: int| 0 <= i < q2.len() && q2[i] == x as usize;
                if i == q.len() {
                    assert(q2[i] == u as usize);
                    assert((x as usize) as int == x);
                    assert(false);
                }
                assert(q[i] == x as usize);
            }
            if q.contains(x as usize) {
                let i = choose|i: int| 0 <= i < q.len() && q[i] == x as usize;
                assert(q2[i] == x as usize);
            }
        } else {
            assert(q2[q.len() as int] == u as usize);
        }
    }
    assert forall|i: int, j: int|
        0 <= i < j < q2.len() implies #[trigger] dist2[q2[i] as int] <= #[trigger] dist2[q2[j] as int] by {
        assert(q.contains(q[i]));
        assert(q2[i] == q[i]);
        assert(q[i] != u as usize);
        assert(dist2[q2[i] as int] == dist[q[i] as int]);
        if j < q.len() {
            assert(q.contains(q[j]));
            assert(q2[j] == q[j]);
            assert(q[j] != u as usize);
            assert(dist[q[i] as int] <= dist[q[j] as int]);
        } else {
            assert(q2[j] == u as usize);
            assert(dist2[q2[j] as int] == d);
            assert(dist[q.last() as int] <= dist[c] + 1);
            if i < q.len() - 1 {
                assert(dist[q[i] as int] <= dist[q[q.len() - 1] as int]);
            }
        }
    }
    assert forall|i: int| 1 <= i < q2.len() implies parent_ok(ie, n, vis2, dist2, parent2, #[trigger] q2[i] as int) by {
        if i < q.len() {
            assert(q.contains(q[i]));
            assert(parent_ok(ie, n, vis, dist, parent, q[i] as int));
            assert(parent[q[i] as int] != u);
        } else {
            assert(c != u);
        }
    }
    assert forall|i: int| 0 <= i < q2.len() implies lower_ok(ie, s, #[trigger] q2[i] as int, dist2[q2[i] as int] as int) by {
        if i < q.len() {
            assert(q.contains(q[i]));
            assert(lower_ok(ie, s, q[i] as int, dist[q[i] as int] as int));
        } else {
            assert forall|w: Seq<int>| #[trigger] iwalk(ie, w) && w[0] == s && w.last() == u implies d <= w.len() - 1 by {
                lemma_bfs_lower(ie, n, s, vis, dist, parent, q, head, w, u);
            }
        }
    }
    assert forall|i: int, b: int|
        0 <= i < head && #[trigger] ilinked(ie, q2[i] as int, b) implies 0 <= b < n && vis2[b] by {
        assert(q2[i] == q[i]);
    }
}

/// Once every link of `q[head]` has been followed, the search moves on.
proof fn lemma_bfs_advance(
    ie: Seq<(usize, usize)>,
    n: int,
    s: int,
    vis: Seq<bool>,
    dist: Seq<usize>,
    parent: Seq<usize>,
    q: Seq<usize>,
    head: int,
)
    requires
        bfs_ok(ie, n, s, vis, dist, parent, q, head),
        head < q.len(),
        forall|b: int| #[trigger] ilinked(ie, q[head] as int, b) ==> 0 <= b < n && vis[b],
    ensures
        bfs_ok(ie, n, s, vis, dist, parent, q, head + 1),
{
    if head + 1 < q.len() {
        assert(dist[q[head] as int] <= dist[q[head + 1] as int]);
    }
}

} // verus!

verus! {

// ----------------------------------------------------------------------------
// Which shortest walk the search finds.
// ----------------------------------------------------------------------------

/// Where `a` first meets `b` in the index edges from edge `k` on, each edge read from its
/// first end to its second and then back: `2 * j` for an edge `j` from `a` to `b`,
/// `2 * j + 1` for one from `b` to `a`; -1 when none joins them.
spec fn slot_from(ie: Seq<(usize, usize)>, a: int, b: int, k: int) -> int
    decreases ie.len() - k,
{
    if k < 0 || k >= ie.len() {
        -1
    } else if ie[k].0 == a && ie[k].1 == b {
        2 * k
    } else if ie[k].1 == a && ie[k].0 == b {
        2 * k + 1
    } else {
        slot_from(ie, a, b, k + 1)
    }
}

spec fn ifirst(ie: Seq<(usize, usize)>, a: int, b: int) -> int {
    slot_from(ie, a, b, 0)
}

/// For each step of the index walk `w`, where its two ends first meet.
spec fn icode(ie: Seq<(usize, usize)>, w: Seq<int>) -> Seq<int> {
    Seq::new((w.len() - 1) as nat, |i: int| ifirst(ie, w[i], w[i + 1]))
}

spec fn lex_le(a: Seq<int>, b: Seq<int>) -> bool {
    a == b || lex_less(a, b)
}

/// The `i`-th ancestor of `v` along `parent`.
spec fn anc(parent: Seq<usize>, v: int, i: nat) -> int
    decreases i,
{
    if i == 0 {
        v
    } else {
        parent[anc(parent, v, (i - 1) as nat)] as int
    }
}

/// The walk from the start of the search to `v` along the parents.
spec fn tpath(parent: Seq<usize>, dist: Seq<usize>, v: int) -> Seq<int> {
    Seq::new((dist[v] + 1) as nat, |j: int| anc(parent, v, (dist[v] - j) as nat))
}

spec fn tcode(ie: Seq<(usize, usize)>, parent: Seq<usize>, dist: Seq<usize>, v: int) -> Seq<int> {
    icode(ie, tpath(parent, dist, v))
}

/// Two indices equally far from the start come in the order of their walks' codes.
spec fn ordered_pair(ie: Seq<(usize, usize)>, parent: Seq<usize>, dist: Seq<usize>, a: int, b: int) -> bool {
    dist[a] == dist[b] ==> lex_less(tcode(ie, parent, dist, a), tcode(ie, parent, dist, b))
}

/// The walk along the parents to `v` has the least code of all shortest walks to `v`.
spec fn code_min(ie: Seq<(usize, usize)>, parent: Seq<usize>, dist: Seq<usize>, s: int, v: int) -> bool {
    forall|w: Seq<int>|
        #[trigger] iwalk(ie, w) && w[0] == s && w.last() == v && w.len() == dist[v] + 1 ==> lex_le(
            tcode(ie, parent, dist, v),
            icode(ie, w),
        )
}

/// The order of the search: `pidx[i]` is where the parent of `q[i]` stands in the queue; the
/// links of `q[head]` have been followed up to slot `bound`; indices equally far come in the
/// order of their codes, and each code is the least of the shortest walks there.
spec fn bfs_order(
    ie: Seq<(usize, usize)>,
    s: int,
    dist: Seq<usize>,
    parent: Seq<usize>,
    q: Seq<usize>,
    head: int,
    pidx: Seq<int>,
    bound: int,
) -> bool {
    &&& pidx.len() == q.len()
    &&& forall|i: int|
        1 <= i < q.len() ==> 0 <= #[trigger] pidx[i] < i && pidx[i] <= head && q[pidx[i]]
            == parent[q[i] as int]
    &&& forall|i: int|
        1 <= i < q.len() && #[trigger] pidx[i] == head ==> ifirst(ie, q[head] as int, q[i] as int)
            < bound
    &&& forall|i: int, j: int|
        0 <= i < j < q.len() ==> #[trigger] ordered_pair(ie, parent, dist, q[i] as int, q[j] as int)
    &&& forall|i: int| 0 <= i < q.len() ==> #[trigger] code_min(ie, parent, dist, s, q[i] as int)
}

proof fn lemma_slot_skip(ie: Seq<(usize, usize)>, a: int, b: int, k0: int, k: int)
    requires
        0 <= k0 <= k,
        forall|j: int| k0 <= j < k && j < ie.len() ==> !ijoins(#[trigger] ie[j], a, b),
    ensures
        slot_from(ie, a, b, k0) == slot_from(ie, a, b, k),
    decreases k - k0,
{
    if k0 < k {
        if k0 < ie.len() {
            assert(!ijoins(ie[k0], a, b));
        }
        lemma_slot_skip(ie, a, b, k0 + 1, k);
    }
}

proof fn lemma_icode_push(ie: Seq<(usize, usize)>, w: Seq<int>, v: int)
    requires
        w.len() >= 1,
    ensures
        icode(ie, w.push(v)) == icode(ie, w).push(ifirst(ie, w.last(), v)),
{
    assert(icode(ie, w.push(v)) =~= icode(ie, w).push(ifirst(ie, w.last(), v)));
}

proof fn lemma_lex_push(a: Seq<int>, b: Seq<int>, x: int, y: int)
    requires
        a.len() == b.len(),
        lex_less(a, b) || (a == b && x < y),
    ensures
        lex_less(a.push(x), b.push(y)),
    decreases a.len(),
{
    if a.len() > 0 && a[0] == b[0] {
        assert(a.push(x).drop_first() =~= a.drop_first().push(x));
        assert(b.push(y).drop_first() =~= b.drop_first().push(y));
        lemma_lex_push(a.drop_first(), b.drop_first(), x, y);
    }
}

proof fn lemma_lex_trans(a: Seq<int>, b: Seq<int>, c: Seq<int>)
    requires
        lex_less(a, b),
        lex_le(b, c),
    ensures
        lex_less(a, c),
    decreases a.len(),
{
    if b != c && a[0] == b[0] && b[0] == c[0] {
        lemma_lex_trans(a.drop_first(), b.drop_first(), c.drop_first());
    }
}

proof fn lemma_anc_shift(parent: Seq<usize>, v: int, i: nat)
    ensures
        anc(parent, v, i + 1) == anc(parent, parent[v] as int, i),
    decreases i,
{
    if i > 0 {
        lemma_anc_shift(parent, v, (i - 1) as nat);
        assert(anc(parent, v, i + 1) == parent[anc(parent, v, i)] as int);
        assert(anc(parent, parent[v] as int, i) == parent[anc(parent, parent[v] as int, (i - 1) as nat)] as int);
    } else {
        assert(anc(parent, v, 1) == parent[anc(parent, v, 0)] as int);
    }
}

/// The walk to `v` is the walk to its parent and then `v`.
proof fn lemma_tpath_step(parent: Seq<usize>, dist: Seq<usize>, v: int)
    requires
        0 <= v < dist.len(),
        v < parent.len(),
        parent[v] < dist.len(),
        dist[v] == dist[parent[v] as int] + 1,
    ensures
        tpath(parent, dist, v) == tpath(parent, dist, parent[v] as int).push(v),
        tpath(parent, dist, parent[v] as int).len() >= 1,
        tpath(parent, dist, parent[v] as int).last() == parent[v],
{
    let p = parent[v] as int;
    assert forall|j: int| 0 <= j < dist[v] implies #[trigger] tpath(parent, dist, v)[j] == tpath(
        parent,
        dist,
        p,
    )[j] by {
        lemma_anc_shift(parent, v, (dist[v] - j - 1) as nat);
        assert((dist[v] - j - 1) as nat + 1 == (dist[v] - j) as nat);
    }
    assert(tpath(parent, dist, v) =~= tpath(parent, dist, p).push(v));
}

} // verus!

verus! {

/// The ancestors of an index found by the search were found before it, each one step nearer
/// the start.
proof fn lemma_anc_queue(
    ie: Seq<(usize, usize)>,
    n: int,
    s: int,
    vis: Seq<bool>,
    dist: Seq<usize>,
    parent: Seq<usize>,
    q: Seq<usize>,
    head: int,
    v: int,
    i: nat,
)
    requires
        bfs_ok(ie, n, s, vis, dist, parent, q, head),
        0 <= v < n,
        vis[v],
        i <= dist[v],
    ensures
        0 <= anc(parent, v, i) < n,
        vis[anc(parent, v, i)],
        dist[anc(parent, v, i)] == dist[v] - i,
    decreases i,
{
    if i > 0 {
        lemma_anc_queue(ie, n, s, vis, dist, parent, q, head, v, (i - 1) as nat);
        let x = anc(parent, v, (i - 1) as nat);
        assert(q.contains(x as usize));
        let j = choose|j: int| 0 <= j < q.len() && q[j] == x as usize;
        if j == 0 {
            assert(dist[s] == 0);
        }
        assert(parent_ok(ie, n, vis, dist, parent, q[j] as int));
    }
}

/// Finding `u` changes no walk along the parents to an index found before.
proof fn lemma_anc_frame(
    ie: Seq<(usize, usize)>,
    n: int,
    s: int,
    vis: Seq<bool>,
    dist: Seq<usize>,
    parent: Seq<usize>,
    q: Seq<usize>,
    head: int,
    u: int,
    c: usize,
    v: int,
    i: nat,
)
    requires
        bfs_ok(ie, n, s, vis, dist, parent, q, head),
        0 <= u < n,
        !vis[u],
        0 <= v < n,
        vis[v],
        i <= dist[v],
    ensures
        anc(parent.update(u, c), v, i) == anc(parent, v, i),
    decreases i,
{
    if i > 0 {
        lemma_anc_frame(ie, n, s, vis, dist, parent, q, head, u, c, v, (i - 1) as nat);
        lemma_anc_queue(ie, n, s, vis, dist, parent, q, head, v, (i - 1) as nat);
    }
}

proof fn lemma_tpath_frame(
    ie: Seq<(usize, usize)>,
    n: int,
    s: int,
    vis: Seq<bool>,
    dist: Seq<usize>,
    parent: Seq<usize>,
    q: Seq<usize>,
    head: int,
    u: int,
    c: usize,
    d: usize,
    v: int,
)
    requires
        bfs_ok(ie, n, s, vis, dist, parent, q, head),
        0 <= u < n,
        !vis[u],
        0 <= v < n,
        vis[v],
    ensures
        tpath(parent.update(u, c), dist.update(u, d), v) == tpath(parent, dist, v),
        tcode(ie, parent.update(u, c), dist.update(u, d), v) == tcode(ie, parent, dist, v),
{
    let p2 = parent.update(u, c);
    let d2 = dist.update(u, d);
    assert forall|j: int| 0 <= j <= dist[v] implies #[trigger] tpath(p2, d2, v)[j] == tpath(parent, dist, v)[j] by {
        lemma_anc_frame(ie, n, s, vis, dist, parent, q, head, u, c, v, (dist[v] - j) as nat);
    }
    assert(tpath(p2, d2, v) =~= tpath(parent, dist, v));
}

/// The search starts in order.
proof fn lemma_order_init(ie: Seq<(usize, usize)>, s: int, dist: Seq<usize>, parent: Seq<usize>)
    requires
        0 <= s < dist.len(),
        s <= usize::MAX,
        dist[s] == 0,
    ensures
        bfs_order(ie, s, dist, parent, seq![s as usize], 0, seq![0int], 0),
{
    let q = seq![s as usize];
    assert(q[0] as int == s);
    assert(tcode(ie, parent, dist, s) =~= Seq::<int>::empty());
    assert forall|i: int| 0 <= i < q.len() implies #[trigger] code_min(ie, parent, dist, s, q[i] as int) by {
        assert forall|w: Seq<int>|
            #[trigger] iwalk(ie, w) && w[0] == s && w.last() == s && w.len() == dist[s] + 1 implies lex_le(
            tcode(ie, parent, dist, s),
            icode(ie, w),
        ) by {
            assert(icode(ie, w) =~= Seq::<int>::empty());
        }
    }
}

/// Moving on to the next index keeps the order.
proof fn lemma_order_advance(
    ie: Seq<(usize, usize)>,
    s: int,
    dist: Seq<usize>,
    parent: Seq<usize>,
    q: Seq<usize>,
    head: int,
    pidx: Seq<int>,
    bound: int,
)
    requires
        bfs_order(ie, s, dist, parent, q, head, pidx, bound),
    ensures
        bfs_order(ie, s, dist, parent, q, head + 1, pidx, 0),
{
}

/// Following one more slot keeps the order.
proof fn lemma_order_bound(
    ie: Seq<(usize, usize)>,
    s: int,
    dist: Seq<usize>,
    parent: Seq<usize>,
    q: Seq<usize>,
    head: int,
    pidx: Seq<int>,
    bound: int,
)
    requires
        bfs_order(ie, s, dist, parent, q, head, pidx, bound),
    ensures
        bfs_order(ie, s, dist, parent, q, head, pidx, bound + 1),
{
}

} // verus!

verus! {

/// The walk along the new parents to `u`, found from `q[head]`, is the walk to `q[head]`
/// and then `u`.
proof fn lemma_new_tpath(
    ie: Seq<(usize, usize)>,
    n: int,
    s: int,
    vis: Seq<bool>,
    dist: Seq<usize>,
    parent: Seq<usize>,
    q: Seq<usize>,
    head: int,
    u: int,
)
    requires
        bfs_ok(ie, n, s, vis, dist, parent, q, head),
        head < q.len(),
        0 <= u < n,
        !vis[u],
        dist[q[head] as int] + 1 <= usize::MAX,
    ensures
        tcode(
            ie,
            parent.update(u, q[head]),
            dist.update(u, (dist[q[head] as int] + 1) as usize),
            u,
        ) == tcode(ie, parent, dist, q[head] as int).push(ifirst(ie, q[head] as int, u)),
        tcode(ie, parent, dist, q[head] as int).len() == dist[q[head] as int],
{
    let c = q[head];
    let p2 = parent.update(u, c);
    let d2 = dist.update(u, (dist[c as int] + 1) as usize);
    assert(q.contains(c));
    assert(c != u);
    lemma_tpath_step(p2, d2, u);
    lemma_tpath_frame(ie, n, s, vis, dist, parent, q, head, u, c, (dist[c as int] + 1) as usize, c as int);
    lemma_icode_push(ie, tpath(parent, dist, c as int), u);
}

/// The walk along the parents to a newly found `u` has the least code of the shortest
/// walks to `u`.
#[verifier::rlimit(60)]
#[verifier::spinoff_prover]
proof fn lemma_order_new_min(
    ie: Seq<(usize, usize)>,
    n: int,
    s: int,
    vis: Seq<bool>,
    dist: Seq<usize>,
    parent: Seq<usize>,
    q: Seq<usize>,
    head: int,
    pidx: Seq<int>,
    bound: int,
    u: int,
)
    requires
        bfs_ok(ie, n, s, vis, dist, parent, q, head),
        bfs_order(ie, s, dist, parent, q, head, pidx, bound),
        head < q.len(),
        0 <= u < n,
        !vis[u],
        ifirst(ie, q[head] as int, u) == bound,
        dist[q[head] as int] + 1 <= usize::MAX,
    ensures
        code_min(
            ie,
            parent.update(u, q[head]),
            dist.update(u, (dist[q[head] as int] + 1) as usize),
            s,
            u,
        ),
{
    let c = q[head] as int;
    let d = dist[c] as int;
    let p2 = parent.update(u, q[head]);
    let d2 = dist.update(u, (d + 1) as usize);
    lemma_new_tpath(ie, n, s, vis, dist, parent, q, head, u);
    assert forall|w: Seq<int>|
        #[trigger] iwalk(ie, w) && w[0] == s && w.last() == u && w.len() == d2[u] + 1 implies lex_le(
        tcode(ie, p2, d2, u),
        icode(ie, w),
    ) by {
        let x = w[d];
        let w1 = w.take(d + 1);
        lemma_iwalk_prefix(ie, w, d);
        assert(w1[0] == s && w1.last() == x);
        assert(istep(ie, w, d));
        assert(w[d + 1] == u);
        assert(ilinked(ie, x, u));
        let k = choose|k: int| 0 <= k < ie.len() && #[trigger] ijoins(ie[k], x, u);
        assert(0 <= x < n);
        if !vis[x] {
            lemma_bfs_lower(ie, n, s, vis, dist, parent, q, head, w1, x);
            assert(false);
        }
        assert(q.contains(x as usize));
        let mx = choose|m: int| 0 <= m < q.len() && q[m] == x as usize;
        if mx < head {
            assert(ilinked(ie, q[mx] as int, u));
            assert(false);
        }
        assert(lower_ok(ie, s, q[mx] as int, dist[q[mx] as int] as int));
        assert(dist[x] <= d);
        assert(w == w1.push(u));
        lemma_icode_push(ie, w1, u);
        if mx > head {
            assert(dist[c] <= dist[q[mx] as int]);
            assert(ordered_pair(ie, parent, dist, q[head] as int, q[mx] as int));
            assert(code_min(ie, parent, dist, s, q[mx] as int));
            assert(lex_le(tcode(ie, parent, dist, x), icode(ie, w1)));
            lemma_lex_trans(tcode(ie, parent, dist, c), tcode(ie, parent, dist, x), icode(ie, w1));
            lemma_lex_push(tcode(ie, parent, dist, c), icode(ie, w1), bound, ifirst(ie, x, u));
        } else {
            assert(x == c);
            assert(code_min(ie, parent, dist, s, q[head] as int));
            assert(lex_le(tcode(ie, parent, dist, c), icode(ie, w1)));
            if tcode(ie, parent, dist, c) != icode(ie, w1) {
                lemma_lex_push(tcode(ie, parent, dist, c), icode(ie, w1), bound, ifirst(ie, x, u));
            }
        }
    }
}

/// An index found before `u` and as far from the start comes before it in the order of
/// codes.
#[verifier::rlimit(40)]
proof fn lemma_order_new_pair(
    ie: Seq<(usize, usize)>,
    n: int,
    s: int,
    vis: Seq<bool>,
    dist: Seq<usize>,
    parent: Seq<usize>,
    q: Seq<usize>,
    head: int,
    pidx: Seq<int>,
    bound: int,
    u: int,
    i: int,
)
    requires
        bfs_ok(ie, n, s, vis, dist, parent, q, head),
        bfs_order(ie, s, dist, parent, q, head, pidx, bound),
        head < q.len(),
        0 <= u < n,
        !vis[u],
        ifirst(ie, q[head] as int, u) == bound,
        dist[q[head] as int] + 1 <= usize::MAX,
        0 <= i < q.len(),
    ensures
        ordered_pair(
            ie,
            parent.update(u, q[head]),
            dist.update(u, (dist[q[head] as int] + 1) as usize),
            q[i] as int,
            u,
        ),
{
    let c = q[head] as int;
    let d = dist[c] as int;
    let p2 = parent.update(u, q[head]);
    let d2 = dist.update(u, (d + 1) as usize);
    let v = q[i] as int;
    assert(q.contains(q[i]));
    assert(v != u);
    lemma_new_tpath(ie, n, s, vis, dist, parent, q, head, u);
    lemma_tpath_frame(ie, n, s, vis, dist, parent, q, head, u, q[head], (d + 1) as usize, v);
    if dist[v] == d + 1 {
        if i == 0 {
            assert(dist[s] == 0);
        }
        assert(i >= 1);
        let m = pidx[i];
        assert(parent_ok(ie, n, vis, dist, parent, q[i] as int));
        assert(q[m] == parent[v]);
        lemma_tpath_step(parent, dist, v);
        lemma_icode_push(ie, tpath(parent, dist, q[m] as int), v);
        assert(tcode(ie, parent, dist, v) == tcode(ie, parent, dist, q[m] as int).push(
            ifirst(ie, q[m] as int, v),
        ));
        if m < head {
            assert(ordered_pair(ie, parent, dist, q[m] as int, q[head] as int));
            lemma_lex_push(
                tcode(ie, parent, dist, q[m] as int),
                tcode(ie, parent, dist, c),
                ifirst(ie, q[m] as int, v),
                bound,
            );
        } else {
            assert(m == head);
            assert(ifirst(ie, c, v) < bound);
            lemma_lex_push(
                tcode(ie, parent, dist, q[m] as int),
                tcode(ie, parent, dist, c),
                ifirst(ie, q[m] as int, v),
                bound,
            );
        }
    }
}

/// Finding `u` from `q[head]` at the slot `bound` keeps the order of the search.
#[verifier::rlimit(40)]
proof fn lemma_order_push(
    ie: Seq<(usize, usize)>,
    n: int,
    s: int,
    vis: Seq<bool>,
    dist: Seq<usize>,
    parent: Seq<usize>,
    q: Seq<usize>,
    head: int,
    pidx: Seq<int>,
    bound: int,
    u: int,
)
    requires
        bfs_ok(ie, n, s, vis, dist, parent, q, head),
        bfs_order(ie, s, dist, parent, q, head, pidx, bound),
        head < q.len(),
        0 <= u < n,
        !vis[u],
        ifirst(ie, q[head] as int, u) == bound,
        dist[q[head] as int] + 1 <= usize::MAX,
    ensures
        bfs_order(
            ie,
            s,
            dist.update(u, (dist[q[head] as int] + 1) as usize),
            parent.update(u, q[head]),
            q.push(u as usize),
            head,
            pidx.push(head),
            bound + 1,
        ),
{
    let c = q[head] as int;
    let d = dist[c] as int;
    let p2 = parent.update(u, q[head]);
    let d2 = dist.update(u, (d + 1) as usize);
    let q2 = q.push(u as usize);
    let pidx2 = pidx.push(head);
    assert forall|i: int| 0 <= i < q.len() implies tcode(ie, p2, d2, q[i] as int) == tcode(
        ie,
        parent,
        dist,
        q[i] as int,
    ) && d2[q[i] as int] == dist[q[i] as int] && p2[q[i] as int] == parent[q[i] as int] by {
        assert(q.contains(q[i]));
        lemma_tpath_frame(ie, n, s, vis, dist, parent, q, head, u, q[head], (d + 1) as usize, q[i] as int);
    }
    assert forall|i: int|
        1 <= i < q2.len() implies 0 <= #[trigger] pidx2[i] < i && pidx2[i] <= head && q2[pidx2[i]]
        == p2[q2[i] as int] by {
        if i < q.len() {
            assert(pidx2[i] == pidx[i]);
        }
    }
    assert forall|i: int|
        1 <= i < q2.len() && #[trigger] pidx2[i] == head implies ifirst(ie, q2[head] as int, q2[i] as int)
        < bound + 1 by {
        if i < q.len() {
            assert(pidx2[i] == pidx[i]);
        }
    }
    assert forall|i: int, j: int|
        0 <= i < j < q2.len() implies #[trigger] ordered_pair(ie, p2, d2, q2[i] as int, q2[j] as int) by {
        if j < q.len() {
            assert(ordered_pair(ie, parent, dist, q[i] as int, q[j] as int));
        } else {
            lemma_order_new_pair(ie, n, s, vis, dist, parent, q, head, pidx, bound, u, i);
        }
    }
    assert forall|i: int| 0 <= i < q2.len() implies #[trigger] code_min(ie, p2, d2, s, q2[i] as int) by {
        if i < q.len() {
            assert(code_min(ie, parent, dist, s, q[i] as int));
        } else {
            lemma_order_new_min(ie, n, s, vis, dist, parent, q, head, pidx, bound, u);
        }
    }
}

} // verus!

verus! {

/// The walk from `s` to `t = q[head]` that follows the parents back from `t`; it is as short
/// as any walk from `s` to `t`.
fn trace_path(
    ie: &Vec<(usize, usize)>,
    n: usize,
    s: usize,
    t: usize,
    visited: &Vec<bool>,
    dist: &Vec<usize>,
    parent: &Vec<usize>,
    queue: &Vec<usize>,
    head: usize,
) -> (p: Vec<usize>)
    requires
        bfs_ok(ie@, n as int, s as int, visited@, dist@, parent@, queue@, head as int),
        head < queue.len(),
        queue@[head as int] == t,
    ensures
        iwalk(ie@, as_ints(p@)),
        p@[0] == s,
        p@.last() == t,
        forall|i: int| 0 <= i < p.len() ==> #[trigger] p@[i] < n,
        forall|w: Seq<int>| #[trigger] iwalk(ie@, w) && w[0] == s && w.last() == t ==> p.len() <= w.len(),
        as_ints(p@) == tpath(parent@, dist@, t as int),
{
    let mut rev: Vec<usize> = Vec::new();
    rev.push(t);
    let mut cur = t;
    proof {
        assert(queue@.contains(t));
        assert(as_ints(rev@) =~= seq![t as int]);
        lemma_iwalk_single(ie@, t as int);
    }
    while cur != s
        invariant
            bfs_ok(ie@, n as int, s as int, visited@, dist@, parent@, queue@, head as int),
            head < queue.len(),
            queue@[head as int] == t,
            rev.len() >= 1,
            rev@[0] == t,
            rev@.last() == cur,
            cur < n,
            visited@[cur as int],
            dist@[cur as int] + rev.len() - 1 == dist@[t as int],
            iwalk(ie@, as_ints(rev@)),
            forall|i: int| 0 <= i < rev.len() ==> #[trigger] rev@[i] < n,
            forall|i: int| 0 <= i < rev.len() ==> #[trigger] rev@[i] == anc(parent@, t as int, i as nat),
        decreases dist@[cur as int],
    {
        proof {
            assert(queue@.contains(cur));
            let i = choose|i: int| 0 <= i < queue.len() && queue@[i] == cur;
            assert(i != 0);
            assert(parent_ok(ie@, n as int, visited@, dist@, parent@, queue@[i] as int));
            lemma_ilinked_sym(ie@, parent@[cur as int] as int, cur as int);
            lemma_iwalk_push(ie@, as_ints(rev@), parent@[cur as int] as int);
        }
        let p = parent[cur];
        let ghost rev0 = rev@;
        rev.push(p);
        proof {
            assert(as_ints(rev@) =~= as_ints(rev0).push(p as int));
            assert(anc(parent@, t as int, rev0.len() as nat) == parent@[anc(parent@, t as int, (rev0.len() - 1) as nat)] as int);
        }
        cur = p;
    }
    let mut path: Vec<usize> = Vec::new();
    let mut i = rev.len();
    while i > 0
        invariant
            i <= rev.len(),
            path.len() == rev.len() - i,
            forall|j: int| 0 <= j < path.len() ==> #[trigger] path@[j] == rev@[rev.len() - 1 - j],
        decreases i,
    {
        i -= 1;
        path.push(rev[i]);
    }
    proof {
        assert(as_ints(path@) =~= as_ints(rev@).reverse());
        assert(dist@[s as int] == 0);
        assert(as_ints(path@) =~= tpath(parent@, dist@, t as int));
        lemma_iwalk_reverse(ie@, as_ints(rev@));
        assert(lower_ok(ie@, s as int, queue@[head as int] as int, dist@[queue@[head as int] as int] as int));
    }
    path
}

/// A shortest index walk from `s` to `t`, found by a breadth-first search, or none when no
/// walk leads there.
#[verifier::rlimit(40)]
#[verifier::spinoff_prover]
fn bfs_path(ie: &Vec<(usize, usize)>, n: usize, s: usize, t: usize) -> (r: Option<Vec<usize>>)
    requires
        edges_below(ie@, n as int),
        s < n,
        t < n,
    ensures
        match r {
            Some(p) => {
                &&& iwalk(ie@, as_ints(p@))
                &&& p@[0] == s
                &&& p@.last() == t
                &&& forall|i: int| 0 <= i < p.len() ==> #[trigger] p@[i] < n
                &&& forall|w: Seq<int>|
                    #[trigger] iwalk(ie@, w) && w[0] == s && w.last() == t ==> p.len() <= w.len()
                &&& forall|w: Seq<int>|
                    #[trigger] iwalk(ie@, w) && w[0] == s && w.last() == t && w.len() == p.len()
                        ==> lex_le(icode(ie@, as_ints(p@)), icode(ie@, w))
            },
            None => !iconn(ie@, s as int, t as int),
        },
{
    let mut visited: Vec<bool> = vec![false; n];
    let mut dist: Vec<usize> = vec![0; n];
    let mut parent: Vec<usize> = vec![0; n];
    let mut queue: Vec<usize> = Vec::new();
    visited.set(s, true);
    queue.push(s);
    let mut head: usize = 0;
    proof {
        assert(queue@[0] == s);
        assert(cloned(0usize, dist@[s as int]));
        assert forall|u: int| 0 <= u < n implies (#[trigger] visited@[u] <==> queue@.contains(u as usize)) by {
            if u != s {
                assert(cloned(false, visited@[u]));
            }
        }
        assert forall|w: Seq<int>| #[trigger] iwalk(ie@, w) && w[0] == s && w.last() == s implies 0 <= w.len() - 1 by {}
        assert(lower_ok(ie@, s as int, queue@[0] as int, dist@[queue@[0] as int] as int));
        assert(bfs_ok(ie@, n as int, s as int, visited@, dist@, parent@, queue@, 0));
        assert(queue@ =~= seq![s]);
        lemma_order_init(ie@, s as int, dist@, parent@);
    }
    let ghost mut pidx: Seq<int> = seq![0int];
    while head < queue.len()
        invariant
            bfs_ok(ie@, n as int, s as int, visited@, dist@, parent@, queue@, head as int),
            bfs_order(ie@, s as int, dist@, parent@, queue@, head as int, pidx, 0),
            t < n,
            forall|i: int| 0 <= i < head ==> queue@[i] != t,
        decreases n - head,
    {
        let c = queue[head];
        if c == t {
            let p = trace_path(ie, n, s, t, &visited, &dist, &parent, &queue, head);
            proof {
                assert(code_min(ie@, parent@, dist@, s as int, queue@[head as int] as int));
            }
            return Some(p);
        }
        let mut k: usize = 0;
        while k < ie.len()
            invariant
                bfs_ok(ie@, n as int, s as int, visited@, dist@, parent@, queue@, head as int),
                bfs_order(ie@, s as int, dist@, parent@, queue@, head as int, pidx, 2 * k),
                head < queue.len(),
                queue@[head as int] == c,
                c != t,
                t < n,
                k <= ie.len(),
                forall|i: int| 0 <= i < head ==> queue@[i] != t,
                forall|j: int, b: int|
                    0 <= j < k && #[trigger] ijoins(ie@[j], c as int, b) ==> 0 <= b < n
                        && visited@[b],
            decreases ie.len() - k,
        {
            let (a, b) = ie[k];
            let mut m: usize = 0;
            while m < 2
                invariant
                    bfs_ok(ie@, n as int, s as int, visited@, dist@, parent@, queue@, head as int),
                    bfs_order(ie@, s as int, dist@, parent@, queue@, head as int, pidx, 2 * k + m),
                    head < queue.len(),
                    queue@[head as int] == c,
                    c != t,
                    t < n,
                    k < ie.len(),
                    ie@[k as int] == (a, b),
                    m <= 2,
                    forall|i: int| 0 <= i < head ==> queue@[i] != t,
                    forall|j: int, b2: int|
                        0 <= j < k && #[trigger] ijoins(ie@[j], c as int, b2) ==> 0 <= b2 < n
                            && visited@[b2],
                    m >= 1 && a == c ==> visited@[b as int],
                    m >= 2 && b == c ==> visited@[a as int],
                decreases 2 - m,
            {
                let (here, there) = if m == 0 {
                    (a, b)
                } else {
                    (b, a)
                };
                proof {
                    assert(ie@[k as int].0 < n && ie@[k as int].1 < n);
                }
                if here == c && !visited[there] {
                    proof {
                        assert(ijoins(ie@[k as int], c as int, there as int));
                        assert forall|j: int| 0 <= j < k && j < ie@.len() implies !ijoins(
                            #[trigger] ie@[j],
                            c as int,
                            there as int,
                        ) by {}
                        lemma_slot_skip(ie@, c as int, there as int, 0, k as int);
                        assert(ifirst(ie@, c as int, there as int) == 2 * k + m);
                        lemma_bfs_push(
                            ie@,
                            n as int,
                            s as int,
                            visited@,
                            dist@,
                            parent@,
                            queue@,
                            head as int,
                            there as int,
                        );
                        lemma_order_push(
                            ie@,
                            n as int,
                            s as int,
                            visited@,
                            dist@,
                            parent@,
                            queue@,
                            head as int,
                            pidx,
                            2 * k + m,
                            there as int,
                        );
                    }
                    let d = dist[c] + 1;
                    visited.set(there, true);
                    dist.set(there, d);
                    parent.set(there, c);
                    queue.push(there);
                    proof {
                        pidx = pidx.push(head as int);
                    }
                } else {
                    proof {
                        lemma_order_bound(ie@, s as int, dist@, parent@, queue@, head as int, pidx, 2 * k + m);
                    }
                }
                m += 1;
            }
            k += 1;
        }
        proof {
            assert forall|b2: int| #[trigger] ilinked(ie@, queue@[head as int] as int, b2) implies 0 <= b2 < n
                && visited@[b2] by {
                let j = choose|j: int| 0 <= j < ie.len() && #[trigger] ijoins(ie@[j], c as int, b2);
            }
            lemma_bfs_advance(ie@, n as int, s as int, visited@, dist@, parent@, queue@, head as int);
            lemma_order_advance(ie@, s as int, dist@, parent@, queue@, head as int, pidx, 2 * k);
        }
        head += 1;
    }
    proof {
        if iconn(ie@, s as int, t as int) {
            assert(closed(ie@, visited@)) by {
                assert forall|a: int, b2: int|
                    0 <= a < visited@.len() && visited@[a] && #[trigger] ilinked(ie@, a, b2) implies 0
                    <= b2 < visited@.len() && visited@[b2] by {
                    assert(queue@.contains(a as usize));
                    let i = choose|i: int| 0 <= i < queue.len() && queue@[i] == a as usize;
                    assert(ilinked(ie@, queue@[i] as int, b2));
                }
            }
            assert(visited@[s as int]) by {
                assert(queue@.contains(s));
            }
            lemma_closed_conn(ie@, visited@, s as int, t as int);
            assert(queue@.contains(t));
            let i = choose|i: int| 0 <= i < queue.len() && queue@[i] == t;
            assert(queue@[i] != t);
        }
    }
    None
}

} // verus!

verus! {

/// The error for a pair of notes that no walk joins.
pub open spec fn is_no_path(e: GraphError, from: Seq<char>, to: Seq<char>) -> bool {
    e matches GraphError::NoPath { from: f, to: t } && f@ == from && t@ == to
}

impl GraphAnalyzer {
    /// A shortest chain of links from `from` to `to`: a walk from the one to the other that is
    /// no longer than any walk between them. Of the shortest walks it is the one that a
    /// breadth-first search finds when it takes each note's neighbours in the order of the
    /// links, each read from its source to its target and then back: the first of them in
    /// the order of their `walk_code`s. When no walk joins them, the error says so.
    pub fn shortest_path(&self, graph: &ObsidianGraph, from: &str, to: &str) -> (res: Result<
        Vec<String>,
        GraphError,
    >)
        ensures
            match res {
                Ok(p) => {
                    &&& is_walk(*graph, views(p@))
                    &&& views(p@)[0] == from@
                    &&& views(p@).last() == to@
                    &&& forall|w: Seq<Seq<char>>|
                        #[trigger] is_walk(*graph, w) && w[0] == from@ && w.last() == to@ ==> p.len()
                            <= w.len()
                    &&& forall|w: Seq<Seq<char>>|
                        #[trigger] is_walk(*graph, w) && w[0] == from@ && w.last() == to@ && w.len()
                            == p.len() ==> walk_code(*graph, views(p@)) == walk_code(*graph, w)
                            || lex_less(walk_code(*graph, views(p@)), walk_code(*graph, w))
                },
                Err(e) => is_no_path(e, from@, to@) && !connected(*graph, from@, to@),
            },
    {
        let from_s = crate::text::string_of(from);
        let to_s = crate::text::string_of(to);
        if from_s == to_s {
            let mut p: Vec<String> = Vec::new();
            p.push(from_s);
            proof {
                assert(views(p@) =~= seq![from@]);
                assert(is_walk(*graph, views(p@)));
                assert forall|w: Seq<Seq<char>>|
                    #[trigger] is_walk(*graph, w) && w[0] == from@ && w.last() == to@ && w.len() == p.len()
                        implies walk_code(*graph, views(p@)) == walk_code(*graph, w) by {
                    assert(walk_code(*graph, views(p@)) =~= walk_code(*graph, w));
                }
            }
            return Ok(p);
        }
        let it = intern(graph);
        let ghost names = views(it.names@);
        let n = it.names.len();
        let fa = find_name(&it.names, &from_s);
        let fb = find_name(&it.names, &to_s);
        match (fa, fb) {
            (Some(a), Some(b)) => {
                match bfs_path(&it.edges, n, a, b) {
                    Some(ip) => {
                        let p = names_of(&it.names, &ip);
                        proof {
                            lemma_iwalk_named(*graph, names, it.edges@, as_ints(ip@));
                            assert forall|w: Seq<Seq<char>>|
                                #[trigger] is_walk(*graph, w) && w[0] == from@ && w.last() == to@
                                    implies p.len() <= w.len() by {
                                assert(w.len() >= 2);
                                lemma_walk_indexed(*graph, names, it.edges@, w);
                                let iw = indices_of(names, w);
                                lemma_index_of(names, from@);
                                lemma_index_of(names, to@);
                                assert(iw[0] == a);
                                assert(iw.last() == b);
                            }
                            lemma_code_named(*graph, names, it.edges@, as_ints(ip@));
                            assert forall|w: Seq<Seq<char>>|
                                #[trigger] is_walk(*graph, w) && w[0] == from@ && w.last() == to@
                                    && w.len() == p.len() implies walk_code(*graph, views(p@))
                                == walk_code(*graph, w) || lex_less(
                                walk_code(*graph, views(p@)),
                                walk_code(*graph, w),
                            ) by {
                                assert(w.len() >= 2);
                                lemma_walk_indexed(*graph, names, it.edges@, w);
                                let iw = indices_of(names, w);
                                lemma_index_of(names, from@);
                                lemma_index_of(names, to@);
                                assert(iw[0] == a);
                                assert(iw.last() == b);
                                assert forall|i: int| 0 <= i < w.len() implies #[trigger] names_at(names, iw)[i] == w[i] by {
                                    lemma_index_of(names, w[i]);
                                }
                                assert(names_at(names, iw) =~= w);
                                lemma_code_named(*graph, names, it.edges@, iw);
                            }
                        }
                        Ok(p)
                    },
                    None => {
                        proof {
                            lemma_conn_to_index(*graph, names, it.edges@, a as int, b as int);
                        }
                        Err(GraphError::NoPath { from: from_s, to: to_s })
                    },
                }
            },
            _ => {
                proof {
                    if connected(*graph, from@, to@) {
                        let w = choose|w: Seq<Seq<char>>|
                            #[trigger] is_walk(*graph, w) && w[0] == from@ && w.last() == to@;
                        assert(w.len() >= 2);
                        lemma_walk_indexed(*graph, names, it.edges@, w);
                        assert(names.contains(w[0]));
                        assert(names.contains(w[w.len() - 1]));
                    }
                }
                Err(GraphError::NoPath { from: from_s, to: to_s })
            },
        }
    }
}

} // verus!

verus! {

/// `.obsidian/graph.json`, where Obsidian keeps its graph.
pub open spec fn graph_file_name() -> Seq<char> {
    seq!['.', 'o', 'b', 's', 'i', 'd', 'i', 'a', 'n', '/', 'g', 'r', 'a', 'p', 'h', '.', 'j', 's', 'o', 'n']
}

/// The message of an error.
pub open spec fn graph_error_message(e: GraphError) -> Seq<char> {
    match e {
        GraphError::Unavailable { path } => "Graph data not available at "@ + path@
            + ". Open Obsidian once to generate it."@,
        GraphError::NoPath { from, to } => "No path found between "@ + from@ + " and "@ + to@,
    }
}

impl GraphError {
    /// The message to show for this error.
    pub fn message(&self) -> (r: String)
        ensures
            r@ == graph_error_message(*self),
    {
        match self {
            GraphError::Unavailable { path } => {
                let a = cat("Graph data not available at ", path.as_str());
                cat(a.as_str(), ". Open Obsidian once to generate it.")
            },
            GraphError::NoPath { from, to } => {
                let a = cat("No path found between ", from.as_str());
                let b = cat(a.as_str(), " and ");
                cat(b.as_str(), to.as_str())
            },
        }
    }
}

impl GraphAnalyzer {
    /// Where Obsidian keeps the graph of the vault: `.obsidian/graph.json` in it.
    pub fn graph_path(&self) -> (r: String)
        ensures
            r@ == path_join(self.config().vault_path@, graph_file_name()),
    {
        let name = string_from_chars(
            &['.', 'o', 'b', 's', 'i', 'd', 'i', 'a', 'n', '/', 'g', 'r', 'a', 'p', 'h', '.', 'j', 's', 'o', 'n'],
        );
        proof {
            assert(name@ =~= graph_file_name());
        }
        join_path(self.config.vault_path.as_str(), name.as_str())
    }

    /// The graph file to load, given whether it exists; its absence is an error that names it.
    pub fn graph_file(&self, exists: bool) -> (r: Result<String, GraphError>)
        ensures
            match r {
                Ok(p) => exists && p@ == path_join(self.config().vault_path@, graph_file_name()),
                Err(e) => !exists && (e matches GraphError::Unavailable { path } && path@ == path_join(
                    self.config().vault_path@,
                    graph_file_name(),
                )),
            },
    {
        let p = self.graph_path();
        if exists {
            Ok(p)
        } else {
            Err(GraphError::Unavailable { path: p })
        }
    }
}

} // verus!
