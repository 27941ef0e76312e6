use vstd::prelude::*;

use std::sync::Arc;

use crate::text::views;
use crate::paths::relative_to;
use crate::parse::tags::{frontmatter_tags, text_tags};
use crate::vault::{describes, note_fields, NoteInfo, Vault};

verus! {

/// A request to resolve the links of a note.
pub struct ResolveLinksRequest {
    /// Path to the note to resolve links from.
    pub path: String,
}

/// A request for the backlinks of a note.
pub struct BacklinksRequest {
    /// Path to the note to find backlinks for.
    pub path: String,
}

/// A request for the link graph around a note.
pub struct LinkGraphRequest {
    /// Path to the note.
    pub path: String,
    /// Depth of link neighbors to traverse; 1 when absent.
    pub depth: Option<usize>,
}

/// How many hops a link graph goes when no depth is asked for.
pub const DEFAULT_LINK_DEPTH: usize = 1;

impl LinkGraphRequest {
    /// The depth to explore: the one asked for, or the default.
    pub fn depth_or_default(&self) -> (r: usize)
        ensures
            r == (match self.depth {
                Some(d) => d,
                None => DEFAULT_LINK_DEPTH,
            }),
    {
        match self.depth {
            Some(d) => d,
            None => DEFAULT_LINK_DEPTH,
        }
    }
}

/// The tools for links.
#[derive(Clone)]
pub struct LinkTools {
    pub vault: Arc<Vault>,
}

impl LinkTools {
    pub fn new(vault: Arc<Vault>) -> (r: Self)
        ensures
            r.vault == vault,
    {
        Self { vault }
    }
}

// ----------------------------------------------------------------------------
// Exploring the link graph around a note, breadth first: the note, then the notes its links
// lead to, then the notes their links lead to, level by level, down to a number of hops and
// never a note twice. The exploration asks for one note at a time (`next_read`) and is told
// what reading it gave (`record`); reading is left to its caller.
// ----------------------------------------------------------------------------

/// What reading a note gives: none when it cannot be read, else its path, its tags and the
/// targets of its links.
pub open spec fn read_of(note: Option<&NoteInfo>) -> Option<(Seq<char>, Seq<Seq<char>>, Seq<Seq<char>>)> {
    match note {
        Some(n) => Some((n.path@, views(n.tags@), views(n.links@))),
        None => None,
    }
}

/// The state of an exploration.
#[verifier::ext_equal]
pub struct ExplorationView {
    /// The greatest number of hops from the start.
    pub max_depth: nat,
    /// The number of hops of the notes being asked for.
    pub level: nat,
    /// The notes of this level, in order.
    pub frontier: Seq<Seq<char>>,
    /// How many notes of this level were asked for.
    pub pos: nat,
    /// The notes of the next level found so far, in order.
    pub next: Seq<Seq<char>>,
    /// Every note put on a level so far.
    pub seen: Seq<Seq<char>>,
    /// The notes asked for so far, in order.
    pub asked: Seq<Seq<char>>,
    /// The note asked for and not yet recorded.
    pub current: Option<Seq<char>>,
    /// The notes read: each one's path and tags.
    pub nodes: Seq<(Seq<char>, Seq<Seq<char>>)>,
    /// The links of the notes read: from the note as asked for to the link's target.
    pub edges: Seq<(Seq<char>, Seq<char>)>,
}

/// `seen` and `next` after the links `links` are taken in order: each link not seen yet is
/// added to both.
pub open spec fn add_new(seen: Seq<Seq<char>>, next: Seq<Seq<char>>, links: Seq<Seq<char>>) -> (Seq<Seq<char>>, Seq<Seq<char>>)
    decreases links.len(),
{
    if links.len() == 0 {
        (seen, next)
    } else {
        let (s1, n1) = add_new(seen, next, links.drop_last());
        if s1.contains(links.last()) {
            (s1, n1)
        } else {
            (s1.push(links.last()), n1.push(links.last()))
        }
    }
}

/// The state after `next_read`: when this level is done and the next one holds notes, the
/// next level starts; then the next note of the level is asked for, if there is one.
pub open spec fn advanced(v: ExplorationView) -> ExplorationView {
    let v1 = if v.pos >= v.frontier.len() && v.next.len() > 0 {
        ExplorationView { level: v.level + 1, frontier: v.next, pos: 0, next: Seq::empty(), ..v }
    } else {
        v
    };
    if v1.pos < v1.frontier.len() {
        let p = v1.frontier[v1.pos as int];
        ExplorationView { pos: v1.pos + 1, asked: v1.asked.push(p), current: Some(p), ..v1 }
    } else {
        ExplorationView { current: None, ..v1 }
    }
}

/// The state after `record` with what reading the current note gave: when it was read, the
/// note is found, each of its links is recorded, and, below the greatest depth, each link
/// not seen yet goes to the next level; the current note is then done.
pub open spec fn recorded(v: ExplorationView, read: Option<(Seq<char>, Seq<Seq<char>>, Seq<Seq<char>>)>) -> ExplorationView {
    match (v.current, read) {
        (Some(p), Some((path, tags, links))) => {
            let grown = if v.level < v.max_depth {
                add_new(v.seen, v.next, links)
            } else {
                (v.seen, v.next)
            };
            ExplorationView {
                nodes: v.nodes.push((path, tags)),
                edges: v.edges + links.map_values(|l: Seq<char>| (p, l)),
                seen: grown.0,
                next: grown.1,
                current: None,
                ..v
            }
        },
        _ => ExplorationView { current: None, ..v },
    }
}

/// An exploration of the link graph around a note.
pub struct LinkGraph {
    max_depth: usize,
    level: usize,
    frontier: Vec<String>,
    pos: usize,
    next: Vec<String>,
    seen: Vec<String>,
    asked: Vec<String>,
    current: Option<String>,
    nodes: Vec<(String, Vec<String>)>,
    edges: Vec<(String, String)>,
}

impl View for LinkGraph {
    type V = ExplorationView;

    closed spec fn view(&self) -> ExplorationView {
        ExplorationView {
            max_depth: self.max_depth as nat,
            level: self.level as nat,
            frontier: views(self.frontier@),
            pos: self.pos as nat,
            next: views(self.next@),
            seen: views(self.seen@),
            asked: views(self.asked@),
            current: match self.current {
                Some(p) => Some(p@),
                None => None,
            },
            nodes: self.nodes@.map_values(|n: (String, Vec<String>)| (n.0@, views(n.1@))),
            edges: self.edges@.map_values(|e: (String, String)| (e.0@, e.1@)),
        }
    }
}

impl LinkGraph {
    /// The exploration is well formed: it is on a level within the greatest depth, and the
    /// next level holds notes only below it.
    pub closed spec fn wf(&self) -> bool {
        &&& self.pos <= self.frontier.len()
        &&& self.level <= self.max_depth
        &&& (self.next.len() > 0 ==> self.level < self.max_depth)
    }

    /// An exploration from the note `start`, down to `max_depth` hops away.
    pub fn new(start: &str, max_depth: usize) -> (r: Self)
        ensures
            r.wf(),
            r@ == (ExplorationView {
                max_depth: max_depth as nat,
                level: 0,
                frontier: seq![start@],
                pos: 0,
                next: Seq::empty(),
                seen: seq![start@],
                asked: Seq::empty(),
                current: None,
                nodes: Seq::empty(),
                edges: Seq::empty(),
            }),
    {
        let mut frontier: Vec<String> = Vec::new();
        frontier.push(start.to_string());
        let mut seen: Vec<String> = Vec::new();
        seen.push(start.to_string());
        let r = LinkGraph {
            max_depth,
            level: 0,
            frontier,
            pos: 0,
            next: Vec::new(),
            seen,
            asked: Vec::new(),
            current: None,
            nodes: Vec::new(),
            edges: Vec::new(),
        };
        proof {
            assert(views(r.frontier@) =~= seq![start@]);
            assert(views(r.seen@) =~= seq![start@]);
            assert(views(r.next@) =~= Seq::<Seq<char>>::empty());
            assert(views(r.asked@) =~= Seq::<Seq<char>>::empty());
            assert(r.nodes@.map_values(|n: (String, Vec<String>)| (n.0@, views(n.1@))) =~= Seq::<(Seq<char>, Seq<Seq<char>>)>::empty());
            assert(r.edges@.map_values(|e: (String, String)| (e.0@, e.1@)) =~= Seq::<(Seq<char>, Seq<char>)>::empty());
        }
        r
    }

    /// The next note to read, as `advanced` says; none when the exploration is over.
    pub fn next_read(&mut self) -> (r: Option<String>)
        requires
            old(self).wf(),
        ensures
            final(self).wf(),
            final(self)@ == advanced(old(self)@),
            match r {
                Some(p) => final(self)@.current == Some(p@),
                None => final(self)@.current is None,
            },
    {
        let ghost v = self@;
        if self.pos >= self.frontier.len() && self.next.len() > 0 {
            let mut nx: Vec<String> = Vec::new();
            std::mem::swap(&mut nx, &mut self.next);
            self.frontier = nx;
            self.pos = 0;
            self.level = self.level + 1;
            proof {
                assert(views(self.next@) =~= Seq::<Seq<char>>::empty());
            }
        }
        let ghost v1 = self@;
        proof {
            assert(v1 == (if v.pos >= v.frontier.len() && v.next.len() > 0 {
                ExplorationView { level: v.level + 1, frontier: v.next, pos: 0, next: Seq::empty(), ..v }
            } else {
                v
            }));
        }
        if self.pos < self.frontier.len() {
            let p = self.frontier[self.pos].clone();
            self.pos = self.pos + 1;
            self.asked.push(p.clone());
            self.current = Some(p.clone());
            proof {
                assert(views(self.frontier@)[v1.pos as int] == p@);
                assert(views(self.asked@) =~= v1.asked.push(p@));
                assert(self@ =~= advanced(v));
            }
            Some(p)
        } else {
            self.current = None;
            proof {
                assert(self@ =~= advanced(v));
            }
            None
        }
    }

    /// Whether the note `p` was put on a level already.
    fn was_seen(&self, p: &String) -> (r: bool)
        ensures
            r == views(self.seen@).contains(p@),
    {
        let mut i: usize = 0;
        while i < self.seen.len()
            invariant
                i <= self.seen.len(),
                forall|j: int| 0 <= j < i ==> views(self.seen@)[j] != p@,
            decreases self.seen.len() - i,
        {
            proof {
                assert(views(self.seen@)[i as int] == self.seen@[i as int]@);
            }
            if self.seen[i] == *p {
                return true;
            }
            i += 1;
        }
        false
    }

    /// Records what reading the current note gave, as `recorded` says. Nothing but the end of
    /// the current note changes when no note was asked for.
    pub fn record(&mut self, note: Option<&NoteInfo>)
        requires
            old(self).wf(),
        ensures
            final(self).wf(),
            final(self)@ == recorded(old(self)@, read_of(note)),
    {
        let ghost v = self@;
        let cur = self.current.take();
        match (cur, note) {
            (Some(p), Some(n)) => {
                self.nodes.push((n.path.clone(), n.tags.clone()));
                let ghost links = views(n.links@);
                let ghost e0 = self@.edges;
                let grow = self.level < self.max_depth;
                let mut i: usize = 0;
                proof {
                    assert(links.subrange(0, 0) =~= Seq::<Seq<char>>::empty());
                    assert(links.subrange(0, 0).map_values(|l: Seq<char>| (p@, l)) =~= Seq::<(Seq<char>, Seq<char>)>::empty());
                    assert(e0 + links.subrange(0, 0).map_values(|l: Seq<char>| (p@, l)) =~= e0);
                }
                while i < n.links.len()
                    invariant
                        i <= n.links.len(),
                        links == views(n.links@),
                        grow == (self.level < self.max_depth),
                        self.pos <= self.frontier.len(),
                        self.level <= self.max_depth,
                        self@.max_depth == v.max_depth,
                        self@.level == v.level,
                        self@.frontier == v.frontier,
                        self@.pos == v.pos,
                        self@.asked == v.asked,
                        self@.current is None,
                        self@.nodes == v.nodes.push((n.path@, views(n.tags@))),
                        e0 == v.edges,
                        self@.edges == e0 + links.subrange(0, i as int).map_values(|l: Seq<char>| (p@, l)),
                        grow ==> (self@.seen, self@.next) == add_new(v.seen, v.next, links.subrange(0, i as int)),
                        !grow ==> self@.seen == v.seen && self@.next == v.next,
                        self.next.len() > 0 ==> self.level < self.max_depth,
                    decreases n.links.len() - i,
                {
                    let l = n.links[i].clone();
                    let ghost ed = self@.edges;
                    self.edges.push((p.clone(), l.clone()));
                    proof {
                        assert(links[i as int] == l@);
                        assert(links.subrange(0, i + 1).map_values(|l: Seq<char>| (p@, l)) =~= links.subrange(0, i as int).map_values(|l: Seq<char>| (p@, l)).push((p@, l@)));
                        assert(self@.edges =~= ed.push((p@, l@)));
                        assert(links.subrange(0, i + 1).drop_last() =~= links.subrange(0, i as int));
                        assert(links.subrange(0, i + 1).last() == l@);
                    }
                    if grow {
                        if !self.was_seen(&l) {
                            let ghost s0 = self@.seen;
                            let ghost n0 = self@.next;
                            self.seen.push(l.clone());
                            self.next.push(l);
                            proof {
                                assert(views(self.seen@) =~= s0.push(links[i as int]));
                                assert(views(self.next@) =~= n0.push(links[i as int]));
                            }
                        }
                    }
                    i += 1;
                }
                proof {
                    assert(links.subrange(0, links.len() as int) =~= links);
                    assert(read_of(note) == Some((n.path@, views(n.tags@), links)));
                    assert(self@ =~= recorded(v, read_of(note)));
                }
            },
            _ => {
                proof {
                    assert(self@ =~= recorded(v, read_of(note)));
                }
            },
        }
    }

    /// The notes read, each with its tags, in the order in which they were read.
    pub fn nodes(&self) -> (r: &Vec<(String, Vec<String>)>)
        ensures
            r@.map_values(|n: (String, Vec<String>)| (n.0@, views(n.1@))) == self@.nodes,
    {
        &self.nodes
    }

    /// The links recorded, in order.
    pub fn edges(&self) -> (r: &Vec<(String, String)>)
        ensures
            r@.map_values(|e: (String, String)| (e.0@, e.1@)) == self@.edges,
    {
        &self.edges
    }
}

} // verus!

verus! {

// ----------------------------------------------------------------------------
// The exploration asks for exactly the notes within the greatest depth, each once.
// ----------------------------------------------------------------------------

/// The targets of the links of note `y`, as reading it gives them; none when it cannot be
/// read.
pub open spec fn links_of(
    reads: spec_fn(Seq<char>) -> Option<(Seq<char>, Seq<Seq<char>>, Seq<Seq<char>>)>,
    y: Seq<char>,
) -> Seq<Seq<char>> {
    match reads(y) {
        Some((_, _, links)) => links,
        None => Seq::empty(),
    }
}

/// The notes that a link of a note of `s` leads to.
pub open spec fn linked(
    reads: spec_fn(Seq<char>) -> Option<(Seq<char>, Seq<Seq<char>>, Seq<Seq<char>>)>,
    s: Set<Seq<char>>,
) -> Set<Seq<char>> {
    Set::new(|x: Seq<char>| exists|y: Seq<char>| s.contains(y) && #[trigger] links_of(reads, y).contains(x))
}

/// The notes at most `k` hops from `start`: one hop follows a link of a note that can be
/// read.
pub open spec fn within(
    reads: spec_fn(Seq<char>) -> Option<(Seq<char>, Seq<Seq<char>>, Seq<Seq<char>>)>,
    start: Seq<char>,
    k: nat,
) -> Set<Seq<char>>
    decreases k,
{
    if k == 0 {
        set![start]
    } else {
        within(reads, start, (k - 1) as nat) + linked(reads, within(reads, start, (k - 1) as nat))
    }
}

/// The notes less than `k` hops from `start`.
pub open spec fn before(
    reads: spec_fn(Seq<char>) -> Option<(Seq<char>, Seq<Seq<char>>, Seq<Seq<char>>)>,
    start: Seq<char>,
    k: nat,
) -> Set<Seq<char>> {
    if k == 0 {
        Set::empty()
    } else {
        within(reads, start, (k - 1) as nat)
    }
}

/// What holds of an exploration from `start` when reading each note gives `reads`: its
/// level holds exactly the notes that many hops away and no fewer; what it has seen is
/// those within the level and what the links of the level's notes read so far lead to;
/// the next level holds the notes seen beyond this one; the notes asked for are those of
/// earlier levels and those of this level asked so far, each once.
pub open spec fn explores(
    reads: spec_fn(Seq<char>) -> Option<(Seq<char>, Seq<Seq<char>>, Seq<Seq<char>>)>,
    start: Seq<char>,
    v: ExplorationView,
) -> bool {
    let w = within(reads, start, v.level);
    let wp = before(reads, start, v.level);
    let done = v.frontier.subrange(0, v.pos as int).to_set();
    &&& v.level <= v.max_depth
    &&& v.pos <= v.frontier.len()
    &&& (v.next.len() > 0 ==> v.level < v.max_depth)
    &&& v.frontier.no_duplicates()
    &&& v.frontier.to_set() == w - wp
    &&& v.seen.no_duplicates()
    &&& v.next.no_duplicates()
    &&& v.seen.to_set() == (if v.level < v.max_depth {
        w + linked(reads, done)
    } else {
        w
    })
    &&& v.next.to_set() == v.seen.to_set() - w
    &&& v.asked.no_duplicates()
    &&& v.asked.to_set() == wp + done
}

proof fn lemma_within_grows(
    reads: spec_fn(Seq<char>) -> Option<(Seq<char>, Seq<Seq<char>>, Seq<Seq<char>>)>,
    start: Seq<char>,
    k: nat,
)
    ensures
        before(reads, start, k).subset_of(within(reads, start, k)),
        k > 0 ==> linked(reads, before(reads, start, k)).subset_of(within(reads, start, k)),
{
}

proof fn lemma_linked_union(
    reads: spec_fn(Seq<char>) -> Option<(Seq<char>, Seq<Seq<char>>, Seq<Seq<char>>)>,
    a: Set<Seq<char>>,
    b: Set<Seq<char>>,
)
    ensures
        linked(reads, a + b) == linked(reads, a) + linked(reads, b),
{
    assert(linked(reads, a + b) =~= linked(reads, a) + linked(reads, b)) by {
        assert forall|x: Seq<char>| #[trigger] linked(reads, a + b).contains(x) implies (linked(reads, a)
            + linked(reads, b)).contains(x) by {
            let y = choose|y: Seq<char>| (a + b).contains(y) && #[trigger] links_of(reads, y).contains(x);
            if a.contains(y) {
                assert(linked(reads, a).contains(x));
            } else {
                assert(linked(reads, b).contains(x));
            }
        }
        assert forall|x: Seq<char>| #[trigger] (linked(reads, a) + linked(reads, b)).contains(x) implies linked(
            reads,
            a + b,
        ).contains(x) by {
            if linked(reads, a).contains(x) {
                let y = choose|y: Seq<char>| a.contains(y) && #[trigger] links_of(reads, y).contains(x);
                assert((a + b).contains(y));
            } else {
                let y = choose|y: Seq<char>| b.contains(y) && #[trigger] links_of(reads, y).contains(x);
                assert((a + b).contains(y));
            }
        }
    }
}

proof fn lemma_linked_one(
    reads: spec_fn(Seq<char>) -> Option<(Seq<char>, Seq<Seq<char>>, Seq<Seq<char>>)>,
    y: Seq<char>,
)
    ensures
        linked(reads, set![y]) == links_of(reads, y).to_set(),
{
    assert(linked(reads, set![y]) =~= links_of(reads, y).to_set()) by {
        assert forall|x: Seq<char>| #[trigger] linked(reads, set![y]).contains(x) implies links_of(reads, y).to_set().contains(x) by {
            let z = choose|z: Seq<char>| set![y].contains(z) && #[trigger] links_of(reads, z).contains(x);
            assert(z == y);
        }
        assert forall|x: Seq<char>| #[trigger] links_of(reads, y).to_set().contains(x) implies linked(reads, set![y]).contains(x) by {
            assert(set![y].contains(y) && links_of(reads, y).contains(x));
        }
    }
}

proof fn lemma_linked_empty(reads: spec_fn(Seq<char>) -> Option<(Seq<char>, Seq<Seq<char>>, Seq<Seq<char>>)>)
    ensures
        linked(reads, Set::empty()) == Set::<Seq<char>>::empty(),
{
    assert(linked(reads, Set::empty()) =~= Set::<Seq<char>>::empty());
}

proof fn lemma_add_new(seen: Seq<Seq<char>>, next: Seq<Seq<char>>, links: Seq<Seq<char>>)
    requires
        seen.no_duplicates(),
        next.no_duplicates(),
        next.to_set().subset_of(seen.to_set()),
    ensures
        add_new(seen, next, links).0.no_duplicates(),
        add_new(seen, next, links).1.no_duplicates(),
        add_new(seen, next, links).0.to_set() == seen.to_set() + links.to_set(),
        add_new(seen, next, links).1.to_set() == next.to_set() + (links.to_set() - seen.to_set()),
    decreases links.len(),
{
    if links.len() > 0 {
        let l0 = links.drop_last();
        lemma_add_new(seen, next, l0);
        let (s1, n1) = add_new(seen, next, l0);
        let x = links.last();
        assert(links =~= l0.push(x));
        l0.lemma_push_to_set_commute(x);
        s1.lemma_push_to_set_commute(x);
        n1.lemma_push_to_set_commute(x);
        assert(n1.to_set().subset_of(s1.to_set()));
        assert(links.drop_last() == l0);
        if s1.contains(x) {
            assert(add_new(seen, next, links) == (s1, n1));
            assert(s1.to_set().contains(x));
            assert(n1.to_set() =~= next.to_set() + (links.to_set() - seen.to_set())) by {
                assert forall|y: Seq<char>| (links.to_set() - seen.to_set()).contains(y) implies #[trigger] n1.to_set().contains(y) by {
                    if y != x {
                        assert(l0.to_set().contains(y));
                    } else {
                        assert(l0.to_set().contains(y));
                    }
                }
            }
            assert(add_new(seen, next, links).0.to_set() =~= seen.to_set() + links.to_set());
        } else {
            assert(!n1.to_set().contains(x));
            assert(!n1.contains(x));
            assert(add_new(seen, next, links) == (s1.push(x), n1.push(x)));
            assert(!s1.to_set().contains(x));
            assert(!seen.to_set().contains(x));
            assert(add_new(seen, next, links).1.to_set() =~= next.to_set() + (links.to_set() - seen.to_set()));
            assert(add_new(seen, next, links).0.to_set() =~= seen.to_set() + links.to_set());
        }
    }
}

proof fn lemma_within_stable(
    reads: spec_fn(Seq<char>) -> Option<(Seq<char>, Seq<Seq<char>>, Seq<Seq<char>>)>,
    start: Seq<char>,
    k: nat,
    m: nat,
)
    requires
        within(reads, start, k + 1) == within(reads, start, k),
        k <= m,
    ensures
        within(reads, start, m) == within(reads, start, k),
    decreases m - k,
{
    if m > k {
        lemma_within_stable(reads, start, k, (m - 1) as nat);
        assert(within(reads, start, m) == within(reads, start, (m - 1) as nat) + linked(
            reads,
            within(reads, start, (m - 1) as nat),
        ));
    }
}

} // verus!

verus! {

proof fn lemma_level_whole(
    reads: spec_fn(Seq<char>) -> Option<(Seq<char>, Seq<Seq<char>>, Seq<Seq<char>>)>,
    start: Seq<char>,
    v: ExplorationView,
)
    requires
        explores(reads, start, v),
    ensures
        within(reads, start, v.level) == before(reads, start, v.level) + v.frontier.to_set(),
        within(reads, start, v.level + 1) == within(reads, start, v.level) + linked(reads, v.frontier.to_set()),
{
    let w = within(reads, start, v.level);
    let wp = before(reads, start, v.level);
    lemma_within_grows(reads, start, v.level);
    assert(w =~= wp + v.frontier.to_set());
    lemma_linked_union(reads, wp, v.frontier.to_set());
    if v.level == 0 {
        lemma_linked_empty(reads);
        assert(linked(reads, wp) =~= Set::<Seq<char>>::empty());
    }
    assert(within(reads, start, v.level + 1) == w + linked(reads, w));
    assert(within(reads, start, v.level + 1) =~= w + linked(reads, v.frontier.to_set()));
}

proof fn lemma_shift(
    reads: spec_fn(Seq<char>) -> Option<(Seq<char>, Seq<Seq<char>>, Seq<Seq<char>>)>,
    start: Seq<char>,
    v: ExplorationView,
)
    requires
        explores(reads, start, v),
        v.pos >= v.frontier.len(),
        v.next.len() > 0,
    ensures
        explores(
            reads,
            start,
            ExplorationView { level: v.level + 1, frontier: v.next, pos: 0, next: Seq::empty(), ..v },
        ),
{
    let v1 = ExplorationView { level: v.level + 1, frontier: v.next, pos: 0, next: Seq::empty(), ..v };
    lemma_level_whole(reads, start, v);
    let w = within(reads, start, v.level);
    let w1 = within(reads, start, v1.level);
    assert(v.frontier.subrange(0, v.pos as int) =~= v.frontier);
    assert(v.seen.to_set() == w1);
    assert(before(reads, start, v1.level) == w);
    assert(v1.frontier.subrange(0, 0).to_set() =~= Set::<Seq<char>>::empty());
    lemma_linked_empty(reads);
    assert(v1.frontier.to_set() =~= w1 - w);
    assert(v1.next.to_set() =~= v1.seen.to_set() - w1);
    assert(v1.asked.to_set() =~= w + v1.frontier.subrange(0, 0).to_set());
    assert(v1.seen.to_set() =~= (if v1.level < v1.max_depth {
        w1 + linked(reads, v1.frontier.subrange(0, 0).to_set())
    } else {
        w1
    }));
    assert(v1.next.no_duplicates());
}

proof fn lemma_ask_and_record(
    reads: spec_fn(Seq<char>) -> Option<(Seq<char>, Seq<Seq<char>>, Seq<Seq<char>>)>,
    start: Seq<char>,
    v: ExplorationView,
)
    requires
        explores(reads, start, v),
        v.current is None,
        v.pos < v.frontier.len(),
    ensures
        ({
            let p = v.frontier[v.pos as int];
            let a = ExplorationView { pos: v.pos + 1, asked: v.asked.push(p), current: Some(p), ..v };
            &&& !v.asked.contains(p)
            &&& within(reads, start, v.level).contains(p)
            &&& explores(reads, start, recorded(a, reads(p)))
        }),
{
    let p = v.frontier[v.pos as int];
    let a = ExplorationView { pos: v.pos + 1, asked: v.asked.push(p), current: Some(p), ..v };
    let r = recorded(a, reads(p));
    let w = within(reads, start, v.level);
    let wp = before(reads, start, v.level);
    let done = v.frontier.subrange(0, v.pos as int);
    let done1 = v.frontier.subrange(0, (v.pos + 1) as int);
    lemma_level_whole(reads, start, v);
    assert(v.frontier.to_set().contains(p));
    assert(!wp.contains(p));
    assert(!done.contains(p)) by {
        if done.contains(p) {
            let j = choose|j: int| 0 <= j < done.len() && done[j] == p;
            assert(v.frontier[j] == v.frontier[v.pos as int]);
        }
    }
    assert(!v.asked.to_set().contains(p));
    assert(done1 =~= done.push(p));
    done.lemma_push_to_set_commute(p);
    v.asked.lemma_push_to_set_commute(p);
    assert(done1.to_set() == done.to_set().insert(p));
    assert(done.to_set().insert(p) =~= done.to_set() + set![p]);
    lemma_linked_union(reads, done.to_set(), set![p]);
    lemma_linked_one(reads, p);
    let links = links_of(reads, p);
    assert(linked(reads, done1.to_set()) == linked(reads, done.to_set()) + links.to_set());
    assert(r.asked.to_set() =~= wp + done1.to_set());
    if v.level < v.max_depth {
        match reads(p) {
            Some((path, tags, ls)) => {
                assert(ls == links);
                lemma_add_new(v.seen, v.next, links);
                let (s2, n2) = add_new(v.seen, v.next, links);
                assert(r.seen == s2 && r.next == n2);
                assert(s2.to_set() =~= w + linked(reads, done1.to_set()));
                assert(n2.to_set() =~= s2.to_set() - w) by {
                    assert forall|y: Seq<char>| #[trigger] (s2.to_set() - w).contains(y) implies n2.to_set().contains(y) by {
                        if v.seen.to_set().contains(y) {
                            assert(v.next.to_set().contains(y));
                        }
                    }
                }
            },
            None => {
                assert(links =~= Seq::<Seq<char>>::empty());
                assert(links.to_set() =~= Set::<Seq<char>>::empty());
                assert(r.seen.to_set() =~= w + linked(reads, done1.to_set()));
            },
        }
    }
    assert(explores(reads, start, r));
}

/// An exploration from `start` is where it should be when it starts, whatever reading each
/// note gives: see `law_exploration_step`.
pub proof fn law_exploration_start(
    reads: spec_fn(Seq<char>) -> Option<(Seq<char>, Seq<Seq<char>>, Seq<Seq<char>>)>,
    start: Seq<char>,
    max_depth: nat,
)
    ensures
        explores(
            reads,
            start,
            ExplorationView {
                max_depth,
                level: 0,
                frontier: seq![start],
                pos: 0,
                next: Seq::empty(),
                seen: seq![start],
                asked: Seq::empty(),
                current: None,
                nodes: Seq::empty(),
                edges: Seq::empty(),
            },
        ),
{
    let v = ExplorationView {
        max_depth,
        level: 0,
        frontier: seq![start],
        pos: 0,
        next: Seq::empty(),
        seen: seq![start],
        asked: Seq::empty(),
        current: None,
        nodes: Seq::empty(),
        edges: Seq::empty(),
    };
    lemma_linked_empty(reads);
    assert(v.frontier.subrange(0, 0).to_set() =~= Set::<Seq<char>>::empty());
    let e = Seq::<Seq<char>>::empty();
    assert(seq![start] =~= e.push(start));
    e.lemma_push_to_set_commute(start);
    assert(e.to_set() =~= Set::<Seq<char>>::empty());
    assert(seq![start].to_set() =~= set![start]);
    assert(v.frontier.to_set() =~= within(reads, start, 0) - before(reads, start, 0));
    assert(v.next.to_set() =~= v.seen.to_set() - within(reads, start, 0));
    assert(v.asked.to_set() =~= before(reads, start, 0) + v.frontier.subrange(0, 0).to_set());
    assert(v.seen.no_duplicates());
    assert(v.frontier.no_duplicates());
    assert(v.next.no_duplicates());
    assert(v.asked.no_duplicates());
    let w = within(reads, start, 0);
    assert(w == set![start]);
    assert(linked(reads, v.frontier.subrange(0, 0).to_set()) =~= Set::<Seq<char>>::empty());
    assert(v.seen.to_set() =~= w + linked(reads, v.frontier.subrange(0, 0).to_set()));
    assert(v.seen.to_set() =~= w);
}

/// Exploring in steps asks for exactly the notes within the greatest depth, each once.
/// Whatever reading each note gives (`reads`), from a state where the exploration is where it
/// should be (as it is at the start): asking for the next note asks for a note within the
/// depth reached, not asked for before, and recording what reading it gives keeps the
/// exploration where it should be; when no note is left to ask for, the notes asked for
/// are exactly those at most `max_depth` hops from the start.
pub proof fn law_exploration_step(
    reads: spec_fn(Seq<char>) -> Option<(Seq<char>, Seq<Seq<char>>, Seq<Seq<char>>)>,
    start: Seq<char>,
    v: ExplorationView,
)
    requires
        explores(reads, start, v),
        v.current is None,
    ensures
        match advanced(v).current {
            Some(p) => {
                &&& !v.asked.contains(p)
                &&& advanced(v).asked == v.asked.push(p)
                &&& within(reads, start, v.max_depth).contains(p)
                &&& explores(reads, start, recorded(advanced(v), reads(p)))
            },
            None => advanced(v).asked.to_set() == within(reads, start, v.max_depth),
        },
{
    let v1 = if v.pos >= v.frontier.len() && v.next.len() > 0 {
        ExplorationView { level: v.level + 1, frontier: v.next, pos: 0, next: Seq::empty(), ..v }
    } else {
        v
    };
    if v.pos >= v.frontier.len() && v.next.len() > 0 {
        lemma_shift(reads, start, v);
    }
    if v1.pos < v1.frontier.len() {
        lemma_ask_and_record(reads, start, v1);
        let p = v1.frontier[v1.pos as int];
        assert(v1.asked == v.asked);
        lemma_within_monotone(reads, start, v1.level, v.max_depth);
    } else {
        lemma_level_whole(reads, start, v);
        let w = within(reads, start, v.level);
        assert(v.frontier.subrange(0, v.pos as int) =~= v.frontier);
        assert(v.asked.to_set() == w);
        if v.level < v.max_depth {
            assert(v.next.to_set() =~= Set::<Seq<char>>::empty());
            assert(linked(reads, v.frontier.to_set()).subset_of(w)) by {
                assert forall|y: Seq<char>| #[trigger] linked(reads, v.frontier.to_set()).contains(y) implies w.contains(y) by {
                    assert(v.seen.to_set().contains(y));
                    assert(!v.next.to_set().contains(y));
                }
            }
            assert(within(reads, start, v.level + 1) =~= w);
            lemma_within_stable(reads, start, v.level, v.max_depth);
        }
    }
}

proof fn lemma_within_monotone(
    reads: spec_fn(Seq<char>) -> Option<(Seq<char>, Seq<Seq<char>>, Seq<Seq<char>>)>,
    start: Seq<char>,
    k: nat,
    m: nat,
)
    requires
        k <= m,
    ensures
        within(reads, start, k).subset_of(within(reads, start, m)),
    decreases m - k,
{
    if m > k {
        lemma_within_monotone(reads, start, k, (m - 1) as nat);
        lemma_within_grows(reads, start, m);
    }
}

/// Each note read during an exploration becomes one node, after those before it, that
/// carries the note's path relative to the vault and its tags: the `#tags` of its text
/// together with the tags of its frontmatter, each once.
pub proof fn law_recorded_node_carries_tags(
    v: ExplorationView,
    n: NoteInfo,
    vault: Seq<char>,
    full_path: Seq<char>,
    content: Seq<char>,
)
    requires
        v.current is Some,
        describes(n, vault, full_path, content),
    ensures
        recorded(v, read_of(Some(&n))).nodes.len() == v.nodes.len() + 1,
        recorded(v, read_of(Some(&n))).nodes.subrange(0, v.nodes.len() as int) == v.nodes,
        recorded(v, read_of(Some(&n))).nodes.last().0 == relative_to(full_path, vault),
        recorded(v, read_of(Some(&n))).nodes.last().1.to_set() == text_tags(content).union(
            frontmatter_tags(note_fields(content)),
        ),
        recorded(v, read_of(Some(&n))).nodes.last().1.no_duplicates(),
{
    let r = recorded(v, read_of(Some(&n)));
    assert(r.nodes =~= v.nodes.push((n.path@, views(n.tags@))));
    assert(r.nodes.subrange(0, v.nodes.len() as int) =~= v.nodes);
}

} // verus!
