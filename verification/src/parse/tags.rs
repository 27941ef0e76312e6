use vstd::prelude::*;

use crate::parse::frontmatter::{pairs_get, Frontmatter};
use crate::text::{chars_of, string_from_chars, string_of, views};

verus! {

/// A set of tags.
#[derive(Debug)]
pub struct TagSet {
    items: Vec<String>,
}

impl View for TagSet {
    type V = Set<Seq<char>>;

    closed spec fn view(&self) -> Set<Seq<char>> {
        views(self.items@).to_set()
    }
}

impl TagSet {
    #[verifier::type_invariant]
    spec fn each_once(self) -> bool {
        views(self.items@).no_duplicates()
    }

    pub fn new() -> (r: Self)
        ensures
            r@ == Set::<Seq<char>>::empty(),
    {
        let r = TagSet { items: Vec::new() };
        proof {
            assert(views(r.items@) =~= Seq::<Seq<char>>::empty());
            assert(r@ =~= Set::<Seq<char>>::empty());
        }
        r
    }

    fn position(&self, tag: &String) -> (r: Option<usize>)
        ensures
            match r {
                Some(i) => i < self.items.len() && self.items@[i as int]@ == tag@,
                None => !self@.contains(tag@),
            },
    {
        let mut i: usize = 0;
        while i < self.items.len()
            invariant
                i <= self.items.len(),
                forall|j: int| 0 <= j < i ==> views(self.items@)[j] != tag@,
            decreases self.items.len() - i,
        {
            if self.items[i] == *tag {
                return Some(i);
            }
            i += 1;
        }
        proof {
            if self@.contains(tag@) {
                let j = choose|j: int| 0 <= j < views(self.items@).len() && views(self.items@)[j] == tag@;
                assert(views(self.items@)[j] != tag@);
            }
        }
        None
    }

    /// Whether `tag` is in the set.
    pub fn contains(&self, tag: &str) -> (r: bool)
        ensures
            r == self@.contains(tag@),
    {
        let t = string_of(tag);
        match self.position(&t) {
            Some(i) => {
                proof {
                    assert(views(self.items@)[i as int] == t@);
                }
                true
            },
            None => false,
        }
    }

    /// Adds `tag`.
    pub fn insert(&mut self, tag: String)
        ensures
            final(self)@ == old(self)@.insert(tag@),
    {
        proof {
            use_type_invariant(&*self);
        }
        match self.position(&tag) {
            Some(i) => {
                proof {
                    assert(views(self.items@)[i as int] == tag@);
                    assert(self@.insert(tag@) =~= self@);
                }
            },
            None => {
                let ghost t = tag@;
                let mut items: Vec<String> = Vec::new();
                std::mem::swap(&mut items, &mut self.items);
                let ghost items0 = items@;
                items.push(tag);
                proof {
                    assert(views(items@) =~= views(items0).push(t));
                    assert(views(items@).no_duplicates()) by {
                        assert forall|i: int, j: int|
                            0 <= i < views(items@).len() && 0 <= j < views(items@).len() && i != j implies views(items@)[i]
                            != views(items@)[j] by {
                            if i == views(items0).len() {
                                assert(views(items0).contains(views(items@)[j]));
                            } else if j == views(items0).len() {
                                assert(views(items0).contains(views(items@)[i]));
                            }
                        }
                    }
                    views(items0).lemma_push_to_set_commute(t);
                }
                self.items = items;
            },
        }
    }

    /// Adds every tag of `other`.
    pub fn extend(&mut self, other: &TagSet)
        ensures
            final(self)@ == old(self)@.union(other@),
    {
        let mut i: usize = 0;
        proof {
            assert(views(other.items@).subrange(0, 0).to_set() =~= Set::<Seq<char>>::empty());
            assert(old(self)@.union(Set::<Seq<char>>::empty()) =~= old(self)@);
        }
        while i < other.items.len()
            invariant
                i <= other.items.len(),
                self@ == old(self)@.union(views(other.items@).subrange(0, i as int).to_set()),
            decreases other.items.len() - i,
        {
            let t = other.items[i].clone();
            self.insert(t);
            proof {
                assert(views(other.items@).subrange(0, i + 1) =~= views(other.items@).subrange(
                    0,
                    i as int,
                ).push(t@));
                views(other.items@).subrange(0, i as int).lemma_push_to_set_commute(t@);
                assert(self@ =~= old(self)@.union(views(other.items@).subrange(0, i + 1).to_set()));
            }
            i += 1;
        }
        proof {
            assert(views(other.items@).subrange(0, other.items.len() as int) =~= views(other.items@));
        }
    }

    /// The tags, each once.
    pub fn to_vec(&self) -> (r: Vec<String>)
        ensures
            views(r@).no_duplicates(),
            views(r@).to_set() == self@,
    {
        proof {
            use_type_invariant(self);
        }
        let mut r: Vec<String> = Vec::new();
        let mut i: usize = 0;
        while i < self.items.len()
            invariant
                i <= self.items.len(),
                views(r@) =~= views(self.items@).subrange(0, i as int),
            decreases self.items.len() - i,
        {
            let t = self.items[i].clone();
            let ghost r0 = r@;
            r.push(t);
            proof {
                assert(views(r@) =~= views(r0).push(t@));
            }
            i += 1;
        }
        proof {
            assert(views(self.items@).subrange(0, self.items.len() as int) =~= views(self.items@));
        }
        r
    }

    /// The number of tags.
    pub fn len(&self) -> (r: usize)
        ensures
            self@.finite(),
            r == self@.len(),
    {
        proof {
            use_type_invariant(self);
            views(self.items@).unique_seq_to_set();
        }
        self.items.len()
    }
}

} // verus!

verus! {

// ----------------------------------------------------------------------------
// Tags in the text: `#` followed by word characters, `/` and `-`.
// ----------------------------------------------------------------------------

/// Whether `regex_syntax::is_word_character` holds of `c`: a Unicode word character, as the
/// `\w` class of a regular expression matches it.
pub uninterp spec fn unicode_word_char(c: char) -> bool;

/// Calls `regex_syntax::is_word_character`. Claimed: its answer is `unicode_word_char(c)`,
/// which depends on `c` alone (the crate's default `unicode-perl` feature is on, so it does
/// not panic).
#[verifier::external_body]
fn is_word_character(c: char) -> (r: bool)
    ensures
        r == unicode_word_char(c),
{
    regex_syntax::is_word_character(c)
}

/// A character that a tag may hold: one of the class `[\w/-]`.
pub open spec fn tag_char(c: char) -> bool {
    unicode_word_char(c) || c == '/' || c == '-'
}

/// The end of the run of tag characters that starts at `j`.
pub open spec fn run_end(s: Seq<char>, j: int) -> int
    decreases s.len() - j,
{
    if j < 0 || j >= s.len() || !tag_char(s[j]) {
        j
    } else {
        run_end(s, j + 1)
    }
}

/// `run_end` ends the run of tag characters from `j` on.
pub proof fn lemma_run_end(s: Seq<char>, j: int)
    requires
        0 <= j <= s.len(),
    ensures
        j <= run_end(s, j) <= s.len(),
        forall|x: int| j <= x < run_end(s, j) ==> tag_char(#[trigger] s[x]),
        run_end(s, j) < s.len() ==> !tag_char(s[run_end(s, j)]),
    decreases s.len() - j,
{
    if j < s.len() && tag_char(s[j]) {
        lemma_run_end(s, j + 1);
    }
}

/// A `#` at position `i` may start a tag: it starts the text, or the character before it
/// is neither `#`, `[` nor a word character (so `a#b` and `[[Note#Part]]` hold no tag).
pub open spec fn tag_may_start(s: Seq<char>, i: int) -> bool {
    i == 0 || !(s[i - 1] == '#' || s[i - 1] == '[' || unicode_word_char(s[i - 1]))
}

/// The tags of `s` from position `i` on, found left to right as a regular-expression search
/// for `(?<![#\w\[])#([\w/-]+)` finds them: the longest run of tag characters after a `#`
/// that may start a tag.
pub open spec fn tags_from(s: Seq<char>, i: int) -> Seq<Seq<char>>
    decreases s.len() - i,
{
    if i < 0 || i >= s.len() {
        Seq::empty()
    } else if s[i] == '#' && tag_may_start(s, i) && i + 1 < s.len() && tag_char(s[i + 1]) {
        proof {
            lemma_run_end(s, i + 1);
        }
        seq![s.subrange(i + 1, run_end(s, i + 1))] + tags_from(s, run_end(s, i + 1))
    } else {
        tags_from(s, i + 1)
    }
}

/// A tag as the text writes it: a non-empty run of tag characters.
pub open spec fn tag_shape(t: Seq<char>) -> bool {
    t.len() > 0 && forall|x: int| 0 <= x < t.len() ==> tag_char(#[trigger] t[x])
}

/// `t` stands in `s` right after a `#` that may start a tag.
pub open spec fn after_hash(s: Seq<char>, t: Seq<char>) -> bool {
    exists|p: int|
        0 <= p && p + 1 + t.len() <= s.len() && s[p] == '#' && tag_may_start(s, p) && #[trigger] s.subrange(
            p + 1,
            p + 1 + t.len(),
        ) == t
}

proof fn lemma_tags_from_shape(s: Seq<char>, i: int)
    ensures
        forall|k: int|
            0 <= k < tags_from(s, i).len() ==> tag_shape(#[trigger] tags_from(s, i)[k]) && after_hash(s, tags_from(s, i)[k]),
    decreases s.len() - i,
{
    if 0 <= i < s.len() {
        if s[i] == '#' && tag_may_start(s, i) && i + 1 < s.len() && tag_char(s[i + 1]) {
            lemma_run_end(s, i + 1);
            let e = run_end(s, i + 1);
            lemma_tags_from_shape(s, e);
            let t = s.subrange(i + 1, e);
            assert forall|x: int| 0 <= x < t.len() implies tag_char(#[trigger] t[x]) by {
                assert(t[x] == s[i + 1 + x]);
            }
            assert(s.subrange(i + 1, i + 1 + t.len()) == t);
            assert(after_hash(s, t));
            let rest = tags_from(s, e);
            assert forall|k: int| 0 <= k < tags_from(s, i).len() implies tag_shape(#[trigger] tags_from(s, i)[k])
                && after_hash(s, tags_from(s, i)[k]) by {
                if k > 0 {
                    assert(tags_from(s, i)[k] == rest[k - 1]);
                }
            }
        } else {
            lemma_tags_from_shape(s, i + 1);
            assert(tags_from(s, i) == tags_from(s, i + 1));
        }
    }
}

/// Every tag found in a text is a non-empty run of word characters, `/` and `-` that
/// stands in the text right after a `#` that starts the text or follows a character other
/// than `#`, `[` and a word character.
pub proof fn law_text_tags_shape(s: Seq<char>, t: Seq<char>)
    requires
        text_tags(s).contains(t),
    ensures
        tag_shape(t),
        after_hash(s, t),
{
    lemma_tags_from_shape(s, 0);
    let k = choose|k: int| 0 <= k < tags_from(s, 0).len() && tags_from(s, 0)[k] == t;
    assert(tag_shape(tags_from(s, 0)[k]));
}

/// The tags written in the text `s`.
pub open spec fn text_tags(s: Seq<char>) -> Set<Seq<char>> {
    tags_from(s, 0).to_set()
}

/// The tags written in `content`: each `#` that starts the text or follows a character other
/// than `#`, `[` and a word character, and is followed by a run of word characters, `/` and
/// `-`, gives the run.
pub fn extract_tags(content: &str) -> (r: TagSet)
    ensures
        r@ == text_tags(content@),
{
    let cs = chars_of(content);
    let n = cs.len();
    let mut tags = TagSet::new();
    let ghost mut found: Seq<Seq<char>> = Seq::empty();
    let mut i: usize = 0;
    proof {
        assert(found + tags_from(cs@, 0) =~= tags_from(cs@, 0));
    }
    while i < n
        invariant
            n == cs.len(),
            cs@ == content@,
            i <= n,
            found + tags_from(cs@, i as int) == tags_from(cs@, 0),
            tags@ == found.to_set(),
        decreases n - i,
    {
        if cs[i] == '#' && (i == 0 || !(cs[i - 1] == '#' || cs[i - 1] == '[' || is_word_character(
            cs[i - 1],
        ))) && i + 1 < n && (is_word_character(cs[i + 1]) || cs[i + 1] == '/' || cs[i + 1] == '-') {
            let mut e = i + 1;
            while e < n && (is_word_character(cs[e]) || cs[e] == '/' || cs[e] == '-')
                invariant
                    n == cs.len(),
                    i + 1 <= e <= n,
                    run_end(cs@, i + 1) == run_end(cs@, e as int),
                decreases n - e,
            {
                e += 1;
            }
            let tag = string_from_chars(vstd::slice::slice_subrange(cs.as_slice(), i + 1, e));
            proof {
                let t = cs@.subrange(i + 1, e as int);
                assert(tags_from(cs@, i as int) == seq![t] + tags_from(cs@, e as int));
                assert(found.push(t) + tags_from(cs@, e as int) =~= found + (seq![t] + tags_from(
                    cs@,
                    e as int,
                )));
                found.lemma_push_to_set_commute(t);
                found = found.push(t);
            }
            tags.insert(tag);
            i = e;
        } else {
            i += 1;
        }
    }
    proof {
        assert(found + tags_from(cs@, i as int) =~= found);
    }
    tags
}

} // verus!

verus! {

// ----------------------------------------------------------------------------
// Tags in the frontmatter: the `tags` and `tag` fields, split at commas.
// ----------------------------------------------------------------------------

/// `c` has the Unicode `White_Space` property, as `char::is_whitespace` and `str::trim`
/// take it: U+0009 to U+000D, U+0020, U+0085, U+00A0, U+1680, U+2000 to U+200A, U+2028,
/// U+2029, U+202F, U+205F and U+3000.
pub open spec fn white_space(c: char) -> bool {
    ||| '\u{9}' <= c <= '\u{d}'
    ||| c == ' '
    ||| c == '\u{85}'
    ||| c == '\u{a0}'
    ||| c == '\u{1680}'
    ||| '\u{2000}' <= c <= '\u{200a}'
    ||| c == '\u{2028}'
    ||| c == '\u{2029}'
    ||| c == '\u{202f}'
    ||| c == '\u{205f}'
    ||| c == '\u{3000}'
}

/// Whether `c` is white space, as `white_space` says.
pub fn is_white_space(c: char) -> (r: bool)
    ensures
        r == white_space(c),
{
    ('\u{9}' <= c && c <= '\u{d}') || c == ' ' || c == '\u{85}' || c == '\u{a0}' || c == '\u{1680}'
        || ('\u{2000}' <= c && c <= '\u{200a}') || c == '\u{2028}' || c == '\u{2029}' || c
        == '\u{202f}' || c == '\u{205f}' || c == '\u{3000}'
}

/// The pieces of `s` between commas, as `str::split(',')` gives them (at least one).
pub open spec fn split_commas(s: Seq<char>) -> Seq<Seq<char>>
    decreases s.len(),
{
    if s.len() == 0 {
        seq![Seq::empty()]
    } else {
        let p = split_commas(s.drop_last());
        if s.last() == ',' {
            p.push(Seq::empty())
        } else {
            p.update(p.len() - 1, p.last().push(s.last()))
        }
    }
}

/// `s` without the white space it starts with.
pub open spec fn trim_start_ws(s: Seq<char>) -> Seq<char>
    decreases s.len(),
{
    if s.len() > 0 && white_space(s[0]) {
        trim_start_ws(s.subrange(1, s.len() as int))
    } else {
        s
    }
}

/// `s` without the white space it ends with.
pub open spec fn trim_end_ws(s: Seq<char>) -> Seq<char>
    decreases s.len(),
{
    if s.len() > 0 && white_space(s.last()) {
        trim_end_ws(s.drop_last())
    } else {
        s
    }
}

/// `s` without the `#` characters it starts with.
pub open spec fn strip_hashes(s: Seq<char>) -> Seq<char>
    decreases s.len(),
{
    if s.len() > 0 && s[0] == '#' {
        strip_hashes(s.subrange(1, s.len() as int))
    } else {
        s
    }
}

/// The tag a piece of a field gives: trimmed of white space, then of leading `#`.
pub open spec fn piece_tag(p: Seq<char>) -> Seq<char> {
    strip_hashes(trim_end_ws(trim_start_ws(p)))
}

/// The non-empty tags of the pieces.
pub open spec fn pieces_tags(pieces: Seq<Seq<char>>) -> Set<Seq<char>> {
    Set::new(
        |t: Seq<char>|
            t.len() > 0 && exists|j: int| 0 <= j < pieces.len() && #[trigger] piece_tag(pieces[j]) == t,
    )
}

/// The tags of the field `key`, if the frontmatter has it.
pub open spec fn field_tags(fm: Seq<(Seq<char>, Seq<char>)>, key: Seq<char>) -> Set<Seq<char>> {
    match pairs_get(fm, key) {
        Some(v) => pieces_tags(split_commas(v)),
        None => Set::empty(),
    }
}

/// The tags of a frontmatter: those of its `tags` field and of its `tag` field.
pub open spec fn frontmatter_tags(fm: Seq<(Seq<char>, Seq<char>)>) -> Set<Seq<char>> {
    field_tags(fm, seq!['t', 'a', 'g', 's']).union(field_tags(fm, seq!['t', 'a', 'g']))
}

proof fn lemma_trim_start_skip(s: Seq<char>, k: int)
    requires
        0 <= k <= s.len(),
        forall|x: int| 0 <= x < k ==> white_space(#[trigger] s[x]),
    ensures
        trim_start_ws(s) == trim_start_ws(s.subrange(k, s.len() as int)),
    decreases k,
{
    if k > 0 {
        let t = s.subrange(1, s.len() as int);
        assert(white_space(s[0]));
        assert forall|x: int| 0 <= x < k - 1 implies white_space(#[trigger] t[x]) by {
            assert(t[x] == s[x + 1]);
        }
        lemma_trim_start_skip(t, k - 1);
        assert(t.subrange(k - 1, t.len() as int) =~= s.subrange(k, s.len() as int));
    } else {
        assert(s.subrange(0, s.len() as int) =~= s);
    }
}

proof fn lemma_trim_end_skip(s: Seq<char>, k: int)
    requires
        0 <= k <= s.len(),
        forall|x: int| k <= x < s.len() ==> white_space(#[trigger] s[x]),
    ensures
        trim_end_ws(s) == trim_end_ws(s.subrange(0, k)),
    decreases s.len() - k,
{
    if k < s.len() {
        let t = s.drop_last();
        assert(white_space(s[s.len() - 1]));
        assert forall|x: int| k <= x < t.len() implies white_space(#[trigger] t[x]) by {
            assert(t[x] == s[x]);
        }
        lemma_trim_end_skip(t, k);
        assert(t.subrange(0, k) =~= s.subrange(0, k));
    } else {
        assert(s.subrange(0, k) =~= s);
    }
}

proof fn lemma_strip_hashes_skip(s: Seq<char>, k: int)
    requires
        0 <= k <= s.len(),
        forall|x: int| 0 <= x < k ==> #[trigger] s[x] == '#',
    ensures
        strip_hashes(s) == strip_hashes(s.subrange(k, s.len() as int)),
    decreases k,
{
    if k > 0 {
        let t = s.subrange(1, s.len() as int);
        assert(s[0] == '#');
        assert forall|x: int| 0 <= x < k - 1 implies #[trigger] t[x] == '#' by {
            assert(t[x] == s[x + 1]);
        }
        lemma_strip_hashes_skip(t, k - 1);
        assert(t.subrange(k - 1, t.len() as int) =~= s.subrange(k, s.len() as int));
    } else {
        assert(s.subrange(0, s.len() as int) =~= s);
    }
}

/// The bounds, within `cs[a..b]`, of the tag that this piece gives.
fn piece_tag_bounds(cs: &Vec<char>, a: usize, b: usize) -> (r: (usize, usize))
    requires
        a <= b <= cs.len(),
    ensures
        a <= r.0 <= r.1 <= b,
        cs@.subrange(r.0 as int, r.1 as int) == piece_tag(cs@.subrange(a as int, b as int)),
{
    let ghost p = cs@.subrange(a as int, b as int);
    let mut s = a;
    while s < b && is_white_space(cs[s])
        invariant
            a <= s <= b <= cs.len(),
            forall|x: int| a <= x < s ==> white_space(#[trigger] cs@[x]),
        decreases b - s,
    {
        s += 1;
    }
    proof {
        assert forall|x: int| 0 <= x < s - a implies white_space(#[trigger] p[x]) by {
            assert(p[x] == cs@[a + x]);
        }
        lemma_trim_start_skip(p, s - a);
        assert(p.subrange(s - a, p.len() as int) =~= cs@.subrange(s as int, b as int));
        let q = cs@.subrange(s as int, b as int);
        if q.len() > 0 {
            assert(q[0] == cs@[s as int]);
        }
    }
    let mut e = b;
    while e > s && is_white_space(cs[e - 1])
        invariant
            a <= s <= e <= b <= cs.len(),
            forall|x: int| e <= x < b ==> white_space(#[trigger] cs@[x]),
        decreases e - s,
    {
        e -= 1;
    }
    proof {
        let q = cs@.subrange(s as int, b as int);
        assert forall|x: int| e - s <= x < q.len() implies white_space(#[trigger] q[x]) by {
            assert(q[x] == cs@[s + x]);
        }
        lemma_trim_end_skip(q, e - s);
        assert(q.subrange(0, e - s) =~= cs@.subrange(s as int, e as int));
        let q2 = cs@.subrange(s as int, e as int);
        if q2.len() > 0 {
            assert(q2.last() == cs@[e - 1]);
        }
    }
    let mut h = s;
    while h < e && cs[h] == '#'
        invariant
            s <= h <= e <= cs.len(),
            forall|x: int| s <= x < h ==> #[trigger] cs@[x] == '#',
        decreases e - h,
    {
        h += 1;
    }
    proof {
        let q2 = cs@.subrange(s as int, e as int);
        assert forall|x: int| 0 <= x < h - s implies #[trigger] q2[x] == '#' by {
            assert(q2[x] == cs@[s + x]);
        }
        lemma_strip_hashes_skip(q2, h - s);
        assert(q2.subrange(h - s, q2.len() as int) =~= cs@.subrange(h as int, e as int));
        let q3 = cs@.subrange(h as int, e as int);
        if q3.len() > 0 {
            assert(q3[0] == cs@[h as int]);
        }
    }
    (h, e)
}

/// The tags of one frontmatter value.
fn value_tags(value: &String, tags: &mut TagSet)
    ensures
        final(tags)@ == old(tags)@.union(pieces_tags(split_commas(value@))),
{
    let cs = chars_of(value.as_str());
    let n = cs.len();
    let mut start: usize = 0;
    let mut i: usize = 0;
    let ghost mut done: Seq<Seq<char>> = Seq::empty();
    proof {
        assert(cs@.subrange(0, 0) =~= Seq::<char>::empty());
        assert(split_commas(cs@.subrange(0, 0)) =~= done.push(cs@.subrange(0, 0)));
        assert(pieces_tags(done) =~= Set::<Seq<char>>::empty());
        assert(old(tags)@.union(Set::<Seq<char>>::empty()) =~= old(tags)@);
    }
    while i < n
        invariant
            n == cs.len(),
            cs@ == value@,
            start <= i <= n,
            split_commas(cs@.subrange(0, i as int)) == done.push(cs@.subrange(start as int, i as int)),
            tags@ == old(tags)@.union(pieces_tags(done)),
        decreases n - i,
    {
        proof {
            let t = cs@.subrange(0, i + 1);
            assert(t.drop_last() =~= cs@.subrange(0, i as int));
            assert(t.last() == cs@[i as int]);
        }
        if cs[i] == ',' {
            let (a, b) = piece_tag_bounds(&cs, start, i);
            if a < b {
                let tag = string_from_chars(vstd::slice::slice_subrange(cs.as_slice(), a, b));
                tags.insert(tag);
            }
            proof {
                let piece = cs@.subrange(start as int, i as int);
                let nd = done.push(piece);
                assert(split_commas(cs@.subrange(0, i + 1)) == done.push(piece).push(Seq::empty()));
                assert(cs@.subrange(i + 1, i + 1) =~= Seq::<char>::empty());
                assert forall|t: Seq<char>| #[trigger] pieces_tags(nd).contains(t) <==> (pieces_tags(done).contains(t) || (t.len() > 0 && t == piece_tag(piece))) by {
                    if pieces_tags(nd).contains(t) {
                        let j = choose|j: int| 0 <= j < nd.len() && #[trigger] piece_tag(nd[j]) == t;
                        if j < done.len() {
                            assert(nd[j] == done[j]);
                        }
                    }
                    if pieces_tags(done).contains(t) {
                        let j = choose|j: int| 0 <= j < done.len() && #[trigger] piece_tag(done[j]) == t;
                        assert(nd[j] == done[j]);
                    }
                    if t.len() > 0 && t == piece_tag(piece) {
                        assert(nd[done.len() as int] == piece);
                    }
                }
                if a < b {
                    assert(tags@ =~= old(tags)@.union(pieces_tags(nd)));
                } else {
                    assert(tags@ =~= old(tags)@.union(pieces_tags(nd)));
                }
                done = nd;
            }
            start = i + 1;
        } else {
            proof {
                let piece = cs@.subrange(start as int, i as int);
                let p = split_commas(cs@.subrange(0, i as int));
                assert(p.len() - 1 == done.len());
                assert(cs@.subrange(start as int, i + 1) =~= piece.push(cs@[i as int]));
                assert(split_commas(cs@.subrange(0, i + 1)) =~= done.push(cs@.subrange(start as int, i + 1)));
            }
        }
        i += 1;
    }
    let (a, b) = piece_tag_bounds(&cs, start, n);
    if a < b {
        let tag = string_from_chars(vstd::slice::slice_subrange(cs.as_slice(), a, b));
        tags.insert(tag);
    }
    proof {
        let piece = cs@.subrange(start as int, n as int);
        let nd = done.push(piece);
        assert(cs@.subrange(0, n as int) =~= cs@);
        assert forall|t: Seq<char>| #[trigger] pieces_tags(nd).contains(t) <==> (pieces_tags(done).contains(t) || (t.len() > 0 && t == piece_tag(piece))) by {
            if pieces_tags(nd).contains(t) {
                let j = choose|j: int| 0 <= j < nd.len() && #[trigger] piece_tag(nd[j]) == t;
                if j < done.len() {
                    assert(nd[j] == done[j]);
                }
            }
            if pieces_tags(done).contains(t) {
                let j = choose|j: int| 0 <= j < done.len() && #[trigger] piece_tag(done[j]) == t;
                assert(nd[j] == done[j]);
            }
            if t.len() > 0 && t == piece_tag(piece) {
                assert(nd[done.len() as int] == piece);
            }
        }
        assert(tags@ =~= old(tags)@.union(pieces_tags(nd)));
    }
}

/// The tags of the `tags` and `tag` fields: each field split at commas, each piece trimmed
/// of white space and then of leading `#`, the empty ones left out.
pub fn extract_tags_from_frontmatter(frontmatter: &Frontmatter) -> (r: TagSet)
    ensures
        r@ == frontmatter_tags(frontmatter@),
{
    let mut tags = TagSet::new();
    let key1 = string_from_chars(&['t', 'a', 'g', 's']);
    let key2 = string_from_chars(&['t', 'a', 'g']);
    proof {
        assert(Set::<Seq<char>>::empty().union(Set::<Seq<char>>::empty()) =~= Set::<Seq<char>>::empty());
    }
    match frontmatter.get(key1.as_str()) {
        Some(v) => value_tags(v, &mut tags),
        None => {},
    }
    let ghost after1 = tags@;
    match frontmatter.get(key2.as_str()) {
        Some(v) => value_tags(v, &mut tags),
        None => {},
    }
    proof {
        assert(key1@ =~= seq!['t', 'a', 'g', 's']);
        assert(key2@ =~= seq!['t', 'a', 'g']);
        assert(after1 =~= field_tags(frontmatter@, key1@));
        assert(tags@ =~= frontmatter_tags(frontmatter@));
    }
    tags
}

/// All tags of a note: those in its text and those of its frontmatter.
pub fn all_tags(content: &str, frontmatter: &Frontmatter) -> (r: TagSet)
    ensures
        r@ == text_tags(content@).union(frontmatter_tags(frontmatter@)),
{
    let mut tags = extract_tags(content);
    let more = extract_tags_from_frontmatter(frontmatter);
    tags.extend(&more);
    tags
}

proof fn lemma_strip_hashes_head(s: Seq<char>)
    ensures
        strip_hashes(s).len() > 0 ==> strip_hashes(s)[0] != '#',
    decreases s.len(),
{
    if s.len() > 0 && s[0] == '#' {
        lemma_strip_hashes_head(s.subrange(1, s.len() as int));
    }
}

/// Every tag of a frontmatter is non-empty and does not start with `#`.
pub proof fn law_frontmatter_tags_shape(fm: Seq<(Seq<char>, Seq<char>)>, t: Seq<char>)
    requires
        frontmatter_tags(fm).contains(t),
    ensures
        t.len() > 0,
        t[0] != '#',
{
    let key = if field_tags(fm, seq!['t', 'a', 'g', 's']).contains(t) {
        seq!['t', 'a', 'g', 's']
    } else {
        seq!['t', 'a', 'g']
    };
    let v = pairs_get(fm, key)->Some_0;
    let pieces = split_commas(v);
    let j = choose|j: int| 0 <= j < pieces.len() && #[trigger] piece_tag(pieces[j]) == t;
    lemma_strip_hashes_head(trim_end_ws(trim_start_ws(pieces[j])));
}

} // verus!
