use vstd::prelude::*;

use crate::paths::{
    file_stem, file_stem_of, forward_slashes, is_markdown, is_markdown_path, is_safe_relative,
    join_path, parts_bounds, path_join, relative_to, safe_relative,
    trailing_trimmed_len,
};
use crate::text::{chars_of, lowercase, lowercase_of, string_from_chars, views};

verus! {

/// A `[[target]]` or `[[target|alias]]` link in a note.
#[derive(Debug, Clone)]
pub struct Wikilink {
    pub target: String,
    pub alias: Option<String>,
    pub raw: String,
}

/// The text of a link: its target, its alias if it has one, and the whole link as written.
pub open spec fn link_view(l: Wikilink) -> (Seq<char>, Option<Seq<char>>, Seq<char>) {
    (
        l.target@,
        match l.alias {
            Some(a) => Some(a@),
            None => None,
        },
        l.raw@,
    )
}

/// The first position from `k` on that holds `]` or `|`, or the length when there is none.
pub open spec fn first_stop(s: Seq<char>, k: int) -> int
    decreases s.len() - k,
{
    if k < 0 || k >= s.len() {
        s.len() as int
    } else if s[k] == ']' || s[k] == '|' {
        k
    } else {
        first_stop(s, k + 1)
    }
}

/// The first position from `k` on that holds `]`, or the length when there is none.
pub open spec fn first_bracket(s: Seq<char>, k: int) -> int
    decreases s.len() - k,
{
    if k < 0 || k >= s.len() {
        s.len() as int
    } else if s[k] == ']' {
        k
    } else {
        first_bracket(s, k + 1)
    }
}

/// `]]` starts at position `k`.
pub open spec fn closes_at(s: Seq<char>, k: int) -> bool {
    0 <= k && k + 1 < s.len() && s[k] == ']' && s[k + 1] == ']'
}

/// The link that starts at position `i`, if one does: the position `j` where its target
/// ends, and, when it has an alias, the position where the alias ends. The target is the
/// non-empty text after `[[` up to the first `]` or `|`; then either `]]` follows, or `|`,
/// a non-empty alias up to the next `]`, and `]]`.
pub open spec fn link_at(s: Seq<char>, i: int) -> Option<(int, Option<int>)> {
    if !(0 <= i && i + 1 < s.len() && s[i] == '[' && s[i + 1] == '[') {
        None
    } else {
        let j = first_stop(s, i + 2);
        if j >= s.len() || j == i + 2 {
            None
        } else if s[j] == ']' {
            if closes_at(s, j) {
                Some((j, None))
            } else {
                None
            }
        } else {
            let m = first_bracket(s, j + 1);
            if m > j + 1 && closes_at(s, m) {
                Some((j, Some(m)))
            } else {
                None
            }
        }
    }
}

/// Where the link found at `i` ends.
pub open spec fn link_stop(r: (int, Option<int>)) -> int {
    match r.1 {
        Some(m) => m + 2,
        None => r.0 + 2,
    }
}

/// `first_stop` finds the first `]` or `|` from `k` on, or the end.
pub proof fn lemma_first_stop(s: Seq<char>, k: int)
    requires
        0 <= k,
    ensures
        k <= first_stop(s, k) <= s.len() || (k > s.len() && first_stop(s, k) == s.len()),
        first_stop(s, k) < s.len() ==> (s[first_stop(s, k)] == ']' || s[first_stop(s, k)] == '|'),
        forall|x: int| k <= x < first_stop(s, k) ==> s[x] != ']' && s[x] != '|',
    decreases s.len() - k,
{
    if k < s.len() && !(s[k] == ']' || s[k] == '|') {
        lemma_first_stop(s, k + 1);
    }
}

/// `first_bracket` finds the first `]` from `k` on, or the end.
pub proof fn lemma_first_bracket(s: Seq<char>, k: int)
    requires
        0 <= k,
    ensures
        k <= first_bracket(s, k) <= s.len() || (k > s.len() && first_bracket(s, k) == s.len()),
        first_bracket(s, k) < s.len() ==> s[first_bracket(s, k)] == ']',
        forall|x: int| k <= x < first_bracket(s, k) ==> s[x] != ']',
    decreases s.len() - k,
{
    if k < s.len() && s[k] != ']' {
        lemma_first_bracket(s, k + 1);
    }
}

/// Where the target of the link at `i` ends.
pub open spec fn target_end(s: Seq<char>, i: int) -> int {
    match link_at(s, i) {
        Some(r) => r.0,
        None => 0,
    }
}

/// Where the alias of the link at `i` ends, if it has one.
pub open spec fn alias_end(s: Seq<char>, i: int) -> Option<int> {
    match link_at(s, i) {
        Some(r) => r.1,
        None => None,
    }
}

/// Where the link at `i` ends.
pub open spec fn link_end(s: Seq<char>, i: int) -> int {
    match link_at(s, i) {
        Some(r) => link_stop(r),
        None => 0,
    }
}

/// A link found at `i` reaches past `i + 3` and stays within the text.
pub proof fn lemma_link_at(s: Seq<char>, i: int)
    requires
        link_at(s, i) is Some,
    ensures
        i + 2 < target_end(s, i) < s.len(),
        i + 4 <= link_end(s, i) <= s.len(),
        forall|x: int| i + 2 <= x < target_end(s, i) ==> s[x] != ']' && s[x] != '|',
        alias_end(s, i) matches Some(m) ==> {
            &&& target_end(s, i) + 1 < m
            &&& s[target_end(s, i)] == '|'
            &&& forall|x: int| target_end(s, i) < x < m ==> s[x] != ']'
            &&& closes_at(s, m)
            &&& link_end(s, i) == m + 2
        },
        alias_end(s, i) is None ==> closes_at(s, target_end(s, i)) && link_end(s, i) == target_end(s, i) + 2,
{
    lemma_first_stop(s, i + 2);
    let j = first_stop(s, i + 2);
    if s[j] != ']' {
        lemma_first_bracket(s, j + 1);
    }
}

/// The links of `s` from position `i` on, found left to right as a regular-expression search
/// for `\[\[([^\]|]+?)(?:\|([^\]]+?))?\]\]` finds them: each as its target, alias and text.
pub open spec fn links_from(s: Seq<char>, i: int) -> Seq<(Seq<char>, Option<Seq<char>>, Seq<char>)>
    decreases s.len() - i,
{
    if i < 0 || i >= s.len() {
        Seq::empty()
    } else {
        match link_at(s, i) {
            Some(r) => {
                proof {
                    lemma_link_at(s, i);
                }
                seq![
                    (
                        s.subrange(i + 2, r.0),
                        match r.1 {
                            Some(m) => Some(s.subrange(r.0 + 1, m)),
                            None => None,
                        },
                        s.subrange(i, link_stop(r)),
                    ),
                ] + links_from(s, link_stop(r))
            },
            None => links_from(s, i + 1),
        }
    }
}

} // verus!

verus! {

proof fn lemma_first_stop_skip(s: Seq<char>, a: int, b: int)
    requires
        0 <= a <= b,
        b <= s.len(),
        forall|x: int| a <= x < b ==> #[trigger] s[x] != ']' && s[x] != '|',
    ensures
        first_stop(s, a) == first_stop(s, b),
    decreases b - a,
{
    if a < b {
        lemma_first_stop_skip(s, a + 1, b);
    }
}

proof fn lemma_first_bracket_skip(s: Seq<char>, a: int, b: int)
    requires
        0 <= a <= b,
        b <= s.len(),
        forall|x: int| a <= x < b ==> #[trigger] s[x] != ']',
    ensures
        first_bracket(s, a) == first_bracket(s, b),
    decreases b - a,
{
    if a < b {
        lemma_first_bracket_skip(s, a + 1, b);
    }
}

/// The shape of a link found in a text: its text is `[[target]]` or `[[target|alias]]`, the
/// target non-empty and free of `]` and `|`, the alias non-empty and free of `]`.
pub open spec fn link_shape(l: (Seq<char>, Option<Seq<char>>, Seq<char>)) -> bool {
    &&& l.0.len() > 0
    &&& forall|x: int| 0 <= x < l.0.len() ==> #[trigger] l.0[x] != ']' && l.0[x] != '|'
    &&& match l.1 {
        Some(a) => {
            &&& a.len() > 0
            &&& forall|x: int| 0 <= x < a.len() ==> #[trigger] a[x] != ']'
            &&& l.2 == seq!['[', '['] + l.0 + seq!['|'] + a + seq![']', ']']
        },
        None => l.2 == seq!['[', '['] + l.0 + seq![']', ']'],
    }
}

/// Every link found in a text has the shape of a link: `[[target]]` or `[[target|alias]]`.
pub proof fn law_links_have_link_shape(s: Seq<char>, i: int)
    ensures
        forall|k: int| 0 <= k < links_from(s, i).len() ==> #[trigger] link_shape(links_from(s, i)[k]),
    decreases s.len() - i,
{
    if 0 <= i < s.len() {
        match link_at(s, i) {
            Some(r) => {
                lemma_link_at(s, i);
                law_links_have_link_shape(s, link_stop(r));
                let l = links_from(s, i)[0];
                let t = s.subrange(i + 2, r.0);
                assert(l.0 == t);
                assert forall|x: int| 0 <= x < t.len() implies #[trigger] t[x] != ']' && t[x] != '|' by {
                    assert(t[x] == s[i + 2 + x]);
                }
                match r.1 {
                    Some(m) => {
                        let a = s.subrange(r.0 + 1, m);
                        assert forall|x: int| 0 <= x < a.len() implies #[trigger] a[x] != ']' by {
                            assert(a[x] == s[r.0 + 1 + x]);
                        }
                        assert(l.2 =~= seq!['[', '['] + t + seq!['|'] + a + seq![']', ']']);
                    },
                    None => {
                        assert(l.2 =~= seq!['[', '['] + t + seq![']', ']']);
                    },
                }
                assert(link_shape(l));
                let rest = links_from(s, link_stop(r));
                assert forall|k: int| 0 <= k < links_from(s, i).len() implies #[trigger] link_shape(links_from(s, i)[k]) by {
                    if k > 0 {
                        assert(links_from(s, i)[k] == rest[k - 1]);
                    }
                }
            },
            None => {
                law_links_have_link_shape(s, i + 1);
                assert(links_from(s, i) == links_from(s, i + 1));
            },
        }
    }
}

/// The link that starts at position `i`, as `link_at` says.
fn link_at_exec(cs: &Vec<char>, i: usize) -> (r: Option<(usize, Option<usize>)>)
    requires
        i < cs.len(),
    ensures
        link_at(cs@, i as int) == (match r {
            Some(x) => Some(
                (
                    x.0 as int,
                    match x.1 {
                        Some(m) => Some(m as int),
                        None => None,
                    },
                ),
            ),
            None => None,
        }),
{
    let n = cs.len();
    if !(i + 1 < n && cs[i] == '[' && cs[i + 1] == '[') {
        return None;
    }
    let mut j = i + 2;
    while j < n && cs[j] != ']' && cs[j] != '|'
        invariant
            n == cs.len(),
            i + 2 <= j <= n,
            forall|x: int| i + 2 <= x < j ==> cs@[x] != ']' && cs@[x] != '|',
        decreases n - j,
    {
        j += 1;
    }
    proof {
        lemma_first_stop_skip(cs@, i + 2, j as int);
    }
    if j >= n || j == i + 2 {
        return None;
    }
    if cs[j] == ']' {
        if j + 1 < n && cs[j + 1] == ']' {
            return Some((j, None));
        } else {
            return None;
        }
    }
    let mut m = j + 1;
    while m < n && cs[m] != ']'
        invariant
            n == cs.len(),
            j + 1 <= m <= n,
            forall|x: int| j + 1 <= x < m ==> cs@[x] != ']',
        decreases n - m,
    {
        m += 1;
    }
    proof {
        lemma_first_bracket_skip(cs@, j + 1, m as int);
    }
    if m > j + 1 && m < n && n - m > 1 && cs[m] == ']' && cs[m + 1] == ']' {
        Some((j, Some(m)))
    } else {
        None
    }
}

/// The links of `content`, in order, found as the search for
/// `\[\[([^\]|]+?)(?:\|([^\]]+?))?\]\]` finds them.
pub fn extract_wikilinks(content: &str) -> (r: Vec<Wikilink>)
    ensures
        r@.map_values(|l: Wikilink| link_view(l)) == links_from(content@, 0),
{
    let cs = chars_of(content);
    let n = cs.len();
    let mut links: Vec<Wikilink> = Vec::new();
    let mut i: usize = 0;
    proof {
        assert(links@.map_values(|l: Wikilink| link_view(l)) + links_from(cs@, 0) =~= links_from(cs@, 0));
    }
    while i < n
        invariant
            n == cs.len(),
            cs@ == content@,
            i <= n,
            links@.map_values(|l: Wikilink| link_view(l)) + links_from(cs@, i as int) == links_from(
                cs@,
                0,
            ),
        decreases n - i,
    {
        match link_at_exec(&cs, i) {
            Some((j, a)) => {
                proof {
                    lemma_link_at(cs@, i as int);
                }
                let target = string_from_chars(vstd::slice::slice_subrange(cs.as_slice(), i + 2, j));
                let (alias, stop) = match a {
                    Some(m) => (
                        Some(string_from_chars(vstd::slice::slice_subrange(cs.as_slice(), j + 1, m))),
                        m + 2,
                    ),
                    None => (None, j + 2),
                };
                let raw = string_from_chars(vstd::slice::slice_subrange(cs.as_slice(), i, stop));
                let link = Wikilink { target, alias, raw };
                let ghost before = links@.map_values(|l: Wikilink| link_view(l));
                links.push(link);
                proof {
                    assert(links@.map_values(|l: Wikilink| link_view(l)) =~= before.push(link_view(link)));
                    assert(links_from(cs@, i as int) == seq![link_view(link)] + links_from(cs@, stop as int));
                    assert(before.push(link_view(link)) + links_from(cs@, stop as int) =~= before + (seq![link_view(link)] + links_from(cs@, stop as int)));
                }
                i = stop;
            },
            None => {
                i += 1;
            },
        }
    }
    proof {
        assert(links@.map_values(|l: Wikilink| link_view(l)) + links_from(cs@, i as int) =~= links@.map_values(|l: Wikilink| link_view(l)));
    }
    links
}

/// `path` relative to the directory `vault_path`, with forward slashes, as `relative_to`
/// says; `path` itself, with forward slashes, when it does not lie in that directory.
pub fn relative_path(path: &str, vault_path: &str) -> (r: String)
    ensures
        r@ == relative_to(path@, vault_path@),
{
    let p = chars_of(path);
    let b = chars_of(vault_path);
    let bl = trailing_trimmed_len(&b);
    let mut inside = p.len() >= bl;
    let mut i: usize = 0;
    while inside && i < bl
        invariant
            bl <= b.len(),
            inside ==> p.len() >= bl,
            i <= bl,
            inside ==> forall|x: int| 0 <= x < i ==> p@[x] == b@[x],
            !inside ==> !(p.len() >= bl && p@.subrange(0, bl as int) == b@.subrange(0, bl as int)),
        decreases bl - i,
    {
        if p[i] != b[i] {
            proof {
                if p.len() >= bl && p@.subrange(0, bl as int) == b@.subrange(0, bl as int) {
                    assert(p@.subrange(0, bl as int)[i as int] == p@[i as int]);
                }
            }
            inside = false;
        }
        i += 1;
    }
    proof {
        if inside {
            assert(p@.subrange(0, bl as int) =~= b@.subrange(0, bl as int));
        }
    }
    if inside && !(p.len() == bl || p[bl] == '/' || p[bl] == '\\') {
        inside = false;
    }
    let (start, end) = if inside {
        parts_bounds(&p, bl)
    } else {
        (0, p.len())
    };
    let mut out: Vec<char> = Vec::new();
    let mut j = start;
    while j < end
        invariant
            start <= j <= end <= p.len(),
            out@ == forward_slashes(p@.subrange(start as int, j as int)),
        decreases end - j,
    {
        let c = if p[j] == '\\' {
            '/'
        } else {
            p[j]
        };
        out.push(c);
        proof {
            assert(p@.subrange(start as int, j + 1) =~= p@.subrange(start as int, j as int).push(p@[j as int]));
            assert(forward_slashes(p@.subrange(start as int, j + 1)) =~= forward_slashes(p@.subrange(start as int, j as int)).push(c));
        }
        j += 1;
    }
    proof {
        if !inside {
            assert(p@.subrange(0, p.len() as int) =~= p@);
        }
    }
    string_from_chars(out.as_slice())
}

} // verus!

verus! {

// ----------------------------------------------------------------------------
// Resolving a link to a file.
// ----------------------------------------------------------------------------

/// `target` with `.md` after it.
pub open spec fn md_file(target: Seq<char>) -> Seq<char> {
    target + seq!['.', 'm', 'd']
}

/// The file that a link target names directly: `{target}.md` in the vault; none when the
/// target would lead out of the vault.
pub fn wikilink_candidate(target: &str, vault_path: &str) -> (r: Option<String>)
    ensures
        match r {
            Some(p) => safe_relative(target@) && p@ == path_join(vault_path@, md_file(target@)),
            None => !safe_relative(target@),
        },
{
    if !is_safe_relative(target) {
        return None;
    }
    let mut t = chars_of(target);
    t.push('.');
    t.push('m');
    t.push('d');
    proof {
        assert(t@ =~= md_file(target@));
    }
    let f = string_from_chars(t.as_slice());
    Some(join_path(vault_path, f.as_str()))
}

/// The markdown file `path` has a stem that equals `target`, case aside (both taken by
/// `str::to_lowercase`).
pub open spec fn stem_matches(path: Seq<char>, target: Seq<char>) -> bool {
    is_markdown(path) && match file_stem(path) {
        Some(s) => lowercase(s) == lowercase(target),
        None => false,
    }
}

/// The first position from `i` on of a file whose stem matches `target`.
pub open spec fn first_stem_match(files: Seq<Seq<char>>, target: Seq<char>, i: int) -> Option<int>
    decreases files.len() - i,
{
    if i < 0 || i >= files.len() {
        None
    } else if stem_matches(files[i], target) {
        Some(i)
    } else {
        first_stem_match(files, target, i + 1)
    }
}

/// The file that the link target `target` leads to: `{target}.md` in the vault when it
/// exists (`direct_exists` says whether the file `wikilink_candidate` gives exists); else
/// the first of the walked files of the vault, in walk order, that is a markdown file whose
/// stem equals the target, case aside; else none.
pub fn resolve_wikilink(target: &str, vault_path: &str, direct_exists: bool, files: &Vec<String>) -> (r: Option<String>)
    ensures
        (if safe_relative(target@) && direct_exists {
            r matches Some(p) && p@ == path_join(vault_path@, md_file(target@))
        } else {
            match first_stem_match(views(files@), target@, 0) {
                Some(i) => r matches Some(p) && p@ == files@[i]@,
                None => r is None,
            }
        }),
{
    if direct_exists {
        if let Some(p) = wikilink_candidate(target, vault_path) {
            return Some(p);
        }
    }
    let t = lowercase_of(target);
    let mut i: usize = 0;
    while i < files.len()
        invariant
            i <= files.len(),
            t@ == lowercase(target@),
            !(safe_relative(target@) && direct_exists),
            first_stem_match(views(files@), target@, 0) == first_stem_match(views(files@), target@, i as int),
        decreases files.len() - i,
    {
        let p = files[i].as_str();
        proof {
            assert(views(files@)[i as int] == files@[i as int]@);
        }
        if is_markdown_path(p) {
            if let Some(s) = file_stem_of(p) {
                let l = lowercase_of(s.as_str());
                if l == t {
                    proof {
                        assert(stem_matches(views(files@)[i as int], target@));
                    }
                    return Some(files[i].clone());
                }
            }
        }
        i += 1;
    }
    None
}

} // verus!
