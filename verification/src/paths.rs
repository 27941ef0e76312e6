use vstd::prelude::*;

use crate::text::{chars_of, string_from_chars};

verus! {

/// A path separator: `/`, or `\` as Windows writes it.
pub open spec fn is_sep(c: char) -> bool {
    c == '/' || c == '\\'
}

/// `s` without the separators it ends with.
pub open spec fn trim_trailing_seps(s: Seq<char>) -> Seq<char>
    decreases s.len(),
{
    if s.len() > 0 && is_sep(s.last()) {
        trim_trailing_seps(s.drop_last())
    } else {
        s
    }
}

/// `rel` under the directory `base`: with one `/` between them unless `base` is empty or
/// already ends with a separator.
pub open spec fn path_join(base: Seq<char>, rel: Seq<char>) -> Seq<char> {
    if base.len() == 0 {
        rel
    } else if is_sep(base.last()) {
        base + rel
    } else {
        base.push('/') + rel
    }
}

/// `s` starts with a `.` component: `.` alone or followed by a separator.
pub open spec fn dot_part_start(s: Seq<char>) -> bool {
    s.len() > 0 && s[0] == '.' && (s.len() == 1 || is_sep(s[1]))
}

/// `s` ends with a `.` component: `.` alone or after a separator.
pub open spec fn dot_part_end(s: Seq<char>) -> bool {
    s.len() > 0 && s.last() == '.' && (s.len() == 1 || is_sep(s[s.len() - 2]))
}

/// `s` without the separators and `.` components it starts with.
pub open spec fn trim_start_parts(s: Seq<char>) -> Seq<char>
    decreases s.len(),
{
    if s.len() > 0 && (is_sep(s[0]) || dot_part_start(s)) {
        trim_start_parts(s.subrange(1, s.len() as int))
    } else {
        s
    }
}

/// `s` without the separators and `.` components it ends with.
pub open spec fn trim_end_parts(s: Seq<char>) -> Seq<char>
    decreases s.len(),
{
    if s.len() > 0 && (is_sep(s.last()) || dot_part_end(s)) {
        trim_end_parts(s.drop_last())
    } else {
        s
    }
}

/// `s` without empty and `.` components at either end, as `Path::components` leaves what is
/// left of a path after a prefix.
pub open spec fn trim_parts(s: Seq<char>) -> Seq<char> {
    trim_end_parts(trim_start_parts(s))
}

/// `s` has no empty or `.` component at either end.
pub open spec fn plain_ends(s: Seq<char>) -> bool {
    s.len() == 0 || (!is_sep(s[0]) && !dot_part_start(s) && !is_sep(s.last()) && !dot_part_end(s))
}

/// A path with no empty or `.` component at its ends is left as it is.
pub proof fn lemma_plain_ends(s: Seq<char>)
    requires
        plain_ends(s),
    ensures
        trim_parts(s) == s,
{
}

/// What follows the directory `base` in `path`, when `path` lies in `base` (or is it):
/// the components of `base`, trailing separators aside, start `path` and are followed by a
/// separator or by nothing; the rest comes without empty and `.` components at its ends.
pub open spec fn strip_dir_prefix(path: Seq<char>, base: Seq<char>) -> Option<Seq<char>> {
    let b = trim_trailing_seps(base);
    if path.len() >= b.len() && path.subrange(0, b.len() as int) == b && (path.len() == b.len()
        || is_sep(path[b.len() as int])) {
        Some(trim_parts(path.subrange(b.len() as int, path.len() as int)))
    } else {
        None
    }
}

/// `s` with each `\` written as `/`.
pub open spec fn forward_slashes(s: Seq<char>) -> Seq<char> {
    s.map_values(|c: char| if c == '\\' { '/' } else { c })
}

/// `path` relative to `base` when it lies in it, else `path`; with forward slashes.
pub open spec fn relative_to(path: Seq<char>, base: Seq<char>) -> Seq<char> {
    forward_slashes(
        match strip_dir_prefix(path, base) {
            Some(r) => r,
            None => path,
        },
    )
}

/// The components of `s`: the runs of characters between its separators, empty ones
/// included, from first to last. There is always at least one.
pub open spec fn split_seps(s: Seq<char>) -> Seq<Seq<char>>
    decreases s.len(),
{
    if s.len() == 0 {
        seq![Seq::empty()]
    } else if is_sep(s.last()) {
        split_seps(s.drop_last()).push(Seq::empty())
    } else {
        let ps = split_seps(s.drop_last());
        ps.update(ps.len() - 1, ps.last().push(s.last()))
    }
}

/// How a component moves the depth below the directory a path is joined to: `..` climbs
/// one level, an empty or `.` component stays, any other goes one level down.
pub open spec fn part_step(part: Seq<char>) -> int {
    if part == seq!['.', '.'] {
        -1
    } else if part.len() == 0 || part == seq!['.'] {
        0
    } else {
        1
    }
}

/// The depth that the components `ps` reach, taken one after another from the start.
pub open spec fn parts_depth(ps: Seq<Seq<char>>) -> int
    decreases ps.len(),
{
    if ps.len() == 0 {
        0
    } else {
        parts_depth(ps.drop_last()) + part_step(ps.last())
    }
}

/// Taken one after another, the components `ps` never climb above where they start.
pub open spec fn never_climbs(ps: Seq<Seq<char>>) -> bool
    decreases ps.len(),
{
    ps.len() == 0 || (never_climbs(ps.drop_last()) && parts_depth(ps) >= 0)
}

/// A letter that may name a Windows drive.
pub open spec fn is_drive_letter(c: char) -> bool {
    ('a' <= c && c <= 'z') || ('A' <= c && c <= 'Z')
}

/// A path that stays within the directory it is joined to: it does not start at a root or a
/// drive, and its `..` components never climb above that directory.
pub open spec fn safe_relative(s: Seq<char>) -> bool {
    &&& (s.len() == 0 || !is_sep(s[0]))
    &&& !(s.len() >= 2 && is_drive_letter(s[0]) && s[1] == ':')
    &&& never_climbs(split_seps(s))
}

/// Where the last component of `s` starts: after the last separator, or at 0.
pub open spec fn after_last_sep(s: Seq<char>) -> int
    decreases s.len(),
{
    if s.len() == 0 {
        0
    } else if is_sep(s.last()) {
        s.len() as int
    } else {
        after_last_sep(s.drop_last())
    }
}

/// The last component of `s`, trailing separators aside.
pub open spec fn file_name(s: Seq<char>) -> Seq<char> {
    let t = trim_trailing_seps(s);
    t.subrange(after_last_sep(t), t.len() as int)
}

/// The position of the last `.` of `s`, or -1.
pub open spec fn last_dot(s: Seq<char>) -> int
    decreases s.len(),
{
    if s.len() == 0 {
        -1
    } else if s.last() == '.' {
        s.len() - 1
    } else {
        last_dot(s.drop_last())
    }
}

/// The name is `.` or `..`, which name no file.
pub open spec fn is_dot_name(n: Seq<char>) -> bool {
    n == seq!['.'] || n == seq!['.', '.']
}

/// The file name of `s` without its extension: up to its last `.` unless that is its first
/// character. None when `s` names no file.
pub open spec fn file_stem(s: Seq<char>) -> Option<Seq<char>> {
    let n = file_name(s);
    if n.len() == 0 || is_dot_name(n) {
        None
    } else if last_dot(n) > 0 {
        Some(n.subrange(0, last_dot(n)))
    } else {
        Some(n)
    }
}

/// The file name of `s` has the extension `md`.
pub open spec fn is_markdown(s: Seq<char>) -> bool {
    let n = file_name(s);
    &&& n.len() > 0
    &&& !is_dot_name(n)
    &&& last_dot(n) > 0
    &&& n.subrange(last_dot(n) + 1, n.len() as int) == seq!['m', 'd']
}

} // verus!

verus! {

proof fn lemma_trim_trailing(s: Seq<char>, k: int)
    requires
        0 <= k <= s.len(),
        forall|x: int| k <= x < s.len() ==> is_sep(#[trigger] s[x]),
    ensures
        trim_trailing_seps(s) == trim_trailing_seps(s.subrange(0, k)),
    decreases s.len() - k,
{
    if k < s.len() {
        let t = s.drop_last();
        assert(is_sep(s[s.len() - 1]));
        assert forall|x: int| k <= x < t.len() implies is_sep(#[trigger] t[x]) by {
            assert(t[x] == s[x]);
        }
        lemma_trim_trailing(t, k);
        assert(t.subrange(0, k) =~= s.subrange(0, k));
    } else {
        assert(s.subrange(0, k) =~= s);
    }
}

proof fn lemma_trim_start_seps(s: Seq<char>, k: int)
    requires
        0 <= k <= s.len(),
        forall|x: int| 0 <= x < k ==> is_sep(#[trigger] s[x]),
    ensures
        trim_start_parts(s) == trim_start_parts(s.subrange(k, s.len() as int)),
    decreases k,
{
    if k > 0 {
        let t = s.subrange(1, s.len() as int);
        assert(is_sep(s[0]));
        assert forall|x: int| 0 <= x < k - 1 implies is_sep(#[trigger] t[x]) by {
            assert(t[x] == s[x + 1]);
        }
        lemma_trim_start_seps(t, k - 1);
        assert(t.subrange(k - 1, t.len() as int) =~= s.subrange(k, s.len() as int));
    } else {
        assert(s.subrange(0, s.len() as int) =~= s);
    }
}

proof fn lemma_after_last_sep(s: Seq<char>, k: int)
    requires
        0 <= k <= s.len(),
        forall|x: int| k <= x < s.len() ==> !is_sep(#[trigger] s[x]),
        k == 0 || is_sep(s[k - 1]),
    ensures
        after_last_sep(s) == k,
    decreases s.len() - k,
{
    if k < s.len() {
        let t = s.drop_last();
        assert(!is_sep(s[s.len() - 1]));
        assert forall|x: int| k <= x < t.len() implies !is_sep(#[trigger] t[x]) by {
            assert(t[x] == s[x]);
        }
        if k > 0 {
            assert(t[k - 1] == s[k - 1]);
        }
        lemma_after_last_sep(t, k);
    }
}

proof fn lemma_last_dot(s: Seq<char>, k: int)
    requires
        -1 <= k < s.len(),
        forall|x: int| k < x < s.len() ==> #[trigger] s[x] != '.',
        k == -1 || s[k] == '.',
    ensures
        last_dot(s) == k,
    decreases s.len() - k,
{
    if k < s.len() - 1 {
        let t = s.drop_last();
        assert(s[s.len() - 1] != '.');
        assert forall|x: int| k < x < t.len() implies #[trigger] t[x] != '.' by {
            assert(t[x] == s[x]);
        }
        if k >= 0 {
            assert(t[k] == s[k]);
        }
        lemma_last_dot(t, k);
    }
}

/// `rel` under the directory `base`, as `path_join` says.
pub fn join_path(base: &str, rel: &str) -> (r: String)
    ensures
        r@ == path_join(base@, rel@),
{
    let mut b = chars_of(base);
    let mut r = chars_of(rel);
    let n = b.len();
    if n > 0 && !(b[n - 1] == '/' || b[n - 1] == '\\') {
        b.push('/');
    }
    let ghost b1 = b@;
    b.append(&mut r);
    proof {
        if n > 0 && !is_sep(base@.last()) {
            assert(b1 =~= base@.push('/'));
        }
    }
    string_from_chars(b.as_slice())
}

/// The length of `s` without its trailing separators.
pub(crate) fn trailing_trimmed_len(s: &Vec<char>) -> (k: usize)
    ensures
        k <= s.len(),
        trim_trailing_seps(s@) == s@.subrange(0, k as int),
{
    let mut k = s.len();
    while k > 0 && (s[k - 1] == '/' || s[k - 1] == '\\')
        invariant
            k <= s.len(),
            forall|x: int| k <= x < s.len() ==> is_sep(#[trigger] s@[x]),
        decreases k,
    {
        k -= 1;
    }
    proof {
        lemma_trim_trailing(s@, k as int);
        let t = s@.subrange(0, k as int);
        if k > 0 {
            assert(t.last() == s@[k - 1]);
        }
    }
    k
}

/// The bounds, within `s[from..]`, of what is left once empty and `.` components are taken
/// off both ends, as `trim_parts` says.
pub(crate) fn parts_bounds(s: &Vec<char>, from: usize) -> (r: (usize, usize))
    requires
        from <= s.len(),
    ensures
        from <= r.0 <= r.1 <= s.len(),
        trim_parts(s@.subrange(from as int, s.len() as int)) == s@.subrange(r.0 as int, r.1 as int),
{
    let n = s.len();
    let mut a = from;
    proof {
        assert(s@.subrange(from as int, n as int) =~= s@.subrange(a as int, n as int));
    }
    while a < n && (s[a] == '/' || s[a] == '\\' || (s[a] == '.' && (a + 1 == n || s[a + 1] == '/' || s[a + 1] == '\\')))
        invariant
            from <= a <= n,
            n == s.len(),
            trim_start_parts(s@.subrange(from as int, n as int)) == trim_start_parts(s@.subrange(a as int, n as int)),
        decreases n - a,
    {
        proof {
            let t = s@.subrange(a as int, n as int);
            assert(t[0] == s@[a as int]);
            if a + 1 < n {
                assert(t[1] == s@[a + 1]);
            }
            assert(t.subrange(1, t.len() as int) =~= s@.subrange(a + 1, n as int));
        }
        a += 1;
    }
    proof {
        let t = s@.subrange(a as int, n as int);
        if t.len() > 0 {
            assert(t[0] == s@[a as int]);
            if t.len() > 1 {
                assert(t[1] == s@[a + 1]);
            }
        }
    }
    let mut b = n;
    while b > a && (s[b - 1] == '/' || s[b - 1] == '\\' || (s[b - 1] == '.' && (b - 1 == a || s[b - 2] == '/' || s[b - 2] == '\\')))
        invariant
            from <= a <= b <= n,
            n == s.len(),
            trim_end_parts(s@.subrange(a as int, n as int)) == trim_end_parts(s@.subrange(a as int, b as int)),
        decreases b,
    {
        proof {
            let t = s@.subrange(a as int, b as int);
            assert(t.last() == s@[b - 1]);
            if b - 1 > a {
                assert(t[t.len() - 2] == s@[b - 2]);
            }
            assert(t.drop_last() =~= s@.subrange(a as int, b - 1));
        }
        b -= 1;
    }
    proof {
        let t = s@.subrange(a as int, b as int);
        if t.len() > 0 {
            assert(t.last() == s@[b - 1]);
            if t.len() > 1 {
                assert(t[t.len() - 2] == s@[b - 2]);
            }
        }
        assert(trim_end_parts(t) == t);
    }
    (a, b)
}

/// Whether `path` stays below the directory it is joined to, as `safe_relative` says.
pub fn is_safe_relative(path: &str) -> (r: bool)
    ensures
        r == safe_relative(path@),
{
    let p = chars_of(path);
    let n = p.len();
    if n > 0 && (p[0] == '/' || p[0] == '\\') {
        return false;
    }
    if n >= 2 && (('a' <= p[0] && p[0] <= 'z') || ('A' <= p[0] && p[0] <= 'Z')) && p[1] == ':' {
        return false;
    }
    let mut start: usize = 0;
    let mut depth: usize = 0;
    let mut good = true;
    let ghost mut done: Seq<Seq<char>> = Seq::empty();
    let mut i: usize = 0;
    proof {
        assert(p@.take(0) =~= Seq::<char>::empty());
        assert(seq![Seq::<char>::empty()] =~= done.push(p@.subrange(0, 0)));
    }
    while i < n
        invariant
            n == p.len(),
            p@ == path@,
            start <= i <= n,
            depth <= i,
            split_seps(p@.take(i as int)) == done.push(p@.subrange(start as int, i as int)),
            good == never_climbs(done),
            good ==> depth == parts_depth(done),
        decreases n - i,
    {
        proof {
            assert(p@.take(i + 1).drop_last() =~= p@.take(i as int));
            assert(p@.take(i + 1).last() == p@[i as int]);
        }
        if p[i] == '/' || p[i] == '\\' {
            let step = part_step_at(&p, start, i);
            let ghost part = p@.subrange(start as int, i as int);
            proof {
                lemma_push_part(done, part);
                assert(p@.subrange((i + 1) as int, (i + 1) as int) =~= Seq::<char>::empty());
            }
            if good {
                if step == 0 {
                    if depth == 0 {
                        good = false;
                    } else {
                        depth -= 1;
                    }
                } else if step == 2 {
                    depth += 1;
                }
            }
            proof {
                done = done.push(part);
            }
            start = i + 1;
        } else {
            proof {
                assert(p@.subrange(start as int, i + 1) =~= p@.subrange(start as int, i as int).push(p@[i as int]));
                assert(done.push(p@.subrange(start as int, i as int)).update(
                    done.len() as int,
                    p@.subrange(start as int, i as int).push(p@[i as int]),
                ) =~= done.push(p@.subrange(start as int, i + 1)));
            }
        }
        i += 1;
    }
    let step = part_step_at(&p, start, n);
    proof {
        let part = p@.subrange(start as int, n as int);
        assert(p@.take(n as int) =~= p@);
        lemma_push_part(done, part);
    }
    if !good {
        false
    } else if step == 0 {
        depth > 0
    } else {
        true
    }
}

/// Adding a component to `ps` adds its step to their depth.
proof fn lemma_push_part(ps: Seq<Seq<char>>, part: Seq<char>)
    ensures
        parts_depth(ps.push(part)) == parts_depth(ps) + part_step(part),
        never_climbs(ps.push(part)) == (never_climbs(ps) && parts_depth(ps) + part_step(part) >= 0),
{
    assert(ps.push(part).drop_last() =~= ps);
}

/// The step of the component `p[from..to]`, shifted by one: 0 for `..`, 1 for an empty or
/// `.` component, 2 for any other.
fn part_step_at(p: &Vec<char>, from: usize, to: usize) -> (r: u8)
    requires
        from <= to <= p.len(),
    ensures
        r as int == part_step(p@.subrange(from as int, to as int)) + 1,
{
    let ghost part = p@.subrange(from as int, to as int);
    if to - from == 2 && p[from] == '.' && p[from + 1] == '.' {
        proof {
            assert(part =~= seq!['.', '.']);
        }
        0
    } else if to == from || (to - from == 1 && p[from] == '.') {
        proof {
            if to - from == 1 {
                assert(part =~= seq!['.']);
            }
        }
        1
    } else {
        proof {
            assert(part.len() == to - from);
            if to - from == 2 {
                assert(part[0] == p@[from as int] && part[1] == p@[from + 1]);
                assert(seq!['.', '.'][0] == '.' && seq!['.', '.'][1] == '.');
                assert(part != seq!['.', '.']);
            }
            if to - from == 1 {
                assert(part[0] == p@[from as int]);
                assert(seq!['.'][0] == '.');
                assert(part != seq!['.']);
            }
            assert(part != seq!['.', '.']);
            assert(part != seq!['.']);
        }
        2
    }
}

/// The bounds of the file name of `p`, as `file_name` says.
fn file_name_bounds(p: &Vec<char>) -> (r: (usize, usize))
    ensures
        r.0 <= r.1 <= p.len(),
        file_name(p@) == p@.subrange(r.0 as int, r.1 as int),
{
    let t = trailing_trimmed_len(p);
    let mut a = t;
    while a > 0 && !(p[a - 1] == '/' || p[a - 1] == '\\')
        invariant
            a <= t <= p.len(),
            forall|x: int| a <= x < t ==> !is_sep(#[trigger] p@[x]),
        decreases a,
    {
        a -= 1;
    }
    proof {
        let ts = p@.subrange(0, t as int);
        assert forall|x: int| a <= x < ts.len() implies !is_sep(#[trigger] ts[x]) by {
            assert(ts[x] == p@[x]);
        }
        if a > 0 {
            assert(ts[a - 1] == p@[a - 1]);
        }
        lemma_after_last_sep(ts, a as int);
        assert(ts.subrange(a as int, t as int) =~= p@.subrange(a as int, t as int));
    }
    (a, t)
}

/// The position of the last `.` within `p[a..b]`, relative to `a`; None when there is none.
fn last_dot_in(p: &Vec<char>, a: usize, b: usize) -> (r: Option<usize>)
    requires
        a <= b <= p.len(),
    ensures
        match r {
            Some(k) => k < b - a && last_dot(p@.subrange(a as int, b as int)) == k,
            None => last_dot(p@.subrange(a as int, b as int)) == -1,
        },
{
    let mut k = b;
    while k > a && p[k - 1] != '.'
        invariant
            a <= k <= b,
            b <= p.len(),
            forall|x: int| k <= x < b ==> #[trigger] p@[x] != '.',
        decreases k,
    {
        k -= 1;
    }
    let ghost g: int = if k == a { -1 } else { k - 1 - a };
    proof {
        let s = p@.subrange(a as int, b as int);
        assert forall|x: int| g < x < s.len() implies #[trigger] s[x] != '.' by {
            assert(s[x] == p@[a + x]);
        }
        if k > a {
            assert(s[k - 1 - a] == p@[k - 1]);
        }
        lemma_last_dot(s, g);
    }
    if k == a {
        None
    } else {
        Some(k - 1 - a)
    }
}

/// The file stem of `path`, as `file_stem` says.
pub fn file_stem_of(path: &str) -> (r: Option<String>)
    ensures
        file_stem(path@) == (match r {
            Some(s) => Some(s@),
            None => None,
        }),
{
    let p = chars_of(path);
    let (a, b) = file_name_bounds(&p);
    let len = b - a;
    if len == 0 || (len == 1 && p[a] == '.') || (len == 2 && p[a] == '.' && p[a + 1] == '.') {
        proof {
            let n = p@.subrange(a as int, b as int);
            if len == 1 && p@[a as int] == '.' {
                assert(n =~= seq!['.']);
            }
            if len == 2 && p@[a as int] == '.' && p@[a + 1] == '.' {
                assert(n =~= seq!['.', '.']);
            }
        }
        return None;
    }
    proof {
        let n = p@.subrange(a as int, b as int);
        if is_dot_name(n) {
            assert(n.len() == 1 || n.len() == 2);
            assert(n[0] == p@[a as int]);
            if n.len() == 2 {
                assert(n[1] == p@[a + 1]);
            }
        }
    }
    let d = last_dot_in(&p, a, b);
    if d.is_some() && d.unwrap() > 0 {
        let e = a + d.unwrap();
        proof {
            assert(p@.subrange(a as int, b as int).subrange(0, d.unwrap() as int) =~= p@.subrange(a as int, e as int));
        }
        Some(string_from_chars(vstd::slice::slice_subrange(p.as_slice(), a, e)))
    } else {
        Some(string_from_chars(vstd::slice::slice_subrange(p.as_slice(), a, b)))
    }
}

/// Whether the file name of `path` has the extension `md`, as `is_markdown` says.
pub fn is_markdown_path(path: &str) -> (r: bool)
    ensures
        r == is_markdown(path@),
{
    let p = chars_of(path);
    let (a, b) = file_name_bounds(&p);
    let ghost n = p@.subrange(a as int, b as int);
    let d = last_dot_in(&p, a, b);
    match d {
        Some(k) => {
            if k == 0 {
                return false;
            }
            let e = a + k + 1;
            let r = b - e == 2 && p[e] == 'm' && p[e + 1] == 'd';
            proof {
                let ext = n.subrange(k + 1, n.len() as int);
                if b - e == 2 {
                    assert(ext[0] == p@[e as int]);
                    assert(ext[1] == p@[e + 1]);
                    if p@[e as int] == 'm' && p@[e + 1] == 'd' {
                        assert(ext =~= seq!['m', 'd']);
                    }
                }
                if is_dot_name(n) {
                    assert(n.len() <= 2);
                    if n.len() == 2 {
                        assert(n[0] == '.');
                    }
                }
            }
            r
        },
        None => false,
    }
}

proof fn lemma_trailing_shape(s: Seq<char>)
    ensures
        trim_trailing_seps(s).len() <= s.len(),
        trim_trailing_seps(s) == s.subrange(0, trim_trailing_seps(s).len() as int),
        forall|x: int| trim_trailing_seps(s).len() <= x < s.len() ==> is_sep(#[trigger] s[x]),
    decreases s.len(),
{
    if s.len() > 0 && is_sep(s.last()) {
        let t = s.drop_last();
        lemma_trailing_shape(t);
        let k = trim_trailing_seps(t).len() as int;
        assert(t.subrange(0, k) =~= s.subrange(0, k));
        assert forall|x: int| k <= x < s.len() implies is_sep(#[trigger] s[x]) by {
            if x < t.len() {
                assert(t[x] == s[x]);
            }
        }
    } else {
        assert(s.subrange(0, s.len() as int) =~= s);
    }
}

/// A path put under a directory with `path_join` reads back, relative to that directory, as
/// the path itself without empty and `.` components at its ends (with forward slashes), as
/// long as it does not start with a separator: what a note is created as is what it is
/// reported as, and it lies in the directory.
pub proof fn law_join_then_relative(base: Seq<char>, p: Seq<char>)
    requires
        p.len() == 0 || !is_sep(p[0]),
    ensures
        base.len() > 0 ==> relative_to(path_join(base, p), base) == forward_slashes(trim_parts(p)),
        base.len() == 0 ==> relative_to(path_join(base, p), base) == forward_slashes(p),
        base.len() > 0 ==> strip_dir_prefix(path_join(base, p), base) is Some,
{
    let path = path_join(base, p);
    let tb = trim_trailing_seps(base);
    lemma_trailing_shape(base);
    let k = tb.len() as int;
    if base.len() == 0 {
        assert(path == p);
        assert(tb.len() == 0);
        assert(path.subrange(0, 0) =~= tb);
        if p.len() == 0 {
            assert(p.subrange(0, 0) =~= p);
            assert(trim_parts(p) == p);
        }
    } else {
        let joined = if is_sep(base.last()) {
            base
        } else {
            base.push('/')
        };
        assert(path == joined + p);
        if !is_sep(base.last()) {
            assert(k == base.len()) by {
                if k < base.len() {
                    assert(is_sep(base[base.len() - 1]));
                }
            }
        }
        if is_sep(base.last()) {
            assert(tb == trim_trailing_seps(base.drop_last()));
            lemma_trailing_shape(base.drop_last());
        }
        assert(k < joined.len());
        assert forall|x: int| k <= x < joined.len() implies is_sep(#[trigger] joined[x]) by {
            if x < base.len() {
                assert(joined[x] == base[x]);
            }
        }
        assert(path.subrange(0, k) =~= tb) by {
            assert forall|x: int| 0 <= x < k implies path.subrange(0, k)[x] == tb[x] by {
                assert(path[x] == joined[x]);
                assert(joined[x] == base[x]);
                assert(tb[x] == base.subrange(0, k)[x]);
            }
        }
        assert(is_sep(path[k])) by {
            assert(path[k] == joined[k]);
        }
        let rest = path.subrange(k, path.len() as int);
        let m = joined.len() - k;
        assert forall|x: int| 0 <= x < m implies is_sep(#[trigger] rest[x]) by {
            assert(rest[x] == path[k + x]);
            assert(path[k + x] == joined[k + x]);
        }
        lemma_trim_start_seps(rest, m);
        assert(rest.subrange(m, rest.len() as int) =~= p);
    }
}

} // verus!
