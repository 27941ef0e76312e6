use vstd::prelude::*;

verus! {

/// The characters of `s`, in order.
pub fn chars_of(s: &str) -> (v: Vec<char>)
    ensures
        v@ == s@,
{
    let mut v: Vec<char> = Vec::new();
    for c in it: s.chars()
        invariant
            v@ == it.seq().take(it.index() as int),
    {
        v.push(c);
    }
    v
}

} // verus!

verus! {

/// The text of each string of `v`.
pub open spec fn views(v: Seq<String>) -> Seq<Seq<char>> {
    v.map_values(|s: String| s@)
}

} // verus!

verus! {

/// An owned copy of `s`.
pub fn string_of(s: &str) -> (r: String)
    ensures
        r@ == s@,
{
    s.to_string()
}

} // verus!

verus! {

/// Builds a `String` with `String::from_iter` over chars. Claimed: the string holds exactly
/// the given characters, in order.
#[verifier::external_body]
pub fn string_from_chars(cs: &[char]) -> (s: String)
    ensures
        s@ == cs@,
{
    cs.iter().collect()
}

/// The decimal digit for `d`.
pub open spec fn digit_char(d: int) -> char {
    if d == 0 {
        '0'
    } else if d == 1 {
        '1'
    } else if d == 2 {
        '2'
    } else if d == 3 {
        '3'
    } else if d == 4 {
        '4'
    } else if d == 5 {
        '5'
    } else if d == 6 {
        '6'
    } else if d == 7 {
        '7'
    } else if d == 8 {
        '8'
    } else {
        '9'
    }
}

/// The decimal digits of `n`, without leading zeros.
pub open spec fn digits(n: nat) -> Seq<char>
    decreases n,
{
    if n < 10 {
        seq![digit_char(n as int)]
    } else {
        digits(n / 10).push(digit_char((n % 10) as int))
    }
}

/// `i` in decimal, with a minus sign when it is negative.
pub open spec fn decimal(i: int) -> Seq<char> {
    if i < 0 {
        seq!['-'] + digits((-i) as nat)
    } else {
        digits(i as nat)
    }
}

fn push_digits(n: u64, out: &mut Vec<char>)
    ensures
        final(out)@ == old(out)@ + digits(n as nat),
    decreases n,
{
    if n >= 10 {
        push_digits(n / 10, out);
    }
    let d = n % 10;
    let c = if d == 0 {
        '0'
    } else if d == 1 {
        '1'
    } else if d == 2 {
        '2'
    } else if d == 3 {
        '3'
    } else if d == 4 {
        '4'
    } else if d == 5 {
        '5'
    } else if d == 6 {
        '6'
    } else if d == 7 {
        '7'
    } else if d == 8 {
        '8'
    } else {
        '9'
    };
    out.push(c);
    proof {
        if n >= 10 {
            assert(digits(n as nat) == digits((n / 10) as nat).push(digit_char((n % 10) as int)));
        }
    }
}

/// The characters of `i` written in decimal.
pub fn decimal_chars(i: i64) -> (r: Vec<char>)
    ensures
        r@ == decimal(i as int),
{
    let mut out: Vec<char> = Vec::new();
    if i < 0 {
        out.push('-');
        let m: u64 = if i == i64::MIN {
            9223372036854775808u64
        } else {
            (-i) as u64
        };
        push_digits(m, &mut out);
    } else {
        push_digits(i as u64, &mut out);
    }
    out
}

/// The parts, with `sep` between each two of them.
pub open spec fn join(parts: Seq<Seq<char>>, sep: Seq<char>) -> Seq<char>
    decreases parts.len(),
{
    if parts.len() == 0 {
        Seq::empty()
    } else if parts.len() == 1 {
        parts[0]
    } else {
        join(parts.drop_last(), sep) + sep + parts.last()
    }
}

} // verus!

verus! {

// ----------------------------------------------------------------------------
// Order of texts, as `String`'s `Ord` has it: character by character by code point, which
// is the order of their UTF-8 bytes; a text comes before the texts it starts.
// ----------------------------------------------------------------------------

/// `a` comes no later than `b`.
pub open spec fn text_le(a: Seq<char>, b: Seq<char>) -> bool
    decreases a.len(),
{
    if a.len() == 0 {
        true
    } else if b.len() == 0 {
        false
    } else if a[0] != b[0] {
        (a[0] as int) < (b[0] as int)
    } else {
        text_le(a.drop_first(), b.drop_first())
    }
}

/// Each text of `s` comes no later than those after it.
pub open spec fn texts_sorted(s: Seq<Seq<char>>) -> bool {
    forall|i: int, j: int| 0 <= i < j < s.len() ==> text_le(#[trigger] s[i], #[trigger] s[j])
}

/// Any two texts are ordered one way or the other.
pub proof fn lemma_text_le_total(a: Seq<char>, b: Seq<char>)
    ensures
        text_le(a, b) || text_le(b, a),
    decreases a.len(),
{
    if a.len() > 0 && b.len() > 0 && a[0] == b[0] {
        lemma_text_le_total(a.drop_first(), b.drop_first());
    }
}

/// The order is transitive.
pub proof fn lemma_text_le_trans(a: Seq<char>, b: Seq<char>, c: Seq<char>)
    requires
        text_le(a, b),
        text_le(b, c),
    ensures
        text_le(a, c),
    decreases a.len(),
{
    if a.len() > 0 && b.len() > 0 && c.len() > 0 && a[0] == b[0] && b[0] == c[0] {
        lemma_text_le_trans(a.drop_first(), b.drop_first(), c.drop_first());
    }
}

/// Two texts that each come no later than the other are equal.
pub proof fn lemma_text_le_antisym(a: Seq<char>, b: Seq<char>)
    requires
        text_le(a, b),
        text_le(b, a),
    ensures
        a == b,
    decreases a.len(),
{
    if a.len() > 0 && b.len() > 0 {
        lemma_text_le_antisym(a.drop_first(), b.drop_first());
        assert(a =~= seq![a[0]] + a.drop_first());
        assert(b =~= seq![b[0]] + b.drop_first());
    }
}

/// Whether `a` comes no later than `b`.
pub fn text_le_exec(a: &Vec<char>, b: &Vec<char>) -> (r: bool)
    ensures
        r == text_le(a@, b@),
{
    let mut i: usize = 0;
    proof {
        assert(a@.subrange(0, a.len() as int) =~= a@);
        assert(b@.subrange(0, b.len() as int) =~= b@);
    }
    while i < a.len() && i < b.len() && a[i] == b[i]
        invariant
            i <= a.len(),
            i <= b.len(),
            text_le(a@, b@) == text_le(a@.subrange(i as int, a.len() as int), b@.subrange(i as int, b.len() as int)),
        decreases a.len() - i,
    {
        proof {
            let sa = a@.subrange(i as int, a.len() as int);
            let sb = b@.subrange(i as int, b.len() as int);
            assert(sa.drop_first() =~= a@.subrange(i + 1, a.len() as int));
            assert(sb.drop_first() =~= b@.subrange(i + 1, b.len() as int));
        }
        i += 1;
    }
    let ghost sa = a@.subrange(i as int, a.len() as int);
    let ghost sb = b@.subrange(i as int, b.len() as int);
    if i == a.len() {
        true
    } else if i == b.len() {
        false
    } else {
        proof {
            assert(sa[0] == a@[i as int]);
            assert(sb[0] == b@[i as int]);
        }
        a[i] < b[i]
    }
}

/// The strings of `v` in order, as `sort` puts them.
pub fn sort_texts(v: Vec<String>) -> (r: Vec<String>)
    ensures
        texts_sorted(views(r@)),
        views(r@).to_multiset() == views(v@).to_multiset(),
{
    let mut out: Vec<String> = Vec::new();
    let mut keys: Vec<Vec<char>> = Vec::new();
    let mut i: usize = 0;
    proof {
        assert(views(v@).subrange(0, 0) =~= Seq::<Seq<char>>::empty());
        assert(views(out@) =~= Seq::<Seq<char>>::empty());
    }
    while i < v.len()
        invariant
            i <= v.len(),
            keys.len() == out.len(),
            forall|j: int| 0 <= j < keys.len() ==> #[trigger] keys@[j]@ == out@[j]@,
            texts_sorted(views(out@)),
            views(out@).to_multiset() == views(v@).subrange(0, i as int).to_multiset(),
        decreases v.len() - i,
    {
        let x = v[i].clone();
        let kx = chars_of(x.as_str());
        let mut k: usize = 0;
        while k < out.len() && text_le_exec(&keys[k], &kx)
            invariant
                k <= out.len(),
                kx@ == x@,
                keys.len() == out.len(),
                forall|j: int| 0 <= j < keys.len() ==> #[trigger] keys@[j]@ == out@[j]@,
                forall|j: int| 0 <= j < k ==> text_le(#[trigger] views(out@)[j], x@),
            decreases out.len() - k,
        {
            proof {
                assert(views(out@)[k as int] == out@[k as int]@);
            }
            k += 1;
        }
        let ghost old_out = views(out@);
        proof {
            assert forall|j: int| k <= j < old_out.len() implies text_le(x@, #[trigger] old_out[j]) by {
                lemma_text_le_total(old_out[k as int], x@);
                if j > k {
                    lemma_text_le_trans(x@, old_out[k as int], old_out[j]);
                }
            }
        }
        out.insert(k, x);
        keys.insert(k, kx);
        proof {
            let nv = views(out@);
            assert(nv =~= old_out.insert(k as int, x@));
            assert forall|a: int, b: int| 0 <= a < b < nv.len() implies text_le(#[trigger] nv[a], #[trigger] nv[b]) by {
                if b < k {
                } else if a < k && b == k {
                } else if a < k {
                    lemma_text_le_trans(nv[a], x@, nv[b]);
                } else if a == k {
                } else {
                }
            }
            assert(views(v@).subrange(0, i + 1) =~= views(v@).subrange(0, i as int).push(x@));
            assert(views(v@)[i as int] == x@);
            vstd::seq_lib::to_multiset_insert(old_out, k as int, x@);
            vstd::seq_lib::to_multiset_build(views(v@).subrange(0, i as int), x@);
        }
        i += 1;
    }
    proof {
        assert(views(v@).subrange(0, v.len() as int) =~= views(v@));
    }
    out
}

} // verus!

verus! {

// ----------------------------------------------------------------------------
// Substrings and case.
// ----------------------------------------------------------------------------

/// `needle` occurs in `hay` starting at position `i`.
pub open spec fn occurs_at(hay: Seq<char>, needle: Seq<char>, i: int) -> bool {
    0 <= i && i + needle.len() <= hay.len() && hay.subrange(i, i + needle.len()) == needle
}

/// `needle` occurs somewhere in `hay` (the empty text occurs in every text).
pub open spec fn contains_text(hay: Seq<char>, needle: Seq<char>) -> bool {
    exists|i: int| occurs_at(hay, needle, i)
}

/// Whether `needle` occurs in `hay`, as `contains_text` says.
pub fn contains_chars(hay: &Vec<char>, needle: &Vec<char>) -> (r: bool)
    ensures
        r == contains_text(hay@, needle@),
{
    if needle.len() > hay.len() {
        proof {
            assert forall|i: int| !occurs_at(hay@, needle@, i) by {}
        }
        return false;
    }
    let last = hay.len() - needle.len();
    let mut i: usize = 0;
    while i <= last
        invariant
            last == hay.len() - needle.len(),
            needle.len() <= hay.len(),
            forall|j: int| 0 <= j < i ==> !occurs_at(hay@, needle@, j),
        decreases last + 1 - i,
    {
        let mut k: usize = 0;
        while k < needle.len() && hay[i + k] == needle[k]
            invariant
                i <= last,
                last == hay.len() - needle.len(),
                k <= needle.len(),
                forall|x: int| 0 <= x < k ==> hay@[i + x] == needle@[x],
            decreases needle.len() - k,
        {
            k += 1;
        }
        if k == needle.len() {
            proof {
                assert(hay@.subrange(i as int, i + needle.len()) =~= needle@);
                assert(occurs_at(hay@, needle@, i as int));
            }
            return true;
        }
        proof {
            assert(hay@.subrange(i as int, i + needle.len())[k as int] == hay@[i + k]);
        }
        i += 1;
    }
    proof {
        assert forall|j: int| !occurs_at(hay@, needle@, j) by {
            if 0 <= j < i {
            }
        }
    }
    false
}

/// The text that `str::to_lowercase` gives for `s`.
pub uninterp spec fn lowercase(s: Seq<char>) -> Seq<char>;

/// Calls `str::to_lowercase`. Claimed: the result is `lowercase(s)`, which depends on `s`
/// alone (the Unicode case tables of the standard library); nothing more is said of it.
#[verifier::external_body]
pub fn lowercase_of(s: &str) -> (r: String)
    ensures
        r@ == lowercase(s@),
{
    s.to_lowercase()
}

} // verus!

verus! {

/// `a` followed by `b`.
pub fn cat(a: &str, b: &str) -> (r: String)
    ensures
        r@ == a@ + b@,
{
    let mut x = chars_of(a);
    let mut y = chars_of(b);
    x.append(&mut y);
    string_from_chars(x.as_slice())
}

} // verus!
