//! Character-level helpers on strings.
use vstd::prelude::*;
use vstd::utf8::{decode_utf8, valid_utf8};

verus! {

/// Appends one character (`String::push`).
#[verifier::external_body]
pub(crate) fn push_char(s: &mut String, c: char)
    ensures
        final(s)@ == old(s)@.push(c),
{
    s.push(c);
}

/// The characters of `s`, in order.
pub fn chars_of(s: &str) -> (r: Vec<char>)
    ensures
        r@ == s@,
{
    let mut r: Vec<char> = Vec::new();
    for c in it: s.chars()
        invariant
            it.seq() == s@,
            r@ == it.seq().take(it.index() as int),
    {
        let ghost before = r@;
        r.push(c);
        assert(it.seq().take(it.index() + 1) =~= before.push(c));
    }
    assert(r@ =~= s@);
    r
}

/// A string made of the given characters.
pub fn string_of(cs: &[char]) -> (r: String)
    ensures
        r@ == cs@,
{
    let mut r = String::new();
    let mut i: usize = 0;
    while i < cs.len()
        invariant
            i <= cs.len(),
            r@ == cs@.take(i as int),
        decreases cs.len() - i,
    {
        push_char(&mut r, cs[i]);
        assert(cs@.take(i + 1) =~= cs@.take(i as int).push(cs@[i as int]));
        i = i + 1;
    }
    assert(cs@.take(i as int) =~= cs@);
    r
}

/// The decimal digit character for `d < 10`.
pub open spec fn digit_char(d: nat) -> char {
    ((d + 48) as u32) as char
}

/// Decimal notation of `n`, without leading zeros.
pub open spec fn decimal(n: nat) -> Seq<char>
    decreases n,
{
    if n < 10 {
        seq![digit_char(n)]
    } else {
        decimal(n / 10).push(digit_char(n % 10))
    }
}

pub fn digit_of(d: u64) -> (c: char)
    requires
        d < 10,
    ensures
        c == digit_char(d as nat),
{
    let v: u8 = (d as u8) + 48;
    v as char
}

/// Appends the decimal notation of `n`.
pub fn push_decimal(s: &mut String, n: u64)
    ensures
        final(s)@ == old(s)@ + decimal(n as nat),
    decreases n,
{
    if n >= 10 {
        push_decimal(s, n / 10);
    }
    let c = digit_of(n % 10);
    let ghost mid = s@;
    push_char(s, c);
    proof {
        if n >= 10 {
            assert(old(s)@ + decimal(n as nat) =~= (old(s)@ + decimal((n / 10) as nat)).push(c));
        } else {
            assert(old(s)@ + decimal(n as nat) =~= old(s)@.push(c));
        }
    }
}

/// Appends `t`.
pub fn push_str(s: &mut String, t: &str)
    ensures
        final(s)@ == old(s)@ + t@,
{
    s.append(t);
}

/// The pieces of `s` between occurrences of `sep` (as `split` yields them:
/// an empty `s` gives one empty piece, two adjacent separators an empty one).
pub open spec fn split_seq<A>(s: Seq<A>, sep: A) -> Seq<Seq<A>>
    decreases s.len(),
{
    if s.len() == 0 {
        seq![Seq::empty()]
    } else {
        let p = split_seq(s.drop_last(), sep);
        if s.last() == sep {
            p.push(Seq::empty())
        } else {
            p.update(p.len() - 1, p.last().push(s.last()))
        }
    }
}

pub proof fn lemma_split_nonempty<A>(s: Seq<A>, sep: A)
    ensures
        split_seq(s, sep).len() >= 1,
    decreases s.len(),
{
    if s.len() > 0 {
        lemma_split_nonempty(s.drop_last(), sep);
    }
}

/// Index of the first `x` at or after `i` (the length when there is none).
pub open spec fn find_from<A>(s: Seq<A>, x: A, i: int) -> int
    decreases s.len() - i,
{
    if i < 0 || i >= s.len() {
        s.len() as int
    } else if s[i] == x {
        i
    } else {
        find_from(s, x, i + 1)
    }
}

pub proof fn lemma_find_bounds<A>(s: Seq<A>, x: A, i: int)
    requires
        0 <= i,
    ensures
        i <= find_from(s, x, i) || find_from(s, x, i) == s.len(),
        find_from(s, x, i) <= s.len(),
        find_from(s, x, i) < s.len() ==> s[find_from(s, x, i)] == x,
        forall|k: int| i <= k < find_from(s, x, i) ==> s[k] != x,
    decreases s.len() - i,
{
    if i < s.len() && s[i] != x {
        lemma_find_bounds(s, x, i + 1);
    }
}

/// Searching from `i` finds the first `x` at or after `i`: when none lies in
/// `s[i..j]`, the search gives `j` if `s[j]` is `x`, or the end if `j` is it.
pub proof fn lemma_find_first<A>(s: Seq<A>, x: A, i: int, j: int)
    requires
        0 <= i <= j <= s.len(),
        j < s.len() ==> s[j] == x,
        forall|k: int| i <= k < j ==> s[k] != x,
    ensures
        find_from(s, x, i) == j,
    decreases j - i,
{
    if i < j {
        lemma_find_first(s, x, i + 1, j);
    }
}

/// The pieces of `b` between `sep` bytes.
pub fn split_bytes(b: &[u8], sep: u8) -> (r: Vec<Vec<u8>>)
    ensures
        r@.map_values(|v: Vec<u8>| v@) == split_seq(b@, sep),
{
    let mut r: Vec<Vec<u8>> = Vec::new();
    let mut start: usize = 0;
    let mut i: usize = 0;
    proof {
        assert(b@.take(0) =~= Seq::<u8>::empty());
        assert(r@.map_values(|v: Vec<u8>| v@) =~= Seq::<Seq<u8>>::empty());
        assert(b@.subrange(0, 0) =~= Seq::<u8>::empty());
        assert(Seq::<Seq<u8>>::empty().push(Seq::<u8>::empty()) =~= seq![Seq::<u8>::empty()]);
    }
    while i < b.len()
        invariant
            start <= i <= b.len(),
            split_seq(b@.take(i as int), sep) == r@.map_values(|v: Vec<u8>| v@).push(b@.subrange(start as int, i as int)),
        decreases b.len() - i,
    {
        proof {
            let t = b@.take(i + 1);
            assert(t.drop_last() =~= b@.take(i as int));
            assert(t.last() == b@[i as int]);
        }
        if b[i] == sep {
            let piece = vstd::slice::slice_to_vec(&b[start..i]);
            let ghost before = r@;
            r.push(piece);
            proof {
                assert(r@.map_values(|v: Vec<u8>| v@) =~= before.map_values(|v: Vec<u8>| v@).push(b@.subrange(start as int, i as int)));
                assert(b@.subrange(i + 1, i + 1) =~= Seq::<u8>::empty());
            }
            start = i + 1;
        } else {
            proof {
                let m = r@.map_values(|v: Vec<u8>| v@);
                assert(b@.subrange(start as int, i as int).push(b@[i as int]) =~= b@.subrange(start as int, i + 1));
                assert(m.push(b@.subrange(start as int, i as int)).update(m.len() as int, b@.subrange(start as int, i as int).push(b@[i as int]))
                    =~= m.push(b@.subrange(start as int, i + 1)));
            }
        }
        i = i + 1;
    }
    let last = vstd::slice::slice_to_vec(&b[start..i]);
    let ghost before = r@;
    r.push(last);
    proof {
        assert(b@.take(i as int) =~= b@);
        assert(r@.map_values(|v: Vec<u8>| v@) =~= before.map_values(|v: Vec<u8>| v@).push(b@.subrange(start as int, i as int)));
    }
    r
}

/// The pieces of `s` between `sep` characters.
pub fn split_chars(s: &[char], sep: char) -> (r: Vec<Vec<char>>)
    ensures
        r@.map_values(|v: Vec<char>| v@) == split_seq(s@, sep),
{
    let mut r: Vec<Vec<char>> = Vec::new();
    let mut start: usize = 0;
    let mut i: usize = 0;
    proof {
        assert(s@.take(0) =~= Seq::<char>::empty());
        assert(r@.map_values(|v: Vec<char>| v@) =~= Seq::<Seq<char>>::empty());
        assert(s@.subrange(0, 0) =~= Seq::<char>::empty());
        assert(Seq::<Seq<char>>::empty().push(Seq::<char>::empty()) =~= seq![Seq::<char>::empty()]);
    }
    while i < s.len()
        invariant
            start <= i <= s.len(),
            split_seq(s@.take(i as int), sep) == r@.map_values(|v: Vec<char>| v@).push(s@.subrange(start as int, i as int)),
        decreases s.len() - i,
    {
        proof {
            let t = s@.take(i + 1);
            assert(t.drop_last() =~= s@.take(i as int));
            assert(t.last() == s@[i as int]);
        }
        if s[i] == sep {
            let piece = vstd::slice::slice_to_vec(&s[start..i]);
            let ghost before = r@;
            r.push(piece);
            proof {
                assert(r@.map_values(|v: Vec<char>| v@) =~= before.map_values(|v: Vec<char>| v@).push(s@.subrange(start as int, i as int)));
                assert(s@.subrange(i + 1, i + 1) =~= Seq::<char>::empty());
            }
            start = i + 1;
        } else {
            proof {
                let m = r@.map_values(|v: Vec<char>| v@);
                assert(s@.subrange(start as int, i as int).push(s@[i as int]) =~= s@.subrange(start as int, i + 1));
                assert(m.push(s@.subrange(start as int, i as int)).update(m.len() as int, s@.subrange(start as int, i as int).push(s@[i as int]))
                    =~= m.push(s@.subrange(start as int, i + 1)));
            }
        }
        i = i + 1;
    }
    let last = vstd::slice::slice_to_vec(&s[start..i]);
    let ghost before = r@;
    r.push(last);
    proof {
        assert(s@.take(i as int) =~= s@);
        assert(r@.map_values(|v: Vec<char>| v@) =~= before.map_values(|v: Vec<char>| v@).push(s@.subrange(start as int, i as int)));
    }
    r
}

pub fn find_char(s: &[char], x: char, i: usize) -> (k: usize)
    requires
        i <= s.len(),
    ensures
        k == find_from(s@, x, i as int),
{
    let mut k = i;
    while k < s.len() && s[k] != x
        invariant
            i <= k <= s.len(),
            find_from(s@, x, k as int) == find_from(s@, x, i as int),
        decreases s.len() - k,
    {
        k = k + 1;
    }
    k
}

pub fn find_byte(s: &[u8], x: u8, i: usize) -> (k: usize)
    requires
        i <= s.len(),
    ensures
        k == find_from(s@, x, i as int),
{
    let mut k = i;
    while k < s.len() && s[k] != x
        invariant
            i <= k <= s.len(),
            find_from(s@, x, k as int) == find_from(s@, x, i as int),
        decreases s.len() - k,
    {
        k = k + 1;
    }
    k
}

/// Whether two character slices are equal.
pub fn chars_eq(a: &[char], b: &[char]) -> (r: bool)
    ensures
        r == (a@ == b@),
{
    if a.len() != b.len() {
        return false;
    }
    let mut i: usize = 0;
    while i < a.len()
        invariant
            i <= a.len() == b.len(),
            a@.take(i as int) =~= b@.take(i as int),
        decreases a.len() - i,
    {
        if a[i] != b[i] {
            return false;
        }
        assert(a@.take(i + 1) =~= a@.take(i as int).push(a@[i as int]));
        assert(b@.take(i + 1) =~= b@.take(i as int).push(b@[i as int]));
        i = i + 1;
    }
    assert(a@ =~= a@.take(i as int));
    assert(b@ =~= b@.take(i as int));
    true
}

/// `p` is a prefix of `s`.
pub open spec fn has_prefix<A>(s: Seq<A>, p: Seq<A>) -> bool {
    p.len() <= s.len() && s.take(p.len() as int) == p
}

/// `s` without every leading repetition of `p` (`str::trim_start_matches`).
pub open spec fn trim_prefix_all(s: Seq<char>, p: Seq<char>) -> Seq<char>
    decreases s.len(),
{
    if p.len() > 0 && has_prefix(s, p) {
        trim_prefix_all(s.skip(p.len() as int), p)
    } else {
        s
    }
}

/// Whether `s` begins with `p`.
pub fn starts_with_chars(s: &[char], p: &[char]) -> (b: bool)
    ensures
        b == has_prefix(s@, p@),
{
    if p.len() > s.len() {
        return false;
    }
    let head = &s[0..p.len()];
    assert(head@ =~= s@.take(p@.len() as int));
    chars_eq(head, p)
}

/// `str::strip_prefix`, owned.
pub fn strip_prefix_text(s: &str, p: &str) -> (r: Option<String>)
    ensures
        r is Some <==> has_prefix(s@, p@),
        r matches Some(t) ==> t@ == s@.skip(p@.len() as int),
{
    let sc = chars_of(s);
    let pc = chars_of(p);
    if starts_with_chars(sc.as_slice(), pc.as_slice()) {
        let rest = &sc.as_slice()[pc.len()..sc.len()];
        assert(rest@ =~= s@.skip(p@.len() as int));
        Some(string_of(rest))
    } else {
        None
    }
}

/// `str::trim_start_matches` with a string pattern, owned.
pub fn trim_prefix_text(s: &str, p: &str) -> (r: String)
    ensures
        r@ == trim_prefix_all(s@, p@),
{
    let sc = chars_of(s);
    let pc = chars_of(p);
    if pc.len() == 0 {
        return string_of(sc.as_slice());
    }
    let mut k: usize = 0;
    assert(s@.skip(0) =~= s@);
    while k <= sc.len() && starts_with_chars(&sc.as_slice()[k..sc.len()], pc.as_slice())
        invariant
            pc@ == p@,
            sc@ == s@,
            p@.len() > 0,
            k <= sc.len(),
            trim_prefix_all(s@.skip(k as int), p@) == trim_prefix_all(s@, p@),
        decreases sc.len() - k,
    {
        let ghost rest = s@.skip(k as int);
        assert(sc@.subrange(k as int, sc@.len() as int) =~= rest);
        assert(rest.skip(p@.len() as int) =~= s@.skip(k + p@.len()));
        k = k + pc.len();
    }
    let tail = &sc.as_slice()[k..sc.len()];
    assert(tail@ =~= s@.skip(k as int));
    string_of(tail)
}

/// The strings of `v` with `sep` between each two (`[String]::join`).
pub open spec fn joined(v: Seq<Seq<char>>, sep: Seq<char>) -> Seq<char>
    decreases v.len(),
{
    if v.len() == 0 {
        Seq::empty()
    } else if v.len() == 1 {
        v[0]
    } else {
        joined(v.drop_last(), sep) + sep + v.last()
    }
}

/// `[String]::join`.
pub fn join_text(v: &Vec<String>, sep: &str) -> (r: String)
    ensures
        r@ == joined(v@.map_values(|s: String| s@), sep@),
{
    let ghost vv = v@.map_values(|s: String| s@);
    let mut r = String::new();
    let mut i: usize = 0;
    while i < v.len()
        invariant
            i <= v.len(),
            vv == v@.map_values(|s: String| s@),
            r@ == joined(vv.take(i as int), sep@),
        decreases v.len() - i,
    {
        let ghost before = r@;
        if i > 0 {
            push_str(&mut r, sep);
        }
        push_str(&mut r, v[i].as_str());
        proof {
            let t = vv.take(i + 1);
            assert(t.drop_last() =~= vv.take(i as int));
            assert(t.last() == v@[i as int]@);
            if i == 0 {
                assert(before =~= Seq::<char>::empty());
                assert(r@ =~= t[0]);
            } else {
                assert(r@ =~= before + sep@ + t.last());
            }
        }
        i = i + 1;
    }
    assert(vv.take(i as int) =~= vv);
    r
}

/// What `String::from_utf8_lossy` makes of `bytes`: valid UTF-8 decoded,
/// each invalid sequence replaced by U+FFFD.
pub uninterp spec fn utf8_lossy(bytes: Seq<u8>) -> Seq<char>;

/// `String::from_utf8_lossy`, owned. Stated: the result is a function of the
/// bytes, and valid UTF-8 is decoded as is; how invalid sequences are
/// replaced is not stated.
#[verifier::external_body]
pub(crate) fn lossy(bytes: &[u8]) -> (s: String)
    ensures
        s@ == utf8_lossy(bytes@),
        valid_utf8(bytes@) ==> s@ == decode_utf8(bytes@),
{
    String::from_utf8_lossy(bytes).into_owned()
}

/// `std::str::from_utf8`: succeeds exactly on valid UTF-8, and decodes it.
#[verifier::external_body]
pub(crate) fn utf8_str(bytes: &[u8]) -> (r: Option<&str>)
    ensures
        r is Some <==> valid_utf8(bytes@),
        r matches Some(s) ==> s@ == decode_utf8(bytes@),
{
    std::str::from_utf8(bytes).ok()
}

} // verus!
