//! Sizes written by people ("50M", "100K", "2G", "123") and sizes shown to them.
use vstd::prelude::*;
use crate::text::{chars_of, decimal, push_char, push_decimal, push_str, string_of};

verus! {

/// Unicode `White_Space`, which `str::trim` removes.
pub open spec fn is_space(c: char) -> bool {
    let v = c as u32;
    (0x09 <= v <= 0x0d) || v == 0x20 || v == 0x85 || v == 0xa0 || v == 0x1680 || (0x2000 <= v
        <= 0x200a) || v == 0x2028 || v == 0x2029 || v == 0x202f || v == 0x205f || v == 0x3000
}

pub fn is_space_exec(c: char) -> (b: bool)
    ensures
        b == is_space(c),
{
    let v = c as u32;
    (0x09 <= v && v <= 0x0d) || v == 0x20 || v == 0x85 || v == 0xa0 || v == 0x1680 || (0x2000 <= v
        && v <= 0x200a) || v == 0x2028 || v == 0x2029 || v == 0x202f || v == 0x205f || v == 0x3000
}

pub open spec fn is_digit(c: char) -> bool {
    '0' <= c <= '9'
}

/// Index of the first non-space at or after `i`.
pub open spec fn skip_space(s: Seq<char>, i: int) -> int
    decreases s.len() - i,
{
    if i >= s.len() || i < 0 {
        i
    } else if is_space(s[i]) {
        skip_space(s, i + 1)
    } else {
        i
    }
}

/// End of `s[lo..j]` once trailing spaces are dropped.
pub open spec fn drop_space_back(s: Seq<char>, lo: int, j: int) -> int
    decreases j - lo,
{
    if j <= lo {
        lo
    } else if is_space(s[j - 1]) {
        drop_space_back(s, lo, j - 1)
    } else {
        j
    }
}

/// `s` without leading and trailing white space.
pub open spec fn trim(s: Seq<char>) -> Seq<char> {
    let a = skip_space(s, 0);
    s.subrange(a, drop_space_back(s, a, s.len() as int))
}

/// `str::trim`, owned.
pub fn trim_text(s: &str) -> (r: String)
    ensures
        r@ == trim(s@),
{
    let cs = chars_of(s);
    let n = cs.len();
    let mut a: usize = 0;
    while a < n && is_space_exec(cs[a])
        invariant
            a <= n,
            n == cs@.len(),
            skip_space(cs@, a as int) == skip_space(cs@, 0),
        decreases n - a,
    {
        a = a + 1;
    }
    let mut b: usize = n;
    while b > a && is_space_exec(cs[b - 1])
        invariant
            a <= b <= n,
            n == cs@.len(),
            drop_space_back(cs@, a as int, b as int) == drop_space_back(cs@, a as int, n as int),
        decreases b - a,
    {
        b = b - 1;
    }
    string_of(&cs.as_slice()[a..b])
}

/// One trailing 'B' or 'b' dropped.
pub open spec fn strip_b(t: Seq<char>) -> Seq<char> {
    if t.len() > 0 && (t.last() == 'B' || t.last() == 'b') {
        t.drop_last()
    } else {
        t
    }
}

/// Index of the first non-digit at or after `i`.
pub open spec fn skip_digits(s: Seq<char>, i: int) -> int
    decreases s.len() - i,
{
    if i >= s.len() || i < 0 {
        i
    } else if is_digit(s[i]) {
        skip_digits(s, i + 1)
    } else {
        i
    }
}

/// The number an ASCII digit string denotes.
pub open spec fn digits_value(d: Seq<char>) -> nat
    decreases d.len(),
{
    if d.len() == 0 {
        0
    } else {
        digits_value(d.drop_last()) * 10 + ((d.last() as u32) - 48) as nat
    }
}

/// Bytes per unit: none, K, M or G (either case).
pub open spec fn unit_factor(u: Seq<char>) -> Option<nat> {
    if u.len() == 0 {
        Some(1)
    } else if u == seq!['K'] || u == seq!['k'] {
        Some(1024)
    } else if u == seq!['M'] || u == seq!['m'] {
        Some(1048576)
    } else if u == seq!['G'] || u == seq!['g'] {
        Some(1073741824)
    } else {
        None
    }
}

/// Why a size was not understood.
#[derive(Clone, Copy, Debug, PartialEq, Eq)]
pub enum SizeError {
    /// no leading digits
    NoNumber,
    /// the digits exceed `u64`
    BadNumber,
    /// the unit is none of K / M / G
    BadUnit,
    /// the number times the unit exceeds `u64`
    Overflow,
}

/// What `parse_size` gives for the text `s`.
pub open spec fn size_of_text(s: Seq<char>) -> Result<u64, SizeError> {
    let t = strip_b(trim(s));
    let i = skip_digits(t, 0);
    let v = digits_value(t.take(i));
    if i == 0 {
        Err(SizeError::NoNumber)
    } else if v > u64::MAX {
        Err(SizeError::BadNumber)
    } else {
        match unit_factor(t.skip(i)) {
            None => Err(SizeError::BadUnit),
            Some(f) => if v * f > u64::MAX {
                Err(SizeError::Overflow)
            } else {
                Ok((v * f) as u64)
            },
        }
    }
}

proof fn lemma_unit_single(c: char)
    ensures
        unit_factor(seq![c]) == (if c == 'K' || c == 'k' {
            Some(1024nat)
        } else if c == 'M' || c == 'm' {
            Some(1048576nat)
        } else if c == 'G' || c == 'g' {
            Some(1073741824nat)
        } else {
            None
        }),
{
    assert(seq![c][0] == c);
    assert(seq!['K'][0] == 'K' && seq!['k'][0] == 'k' && seq!['M'][0] == 'M');
    assert(seq!['m'][0] == 'm' && seq!['G'][0] == 'G' && seq!['g'][0] == 'g');
    if c == 'K' {
        assert(seq![c] =~= seq!['K']);
    }
    if c == 'k' {
        assert(seq![c] =~= seq!['k']);
    }
    if c == 'M' {
        assert(seq![c] =~= seq!['M']);
    }
    if c == 'm' {
        assert(seq![c] =~= seq!['m']);
    }
    if c == 'G' {
        assert(seq![c] =~= seq!['G']);
    }
    if c == 'g' {
        assert(seq![c] =~= seq!['g']);
    }
}

proof fn lemma_digits_grow(d: Seq<char>, n: int)
    requires
        0 <= n <= d.len(),
        forall|k: int| 0 <= k < d.len() ==> is_digit(#[trigger] d[k]),
    ensures
        digits_value(d.take(n)) <= digits_value(d),
    decreases d.len(),
{
    if n < d.len() {
        assert(d.drop_last().take(n) =~= d.take(n));
        lemma_digits_grow(d.drop_last(), n);
    } else {
        assert(d.take(n) =~= d);
    }
}

/// "50M" / "100K" / "2G" / "123" / "50MB" -> bytes.
pub fn parse_size(s: &str) -> (r: Result<u64, SizeError>)
    ensures
        r == size_of_text(s@),
{
    let cs = chars_of(s);
    let n = cs.len();
    // leading white space
    let mut a: usize = 0;
    while a < n && is_space_exec(cs[a])
        invariant
            a <= n,
            n == cs@.len(),
            skip_space(cs@, a as int) == skip_space(cs@, 0),
        decreases n - a,
    {
        a = a + 1;
    }
    // trailing white space
    let mut b: usize = n;
    while b > a && is_space_exec(cs[b - 1])
        invariant
            a <= b <= n,
            n == cs@.len(),
            drop_space_back(cs@, a as int, b as int) == drop_space_back(cs@, a as int, n as int),
        decreases b - a,
    {
        b = b - 1;
    }
    let ghost t = trim(s@);
    assert(cs@.subrange(a as int, b as int) == t);
    // one trailing B / b
    if b > a && (cs[b - 1] == 'B' || cs[b - 1] == 'b') {
        b = b - 1;
    }
    let ghost t2 = strip_b(t);
    assert(cs@.subrange(a as int, b as int) =~= t2);
    // digits
    let mut i: usize = a;
    let mut v: u64 = 0;
    let mut big = false;
    while i < b && '0' <= cs[i] && cs[i] <= '9'
        invariant
            a <= i <= b <= n,
            n == cs@.len(),
            t2 == cs@.subrange(a as int, b as int),
            skip_digits(t2, i - a) == skip_digits(t2, 0),
            forall|k: int| 0 <= k < i - a ==> is_digit(#[trigger] t2[k]),
            big ==> digits_value(t2.take(i - a)) > u64::MAX,
            !big ==> v == digits_value(t2.take(i - a)),
        decreases b - i,
    {
        let d = (cs[i] as u32 - 48) as u64;
        proof {
            assert(t2[i - a] == cs@[i as int]);
            assert(t2.take(i - a + 1).drop_last() =~= t2.take(i - a));
            assert(t2.take(i - a + 1).last() == cs@[i as int]);
        }
        if !big {
            match v.checked_mul(10) {
                Some(v10) => match v10.checked_add(d) {
                    Some(w) => {
                        v = w;
                    },
                    None => {
                        big = true;
                    },
                },
                None => {
                    big = true;
                },
            }
        } else {
            proof {
                let p = t2.take(i - a);
                assert(digits_value(t2.take(i - a + 1)) == digits_value(p) * 10 + d);
            }
        }
        i = i + 1;
    }
    let ghost k = i - a;
    proof {
        assert(skip_digits(t2, k) == k);
        assert(t2.take(k) =~= cs@.subrange(a as int, i as int));
    }
    if i == a {
        return Err(SizeError::NoNumber);
    }
    if big {
        return Err(SizeError::BadNumber);
    }
    // unit
    let ghost u = t2.skip(k);
    assert(u =~= cs@.subrange(i as int, b as int));
    let f: u64 = if i == b {
        assert(u.len() == 0);
        1
    } else if i + 1 == b {
        let c = cs[i];
        assert(u =~= seq![c]);
        proof {
            lemma_unit_single(c);
        }
        if c == 'K' || c == 'k' {
            1024
        } else if c == 'M' || c == 'm' {
            1048576
        } else if c == 'G' || c == 'g' {
            1073741824
        } else {
            return Err(SizeError::BadUnit);
        }
    } else {
        assert(u.len() > 1);
        assert(unit_factor(u) is None) by {
            assert(seq!['K'].len() == 1);
        }
        return Err(SizeError::BadUnit);
    };
    assert(unit_factor(u) == Some(f as nat));
    match v.checked_mul(f) {
        Some(w) => Ok(w),
        None => Err(SizeError::Overflow),
    }
}

/// `n` rounded to the nearest multiple of `u`, ties to an even multiple.
pub open spec fn round_to(n: nat, u: nat) -> nat
    recommends
        u > 0,
{
    let q = n / u;
    let r = n % u;
    if 2 * r > u || (2 * r == u && q % 2 == 1) {
        (q + 1) * u
    } else {
        q * u
    }
}

/// Spacing of the `f64` values around `n < 2^64`: 1 below 2^53, doubling
/// with each further bit.
pub open spec fn f64_spacing(n: nat) -> nat {
    if n < 0x20_0000_0000_0000 {
        1
    } else if n < 0x40_0000_0000_0000 {
        2
    } else if n < 0x80_0000_0000_0000 {
        4
    } else if n < 0x100_0000_0000_0000 {
        8
    } else if n < 0x200_0000_0000_0000 {
        16
    } else if n < 0x400_0000_0000_0000 {
        32
    } else if n < 0x800_0000_0000_0000 {
        64
    } else if n < 0x1000_0000_0000_0000 {
        128
    } else if n < 0x2000_0000_0000_0000 {
        256
    } else if n < 0x4000_0000_0000_0000 {
        512
    } else if n < 0x8000_0000_0000_0000 {
        1024
    } else {
        2048
    }
}

/// The value of `n as f64` for `n < 2^64`.
pub open spec fn as_f64(n: nat) -> nat {
    round_to(n, f64_spacing(n))
}

/// Tenths of `x / d`, rounded to nearest, ties to even.
pub open spec fn tenths(x: nat, d: nat) -> nat
    recommends
        d > 0,
{
    let q = (x * 10) / d;
    let r = (x * 10) % d;
    if 2 * r > d || (2 * r == d && q % 2 == 1) {
        q + 1
    } else {
        q
    }
}

/// "<whole>.<tenth><unit>"
pub open spec fn one_decimal(t: nat, unit: Seq<char>) -> Seq<char> {
    decimal(t / 10) + seq!['.'] + decimal(t % 10) + unit
}

/// What `human` shows for `bytes`: 1.5GB / 12.0MB / 3.2KB / 12B, the value
/// being `bytes as f64` divided by the unit, to one decimal.
pub open spec fn human_text(bytes: u64) -> Seq<char> {
    let f = as_f64(bytes as nat);
    if bytes >= 0x4000_0000 {
        one_decimal(tenths(f, 0x4000_0000), seq!['G', 'B'])
    } else if bytes >= 0x10_0000 {
        one_decimal(tenths(f, 0x10_0000), seq!['M', 'B'])
    } else if bytes >= 0x400 {
        one_decimal(tenths(f, 0x400), seq!['K', 'B'])
    } else {
        decimal(bytes as nat) + seq!['B']
    }
}

fn spacing_exec(n: u64) -> (u: u128)
    ensures
        u == f64_spacing(n as nat),
        1 <= u <= 2048,
{
    if n < 0x20_0000_0000_0000 {
        1
    } else if n < 0x40_0000_0000_0000 {
        2
    } else if n < 0x80_0000_0000_0000 {
        4
    } else if n < 0x100_0000_0000_0000 {
        8
    } else if n < 0x200_0000_0000_0000 {
        16
    } else if n < 0x400_0000_0000_0000 {
        32
    } else if n < 0x800_0000_0000_0000 {
        64
    } else if n < 0x1000_0000_0000_0000 {
        128
    } else if n < 0x2000_0000_0000_0000 {
        256
    } else if n < 0x4000_0000_0000_0000 {
        512
    } else if n < 0x8000_0000_0000_0000 {
        1024
    } else {
        2048
    }
}

/// Rounds `n` to a multiple of `u`, ties to even.
fn round_exec(n: u128, u: u128) -> (r: u128)
    requires
        1 <= u <= 2048,
        n <= 0x1_0000_0000_0000_0000 * 16,
    ensures
        r == round_to(n as nat, u as nat),
        r <= n + u,
{
    let q = n / u;
    let r = n % u;
    proof {
        vstd::arithmetic::div_mod::lemma_fundamental_div_mod(n as int, u as int);
        assert(q * u <= n) by (nonlinear_arith)
            requires
                n == u * q + r,
                0 <= r,
        ;
        assert((q + 1) * u == q * u + u) by (nonlinear_arith);
    }
    if 2 * r > u || (2 * r == u && q % 2 == 1) {
        (q + 1) * u
    } else {
        q * u
    }
}

fn tenths_exec(x: u128, d: u128) -> (t: u128)
    requires
        1 <= d,
        x <= 0x1_0000_0000_0000_0000 * 2,
    ensures
        t == tenths(x as nat, d as nat),
        t <= x * 10 + 1,
{
    let x10 = x * 10;
    let q = x10 / d;
    let r = x10 % d;
    proof {
        vstd::arithmetic::div_mod::lemma_fundamental_div_mod(x10 as int, d as int);
        assert(q <= x10) by (nonlinear_arith)
            requires
                x10 == d * q + r,
                0 <= r,
                1 <= d,
                0 <= q,
        ;
    }
    if 2 * r > d || (2 * r == d && q % 2 == 1) {
        q + 1
    } else {
        q
    }
}

/// Bytes -> human readable (1.5GB / 12.0MB / 3.2KB / 12B).
pub fn human(bytes: u64) -> (s: String)
    ensures
        s@ == human_text(bytes),
{
    let mut s = String::new();
    if bytes < 0x400 {
        push_decimal(&mut s, bytes);
        push_char(&mut s, 'B');
        assert(s@ =~= human_text(bytes));
        return s;
    }
    let f = round_exec(bytes as u128, spacing_exec(bytes));
    let t = if bytes >= 0x4000_0000 {
        tenths_exec(f, 0x4000_0000)
    } else if bytes >= 0x10_0000 {
        tenths_exec(f, 0x10_0000)
    } else {
        tenths_exec(f, 0x400)
    };
    let u1 = if bytes >= 0x4000_0000 {
        'G'
    } else if bytes >= 0x10_0000 {
        'M'
    } else {
        'K'
    };
    assert(t / 10 <= u64::MAX);
    push_decimal(&mut s, (t / 10) as u64);
    push_char(&mut s, '.');
    push_decimal(&mut s, (t % 10) as u64);
    push_char(&mut s, u1);
    push_char(&mut s, 'B');
    assert(s@ =~= human_text(bytes));
    s
}

} // verus!
