//! The memory-size notation of the configuration ("1GB", "512MB", "256KB",
//! "1024B", "1024").
use vstd::prelude::*;
use vstd::arithmetic::div_mod::{lemma_div_denominator, lemma_hoist_over_denominator};
use crate::error::{NovaError, NovaResult};
use crate::rounding::{double_scaled, double_value, lemma_double_high, lemma_double_low};
use crate::text::{
    ascii_upper, chars_of, is_ascii_text, trim_chars, trimmed, upper_char, upper_text, uppercase_of, string_of,
    is_white_space, trim_start_index, trim_end_index, lemma_case_blind,
};

verus! {

pub open spec fn is_digit(c: char) -> bool {
    48 <= (c as u32) && (c as u32) <= 57
}

pub open spec fn digit_of(c: char) -> nat {
    ((c as u32) - 48) as nat
}

pub open spec fn all_digits(s: Seq<char>) -> bool {
    forall|i: int| 0 <= i < s.len() ==> is_digit(#[trigger] s[i])
}

/// The value of a run of decimal digits, the most significant first.
pub open spec fn digits_value(s: Seq<char>) -> nat
    decreases s.len(),
{
    if s.len() == 0 {
        0
    } else {
        digits_value(s.drop_last()) * 10 + digit_of(s.last())
    }
}

pub open spec fn pow10(n: nat) -> nat
    decreases n,
{
    if n == 0 {
        1
    } else {
        10 * pow10((n - 1) as nat)
    }
}

pub proof fn lemma_pow10_pos(n: nat)
    ensures
        pow10(n) >= 1,
    decreases n,
{
    if n > 0 {
        lemma_pow10_pos((n - 1) as nat);
    }
}

pub proof fn lemma_pow10_adds(a: nat, b: nat)
    ensures
        pow10(a + b) == pow10(a) * pow10(b),
    decreases a,
{
    if a == 0 {
        assert(pow10(0) == 1);
        assert(a + b == b);
        assert(pow10(a) * pow10(b) == pow10(b));
    } else {
        let a1 = (a - 1) as nat;
        lemma_pow10_adds(a1, b);
        assert(a + b == (a1 + b) + 1);
        assert(pow10(a + b) == 10 * pow10(a1 + b));
        assert(pow10(a) == 10 * pow10(a1));
        assert(10 * (pow10(a1) * pow10(b)) == (10 * pow10(a1)) * pow10(b))
            by (nonlinear_arith);
        assert(pow10(a + b) == pow10(a) * pow10(b));
    }
}

pub proof fn lemma_pow10_mono(a: nat, b: nat)
    requires
        a <= b,
    ensures
        pow10(a) <= pow10(b),
    decreases b,
{
    if a < b {
        lemma_pow10_mono(a, (b - 1) as nat);
        lemma_pow10_pos((b - 1) as nat);
    }
}

pub proof fn lemma_pow10_20()
    ensures
        pow10(20) == 100_000_000_000_000_000_000,
{
    reveal_with_fuel(pow10, 21);
}

pub proof fn lemma_digits_bound(s: Seq<char>)
    requires
        all_digits(s),
    ensures
        digits_value(s) < pow10(s.len()),
    decreases s.len(),
{
    if s.len() > 0 {
        let p = s.drop_last();
        assert(all_digits(p)) by {
            assert forall|i: int| 0 <= i < p.len() implies is_digit(#[trigger] p[i]) by {
                assert(p[i] == s[i]);
            }
        }
        lemma_digits_bound(p);
        assert(is_digit(s[s.len() - 1]));
        assert(digit_of(s.last()) <= 9);
        assert(digits_value(s) == digits_value(p) * 10 + digit_of(s.last()));
        assert(pow10(s.len()) == 10 * pow10(p.len()));
        assert(digits_value(p) * 10 + digit_of(s.last()) < 10 * pow10(p.len())) by (nonlinear_arith)
            requires
                digits_value(p) < pow10(p.len()),
                digit_of(s.last()) <= 9,
        ;
    }
}

/// Splitting a run of digits: the first part counts in units of the second's length.
pub proof fn lemma_digits_split(a: Seq<char>, b: Seq<char>)
    ensures
        digits_value(a + b) == digits_value(a) * pow10(b.len()) + digits_value(b),
    decreases b.len(),
{
    if b.len() == 0 {
        assert(a + b =~= a);
        assert(pow10(0) == 1);
        assert(digits_value(b) == 0);
        assert(digits_value(a) * pow10(b.len()) == digits_value(a));
    } else {
        let b1 = b.drop_last();
        lemma_digits_split(a, b1);
        assert((a + b).drop_last() =~= a + b1);
        assert((a + b).last() == b.last());
        assert(digits_value(a + b) == digits_value(a + b1) * 10 + digit_of(b.last()));
        assert(pow10(b.len()) == 10 * pow10(b1.len()));
        assert(digits_value(b) == digits_value(b1) * 10 + digit_of(b.last()));
        let x = digits_value(a);
        let p = pow10(b1.len());
        let y = digits_value(b1);
        let d = digit_of(b.last());
        assert((x * p + y) * 10 + d == x * (10 * p) + (y * 10 + d)) by (nonlinear_arith);
        assert(digits_value(a + b) == x * pow10(b.len()) + digits_value(b));
    }
}

pub proof fn lemma_digits_lower(s: Seq<char>)
    requires
        all_digits(s),
        s.len() >= 1,
        (s[0] as u32) != 48,
    ensures
        digits_value(s) >= pow10((s.len() - 1) as nat),
{
    let a = s.subrange(0, 1);
    let b = s.subrange(1, s.len() as int);
    assert(a + b =~= s);
    lemma_digits_split(a, b);
    assert(a.drop_last() =~= Seq::<char>::empty());
    assert(digits_value(a.drop_last()) == 0);
    assert(a.last() == s[0]);
    assert(digits_value(a) == digit_of(s[0]));
    assert(is_digit(s[0]));
    assert(digit_of(s[0]) >= 1);
    assert(digits_value(a) * pow10(b.len()) >= pow10(b.len())) by (nonlinear_arith)
        requires
            digits_value(a) >= 1,
    ;
}

/// `usize::from_str`: an optional `+`, then at least one decimal digit, for a
/// value that fits in `usize`.
pub open spec fn unsigned_text(s: Seq<char>) -> Option<nat> {
    let ds = if s.len() > 0 && s[0] == '+' {
        s.drop_first()
    } else {
        s
    };
    if ds.len() > 0 && all_digits(ds) && digits_value(ds) <= usize::MAX {
        Some(digits_value(ds))
    } else {
        None
    }
}

/// The value of the digits `s[lo..hi]`, capped at `cap`.
fn capped_digits_value(s: &[char], lo: usize, hi: usize, cap: u128) -> (r: u128)
    requires
        lo <= hi <= s@.len(),
        all_digits(s@.subrange(lo as int, hi as int)),
        cap <= 0x1_0000_0000_0000_0000_0000u128,
    ensures
        r as nat == if digits_value(s@.subrange(lo as int, hi as int)) < cap {
            digits_value(s@.subrange(lo as int, hi as int))
        } else {
            cap as nat
        },
{
    let mut acc: u128 = 0;
    let mut i: usize = lo;
    assert(s@.subrange(lo as int, lo as int) =~= Seq::<char>::empty());
    while i < hi
        invariant
            lo <= i <= hi <= s@.len(),
            all_digits(s@.subrange(lo as int, hi as int)),
            cap <= 0x1_0000_0000_0000_0000_0000u128,
            acc as nat == if digits_value(s@.subrange(lo as int, i as int)) < cap {
                digits_value(s@.subrange(lo as int, i as int))
            } else {
                cap as nat
            },
        decreases hi - i,
    {
        let ghost pre = s@.subrange(lo as int, i as int);
        let ghost next = s@.subrange(lo as int, i + 1);
        assert(next.drop_last() =~= pre);
        assert(next.last() == s@[i as int]);
        assert(s@.subrange(lo as int, hi as int)[i - lo] == s@[i as int]);
        let d = (s[i] as u32 - 48) as u128;
        assert(d == digit_of(s@[i as int]));
        assert(d <= 9);
        assert(digits_value(next) == digits_value(pre) * 10 + d);
        if acc >= cap {
            assert(digits_value(pre) >= cap);
            assert(digits_value(pre) * 10 + d >= cap) by (nonlinear_arith)
                requires
                    digits_value(pre) >= cap,
                    d >= 0,
            ;
        } else {
            let v = acc * 10 + d;
            if v >= cap {
                acc = cap;
            } else {
                acc = v;
            }
        }
        i = i + 1;
    }
    acc
}

/// `usize::from_str` on the characters `s`.
pub fn parse_unsigned(s: &[char]) -> (r: Option<usize>)
    ensures
        match unsigned_text(s@) {
            Some(v) => r == Some(v as usize),
            None => r is None,
        },
{
    let n = s.len();
    let start: usize = if n > 0 && s[0] == '+' { 1 } else { 0 };
    let ghost ds = s@.subrange(start as int, n as int);
    assert(start == 1 ==> ds =~= s@.drop_first());
    assert(start == 0 ==> ds =~= s@);
    if start >= n {
        return None;
    }
    let mut i: usize = start;
    while i < n
        invariant
            start <= i <= n,
            n == s@.len(),
            ds == s@.subrange(start as int, n as int),
            start == 1 ==> ds =~= s@.drop_first(),
            start == 0 ==> ds =~= s@,
            start == 1 <==> (s@.len() > 0 && s@[0] == '+'),
            forall|j: int| start <= j < i ==> is_digit(s@[j]),
        decreases n - i,
    {
        let c = s[i] as u32;
        if c < 48 || c > 57 {
            assert(ds[i - start] == s@[i as int]);
            assert(!all_digits(ds));
            return None;
        }
        i = i + 1;
    }
    assert(all_digits(ds)) by {
        assert forall|j: int| 0 <= j < ds.len() implies is_digit(#[trigger] ds[j]) by {
            assert(ds[j] == s@[start + j]);
        }
    }
    let limit: u128 = usize::MAX as u128 + 1;
    let v = capped_digits_value(s, start, n, limit);
    if v >= limit {
        None
    } else {
        Some(v as usize)
    }
}

/// What a decimal floating-point text denotes.
pub enum FloatText {
    NotANumber,
    Infinite,
    /// The value `digits * 10^(exp - frac_len)`.
    Finite { digits: Seq<char>, frac_len: nat, exp: int },
}

/// The index just past the run of decimal digits that starts at `i`.
pub open spec fn digit_run_end(s: Seq<char>, i: int) -> int
    decreases s.len() - i,
{
    if 0 <= i < s.len() && is_digit(s[i]) {
        digit_run_end(s, i + 1)
    } else {
        i
    }
}

/// `s` is the upper-case ASCII word `w` with any letter in either case.
pub open spec fn matches_word(s: Seq<char>, w: Seq<char>) -> bool {
    s.len() == w.len() && forall|i: int|
        0 <= i < s.len() ==> (#[trigger] s[i] == w[i] || (s[i] as u32) == (w[i] as u32) + 32)
}

/// The floating-point notation that the standard library's decimal parser
/// accepts: an optional sign, then `inf`, `infinity` or `nan` in any case, or
/// digits with an optional decimal point and at least one digit, followed by
/// an optional exponent (`e` or `E`, an optional sign, at least one digit).
/// The boolean is whether the sign is `-`.
pub open spec fn float_text(s: Seq<char>) -> Option<(bool, FloatText)> {
    let neg = s.len() > 0 && s[0] == '-';
    let start: int = if s.len() > 0 && (s[0] == '+' || s[0] == '-') {
        1
    } else {
        0
    };
    let r = s.subrange(start, s.len() as int);
    if matches_word(r, seq!['I', 'N', 'F']) || matches_word(r, seq!['I', 'N', 'F', 'I', 'N', 'I', 'T', 'Y']) {
        Some((neg, FloatText::Infinite))
    } else if matches_word(r, seq!['N', 'A', 'N']) {
        Some((neg, FloatText::NotANumber))
    } else {
        let i1 = digit_run_end(s, start);
        let i2 = if i1 < s.len() && s[i1] == '.' {
            i1 + 1
        } else {
            i1
        };
        let i3 = digit_run_end(s, i2);
        let digits = s.subrange(start, i1) + s.subrange(i2, i3);
        let frac_len = (i3 - i2) as nat;
        if !(i1 > start || i3 > i2) {
            None
        } else if i3 == s.len() {
            Some((neg, FloatText::Finite { digits, frac_len, exp: 0 }))
        } else if s[i3] == 'e' || s[i3] == 'E' {
            let j0 = i3 + 1;
            let eneg = j0 < s.len() && s[j0] == '-';
            let j1 = if j0 < s.len() && (s[j0] == '+' || s[j0] == '-') {
                j0 + 1
            } else {
                j0
            };
            let j2 = digit_run_end(s, j1);
            let ev = digits_value(s.subrange(j1, j2)) as int;
            if j2 > j1 && j2 == s.len() {
                Some((neg, FloatText::Finite { digits, frac_len, exp: if eneg { -ev } else { ev } }))
            } else {
                None
            }
        } else {
            None
        }
    }
}

pub open spec fn clamp_usize(v: nat) -> nat {
    if v > usize::MAX {
        usize::MAX as nat
    } else {
        v
    }
}

/// A decimal number read as a double (to the nearest, ties to even), scaled by
/// `2^k` and truncated to `usize`: negative values and NaN give 0, values
/// beyond the range give `usize::MAX`.
pub open spec fn float_scaled(s: Seq<char>, k: nat) -> Option<nat> {
    match float_text(s) {
        None => None,
        Some((neg, t)) => Some(
            match t {
                FloatText::NotANumber => 0,
                FloatText::Infinite => if neg {
                    0
                } else {
                    usize::MAX as nat
                },
                FloatText::Finite { digits, frac_len, exp } => if neg {
                    0
                } else {
                    clamp_usize(double_scaled(digits_value(digits), exp - frac_len, k))
                },
            },
        ),
    }
}

pub open spec fn ends_with_unit(s: Seq<char>, a: char, b: char) -> bool {
    s.len() >= 2 && s[s.len() - 2] == a && s[s.len() - 1] == b
}

/// The number of bytes a normalised memory size denotes: `GB`, `MB` and `KB`
/// scale a decimal floating-point number by 2^30, 2^20 and 2^10; `B` and no
/// unit take an unsigned integer.
pub open spec fn memory_size(s: Seq<char>) -> Option<nat> {
    if ends_with_unit(s, 'G', 'B') {
        float_scaled(s.subrange(0, s.len() - 2), 30)
    } else if ends_with_unit(s, 'M', 'B') {
        float_scaled(s.subrange(0, s.len() - 2), 20)
    } else if ends_with_unit(s, 'K', 'B') {
        float_scaled(s.subrange(0, s.len() - 2), 10)
    } else if s.len() >= 1 && s[s.len() - 1] == 'B' {
        unsigned_text(s.subrange(0, s.len() - 1))
    } else {
        unsigned_text(s)
    }
}

pub proof fn lemma_carry_step(t: Seq<char>, s: nat)
    requires
        t.len() >= 1,
    ensures
        (digits_value(t) * s) / pow10(t.len()) == (digit_of(t[0]) * s + (digits_value(t.drop_first()) * s)
            / pow10(t.drop_first().len())) / 10,
{
    let a = t.subrange(0, 1);
    let b = t.drop_first();
    assert(a + b =~= t);
    lemma_digits_split(a, b);
    assert(a.drop_last() =~= Seq::<char>::empty());
    assert(digits_value(a.drop_last()) == 0);
    assert(digits_value(a) == digit_of(t[0]));
    let l = b.len();
    let pl = pow10(l);
    lemma_pow10_pos(l);
    assert(pow10(t.len()) == 10 * pl);
    let d = digit_of(t[0]);
    let tb = digits_value(b);
    assert(digits_value(t) * s == (d * s) * pl + tb * s) by (nonlinear_arith)
        requires
            digits_value(t) == d * pl + tb,
    ;
    lemma_hoist_over_denominator((tb * s) as int, (d * s) as int, pl);
    lemma_div_denominator((digits_value(t) * s) as int, pl as int, 10);
    assert(pl * 10 == 10 * pl);
}

fn digit_run(s: &[char], i: usize) -> (r: usize)
    requires
        i <= s@.len(),
    ensures
        r == digit_run_end(s@, i as int),
        i <= r <= s@.len(),
        forall|j: int| i <= j < r ==> is_digit(#[trigger] s@[j]),
{
    let mut j = i;
    while j < s.len() && (s[j] as u32) >= 48 && (s[j] as u32) <= 57
        invariant
            i <= j <= s@.len(),
            digit_run_end(s@, i as int) == digit_run_end(s@, j as int),
            forall|t: int| i <= t < j ==> is_digit(#[trigger] s@[t]),
        decreases s@.len() - j,
    {
        j = j + 1;
    }
    j
}

fn word_at(s: &[char], start: usize, w: &[char]) -> (b: bool)
    requires
        start <= s@.len(),
    ensures
        b == matches_word(s@.subrange(start as int, s@.len() as int), w@),
{
    let ghost r = s@.subrange(start as int, s@.len() as int);
    let slen = s.len();
    if slen - start != w.len() {
        return false;
    }
    let mut i: usize = 0;
    while i < w.len()
        invariant
            slen == s@.len(),
            i <= w@.len(),
            start + w@.len() == s@.len(),
            r == s@.subrange(start as int, s@.len() as int),
            r.len() == w@.len(),
            forall|t: int| 0 <= t < i ==> (#[trigger] r[t] == w@[t] || (r[t] as u32) == (w@[t] as u32) + 32),
        decreases w@.len() - i,
    {
        let c = s[start + i];
        assert(r[i as int] == c);
        let cu = c as u32;
        let wu = w[i] as u32;
        if !(c == w[i] || (cu >= 32 && cu - 32 == wu)) {
            return false;
        }
        i = i + 1;
    }
    true
}

proof fn lemma_zeros(z: Seq<char>)
    requires
        forall|i: int| 0 <= i < z.len() ==> (#[trigger] z[i] as u32) == 48,
    ensures
        digits_value(z) == 0,
    decreases z.len(),
{
    if z.len() > 0 {
        lemma_zeros(z.drop_last());
        assert((z.last() as u32) == 48);
    }
}

/// The digits `s[start..i1]` followed by the digits `s[i2..i3]`.
fn mantissa_digits(s: &[char], start: usize, i1: usize, i2: usize, i3: usize) -> (m: Vec<char>)
    requires
        start <= i1 <= i2 <= i3 <= s@.len(),
        forall|j: int| start <= j < i1 ==> is_digit(#[trigger] s@[j]),
        forall|j: int| i2 <= j < i3 ==> is_digit(#[trigger] s@[j]),
    ensures
        m@ == s@.subrange(start as int, i1 as int) + s@.subrange(i2 as int, i3 as int),
        all_digits(m@),
{
    let mut m: Vec<char> = Vec::new();
    let mut t: usize = start;
    while t < i1
        invariant
            start <= t <= i1 <= s@.len(),
            m@ == s@.subrange(start as int, t as int),
        decreases i1 - t,
    {
        m.push(s[t]);
        t = t + 1;
        assert(m@ =~= s@.subrange(start as int, t as int));
    }
    let mut t2: usize = i2;
    while t2 < i3
        invariant
            start <= i1 <= i2 <= t2 <= i3 <= s@.len(),
            m@ == s@.subrange(start as int, i1 as int) + s@.subrange(i2 as int, t2 as int),
        decreases i3 - t2,
    {
        m.push(s[t2]);
        t2 = t2 + 1;
        assert(m@ =~= s@.subrange(start as int, i1 as int) + s@.subrange(i2 as int, t2 as int));
    }
    assert(all_digits(m@)) by {
        assert forall|i: int| 0 <= i < m@.len() implies is_digit(#[trigger] m@[i]) by {
            if i < i1 - start {
                assert(m@[i] == s@[start + i]);
            } else {
                assert(m@[i] == s@[i2 + (i - (i1 - start))]);
            }
        }
    }
    m
}

/// `digits_value(m) * 10^(exp - frac_len)` read as a double, scaled by `2^k`,
/// truncated and clamped, where the exponent's magnitude is given capped at 2^80.
fn finite_scaled(m: &[char], frac_len: usize, eneg: bool, ev: u128, Ghost(exp): Ghost<int>, k: u32) -> (r: usize)
    requires
        all_digits(m@),
        frac_len <= m@.len(),
        k == 10 || k == 20 || k == 30,
        ev <= 0x1_0000_0000_0000_0000_0000u128,
        exp == (if eneg { -(ev as int) } else { ev as int }) || (ev == 0x1_0000_0000_0000_0000_0000u128 && (
            if eneg { exp <= -(ev as int) } else { exp >= ev as int })),
    ensures
        r as nat == clamp_usize(double_scaled(digits_value(m@), exp - frac_len, k as nat)),
{
    let mut z: usize = 0;
    while z < m.len() && (m[z] as u32) == 48
        invariant
            z <= m@.len(),
            forall|i: int| 0 <= i < z ==> (#[trigger] m@[i] as u32) == 48,
        decreases m@.len() - z,
    {
        z = z + 1;
    }
    let ghost zs = m@.subrange(0, z as int);
    let ghost rest = m@.subrange(z as int, m@.len() as int);
    let ml = m.len();
    proof {
        assert(zs + rest =~= m@);
        lemma_digits_split(zs, rest);
        lemma_zeros(zs);
        assert(digits_value(zs) * pow10(rest.len()) == 0) by (nonlinear_arith)
            requires
                digits_value(zs) == 0,
        ;
        assert(digits_value(m@) == digits_value(rest));
        assert(ml == m@.len());
    }
    if z == m.len() {
        proof {
            assert(rest =~= Seq::<char>::empty());
            assert(digits_value(rest) == 0);
        }
        return 0;
    }
    let mut mm: Vec<char> = Vec::new();
    let mut u: usize = z;
    while u < m.len()
        invariant
            z <= u <= m@.len(),
            mm@ == m@.subrange(z as int, u as int),
        decreases m@.len() - u,
    {
        mm.push(m[u]);
        u = u + 1;
        assert(mm@ =~= m@.subrange(z as int, u as int));
    }
    assert(mm@ == rest);
    assert(all_digits(rest)) by {
        assert forall|i: int| 0 <= i < rest.len() implies is_digit(#[trigger] rest[i]) by {
            assert(rest[i] == m@[z + i]);
        }
    }
    assert(rest[0] == m@[z as int]);
    let f = frac_len as i128;
    let signed: i128 = if eneg { -(ev as i128) } else { ev as i128 };
    let e: i128 = signed - f;
    let r = double_value(&mm, e, k);
    proof {
        let nv = digits_value(rest);
        let len = rest.len();
        let ee = exp - frac_len;
        if e != ee {
            lemma_digits_lower(rest);
            lemma_digits_bound(rest);
            if eneg {
                lemma_double_low(nv, len, e as int, k as nat);
                lemma_double_low(nv, len, ee, k as nat);
            } else {
                lemma_double_high(nv, len, e as int, k as nat);
                lemma_double_high(nv, len, ee, k as nat);
            }
        }
    }
    r
}

/// A decimal floating-point text scaled by `2^k`, as the memory-size units take it.
#[verifier::rlimit(40)]
fn parse_float_scaled(s: &[char], k: u32) -> (r: Option<usize>)
    requires
        k == 10 || k == 20 || k == 30,
    ensures
        match float_scaled(s@, k as nat) {
            Some(v) => r == Some(v as usize),
            None => r is None,
        },
{
    let n = s.len();
    let neg = n > 0 && s[0] == '-';
    let start: usize = if n > 0 && (s[0] == '+' || s[0] == '-') { 1 } else { 0 };
    let inf3 = ['I', 'N', 'F'];
    let inf8 = ['I', 'N', 'F', 'I', 'N', 'I', 'T', 'Y'];
    let nan3 = ['N', 'A', 'N'];
    assert(inf3@ == seq!['I', 'N', 'F']);
    assert(inf8@ == seq!['I', 'N', 'F', 'I', 'N', 'I', 'T', 'Y']);
    assert(nan3@ == seq!['N', 'A', 'N']);
    if word_at(s, start, &inf3) || word_at(s, start, &inf8) {
        return Some(if neg { 0 } else { usize::MAX });
    }
    if word_at(s, start, &nan3) {
        return Some(0);
    }
    let i1 = digit_run(s, start);
    let i2 = if i1 < n && s[i1] == '.' { i1 + 1 } else { i1 };
    let i3 = digit_run(s, i2);
    if !(i1 > start || i3 > i2) {
        return None;
    }
    let mut eneg = false;
    let mut ev: u128 = 0;
    let ghost mut exact_exp: int = 0;
    let cap: u128 = 0x1_0000_0000_0000_0000_0000u128;
    if i3 < n {
        if !(s[i3] == 'e' || s[i3] == 'E') {
            return None;
        }
        let j0 = i3 + 1;
        eneg = j0 < n && s[j0] == '-';
        let j1 = if j0 < n && (s[j0] == '+' || s[j0] == '-') { j0 + 1 } else { j0 };
        let j2 = digit_run(s, j1);
        if !(j2 > j1 && j2 == n) {
            return None;
        }
        proof {
            let ed = s@.subrange(j1 as int, j2 as int);
            assert forall|i: int| 0 <= i < ed.len() implies is_digit(#[trigger] ed[i]) by {
                assert(ed[i] == s@[j1 + i]);
            }
            let dv = digits_value(ed) as int;
            exact_exp = if eneg { -dv } else { dv };
        }
        ev = capped_digits_value(s, j1, j2, cap);
    }
    if neg {
        return Some(0);
    }
    let m = mantissa_digits(s, start, i1, i2, i3);
    let r = finite_scaled(&m, i3 - i2, eneg, ev, Ghost(exact_exp), k);
    Some(r)
}

/// The number of bytes a memory size denotes, for a text that is already
/// trimmed and in upper case.
pub fn parse_normalized_memory_size(s: &[char]) -> (r: NovaResult<usize>)
    ensures
        match memory_size(s@) {
            Some(v) => r == Ok::<usize, NovaError>(v as usize),
            None => r == Err::<usize, NovaError>(NovaError::Config(r->Err_0->Config_0))
                && r->Err_0->Config_0@ == "Invalid memory size format"@,
        },
{
    let n = s.len();
    let parsed: Option<usize>;
    if n >= 2 && s[n - 1] == 'B' && (s[n - 2] == 'G' || s[n - 2] == 'M' || s[n - 2] == 'K') {
        let mut prefix: Vec<char> = Vec::new();
        let mut i: usize = 0;
        while i < n - 2
            invariant
                i <= n - 2,
                n == s@.len(),
                prefix@ == s@.subrange(0, i as int),
            decreases n - 2 - i,
        {
            prefix.push(s[i]);
            i = i + 1;
            assert(prefix@ =~= s@.subrange(0, i as int));
        }
        let k: u32 = if s[n - 2] == 'G' { 30 } else if s[n - 2] == 'M' { 20 } else { 10 };
        parsed = parse_float_scaled(&prefix, k);
    } else if n >= 1 && s[n - 1] == 'B' {
        let mut prefix: Vec<char> = Vec::new();
        let mut i: usize = 0;
        while i < n - 1
            invariant
                i <= n - 1,
                n == s@.len(),
                prefix@ == s@.subrange(0, i as int),
            decreases n - 1 - i,
        {
            prefix.push(s[i]);
            i = i + 1;
            assert(prefix@ =~= s@.subrange(0, i as int));
        }
        parsed = parse_unsigned(&prefix);
    } else {
        parsed = parse_unsigned(s);
    }
    match parsed {
        Some(v) => Ok(v),
        None => Err(NovaError::config("Invalid memory size format")),
    }
}

/// Parses memory sizes such as "1GB", "512MB", "256KB", "1024B" or "1024":
/// the text is trimmed and put in upper case first.
pub fn parse_memory_size(size_str: &str) -> (r: NovaResult<usize>)
    ensures
        match memory_size(uppercase_of(trimmed(size_str@))) {
            Some(v) => r == Ok::<usize, NovaError>(v as usize),
            None => r == Err::<usize, NovaError>(NovaError::Config(r->Err_0->Config_0))
                && r->Err_0->Config_0@ == "Invalid memory size format"@,
        },
        is_ascii_text(trimmed(size_str@)) ==> uppercase_of(trimmed(size_str@)) == ascii_upper(trimmed(size_str@)),
{
    let cs = chars_of(size_str);
    let t = trim_chars(&cs);
    let ts = string_of(&t);
    let up = upper_text(ts.as_str());
    let us = chars_of(up.as_str());
    parse_normalized_memory_size(&us)
}


/// Characters with the same capital are both white space or neither, and both
/// ASCII or neither.
proof fn lemma_char_case(c: char, d: char)
    requires
        upper_char(c) == upper_char(d),
    ensures
        is_white_space(c) == is_white_space(d),
        ((c as u32) < 128) == ((d as u32) < 128),
{
    if 97 <= (c as u32) <= 122 {
        assert((upper_char(c) as u32) == (c as u32) - 32);
    }
    if 97 <= (d as u32) <= 122 {
        assert((upper_char(d) as u32) == (d as u32) - 32);
    }
}

/// Trimming stops within the text.
proof fn lemma_trim_bounds(s: Seq<char>)
    ensures
        trim_start_index(s) <= s.len(),
        trim_end_index(s) <= s.len(),
    decreases s.len(),
{
    if s.len() > 0 {
        lemma_trim_bounds(s.drop_first());
        lemma_trim_bounds(s.drop_last());
    }
}

/// Trimming stops at the same places in two texts that differ only in the
/// case of ASCII letters.
proof fn lemma_trim_case(a: Seq<char>, b: Seq<char>)
    requires
        a.len() == b.len(),
        forall|i: int| 0 <= i < a.len() ==> #[trigger] upper_char(a[i]) == upper_char(b[i]),
    ensures
        trim_start_index(a) == trim_start_index(b),
        trim_end_index(a) == trim_end_index(b),
    decreases a.len(),
{
    if a.len() > 0 {
        assert(upper_char(a[0]) == upper_char(b[0]));
        lemma_char_case(a[0], b[0]);
        assert(upper_char(a[a.len() - 1]) == upper_char(b[b.len() - 1]));
        lemma_char_case(a.last(), b.last());
        assert forall|i: int| 0 <= i < a.drop_first().len() implies #[trigger] upper_char(a.drop_first()[i])
            == upper_char(b.drop_first()[i]) by {
            assert(upper_char(a[i + 1]) == upper_char(b[i + 1]));
        }
        assert forall|i: int| 0 <= i < a.drop_last().len() implies #[trigger] upper_char(a.drop_last()[i])
            == upper_char(b.drop_last()[i]) by {
            assert(upper_char(a[i]) == upper_char(b[i]));
        }
        lemma_trim_case_start(a, b);
        lemma_trim_case(a.drop_last(), b.drop_last());
    }
}

proof fn lemma_trim_case_start(a: Seq<char>, b: Seq<char>)
    requires
        a.len() == b.len(),
        forall|i: int| 0 <= i < a.len() ==> #[trigger] upper_char(a[i]) == upper_char(b[i]),
    ensures
        trim_start_index(a) == trim_start_index(b),
    decreases a.len(),
{
    if a.len() > 0 {
        assert(upper_char(a[0]) == upper_char(b[0]));
        lemma_char_case(a[0], b[0]);
        assert forall|i: int| 0 <= i < a.drop_first().len() implies #[trigger] upper_char(a.drop_first()[i])
            == upper_char(b.drop_first()[i]) by {
            assert(upper_char(a[i + 1]) == upper_char(b[i + 1]));
        }
        lemma_trim_case_start(a.drop_first(), b.drop_first());
    }
}

/// Two texts that differ only in the case of ASCII letters are both ASCII
/// after trimming or neither, and denote the same memory size: the parser
/// upper-cases them alike.
pub proof fn lemma_memory_size_ignores_case(a: Seq<char>, b: Seq<char>)
    requires
        a.len() == b.len(),
        forall|i: int| 0 <= i < a.len() ==> #[trigger] upper_char(a[i]) == upper_char(b[i]),
    ensures
        is_ascii_text(trimmed(a)) == is_ascii_text(trimmed(b)),
        memory_size(ascii_upper(trimmed(a))) == memory_size(ascii_upper(trimmed(b))),
{
    lemma_trim_case(a, b);
    lemma_trim_bounds(a);
    lemma_trim_bounds(b);
    let ta = trimmed(a);
    let tb = trimmed(b);
    assert(ta.len() == tb.len());
    if ta.len() > 0 {
        let st = trim_start_index(a) as int;
        assert forall|i: int| 0 <= i < ta.len() implies #[trigger] upper_char(ta[i]) == upper_char(tb[i]) by {
            assert(ta[i] == a[st + i]);
            assert(tb[i] == b[st + i]);
            assert(upper_char(a[st + i]) == upper_char(b[st + i]));
        }
        if is_ascii_text(ta) {
            assert forall|i: int| 0 <= i < tb.len() implies (#[trigger] tb[i] as u32) < 128 by {
                assert(upper_char(ta[i]) == upper_char(tb[i]));
                lemma_char_case(ta[i], tb[i]);
                assert((ta[i] as u32) < 128);
            }
        }
        if is_ascii_text(tb) {
            assert forall|i: int| 0 <= i < ta.len() implies (#[trigger] ta[i] as u32) < 128 by {
                assert(upper_char(ta[i]) == upper_char(tb[i]));
                lemma_char_case(ta[i], tb[i]);
                assert((tb[i] as u32) < 128);
            }
        }
        lemma_case_blind(ta, tb);
    } else {
        assert(ta =~= tb);
    }
}

} // verus!
