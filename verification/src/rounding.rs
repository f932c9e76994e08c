//! Decimal numbers rounded to double precision, as a decimal text is read
//! into a double and then scaled by a power of two and truncated.
use vstd::prelude::*;
use vstd::arithmetic::power2::{pow2, lemma_pow2_adds, lemma_pow2_pos, lemma2_to64};
use vstd::arithmetic::div_mod::{
    lemma_fundamental_div_mod, lemma_fundamental_div_mod_converse_div, lemma_fundamental_div_mod_converse_mod,
};
use crate::ieee::{in_binade_of, round_even, scaled_num, scaled_den};
use crate::memsize::{digits_value, pow10, lemma_pow10_adds, lemma_pow10_pos, lemma_pow10_mono};

verus! {

/// The numerator of `n * 10^e`.
pub open spec fn decimal_num(n: nat, e: int) -> nat {
    if e >= 0 {
        n * pow10(e as nat)
    } else {
        n
    }
}

/// The denominator of `n * 10^e`.
pub open spec fn decimal_den(e: int) -> nat {
    if e >= 0 {
        1
    } else {
        pow10((-e) as nat)
    }
}

/// `n * 10^e` read as a double (rounded to 53 significant bits, ties to
/// even), multiplied by `2^k` and truncated to an integer.
pub open spec fn double_scaled(n: nat, e: int, k: nat) -> nat {
    if n == 0 {
        0
    } else {
        let num = decimal_num(n, e);
        let den = decimal_den(e);
        let s = choose|s: int| in_binade_of(num, den, s, 53);
        let m = round_even(num, den, s);
        if k >= s {
            m * pow2((k - s) as nat)
        } else {
            m / pow2((s - k) as nat)
        }
    }
}

/// Two fractions that are equal have the same floor, and the same remainder
/// up to their denominators.
proof fn lemma_same_ratio(a: nat, b: nat, c: nat, d: nat)
    requires
        b > 0,
        d > 0,
        a * d == c * b,
    ensures
        a / b == c / d,
        (a % b) * d == (c % d) * b,
        (a % b == 0) == (c % d == 0),
{
    let q = a / b;
    let r = a % b;
    lemma_fundamental_div_mod(a as int, b as int);
    assert(c * b == q * b * d + r * d) by (nonlinear_arith)
        requires
            a == b * q + r,
            a * d == c * b,
    ;
    // (c - q d) b == r d, with 0 <= r < b, so 0 <= c - q d < d
    let w: int = c - q * d;
    assert(w * b == r * d) by (nonlinear_arith)
        requires
            c * b == q * b * d + r * d,
            w == c - q * d,
    ;
    assert(0 <= w && w < d) by (nonlinear_arith)
        requires
            w * b == r * d,
            0 <= r < b,
            b > 0,
            d > 0,
    ;
    assert(c == q * d + w) by (nonlinear_arith)
        requires
            w == c - q * d,
    ;
    lemma_fundamental_div_mod_converse_div(c as int, d as int, q as int, w);
    lemma_fundamental_div_mod_converse_mod(c as int, d as int, q as int, w);
    assert((r == 0) == (w == 0)) by (nonlinear_arith)
        requires
            w * b == r * d,
            b > 0,
            d > 0,
    ;
}

/// The floor and the remainder of twice a fraction.
proof fn lemma_double_fraction(n: nat, d: nat)
    requires
        d > 0,
    ensures
        (2 * n) / d == 2 * (n / d) + if 2 * (n % d) >= d { 1int } else { 0int },
        (2 * n) % d == 2 * (n % d) - if 2 * (n % d) >= d { d as int } else { 0int },
{
    let q = n / d;
    let r = n % d;
    lemma_fundamental_div_mod(n as int, d as int);
    if 2 * r >= d {
        assert(2 * n == (2 * q + 1) * d + (2 * r - d)) by (nonlinear_arith)
            requires
                n == d * q + r,
        ;
        lemma_fundamental_div_mod_converse_div((2 * n) as int, d as int, (2 * q + 1) as int, 2 * r - d);
        lemma_fundamental_div_mod_converse_mod((2 * n) as int, d as int, (2 * q + 1) as int, 2 * r - d);
    } else {
        assert(2 * n == (2 * q) * d + 2 * r) by (nonlinear_arith)
            requires
                n == d * q + r,
        ;
        lemma_fundamental_div_mod_converse_div((2 * n) as int, d as int, (2 * q) as int, (2 * r) as int);
        lemma_fundamental_div_mod_converse_mod((2 * n) as int, d as int, (2 * q) as int, (2 * r) as int);
    }
}

/// A scaled fraction written with both powers of two on their sides.
proof fn lemma_scaled_cross(num: nat, den: nat, s: int, u: nat, v: nat)
    requires
        s == u - v,
    ensures
        scaled_num(num, s) * (den * pow2(v)) == (num * pow2(u)) * scaled_den(den, s),
{
    if s >= 0 {
        lemma_pow2_adds(s as nat, v);
        assert((s as nat + v) == u);
        assert(num * pow2(s as nat) * (den * pow2(v)) == num * (pow2(s as nat) * pow2(v)) * den) by (nonlinear_arith);
    } else {
        let j = (-s) as nat;
        lemma_pow2_adds(u, j);
        assert(u + j == v);
        assert(num * (den * pow2(v)) == num * (pow2(u) * pow2(j)) * den) by (nonlinear_arith)
            requires
                pow2(v) == pow2(u) * pow2(j),
        ;
        assert(num * pow2(u) * (den * pow2(j)) == num * (pow2(u) * pow2(j)) * den) by (nonlinear_arith);
    }
}

/// The exactness of a division by `10^len`, one digit at a time.
proof fn lemma_carry_exact(t: Seq<char>, s: nat)
    requires
        t.len() >= 1,
        crate::memsize::is_digit(t[0]),
    ensures
        ((digits_value(t) * s) % pow10(t.len()) == 0) == (
            (crate::memsize::digit_of(t[0]) * s + (digits_value(t.drop_first()) * s) / pow10(t.drop_first().len())) % 10 == 0
            && (digits_value(t.drop_first()) * s) % pow10(t.drop_first().len()) == 0),
{
    let a = t.subrange(0, 1);
    let b = t.drop_first();
    assert(a + b =~= t);
    crate::memsize::lemma_digits_split(a, b);
    assert(a.drop_last() =~= Seq::<char>::empty());
    assert(digits_value(a.drop_last()) == 0);
    assert(digits_value(a) == crate::memsize::digit_of(t[0]));
    let l = b.len();
    let pl = pow10(l);
    lemma_pow10_pos(l);
    assert(pow10(t.len()) == 10 * pl);
    let d = crate::memsize::digit_of(t[0]);
    let tb = digits_value(b) * s;
    let c = tb / pl;
    let r = tb % pl;
    lemma_fundamental_div_mod(tb as int, pl as int);
    let n = d * s + c;
    let c2 = n / 10;
    let rho = n % 10;
    lemma_fundamental_div_mod(n as int, 10);
    assert(digits_value(t) * s == c2 * (10 * pl) + (rho * pl + r)) by (nonlinear_arith)
        requires
            digits_value(t) == d * pl + digits_value(b),
            tb == digits_value(b) * s,
            tb == pl * c + r,
            n == d * s + c,
            n == 10 * c2 + rho,
    ;
    assert(rho * pl + r < 10 * pl) by (nonlinear_arith)
        requires
            rho < 10,
            r < pl,
    ;
    lemma_fundamental_div_mod_converse_mod((digits_value(t) * s) as int, (10 * pl) as int, c2 as int, (rho * pl + r) as int);
    assert((rho * pl + r == 0) == (rho == 0 && r == 0)) by (nonlinear_arith)
        requires
            pl >= 1,
    ;
}

/// `floor(digits_value(t) * mult / 10^len)` and whether that division is exact.
fn scan(t: &[char], mult: u128) -> (r: (u128, bool))
    requires
        crate::memsize::all_digits(t@),
        1 <= mult <= 0x10_0000_0000_0000_0000_0000_0000u128,
    ensures
        r.0 == (digits_value(t@) * (mult as nat)) / pow10(t@.len()),
        r.1 == ((digits_value(t@) * (mult as nat)) % pow10(t@.len()) == 0),
        r.0 < mult,
{
    let mut c: u128 = 0;
    let mut exact = true;
    let n = t.len();
    let mut j: usize = n;
    proof {
        assert(t@.subrange(n as int, n as int) =~= Seq::<char>::empty());
        assert(pow10(0) == 1);
        assert(digits_value(Seq::<char>::empty()) == 0);
        assert((0 * mult) as int / 1 == 0);
        assert((0 * mult) as int % 1 == 0);
    }
    while j > 0
        invariant
            j <= n,
            n == t@.len(),
            crate::memsize::all_digits(t@),
            1 <= mult <= 0x10_0000_0000_0000_0000_0000_0000u128,
            c == (digits_value(t@.subrange(j as int, n as int)) * (mult as nat)) / pow10((n - j) as nat),
            exact == ((digits_value(t@.subrange(j as int, n as int)) * (mult as nat)) % pow10((n - j) as nat) == 0),
            c < mult,
        decreases j,
    {
        let ghost u = t@.subrange(j - 1, n as int);
        proof {
            assert(u.drop_first() =~= t@.subrange(j as int, n as int));
            assert(u[0] == t@[j - 1]);
            crate::memsize::lemma_carry_step(u, mult as nat);
            lemma_carry_exact(u, mult as nat);
        }
        let d = (t[j - 1] as u32 - 48) as u128;
        assert(d <= 9);
        assert(d * mult + c < 10 * mult) by (nonlinear_arith)
            requires
                d <= 9,
                c < mult,
        ;
        let v = d * mult + c;
        let next = v / 10;
        assert(next < mult) by (nonlinear_arith)
            requires
                next == v / 10,
                v < 10 * mult,
        ;
        exact = exact && v % 10 == 0;
        c = next;
        j = j - 1;
    }
    assert(t@.subrange(0, n as int) =~= t@);
    (c, exact)
}

/// `2^k` for `k` up to 100.
fn pow2_u128(k: u32) -> (p: u128)
    requires
        k <= 100,
    ensures
        p == pow2(k as nat),
{
    let mut p: u128 = 1;
    let mut i: u32 = 0;
    proof {
        lemma2_to64();
    }
    while i < k
        invariant
            i <= k <= 100,
            p == pow2(i as nat),
        decreases k - i,
    {
        proof {
            lemma_pow2_adds(i as nat, 1);
            lemma2_to64();
            vstd::arithmetic::power2::lemma_pow2_strictly_increases((i + 1) as nat, 101);
            pow2_101();
        }
        p = p * 2;
        i = i + 1;
    }
    p
}

proof fn pow2_101()
    ensures
        pow2(101) == 0x20_0000_0000_0000_0000_0000_0000,
        pow2(100) == 0x10_0000_0000_0000_0000_0000_0000,
{
    lemma2_to64();
    vstd::arithmetic::power2::lemma2_to64_rest();
    lemma_pow2_adds(64, 37);
    lemma_pow2_adds(64, 36);
    lemma_pow2_adds(32, 5);
    lemma_pow2_adds(32, 4);
}

/// `10^k` for `k` up to 20.
fn pow10_u128(k: u32) -> (p: u128)
    requires
        k <= 20,
    ensures
        p == pow10(k as nat),
        p <= 100_000_000_000_000_000_000,
{
    let mut p: u128 = 1;
    let mut i: u32 = 0;
    while i < k
        invariant
            i <= k <= 20,
            p == pow10(i as nat),
        decreases k - i,
    {
        proof {
            lemma_pow10_mono((i + 1) as nat, 20);
            crate::memsize::lemma_pow10_20();
        }
        p = p * 10;
        i = i + 1;
    }
    proof {
        lemma_pow10_mono(k as nat, 20);
        crate::memsize::lemma_pow10_20();
    }
    p
}

proof fn lemma_big_consts()
    ensures
        pow2(52) == 0x10_0000_0000_0000,
        pow2(53) == 0x20_0000_0000_0000,
        pow2(63) == 0x8000_0000_0000_0000,
        pow2(64) == 0x1_0000_0000_0000_0000,
        pow2(66) == 0x4_0000_0000_0000_0000,
        pow2(67) == 0x8_0000_0000_0000_0000,
        pow2(37) == 0x20_0000_0000,
        pow2(36) == 0x10_0000_0000,
        pow10(11) == 100_000_000_000,
        pow10(20) == 100_000_000_000_000_000_000,
{
    lemma2_to64();
    vstd::arithmetic::power2::lemma2_to64_rest();
    lemma_pow2_adds(64, 2);
    lemma_pow2_adds(64, 3);
    reveal_with_fuel(pow10, 12);
    crate::memsize::lemma_pow10_20();
}

/// The decimal `n * 10^e` written over the power of ten `10^lt` with the
/// numerator `n * 10^pp`, where `pp - lt == e`.
proof fn lemma_decimal_parts(n: nat, e: int, pp: nat, lt: nat)
    requires
        pp - lt == e,
    ensures
        decimal_num(n, e) * pow10(lt) == n * pow10(pp) * decimal_den(e),
{
    if e >= 0 {
        lemma_pow10_adds(lt, e as nat);
        assert(lt + e as nat == pp);
        assert(n * pow10(e as nat) * pow10(lt) == n * (pow10(lt) * pow10(e as nat)) * 1) by (nonlinear_arith);
    } else {
        lemma_pow10_adds(pp, (-e) as nat);
        assert(pp + (-e) as nat == lt);
        assert(n * pow10(lt) == n * pow10(pp) * pow10((-e) as nat)) by (nonlinear_arith)
            requires
                pow10(lt) == pow10(pp) * pow10((-e) as nat),
        ;
    }
}

/// Digits of `len` digits, the first not zero, times `10^e`, lie between
/// `10^(len + e - 1)` and `10^(len + e)`: as fractions, for `len + e >= 1`,
/// `num >= 10^(len + e - 1) * den`, and for `len + e <= 0`,
/// `num * 10^(-(len + e)) < den`.
proof fn lemma_decimal_bounds(n: nat, len: nat, e: int)
    requires
        len >= 1,
        pow10((len - 1) as nat) <= n,
        n < pow10(len),
    ensures
        len + e >= 1 ==> decimal_num(n, e) >= pow10((len + e - 1) as nat) * decimal_den(e),
        len + e <= 0 ==> decimal_num(n, e) * pow10((-(len + e)) as nat) < decimal_den(e),
{
    let p = len + e;
    if p >= 1 {
        if e >= 0 {
            lemma_pow10_adds((len - 1) as nat, e as nat);
            assert(((len - 1) + e) as nat == (p - 1) as nat);
            assert(n * pow10(e as nat) >= pow10((len - 1) as nat) * pow10(e as nat)) by (nonlinear_arith)
                requires
                    pow10((len - 1) as nat) <= n,
            ;
            assert(pow10((p - 1) as nat) * 1 == pow10((p - 1) as nat));
        } else {
            lemma_pow10_adds((p - 1) as nat, (-e) as nat);
            assert(((p - 1) + (-e)) as nat == (len - 1) as nat);
        }
    }
    if p <= 0 {
        // e < 0 here
        let j = (-p) as nat;
        lemma_pow10_pos(j);
        lemma_pow10_adds(len, j);
        assert(len + j == (-e) as nat);
        assert(n * pow10(j) < pow10(len) * pow10(j)) by (nonlinear_arith)
            requires
                n < pow10(len),
                pow10(j) >= 1,
        ;
        lemma_pow10_pos(j);
    }
}

/// A rounded significand lies in `[2^52, 2^53]`.
proof fn lemma_round_bounds(num: nat, den: nat, s: int)
    requires
        in_binade_of(num, den, s, 53),
    ensures
        pow2(52) <= round_even(num, den, s) <= pow2(53),
        pow2(52) <= scaled_num(num, s) / scaled_den(den, s) < pow2(53),
{
    let n = scaled_num(num, s);
    let d = scaled_den(den, s);
    lemma_big_consts();
    assert(d > 0) by (nonlinear_arith)
        requires
            n < pow2(53) * d,
    ;
    lemma_fundamental_div_mod(n as int, d as int);
    let q = n / d;
    let r = n % d;
    assert(pow2(52) <= q < pow2(53)) by (nonlinear_arith)
        requires
            n == d * q + r,
            0 <= r < d,
            pow2(52) * d <= n,
            n < pow2(53) * d,
    ;
}

/// The value of a double too large for `usize`.
pub proof fn lemma_double_high(n: nat, len: nat, e: int, k: nat)
    requires
        len >= 1,
        pow10((len - 1) as nat) <= n,
        n < pow10(len),
        len + e >= 21,
    ensures
        double_scaled(n, e, k) > usize::MAX,
{
    lemma_decimal_bounds(n, len, e);
    lemma_big_consts();
    let num = decimal_num(n, e);
    let den = decimal_den(e);
    lemma_pow10_mono(20, (len + e - 1) as nat);
    lemma_pow10_pos((-e) as nat);
    assert(den >= 1);
    assert(num >= pow10(20) * den) by (nonlinear_arith)
        requires
            num >= pow10((len + e - 1) as nat) * den,
            pow10((len + e - 1) as nat) >= pow10(20),
    ;
    assert(n > 0) by {
        lemma_pow10_pos((len - 1) as nat);
    }
    assert(num > 0) by (nonlinear_arith)
        requires
            num >= pow10(20) * den,
            den >= 1,
            pow10(20) > 0,
    ;
    crate::ieee::lemma_binade_exists(num, den, 53);
    let s = choose|s: int| in_binade_of(num, den, s, 53);
    lemma_round_bounds(num, den, s);
    let m = round_even(num, den, s);
    if s >= 0 {
        lemma_pow2_pos(s as nat);
        assert(num * pow2(s as nat) >= num) by (nonlinear_arith)
            requires
                pow2(s as nat) >= 1,
        ;
        assert(false) by (nonlinear_arith)
            requires
                num * pow2(s as nat) < pow2(53) * den,
                num * pow2(s as nat) >= num,
                num >= pow10(20) * den,
                pow10(20) > pow2(53),
                den >= 1,
        ;
    } else {
        let j = (-s) as nat;
        if j <= 13 {
            vstd::arithmetic::power2::lemma_pow2_strictly_increases(j, 14);
            lemma_pow2_adds(53, 13);
            vstd::arithmetic::power2::lemma_pow2_strictly_increases(13, 14);
            if j < 13 {
                vstd::arithmetic::power2::lemma_pow2_strictly_increases(j, 13);
            }
            assert(pow2(j) <= pow2(13));
            assert(false) by (nonlinear_arith)
                requires
                    num < pow2(53) * (den * pow2(j)),
                    num >= pow10(20) * den,
                    pow2(j) <= pow2(13),
                    pow2(66) == pow2(53) * pow2(13),
                    pow10(20) > pow2(66),
                    den >= 1,
        ;
        }
        lemma_pow2_adds(52, (k + j) as nat);
        if k + j > 14 {
            vstd::arithmetic::power2::lemma_pow2_strictly_increases(14, (k + j) as nat);
        }
        lemma_pow2_adds(52, 14);
        assert(pow2((k + j) as nat) >= pow2(14));
        assert(m * pow2((k - s) as nat) >= pow2(52) * pow2(14)) by (nonlinear_arith)
            requires
                m >= pow2(52),
                (k - s) as nat == (k + j) as nat,
                pow2((k + j) as nat) >= pow2(14),
        ;
    }
}

/// The value of a double too small to reach one after scaling by `2^k`.
pub proof fn lemma_double_low(n: nat, len: nat, e: int, k: nat)
    requires
        len >= 1,
        pow10((len - 1) as nat) <= n,
        n < pow10(len),
        len + e <= -11,
        k <= 30,
    ensures
        double_scaled(n, e, k) == 0,
{
    lemma_decimal_bounds(n, len, e);
    lemma_big_consts();
    let num = decimal_num(n, e);
    let den = decimal_den(e);
    let j = (-(len + e)) as nat;
    lemma_pow10_mono(11, j);
    assert(n > 0) by {
        lemma_pow10_pos((len - 1) as nat);
    }
    assert(num == n);
    assert(num * pow10(11) < den) by (nonlinear_arith)
        requires
            num * pow10(j) < den,
            pow10(11) <= pow10(j),
    ;
    crate::ieee::lemma_binade_exists(num, den, 53);
    let s = choose|s: int| in_binade_of(num, den, s, 53);
    lemma_round_bounds(num, den, s);
    let m = round_even(num, den, s);
    if s < 0 {
        let jj = (-s) as nat;
        lemma_pow2_pos(jj);
        assert(scaled_den(den, s) == den * pow2(jj));
        assert(false) by (nonlinear_arith)
            requires
                pow2(52) * (den * pow2(jj)) <= num,
                num * pow10(11) < den,
                pow2(jj) >= 1,
                num >= 1,
                pow10(11) >= 1,
                pow2(52) >= 1,
        ;
    }
    if s == 0 {
        assert(pow2(0) == 1) by {
            lemma2_to64();
        }
        assert(scaled_num(num, s) == num * pow2(0));
        assert(false) by (nonlinear_arith)
            requires
                pow2(52) * den <= num * pow2(0),
                pow2(0) == 1,
                num * pow10(11) < den,
                num >= 1,
                pow10(11) >= 1,
                pow2(52) >= 1,
        ;
    }
    let u = s as nat;
    if u <= 88 {
        if u < 88 {
            vstd::arithmetic::power2::lemma_pow2_strictly_increases(u, 88);
        }
        lemma_pow2_adds(52, 36);
        assert(scaled_num(num, s) == num * pow2(u));
        assert(pow2(u) <= pow2(88));
        assert(num * pow2(u) <= num * pow2(88)) by (nonlinear_arith)
            requires
                pow2(u) <= pow2(88),
        ;
        assert(num * pow2(88) == pow2(52) * (num * pow2(36))) by (nonlinear_arith)
            requires
                pow2(88) == pow2(52) * pow2(36),
        ;
        assert(den <= num * pow2(36)) by (nonlinear_arith)
            requires
                pow2(52) * den <= pow2(52) * (num * pow2(36)),
                pow2(52) > 0,
        ;
        assert(num * pow2(36) < num * pow10(11)) by (nonlinear_arith)
            requires
                pow2(36) < pow10(11),
                num >= 1,
        ;
    }
    let g = (s - k) as nat;
    vstd::arithmetic::power2::lemma_pow2_strictly_increases(53, g);
    assert(m < pow2(g));
    vstd::arithmetic::div_mod::lemma_basic_div(m as int, pow2(g) as int);
}

/// `a` is divisible by `b * c` exactly when it is divisible by `b` and its
/// quotient by `c`.
proof fn lemma_mod_product_zero(a: nat, b: nat, c: nat)
    requires
        b > 0,
        c > 0,
    ensures
        (a % (b * c) == 0) == (a % b == 0 && (a / b) % c == 0),
        a / (b * c) == (a / b) / c,
{
    vstd::arithmetic::div_mod::lemma_div_denominator(a as int, b as int, c as int);
    let q1 = a / b;
    let r1 = a % b;
    let q2 = q1 / c;
    let r2 = q1 % c;
    lemma_fundamental_div_mod(a as int, b as int);
    lemma_fundamental_div_mod(q1 as int, c as int);
    assert(a == q2 * (b * c) + (r2 * b + r1)) by (nonlinear_arith)
        requires
            a == b * q1 + r1,
            q1 == c * q2 + r2,
    ;
    assert(r2 * b + r1 < b * c) by (nonlinear_arith)
        requires
            r2 < c,
            r1 < b,
            b > 0,
    ;
    assert(b * c > 0) by (nonlinear_arith)
        requires
            b > 0,
            c > 0,
    ;
    lemma_fundamental_div_mod_converse_mod(a as int, (b * c) as int, q2 as int, (r2 * b + r1) as int);
    assert((r2 * b + r1 == 0) == (r2 == 0 && r1 == 0)) by (nonlinear_arith)
        requires
            b > 0,
            r1 < b,
    ;
}

/// The bit length of a positive number below `2^100`: `2^eb <= x < 2^(eb + 1)`.
fn top_bit(x: u128) -> (eb: u32)
    requires
        1 <= x < 0x10_0000_0000_0000_0000_0000_0000u128,
    ensures
        eb < 100,
        pow2(eb as nat) <= x < pow2((eb + 1) as nat),
{
    let mut p: u128 = 1;
    let mut l: u32 = 0;
    proof {
        lemma2_to64();
        pow2_101();
    }
    while p <= x
        invariant
            1 <= x < 0x10_0000_0000_0000_0000_0000_0000u128,
            p == pow2(l as nat),
            l == 0 || pow2((l - 1) as nat) <= x,
            l <= 100,
            pow2(100) == 0x10_0000_0000_0000_0000_0000_0000u128,
        decreases 101 - l,
    {
        proof {
            lemma_pow2_adds(l as nat, 1);
            lemma2_to64();
            if l >= 100 {
                if l > 100 {
                    vstd::arithmetic::power2::lemma_pow2_strictly_increases(100, l as nat);
                }
                assert(false);
            }
        }
        p = p * 2;
        l = l + 1;
    }
    proof {
        assert(l >= 1) by {
            lemma2_to64();
        }
        lemma_pow2_adds((l - 1) as nat, 1);
        lemma2_to64();
    }
    l - 1
}

/// `floor(digits_value(t) * mult / 10^(len + z))` and whether that division
/// is exact: the digits `t` read with `z` more places after the point.
fn scan_shifted(t: &[char], z: u32, mult: u128) -> (r: (u128, bool))
    requires
        crate::memsize::all_digits(t@),
        1 <= mult <= 0x10_0000_0000_0000_0000_0000_0000u128,
        z <= 10,
    ensures
        r.0 == (digits_value(t@) * (mult as nat)) / pow10(t@.len() + z as nat),
        r.1 == ((digits_value(t@) * (mult as nat)) % pow10(t@.len() + z as nat) == 0),
        r.0 < mult,
{
    let (c, exact) = scan(t, mult);
    let pz = pow10_u128(z);
    proof {
        let x = digits_value(t@) * (mult as nat);
        lemma_pow10_pos(z as nat);
        lemma_pow10_pos(t@.len());
        lemma_mod_product_zero(x, pow10(t@.len()), pow10(z as nat));
        lemma_pow10_adds(t@.len(), z as nat);
        lemma_fundamental_div_mod(c as int, pz as int);
        assert(c / pz <= c) by (nonlinear_arith)
            requires
                c == pz * (c / pz) + c % pz,
                c % pz >= 0,
                pz >= 1,
        ;
    }
    (c / pz, exact && c % pz == 0)
}

/// Two proportional fractions lie in the same binade and round alike.
proof fn lemma_proportional(num: nat, den: nat, a: nat, b: nat, s: int)
    requires
        den > 0,
        b > 0,
        num * b == a * den,
    ensures
        in_binade_of(num, den, s, 53) == in_binade_of(a, b, s, 53),
        round_even(num, den, s) == round_even(a, b, s),
{
    let sn1 = scaled_num(num, s);
    let sd1 = scaled_den(den, s);
    let sn2 = scaled_num(a, s);
    let sd2 = scaled_den(b, s);
    if s >= 0 {
        assert(sn1 * sd2 == sn2 * sd1) by (nonlinear_arith)
            requires
                sn1 == num * pow2(s as nat),
                sn2 == a * pow2(s as nat),
                sd1 == den,
                sd2 == b,
                num * b == a * den,
        ;
    } else {
        let j = (-s) as nat;
        lemma_pow2_pos(j);
        assert(sn1 * sd2 == sn2 * sd1) by (nonlinear_arith)
            requires
                sn1 == num,
                sn2 == a,
                sd1 == den * pow2(j),
                sd2 == b * pow2(j),
                num * b == a * den,
        ;
    }
    assert(sd1 > 0 && sd2 > 0) by {
        if s < 0 {
            lemma_pow2_pos((-s) as nat);
            assert(sd1 > 0 && sd2 > 0) by (nonlinear_arith)
                requires
                    sd1 == den * pow2((-s) as nat),
                    sd2 == b * pow2((-s) as nat),
                    pow2((-s) as nat) > 0,
                    den > 0,
                    b > 0,
            ;
        }
    }
    lemma_same_ratio(sn1, sd1, sn2, sd2);
    let r1 = sn1 % sd1;
    let r2 = sn2 % sd2;
    let lo = pow2(52);
    let hi = pow2(53);
    assert((lo * sd1 <= sn1) == (lo * sd2 <= sn2)) by (nonlinear_arith)
        requires
            sn1 * sd2 == sn2 * sd1,
            sd1 > 0,
            sd2 > 0,
    ;
    assert((sn1 < hi * sd1) == (sn2 < hi * sd2)) by (nonlinear_arith)
        requires
            sn1 * sd2 == sn2 * sd1,
            sd1 > 0,
            sd2 > 0,
    ;
    assert((2 * r1 > sd1) == (2 * r2 > sd2)) by (nonlinear_arith)
        requires
            r1 * sd2 == r2 * sd1,
            sd1 > 0,
            sd2 > 0,
    ;
    assert((2 * r1 == sd1) == (2 * r2 == sd2)) by (nonlinear_arith)
        requires
            r1 * sd2 == r2 * sd1,
            sd1 > 0,
            sd2 > 0,
    ;
}

/// The fraction `a / b` lies in the binade of shift `52 + b0 - eb` when the
/// floor of `a * 2^b0 / b` lies in `[2^eb, 2^(eb + 1))`.
proof fn lemma_binade_from_floor(a: nat, b: nat, b0: nat, eb: nat, i0: nat)
    requires
        b > 0,
        i0 == (a * pow2(b0)) / b,
        pow2(eb) <= i0 < pow2(eb + 1),
    ensures
        in_binade_of(a, b, 52 + b0 - eb, 53),
{
    let s: int = 52 + b0 - eb;
    let u = 52 + b0;
    lemma_scaled_cross(a, b, s, u, eb);
    lemma_pow2_adds(52, b0);
    lemma_pow2_adds(eb, 1);
    lemma_pow2_adds(52, 1);
    lemma2_to64();
    let ab = a * pow2(b0);
    lemma_fundamental_div_mod(ab as int, b as int);
    assert(pow2(eb) * b <= ab && ab < pow2(eb) * 2 * b) by (nonlinear_arith)
        requires
            ab == b * i0 + ab % b,
            0 <= ab % b < b,
            pow2(eb) <= i0,
            i0 + 1 <= pow2(eb) * 2,
    ;
    let x = a * pow2(u);
    let y = b * pow2(eb);
    lemma_pow2_pos(eb);
    let lo = pow2(52);
    lemma_pow2_pos(52);
    assert(x == lo * ab) by (nonlinear_arith)
        requires
            x == a * pow2(u),
            pow2(u) == lo * pow2(b0),
            ab == a * pow2(b0),
    ;
    assert(lo * y <= lo * ab) by (nonlinear_arith)
        requires
            y == b * pow2(eb),
            pow2(eb) * b <= ab,
            lo >= 0,
    ;
    assert(lo * ab < (lo * 2) * y) by (nonlinear_arith)
        requires
            y == b * pow2(eb),
            ab < pow2(eb) * 2 * b,
            lo > 0,
    ;
    let sn = scaled_num(a, s);
    let sd = scaled_den(b, s);
    assert(y > 0) by (nonlinear_arith)
        requires
            y == b * pow2(eb),
            b > 0,
            pow2(eb) > 0,
    ;
    assert(sd > 0) by {
        if s < 0 {
            lemma_pow2_pos((-s) as nat);
            assert(b * pow2((-s) as nat) > 0) by (nonlinear_arith)
                requires
                    b > 0,
                    pow2((-s) as nat) > 0,
            ;
        }
    }
    lemma_scaled_between(sn, sd, x, y, lo);
}

/// `lo * y <= x < 2 lo * y` carries over to `sn / sd` when `sn / sd == x / y`.
proof fn lemma_scaled_between(sn: nat, sd: nat, x: nat, y: nat, lo: nat)
    requires
        sn * y == x * sd,
        lo * y <= x,
        x < (lo * 2) * y,
        y > 0,
        sd > 0,
    ensures
        lo * sd <= sn,
        sn < (lo * 2) * sd,
{
    assert(lo * sd * y <= x * sd) by (nonlinear_arith)
        requires
            lo * y <= x,
    ;
    assert(lo * sd <= sn) by (nonlinear_arith)
        requires
            lo * sd * y <= sn * y,
            y > 0,
    ;
    assert(x * sd < (lo * 2) * y * sd) by (nonlinear_arith)
        requires
            x < (lo * 2) * y,
            sd > 0,
    ;
    assert((lo * 2) * y * sd == (lo * 2) * sd * y) by (nonlinear_arith);
    assert(sn < (lo * 2) * sd) by (nonlinear_arith)
        requires
            sn * y < (lo * 2) * sd * y,
            y > 0,
    ;
}

/// A number of `len` digits times `10^pp / 10^len` has `pp` digits before the point.
proof fn lemma_floor_whole(n: nat, len: nat, pp: nat)
    requires
        len >= 1,
        pp >= 1,
        pow10((len - 1) as nat) <= n,
        n < pow10(len),
    ensures
        pow10((pp - 1) as nat) <= (n * pow10(pp)) / pow10(len) < pow10(pp),
{
    let a0 = n * pow10(pp);
    let bd = pow10(len);
    lemma_pow10_pos(len);
    lemma_pow10_pos(pp);
    lemma_fundamental_div_mod(a0 as int, bd as int);
    let i0 = a0 / bd;
    lemma_pow10_adds((len - 1) as nat, pp);
    lemma_pow10_adds((pp - 1) as nat, len);
    assert(((len - 1) + pp) as nat == ((pp - 1) + len) as nat);
    assert(a0 >= pow10((pp - 1) as nat) * bd) by (nonlinear_arith)
        requires
            a0 == n * pow10(pp),
            n >= pow10((len - 1) as nat),
            bd == pow10(len),
            pow10((len - 1) as nat) * pow10(pp) == pow10((pp - 1) as nat) * pow10(len),
    ;
    assert(a0 < pow10(pp) * bd) by (nonlinear_arith)
        requires
            a0 == n * pow10(pp),
            n < pow10(len),
            bd == pow10(len),
            pow10(pp) >= 1,
    ;
    assert(pow10((pp - 1) as nat) <= i0 < pow10(pp)) by (nonlinear_arith)
        requires
            a0 == bd * i0 + a0 % bd,
            0 <= a0 % bd < bd,
            a0 >= pow10((pp - 1) as nat) * bd,
            a0 < pow10(pp) * bd,
    ;
}

/// A number of `len` digits, written with `lt <= len + 10` digits after the
/// point, times `2^100` is at least `2^63`.
proof fn lemma_floor_fraction(n: nat, len: nat, lt: nat)
    requires
        len >= 1,
        pow10((len - 1) as nat) <= n,
        lt <= len + 10,
    ensures
        (n * pow2(100)) / pow10(lt) >= pow2(63),
{
    lemma_big_consts();
    pow2_101();
    let a0 = n * pow2(100);
    let bd = pow10(lt);
    lemma_pow10_pos(lt);
    lemma_fundamental_div_mod(a0 as int, bd as int);
    lemma_pow10_adds((len - 1) as nat, 11);
    lemma_pow10_mono(lt, (len + 10) as nat);
    assert((len - 1) + 11 == len + 10);
    assert(a0 >= pow2(63) * bd) by (nonlinear_arith)
        requires
            a0 == n * 0x10_0000_0000_0000_0000_0000_0000,
            n >= pow10((len - 1) as nat),
            bd <= pow10((len + 10) as nat),
            pow10((len + 10) as nat) == pow10((len - 1) as nat) * 100_000_000_000,
            pow2(63) == 0x8000_0000_0000_0000,
    ;
    assert(a0 / bd >= pow2(63)) by (nonlinear_arith)
        requires
            a0 == bd * (a0 / bd) + a0 % bd,
            0 <= a0 % bd < bd,
            a0 >= pow2(63) * bd,
    ;
}

/// `m * 2^(k - s)`, or `m / 2^(s - k)` where `s > k`, clamped to `usize`.
fn scale_back(m: u128, s: i128, k: u32) -> (r: usize)
    requires
        m <= pow2(53),
        -14 <= s <= 89,
        k <= 30,
    ensures
        r as nat == crate::memsize::clamp_usize(
            if k >= s { (m as nat) * pow2((k - s) as nat) } else { (m as nat) / pow2((s - k) as nat) },
        ),
{
    proof {
        lemma_big_consts();
        pow2_101();
    }
    let v: u128 = if k as i128 >= s {
        let g: u32 = (k as i128 - s) as u32;
        let pg = pow2_u128(g);
        proof {
            if g < 44 {
                vstd::arithmetic::power2::lemma_pow2_strictly_increases(g as nat, 44);
            }
            lemma_pow2_adds(53, 44);
            vstd::arithmetic::power2::lemma_pow2_strictly_increases(97, 100);
            assert(m * pg <= pow2(53) * pow2(44)) by (nonlinear_arith)
                requires
                    m <= pow2(53),
                    pg <= pow2(44),
            ;
        }
        m * pg
    } else {
        let g: u32 = (s - k as i128) as u32;
        let pg = pow2_u128(g);
        proof {
            lemma_pow2_pos(g as nat);
        }
        m / pg
    };
    if v > usize::MAX as u128 {
        usize::MAX
    } else {
        v as usize
    }
}

/// Twice `a / b` scaled by `2^s`, where `a / b = n * 10^pp / 10^(len + z)`
/// and the digits `t` hold `n`: its floor and whether it is exact, with the
/// fraction that these are read from.
fn twice_scaled(t: &[char], z: u32, pp: u32, s: i128, i0: u128, exact0: bool, Ghost(a): Ghost<nat>) -> (r: (
    u128,
    bool,
    Ghost<nat>,
    Ghost<nat>,
))
    requires
        crate::memsize::all_digits(t@),
        z <= 10,
        pp <= 20,
        a == digits_value(t@) * pow10(pp as nat),
        -14 <= s <= 89,
        s >= 53 ==> pp == 0,
        s <= 52 ==> pp >= 1 && pow10((pp - 1) as nat) <= i0 && i0 < pow2((52 - s + 1) as nat)
            && i0 == a / pow10(t@.len() + z as nat) && exact0 == (a % pow10(t@.len() + z as nat) == 0),
    ensures
        r.3@ > 0,
        r.2@ * scaled_den(pow10(t@.len() + z as nat), s as int) == 2 * scaled_num(a, s as int) * r.3@,
        r.0 == r.2@ / r.3@,
        r.1 == (r.2@ % r.3@ == 0),
{
    let ghost b = pow10(t@.len() + z as nat);
    proof {
        lemma_pow10_pos(t@.len() + z as nat);
        lemma_big_consts();
        pow2_101();
        lemma2_to64();
    }
    let w: i128 = s + 1;
    if w >= 0 {
        let wq: u32 = w as u32;
        let p10 = pow10_u128(pp);
        let p2 = pow2_u128(wq);
        proof {
            lemma_pow2_pos(wq as nat);
            lemma_pow10_pos(pp as nat);
            if s <= 52 {
                let eb1 = (52 - s + 1) as nat;
                lemma_pow2_adds(eb1, wq as nat);
                assert(eb1 + wq == 54);
                lemma_pow2_adds(52, 2);
                lemma_pow10_adds((pp - 1) as nat, 1);
                assert(pow10(1) == 10) by {
                    reveal_with_fuel(pow10, 2);
                }
                assert(((pp - 1) + 1) as nat == pp as nat);
                assert(p10 * p2 < 0x10_0000_0000_0000_0000_0000_0000u128) by (nonlinear_arith)
                    requires
                        p10 == pow10((pp - 1) as nat) * 10,
                        pow10((pp - 1) as nat) <= i0,
                        i0 < pow2(eb1),
                        pow2(eb1) * p2 == pow2(54),
                        pow2(54) == pow2(52) * 4,
                        pow2(52) == 0x10_0000_0000_0000,
                        p2 > 0,
                ;
            } else {
                assert(pow10(0) == 1);
                assert(p10 == 1);
                vstd::arithmetic::power2::lemma_pow2_strictly_increases(wq as nat, 100);
                assert(p10 * p2 == p2) by (nonlinear_arith)
                    requires
                        p10 == 1,
                ;
            }
            assert(p10 * p2 >= 1) by (nonlinear_arith)
                requires
                    p10 >= 1,
                    p2 >= 1,
            ;
        }
        let mult1 = p10 * p2;
        let (c, exact) = scan_shifted(t, z, mult1);
        proof {
            let n = digits_value(t@);
            if s >= 0 {
                lemma_pow2_adds(s as nat, 1);
                assert(wq as nat == s as nat + 1);
                assert(n * (mult1 as nat) * b == 2 * (a * pow2(s as nat)) * b) by (nonlinear_arith)
                    requires
                        mult1 == p10 * p2,
                        p10 == pow10(pp as nat),
                        p2 == pow2(wq as nat),
                        a == n * pow10(pp as nat),
                        pow2(wq as nat) == pow2(s as nat) * pow2(1),
                        pow2(1) == 2,
                ;
            } else {
                assert(wq == 0);
                assert(p2 == 1);
                assert(n * (mult1 as nat) * (b * 2) == 2 * a * b) by (nonlinear_arith)
                    requires
                        mult1 == p10 * p2,
                        p2 == 1,
                        p10 == pow10(pp as nat),
                        a == n * pow10(pp as nat),
                ;
            }
        }
        (c, exact, Ghost(digits_value(t@) * (mult1 as nat)), Ghost(b))
    } else {
        let j: u32 = (-w) as u32;
        let pj = pow2_u128(j);
        proof {
            lemma_pow2_pos(j as nat);
            lemma_mod_product_zero(a, b, pj as nat);
            lemma_pow2_adds(j as nat, 1);
            assert((-s) as nat == j + 1);
            assert(a * (b * pow2((-s) as nat)) == 2 * a * (b * (pj as nat))) by (nonlinear_arith)
                requires
                    pow2((-s) as nat) == pj * pow2(1),
                    pow2(1) == 2,
            ;
            assert(b * (pj as nat) > 0) by (nonlinear_arith)
                requires
                    b > 0,
                    pj > 0,
            ;
        }
        (i0 / pj, exact0 && i0 % pj == 0, Ghost(a), Ghost(b * (pj as nat)))
    }
}

/// A decimal number of the digits `m` times `10^e`, read as a double, times
/// `2^k`, truncated and clamped to `usize`.
pub fn double_value(m: &[char], e: i128, k: u32) -> (r: usize)
    requires
        m@.len() >= 1,
        crate::memsize::all_digits(m@),
        (m@[0] as u32) != 48,
        -0x1_0000_0000_0000_0000_0000_0000i128 < e < 0x1_0000_0000_0000_0000_0000_0000i128,
        k == 10 || k == 20 || k == 30,
    ensures
        r as nat == crate::memsize::clamp_usize(double_scaled(digits_value(m@), e as int, k as nat)),
{
    let ghost n = digits_value(m@);
    proof {
        crate::memsize::lemma_digits_lower(m@);
        crate::memsize::lemma_digits_bound(m@);
        lemma_big_consts();
        pow2_101();
        lemma2_to64();
        lemma_pow10_pos((m@.len() - 1) as nat);
    }
    let len = m.len();
    let p: i128 = len as i128 + e;
    if p > 20 {
        proof {
            lemma_double_high(n, len as nat, e as int, k as nat);
        }
        return usize::MAX;
    }
    if p < -10 {
        proof {
            lemma_double_low(n, len as nat, e as int, k as nat);
        }
        return 0;
    }
    // the number is n * 10^pp / 10^lt, lt being len + z
    let z: u32 = if p < 0 { (-p) as u32 } else { 0 };
    let pp: u32 = if p >= 0 { p as u32 } else { 0 };
    let ghost lt = len as nat + z as nat;
    let ghost num = decimal_num(n, e as int);
    let ghost den = decimal_den(e as int);
    let ghost a = n * pow10(pp as nat);
    let ghost b = pow10(lt);
    proof {
        assert(pp - lt == e);
        lemma_decimal_parts(n, e as int, pp as nat, lt);
        lemma_pow10_pos(lt);
        lemma_pow10_pos(pp as nat);
        lemma_pow10_pos((-e) as nat);
        assert(den > 0);
    }
    let b0: u32 = if p >= 1 { 0 } else { 100 };
    let mult0: u128 = if p >= 1 { pow10_u128(pp) } else { pow2_u128(100) };
    let (i0, exact0) = scan_shifted(m, z, mult0);
    proof {
        if p >= 1 {
            assert(n * (mult0 as nat) == a * pow2(b0 as nat)) by (nonlinear_arith)
                requires
                    mult0 == pow10(pp as nat),
                    a == n * pow10(pp as nat),
                    pow2(b0 as nat) == 1,
            ;
            lemma_floor_whole(n, len as nat, pp as nat);
            lemma_pow10_mono(pp as nat, 20);
        } else {
            assert(pow10(0) == 1);
            assert(n * (mult0 as nat) == a * pow2(b0 as nat)) by (nonlinear_arith)
                requires
                    mult0 == pow2(100),
                    b0 == 100,
                    a == n * pow10(pp as nat),
                    pow10(pp as nat) == 1,
            ;
            lemma_floor_fraction(n, len as nat, lt);
        }
    }
    let eb = top_bit(i0);
    let s: i128 = 52 + b0 as i128 - eb as i128;
    proof {
        lemma_binade_from_floor(a, b, b0 as nat, eb as nat, i0 as nat);
        if p >= 1 {
            // i0 < 10^20 < 2^67, so eb <= 66
            if eb > 67 {
                vstd::arithmetic::power2::lemma_pow2_strictly_increases(67, eb as nat);
            }
            assert((52 - s + 1) as nat == (eb + 1) as nat);
        } else {
            if eb + 1 < 63 {
                vstd::arithmetic::power2::lemma_pow2_strictly_increases((eb + 1) as nat, 63);
            }
        }
    }
    let (c, exact, Ghost(ta), Ghost(tb)) = twice_scaled(m, z, pp, s, i0, exact0, Ghost(a));
    proof {
        lemma_round_from_twice(a, b, s as int, ta, tb);
        lemma_round_bounds(a, b, s as int);
    }
    let q = c / 2;
    let mv: u128 = if c % 2 == 1 && (!exact || q % 2 == 1) { q + 1 } else { q };
    let r = scale_back(mv, s, k);
    proof {
        lemma_proportional(num, den, a, b, s as int);
        let s2 = choose|s2: int| in_binade_of(num, den, s2, 53);
        crate::ieee::lemma_binade_unique_of(num, den, s as int, s2, 53);
    }
    r
}

/// Rounding to even read off twice the scaled fraction: its floor `c`
/// and whether it is exact.
proof fn lemma_round_from_twice(num: nat, den: nat, s: int, a: nat, b: nat)
    requires
        in_binade_of(num, den, s, 53),
        b > 0,
        a * scaled_den(den, s) == 2 * scaled_num(num, s) * b,
    ensures
        round_even(num, den, s) == if (a / b) % 2 == 1 && (a % b != 0 || ((a / b) / 2) % 2 == 1) {
            (a / b) / 2 + 1
        } else {
            (a / b) / 2
        },
{
    let n = scaled_num(num, s);
    let d = scaled_den(den, s);
    lemma_big_consts();
    assert(d > 0) by (nonlinear_arith)
        requires
            n < pow2(53) * d,
    ;
    lemma_same_ratio(a, b, 2 * n, d);
    lemma_double_fraction(n, d);
}

} // verus!
