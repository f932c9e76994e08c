//! Single-precision thresholds held as their IEEE-754 bit patterns, and the
//! comparisons and the usage ratio the engine computes with them, rounded as
//! single-precision arithmetic rounds, computed on integers.
use vstd::prelude::*;
use vstd::arithmetic::power2::{pow2, lemma_pow2_adds, lemma_pow2_pos};
use vstd::arithmetic::div_mod::lemma_fundamental_div_mod;

verus! {

/// Bit pattern of the single-precision value 0.1.
pub const ONE_TENTH_BITS: u32 = 0x3dcc_cccd;

/// Bit pattern of the single-precision value 1.0.
pub const ONE_BITS: u32 = 0x3f80_0000;

pub open spec fn sign_bit(b: u32) -> u32 {
    b >> 31u32
}

pub open spec fn exponent_bits(b: u32) -> u32 {
    (b >> 23u32) & 0xffu32
}

pub open spec fn fraction_bits(b: u32) -> u32 {
    b & 0x7f_ffffu32
}

pub open spec fn is_nan(b: u32) -> bool {
    exponent_bits(b) == 255 && fraction_bits(b) != 0
}

pub open spec fn is_infinite(b: u32) -> bool {
    exponent_bits(b) == 255 && fraction_bits(b) == 0
}

/// The significand of a finite value: its magnitude is
/// `significand(b) * 2^scale(b) / 2^149`.
pub open spec fn significand(b: u32) -> nat {
    if exponent_bits(b) == 0 {
        fraction_bits(b) as nat
    } else {
        (fraction_bits(b) + 0x80_0000) as nat
    }
}

pub open spec fn scale(b: u32) -> nat {
    if exponent_bits(b) == 0 {
        0
    } else {
        (exponent_bits(b) - 1) as nat
    }
}

/// A key whose integer order is the order of the values, for values that are
/// not NaN (both zeros get the key 0).
pub open spec fn order_key(b: u32) -> int {
    let mag = (b & 0x7fff_ffffu32) as int;
    if sign_bit(b) == 1 {
        -mag
    } else {
        mag
    }
}

/// IEEE `a < b` on single-precision values given by their bits.
pub open spec fn less_than(a: u32, b: u32) -> bool {
    !is_nan(a) && !is_nan(b) && order_key(a) < order_key(b)
}

/// The fraction `num / den` scaled by `2^s`, kept in integers: its numerator.
pub open spec fn scaled_num(num: nat, s: int) -> nat {
    if s >= 0 {
        num * pow2(s as nat)
    } else {
        num
    }
}

/// The fraction `num / den` scaled by `2^s`, kept in integers: its denominator.
pub open spec fn scaled_den(den: nat, s: int) -> nat {
    if s >= 0 {
        den
    } else {
        den * pow2((-s) as nat)
    }
}

/// Whether `num / den * 2^s` lies in `[2^(p-1), 2^p)`, that is, whether
/// `2^s` brings the fraction to a significand of `p` bits.
pub open spec fn in_binade_of(num: nat, den: nat, s: int, p: nat) -> bool {
    pow2((p - 1) as nat) * scaled_den(den, s) <= scaled_num(num, s) && scaled_num(num, s) < pow2(p) * scaled_den(den, s)
}

/// Whether `2^s` brings `num / den` to the 24 bits of a single's significand.
pub open spec fn in_binade(num: nat, den: nat, s: int) -> bool {
    in_binade_of(num, den, s, 24)
}

/// `num / den * 2^s` rounded to an integer, ties to even.
pub open spec fn round_even(num: nat, den: nat, s: int) -> nat {
    let n = scaled_num(num, s);
    let d = scaled_den(den, s);
    let q = n / d;
    let r = n % d;
    if 2 * r > d || (2 * r == d && q % 2 == 1) {
        q + 1
    } else {
        q
    }
}

/// The bits of the positive single `m * 2^e`, for `m` in `[2^23, 2^24]` and
/// an exponent in the normal range.
pub open spec fn normal_bits(m: nat, e: int) -> u32 {
    if m >= pow2(24) {
        ((e + 151) * 0x80_0000) as u32
    } else {
        ((e + 150) * 0x80_0000 + (m - pow2(23))) as u32
    }
}

/// The shift that brings `num / den` to 24 bits.
pub open spec fn binade_shift(num: nat, den: nat) -> int {
    choose|s: int| in_binade(num, den, s)
}

/// `n as f32`: zero, or `n` rounded to the nearest single, ties to even.
pub open spec fn single_of_nat(n: nat) -> u32 {
    if n == 0 {
        0
    } else {
        let s = binade_shift(n, 1);
        normal_bits(round_even(n, 1, s), -s)
    }
}

/// IEEE division `a / b` of singles that are each positive zero or positive
/// and normal, with a normal quotient: `0 / 0` is NaN, `x / 0` is infinite,
/// `0 / y` is zero, and otherwise the quotient of the significands, rounded to
/// the nearest single (ties to even), scaled by the difference of the exponents.
pub open spec fn single_div(a: u32, b: u32) -> u32 {
    if a == 0 && b == 0 {
        0x7fc0_0000
    } else if b == 0 {
        0x7f80_0000
    } else if a == 0 {
        0
    } else {
        let s = binade_shift(significand(a), significand(b));
        normal_bits(round_even(significand(a), significand(b), s), scale(a) - scale(b) - s)
    }
}

/// Whether `used as f32 / max as f32` exceeds the single with bits `b`.
pub open spec fn ratio_exceeds(used: nat, max: nat, b: u32) -> bool {
    less_than(b, single_div(single_of_nat(used), single_of_nat(max)))
}

proof fn lemma_bits(b: u32)
    ensures
        sign_bit(b) <= 1,
        exponent_bits(b) <= 255,
        fraction_bits(b) < 0x80_0000,
        (b & 0x7fff_ffffu32) == b % 0x8000_0000,
        sign_bit(b) == 1 <==> b >= 0x8000_0000,
{
    assert(b >> 31u32 <= 1) by (bit_vector);
    assert((b >> 23u32) & 0xffu32 <= 255) by (bit_vector);
    assert(b & 0x7f_ffffu32 < 0x80_0000) by (bit_vector);
    assert((b & 0x7fff_ffffu32) == b % 0x8000_0000) by (bit_vector);
    assert((b >> 31u32 == 1) <==> b >= 0x8000_0000) by (bit_vector);
}

/// IEEE `a < b` on the values with the given bits.
pub fn bits_less_than(a: u32, b: u32) -> (r: bool)
    ensures
        r == less_than(a, b),
{
    proof {
        lemma_bits(a);
        lemma_bits(b);
    }
    let a_nan = ((a >> 23u32) & 0xffu32) == 255 && (a & 0x7f_ffffu32) != 0;
    let b_nan = ((b >> 23u32) & 0xffu32) == 255 && (b & 0x7f_ffffu32) != 0;
    if a_nan || b_nan {
        return false;
    }
    let am = (a & 0x7fff_ffffu32) as i64;
    let bm = (b & 0x7fff_ffffu32) as i64;
    let ak: i64 = if (a >> 31u32) == 1 { -am } else { am };
    let bk: i64 = if (b >> 31u32) == 1 { -bm } else { bm };
    ak < bk
}

proof fn lemma_pow2_consts()
    ensures
        pow2(23) == 0x80_0000,
        pow2(24) == 0x100_0000,
{
    vstd::arithmetic::power2::lemma2_to64();
}

/// Scaling both sides of a binade by `2^t` for some `t` that makes every
/// power whole.
proof fn lemma_binade_scaled(num: nat, den: nat, s: int, t: nat, p: nat)
    requires
        in_binade_of(num, den, s, p),
        s + t >= 0,
    ensures
        pow2((p - 1) as nat) * (den * pow2(t)) <= num * pow2((s + t) as nat),
        num * pow2((s + t) as nat) < pow2(p) * (den * pow2(t)),
{
    let lo = pow2((p - 1) as nat);
    let hi = pow2(p);
    let u = (s + t) as nat;
    lemma_pow2_pos(t);
    lemma_pow2_pos(u);
    if s >= 0 {
        lemma_pow2_adds(s as nat, t);
        assert(u == s as nat + t);
        let k = pow2(t);
        let a = lo * den;
        let b = num * pow2(s as nat);
        let c = hi * den;
        assert(a * k <= b * k && b * k < c * k) by (nonlinear_arith)
            requires
                a <= b,
                b < c,
                k > 0,
        ;
        assert(lo * (den * k) == a * k) by (nonlinear_arith)
            requires
                a == lo * den,
        ;
        assert(hi * (den * k) == c * k) by (nonlinear_arith)
            requires
                c == hi * den,
        ;
        assert(num * pow2(u) == b * k) by (nonlinear_arith)
            requires
                pow2(u) == pow2(s as nat) * k,
                b == num * pow2(s as nat),
        ;
    } else {
        let v = (-s) as nat;
        lemma_pow2_adds(v, u);
        assert(v + u == t);
        let k = pow2(u);
        let a = lo * (den * pow2(v));
        let c = hi * (den * pow2(v));
        assert(a * k <= num * k && num * k < c * k) by (nonlinear_arith)
            requires
                a <= num,
                num < c,
                k > 0,
        ;
        assert(lo * (den * pow2(t)) == a * k) by (nonlinear_arith)
            requires
                pow2(t) == pow2(v) * k,
                a == lo * (den * pow2(v)),
        ;
        assert(hi * (den * pow2(t)) == c * k) by (nonlinear_arith)
            requires
                pow2(t) == pow2(v) * k,
                c == hi * (den * pow2(v)),
        ;
    }
}

/// Only one shift brings a fraction to a significand of `p` bits.
pub proof fn lemma_binade_unique_of(num: nat, den: nat, s1: int, s2: int, p: nat)
    requires
        p >= 1,
        in_binade_of(num, den, s1, p),
        in_binade_of(num, den, s2, p),
    ensures
        s1 == s2,
{
    if s1 != s2 {
        let a = if s1 < s2 { s1 } else { s2 };
        let b = if s1 < s2 { s2 } else { s1 };
        let t: nat = ((if a < 0 { -a } else { a }) + (if b < 0 { -b } else { b })) as nat;
        lemma_binade_scaled(num, den, a, t, p);
        lemma_binade_scaled(num, den, b, t, p);
        let ua = (a + t) as nat;
        let g = (b - a) as nat;
        lemma_pow2_adds(ua, g);
        assert((b + t) as nat == ua + g);
        vstd::arithmetic::power2::lemma_pow2_strictly_increases(0, g);
        vstd::arithmetic::power2::lemma2_to64();
        lemma_pow2_adds((p - 1) as nat, 1);
        assert(((p - 1) + 1) as nat == p);
        let lo = pow2((p - 1) as nat);
        let d = den * pow2(t);
        let x = num * pow2(ua);
        assert(num * pow2((b + t) as nat) == x * pow2(g)) by (nonlinear_arith)
            requires
                pow2((b + t) as nat) == pow2(ua) * pow2(g),
                x == num * pow2(ua),
        ;
        assert(x * pow2(g) >= 2 * x) by (nonlinear_arith)
            requires
                pow2(g) >= 2,
                x >= 0,
        ;
        assert(2 * (lo * d) == pow2(p) * d) by (nonlinear_arith)
            requires
                pow2(p) == lo * 2,
        ;
    }
}

proof fn lemma_binade_up(num: nat, den: nat, s: nat, p: nat)
    requires
        num > 0,
        p >= 1,
        num * pow2(s) < pow2(p) * den,
    ensures
        exists|t: int| in_binade_of(num, den, t, p),
    decreases if pow2((p - 1) as nat) * den > num * pow2(s) {
        (pow2((p - 1) as nat) * den - num * pow2(s)) as nat
    } else {
        0nat
    },
{
    if num * pow2(s) >= pow2((p - 1) as nat) * den {
        assert(in_binade_of(num, den, s as int, p));
    } else {
        lemma_pow2_adds(s, 1);
        lemma_pow2_adds((p - 1) as nat, 1);
        assert(((p - 1) + 1) as nat == p);
        vstd::arithmetic::power2::lemma2_to64();
        lemma_pow2_pos(s);
        assert(num * pow2(s + 1) == 2 * (num * pow2(s))) by (nonlinear_arith)
            requires
                pow2(s + 1) == pow2(s) * 2,
        ;
        assert(num * pow2(s) >= 1) by (nonlinear_arith)
            requires
                num > 0,
                pow2(s) > 0,
        ;
        assert(pow2(p) * den == 2 * (pow2((p - 1) as nat) * den)) by (nonlinear_arith)
            requires
                pow2(p) == pow2((p - 1) as nat) * 2,
        ;
        lemma_binade_up(num, den, s + 1, p);
    }
}

proof fn lemma_binade_down(num: nat, den: nat, j: nat, p: nat)
    requires
        den > 0,
        p >= 1,
        num >= pow2((p - 1) as nat) * (den * pow2(j)),
    ensures
        exists|t: int| in_binade_of(num, den, t, p),
    decreases num as int - (pow2((p - 1) as nat) * (den * pow2(j))) as int,
{
    if num < pow2(p) * (den * pow2(j)) {
        if j == 0 {
            assert(pow2(0) == 1) by {
                vstd::arithmetic::power2::lemma2_to64();
            }
            assert(num * pow2(0) == num && den * pow2(0) == den) by (nonlinear_arith)
                requires
                    pow2(0) == 1,
            ;
            assert(in_binade_of(num, den, 0, p));
        } else {
            assert(in_binade_of(num, den, -(j as int), p));
        }
    } else {
        lemma_pow2_adds(j, 1);
        lemma_pow2_adds((p - 1) as nat, 1);
        assert(((p - 1) + 1) as nat == p);
        vstd::arithmetic::power2::lemma2_to64();
        lemma_pow2_pos(j);
        lemma_pow2_pos((p - 1) as nat);
        assert(pow2((p - 1) as nat) * (den * pow2(j + 1)) == pow2(p) * (den * pow2(j))) by (nonlinear_arith)
            requires
                pow2(j + 1) == pow2(j) * 2,
                pow2(p) == pow2((p - 1) as nat) * 2,
        ;
        assert(pow2((p - 1) as nat) * (den * pow2(j)) >= 1) by (nonlinear_arith)
            requires
                den > 0,
                pow2(j) > 0,
                pow2((p - 1) as nat) > 0,
        ;
        assert(pow2(p) * (den * pow2(j)) == 2 * (pow2((p - 1) as nat) * (den * pow2(j)))) by (nonlinear_arith)
            requires
                pow2(p) == pow2((p - 1) as nat) * 2,
        ;
        lemma_binade_down(num, den, j + 1, p);
    }
}

/// Every positive fraction has a shift that brings it to `p` bits.
pub proof fn lemma_binade_exists(num: nat, den: nat, p: nat)
    requires
        num > 0,
        den > 0,
        p >= 1,
    ensures
        exists|t: int| in_binade_of(num, den, t, p),
{
    vstd::arithmetic::power2::lemma2_to64();
    if num < pow2(p) * den {
        assert(num * pow2(0) == num) by (nonlinear_arith)
            requires
                pow2(0) == 1,
        ;
        lemma_binade_up(num, den, 0, p);
    } else {
        lemma_pow2_adds((p - 1) as nat, 1);
        assert(((p - 1) + 1) as nat == p);
        assert(pow2((p - 1) as nat) * (den * pow2(0)) <= num) by (nonlinear_arith)
            requires
                pow2(0) == 1,
                num >= pow2(p) * den,
                pow2(p) == pow2((p - 1) as nat) * 2,
        ;
        lemma_binade_down(num, den, 0, p);
    }
}

proof fn lemma_binade_unique(num: nat, den: nat, s1: int, s2: int)
    requires
        in_binade(num, den, s1),
        in_binade(num, den, s2),
    ensures
        s1 == s2,
{
    lemma_binade_unique_of(num, den, s1, s2, 24);
}

/// The fields of the bits `e * 2^23 + f`.
proof fn lemma_normal_fields(e: u32, f: u32)
    requires
        1 <= e <= 254,
        f < 0x80_0000,
    ensures
        exponent_bits((e * 0x80_0000 + f) as u32) == e,
        fraction_bits((e * 0x80_0000 + f) as u32) == f,
        sign_bit((e * 0x80_0000 + f) as u32) == 0,
        significand((e * 0x80_0000 + f) as u32) == f + 0x80_0000,
        scale((e * 0x80_0000 + f) as u32) == e - 1,
{
    let b: u32 = (e << 23u32) | f;
    assert(b == e * 0x80_0000 + f && (b >> 23u32) & 0xffu32 == e && (b & 0x7f_ffffu32) == f && b >> 31u32 == 0)
        by (bit_vector)
        requires
            b == (e << 23u32) | f,
            1 <= e <= 254,
            f < 0x80_0000,
    ;
    assert((e * 0x80_0000 + f) as u32 == b);
}

/// `2^k` for `k` below 64.
fn pow2_u64(k: u32) -> (p: u64)
    requires
        k < 64,
    ensures
        p == pow2(k as nat),
{
    let mut p: u64 = 1;
    let mut i: u32 = 0;
    proof {
        vstd::arithmetic::power2::lemma2_to64();
    }
    while i < k
        invariant
            i <= k < 64,
            p == pow2(i as nat),
        decreases k - i,
    {
        proof {
            lemma_pow2_adds(i as nat, 1);
            vstd::arithmetic::power2::lemma2_to64();
            vstd::arithmetic::power2::lemma_pow2_strictly_increases((i + 1) as nat, 64);
            vstd::arithmetic::power2::lemma2_to64_rest();
        }
        p = p * 2;
        i = i + 1;
    }
    p
}

/// `n as f32`, with the significand and the scale of the result when `n > 0`.
fn single_of_u64(n: u64) -> (r: (u32, u64, u32))
    ensures
        r.0 == single_of_nat(n as nat),
        n == 0 ==> r.0 == 0,
        n > 0 ==> {
            &&& r.0 != 0
            &&& significand(r.0) == r.1
            &&& scale(r.0) == r.2
            &&& 0x80_0000 <= r.1 < 0x100_0000
            &&& 126 <= r.2 <= 190
        },
{
    if n == 0 {
        return (0, 0, 0);
    }
    proof {
        vstd::arithmetic::power2::lemma2_to64();
        vstd::arithmetic::power2::lemma2_to64_rest();
        lemma_pow2_consts();
    }
    let mut p: u128 = 1;
    let mut l: u32 = 0;
    while p <= n as u128
        invariant
            n > 0,
            p == pow2(l as nat),
            p <= 2 * (n as u128),
            l <= 64,
            pow2(64) == 0x1_0000_0000_0000_0000,
        decreases 2 * (n as u128) + 1 - p,
    {
        proof {
            lemma_pow2_adds(l as nat, 1);
            lemma_pow2_pos(l as nat);
            vstd::arithmetic::power2::lemma2_to64();
            if l >= 64 {
                vstd::arithmetic::power2::lemma_pow2_strictly_increases(64, (l + 1) as nat);
            }
        }
        p = p * 2;
        l = l + 1;
        proof {
            if l > 64 {
                vstd::arithmetic::power2::lemma_pow2_strictly_increases(64, 65);
                vstd::arithmetic::power2::lemma_pow2_strictly_increases(65, l as nat);
                lemma_pow2_adds(64, 1);
            }
        }
    }
    assert(l >= 1);
    proof {
        lemma_pow2_adds((l - 1) as nat, 1);
    }
    assert(pow2((l - 1) as nat) <= n && n < pow2(l as nat));
    let e: u32 = 126 + l;
    let ghost s: int = 24 - l;
    let m: u64;
    if l <= 24 {
        let t = pow2_u64(24 - l);
        proof {
            lemma_pow2_adds((l - 1) as nat, (24 - l) as nat);
            lemma_pow2_adds(l as nat, (24 - l) as nat);
            assert(((l - 1) + (24 - l)) as nat == 23);
            assert((l + (24 - l)) as nat == 24);
            assert(pow2(23) <= n * t && n * t < pow2(24)) by (nonlinear_arith)
                requires
                    pow2((l - 1) as nat) <= n,
                    n < pow2(l as nat),
                    pow2(23) == pow2((l - 1) as nat) * t,
                    pow2(24) == pow2(l as nat) * t,
                    t > 0,
            ;
            lemma_pow2_pos((24 - l) as nat);
        }
        m = n * t;
        assert(in_binade(n as nat, 1, s));
        assert(round_even(n as nat, 1, s) == m);
    } else {
        let d: u32 = l - 24;
        let t = pow2_u64(d);
        let q = n / t;
        let rem = n % t;
        let half = t / 2;
        proof {
            lemma_pow2_pos(d as nat);
            lemma_pow2_adds(23, d as nat);
            lemma_pow2_adds(24, d as nat);
            assert(23 + d == l - 1);
            assert(24 + d == l);
            lemma_pow2_adds(1, (d - 1) as nat);
            assert(t == 2 * half);
            assert(pow2(23) * t <= n && n < pow2(24) * t);
            assert(in_binade(n as nat, 1, s));
            lemma_fundamental_div_mod(n as int, t as int);
            assert(0x80_0000 <= q < 0x100_0000) by (nonlinear_arith)
                requires
                    n == t * q + rem,
                    0 <= rem < t,
                    0x80_0000 * t <= n,
                    n < 0x100_0000 * t,
                    t > 0,
            ;
        }
        if rem > half || (rem == half && q % 2 == 1) {
            m = q + 1;
        } else {
            m = q;
        }
        assert(round_even(n as nat, 1, s) == m);
    }
    proof {
        lemma_binade_unique(n as nat, 1, s, binade_shift(n as nat, 1));
    }
    if m == 0x100_0000 {
        let bits: u32 = (e + 1) * 0x80_0000;
        proof {
            lemma_normal_fields((e + 1) as u32, 0);
        }
        assert(bits == normal_bits(m as nat, -s));
        (bits, 0x80_0000, e)
    } else {
        let f: u32 = (m - 0x80_0000) as u32;
        let bits: u32 = e * 0x80_0000 + f;
        proof {
            lemma_normal_fields(e, f);
        }
        assert(bits == normal_bits(m as nat, -s));
        (bits, m, e - 1)
    }
}

/// The quotient of two positive normal singles given by their significands
/// and scales.
fn divide_normal(ma: u64, sa: u32, mb: u64, sb: u32) -> (r: u32)
    requires
        0x80_0000 <= ma < 0x100_0000,
        0x80_0000 <= mb < 0x100_0000,
        126 <= sa <= 190,
        126 <= sb <= 190,
    ensures
        r == normal_bits(
            round_even(ma as nat, mb as nat, binade_shift(ma as nat, mb as nat)),
            sa - sb - binade_shift(ma as nat, mb as nat),
        ),
{
    proof {
        lemma_pow2_consts();
    }
    let s0: u32 = if ma >= mb { 23 } else { 24 };
    let t: u64 = if ma >= mb { 0x80_0000 } else { 0x100_0000 };
    assert(t == pow2(s0 as nat));
    let big = ma * t;
    assert(in_binade(ma as nat, mb as nat, s0 as int)) by {
        assert(0x80_0000 * mb <= ma * t && ma * t < 0x100_0000 * mb) by (nonlinear_arith)
            requires
                0x80_0000 <= ma < 0x100_0000,
                0x80_0000 <= mb < 0x100_0000,
                (ma >= mb && t == 0x80_0000) || (ma < mb && t == 0x100_0000),
        ;
    }
    proof {
        lemma_binade_unique(ma as nat, mb as nat, s0 as int, binade_shift(ma as nat, mb as nat));
    }
    let q = big / mb;
    let rem = big % mb;
    proof {
        lemma_fundamental_div_mod(big as int, mb as int);
        assert(0x80_0000 <= q < 0x100_0000) by (nonlinear_arith)
            requires
                big == mb * q + rem,
                0 <= rem < mb,
                0x80_0000 * mb <= big,
                big < 0x100_0000 * mb,
                mb > 0,
        ;
    }
    let m: u64 = if 2 * rem > mb || (2 * rem == mb && q % 2 == 1) { q + 1 } else { q };
    assert(m == round_even(ma as nat, mb as nat, s0 as int));
    let e: u32 = 150 + sa - sb - s0;
    if m == 0x100_0000 {
        let bits: u32 = (e + 1) * 0x80_0000;
        assert(bits == normal_bits(m as nat, sa - sb - s0));
        bits
    } else {
        let bits: u32 = e * 0x80_0000 + (m - 0x80_0000) as u32;
        assert(bits == normal_bits(m as nat, sa - sb - s0));
        bits
    }
}

/// Whether `used as f32 / max as f32` exceeds the single with bits `b`.
pub fn ratio_exceeds_bits(used: usize, max: usize, b: u32) -> (r: bool)
    ensures
        r == ratio_exceeds(used as nat, max as nat, b),
{
    let (ab, ma, sa) = single_of_u64(used as u64);
    let (bb, mb, sb) = single_of_u64(max as u64);
    let q: u32 = if ab == 0 && bb == 0 {
        0x7fc0_0000
    } else if bb == 0 {
        0x7f80_0000
    } else if ab == 0 {
        0
    } else {
        divide_normal(ma, sa, mb, sb)
    };
    assert(q == single_div(ab, bb));
    bits_less_than(b, q)
}

} // verus!
