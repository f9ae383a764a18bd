//! What floating-point bits stand for as numbers, and that comparing and converting them agrees
//! with it.

use vstd::arithmetic::power2::{lemma2_to64, lemma2_to64_rest, lemma_pow2_adds, lemma_pow2_pos, lemma_pow2_unfold, pow2};
use vstd::prelude::*;
use crate::floats::{Comparison, f32_order, f64_of_f32, f64_of_int, f64_order, floor_log2, rounded_magnitude, rounded_significand, widened_magnitude};

verus! {

/// The size of the number with the given bits behind the sign, in units of the least positive
/// number of its kind: a fraction field of `digits` bits, and an exponent field before it.
pub open spec fn size_of_bits(bits: nat, digits: nat) -> nat {
    let exponent = bits / pow2(digits);
    let fraction = bits % pow2(digits);
    if exponent == 0 {
        fraction
    } else {
        (pow2(digits) + fraction) * pow2((exponent - 1) as nat)
    }
}

/// Whether the bits are those of a 64 bit number: a NaN is none.
pub open spec fn is_number64(bits: u64) -> bool {
    bits % 0x8000_0000_0000_0000 <= 0x7ff0_0000_0000_0000
}

/// Whether the bits are those of a 32 bit number: a NaN is none.
pub open spec fn is_number32(bits: u32) -> bool {
    bits % 0x8000_0000 <= 0x7f80_0000
}

/// The number that 64 bits stand for, in units of two to the power -1074. The infinities stand
/// beyond all others.
pub open spec fn number64(bits: u64) -> int {
    if bits < 0x8000_0000_0000_0000 {
        size_of_bits(bits as nat, 52) as int
    } else {
        -(size_of_bits((bits - 0x8000_0000_0000_0000) as nat, 52) as int)
    }
}

/// The number that 32 bits stand for, in units of two to the power -149.
pub open spec fn number32(bits: u32) -> int {
    if bits < 0x8000_0000 {
        size_of_bits(bits as nat, 23) as int
    } else {
        -(size_of_bits((bits - 0x8000_0000) as nat, 23) as int)
    }
}

proof fn lemma_size_step(m: nat, digits: nat)
    ensures
        size_of_bits(m, digits) < size_of_bits(m + 1, digits),
{
    let p = pow2(digits);
    lemma_pow2_pos(digits);
    let e = m / p;
    let f = m % p;
    vstd::arithmetic::div_mod::lemma_fundamental_div_mod(m as int, p as int);
    assert(p * e == e * p) by (nonlinear_arith);
    if f + 1 < p {
        vstd::arithmetic::div_mod::lemma_fundamental_div_mod_converse(
            (m + 1) as int,
            p as int,
            e as int,
            (f + 1) as int,
        );
        if e > 0 {
            let k = pow2((e - 1) as nat);
            lemma_pow2_pos((e - 1) as nat);
            assert((p + f) * k < (p + f + 1) * k) by (nonlinear_arith)
                requires
                    k > 0,
            ;
        }
    } else {
        assert((e + 1) * p == e * p + p) by (nonlinear_arith);
        vstd::arithmetic::div_mod::lemma_fundamental_div_mod_converse(
            (m + 1) as int,
            p as int,
            (e + 1) as int,
            0,
        );
        let k = pow2(e);
        lemma_pow2_pos(e);
        if e > 0 {
            lemma_pow2_unfold(e);
            let j = pow2((e - 1) as nat);
            lemma_pow2_pos((e - 1) as nat);
            assert((p + f) * j < p * k) by (nonlinear_arith)
                requires
                    k == 2 * j,
                    f + 1 <= p,
                    j > 0,
            ;
        } else {
            lemma2_to64();
        }
    }
}

proof fn lemma_size_increases(a: nat, b: nat, digits: nat)
    requires
        a < b,
    ensures
        size_of_bits(a, digits) < size_of_bits(b, digits),
    decreases b - a,
{
    lemma_size_step((b - 1) as nat, digits);
    if a < b - 1 {
        lemma_size_increases(a, (b - 1) as nat, digits);
    }
}

proof fn lemma_size_of_zero(digits: nat)
    ensures
        size_of_bits(0, digits) == 0,
{
    lemma_pow2_pos(digits);
    vstd::arithmetic::div_mod::lemma_small_mod(0, pow2(digits));
    vstd::arithmetic::div_mod::lemma_basic_div(0, pow2(digits) as int);
}

proof fn lemma_signed_sizes(a: nat, a_neg: bool, b: nat, b_neg: bool, digits: nat)
    ensures
        ({
            let x = if a_neg {
                -(size_of_bits(a, digits) as int)
            } else {
                size_of_bits(a, digits) as int
            };
            let y = if b_neg {
                -(size_of_bits(b, digits) as int)
            } else {
                size_of_bits(b, digits) as int
            };
            let i = if a_neg {
                -(a as int)
            } else {
                a as int
            };
            let j = if b_neg {
                -(b as int)
            } else {
                b as int
            };
            &&& i < j <==> x < y
            &&& i == j <==> x == y
        }),
{
    lemma_size_of_zero(digits);
    if a > 0 {
        lemma_size_increases(0, a, digits);
    }
    if b > 0 {
        lemma_size_increases(0, b, digits);
    }
    if a < b {
        lemma_size_increases(a, b, digits);
    }
    if b < a {
        lemma_size_increases(b, a, digits);
    }
}

/// Two 64 bit floats compare as the numbers that they stand for; a NaN compares with nothing.
pub proof fn order64_is_numeric(a: u64, b: u64)
    ensures
        f64_order(a, b) is Some <==> is_number64(a) && is_number64(b),
        is_number64(a) && is_number64(b) ==> {
            &&& f64_order(a, b) == Some(Comparison::Less) <==> number64(a) < number64(b)
            &&& f64_order(a, b) == Some(Comparison::Equal) <==> number64(a) == number64(b)
            &&& f64_order(a, b) == Some(Comparison::Greater) <==> number64(a) > number64(b)
        },
{
    let a_neg = a >= 0x8000_0000_0000_0000;
    let b_neg = b >= 0x8000_0000_0000_0000;
    let x = (a % 0x8000_0000_0000_0000) as nat;
    let y = (b % 0x8000_0000_0000_0000) as nat;
    lemma_signed_sizes(x, a_neg, y, b_neg, 52);
    lemma_signed_sizes(y, b_neg, x, a_neg, 52);
}

/// Two 32 bit floats compare as the numbers that they stand for; a NaN compares with nothing.
pub proof fn order32_is_numeric(a: u32, b: u32)
    ensures
        f32_order(a, b) is Some <==> is_number32(a) && is_number32(b),
        is_number32(a) && is_number32(b) ==> {
            &&& f32_order(a, b) == Some(Comparison::Less) <==> number32(a) < number32(b)
            &&& f32_order(a, b) == Some(Comparison::Equal) <==> number32(a) == number32(b)
            &&& f32_order(a, b) == Some(Comparison::Greater) <==> number32(a) > number32(b)
        },
{
    let a_neg = a >= 0x8000_0000;
    let b_neg = b >= 0x8000_0000;
    let x = (a % 0x8000_0000) as nat;
    let y = (b % 0x8000_0000) as nat;
    lemma_signed_sizes(x, a_neg, y, b_neg, 23);
    lemma_signed_sizes(y, b_neg, x, a_neg, 23);
}

proof fn lemma_size_of_fields(e: nat, f: nat, digits: nat)
    requires
        f < pow2(digits),
        e > 0,
    ensures
        size_of_bits(e * pow2(digits) + f, digits) == (pow2(digits) + f) * pow2((e - 1) as nat),
{
    lemma_pow2_pos(digits);
    vstd::arithmetic::div_mod::lemma_fundamental_div_mod_converse(
        (e * pow2(digits) + f) as int,
        pow2(digits) as int,
        e as int,
        f as int,
    );
}

proof fn lemma_top_bit(m: nat)
    requires
        m > 0,
    ensures
        pow2(floor_log2(m)) <= m < 2 * pow2(floor_log2(m)),
    decreases m,
{
    lemma2_to64();
    if m > 1 {
        lemma_top_bit(m / 2);
        lemma_pow2_unfold(floor_log2(m));
    }
}

proof fn lemma_top_bit_below(m: nat, e: nat)
    requires
        0 < m < pow2(e),
    ensures
        floor_log2(m) < e,
{
    lemma_top_bit(m);
    let p = floor_log2(m);
    if p >= e {
        if p > e {
            vstd::arithmetic::power2::lemma_pow2_strictly_increases(e, p);
        }
        assert(pow2(e) <= pow2(p));
    }
}

proof fn lemma_widened(mag: nat)
    requires
        mag <= 0x7f80_0000,
    ensures
        0 <= widened_magnitude(mag as int) <= 0x7ff0_0000_0000_0000,
        mag == 0x7f80_0000 <==> widened_magnitude(mag as int) == 0x7ff0_0000_0000_0000,
        mag < 0x7f80_0000 ==> size_of_bits(widened_magnitude(mag as int) as nat, 52)
            == size_of_bits(mag, 23) * pow2(925),
{
    lemma2_to64();
    lemma2_to64_rest();
    assert(pow2(23) == 0x80_0000);
    assert(pow2(52) == 0x10_0000_0000_0000);
    assert(pow2(29) == 0x2000_0000);
    let e = mag / 0x80_0000;
    let f = mag % 0x80_0000;
    lemma_pow2_pos(925);
    if e == 255 {
    } else if e > 0 {
        let g = f * 0x2000_0000;
        assert(g < 0x10_0000_0000_0000);
        lemma_size_of_fields(e + 896, g, 52);
        let k = pow2((e - 1) as nat);
        lemma_pow2_adds(29, (e + 895) as nat);
        lemma_pow2_adds((e - 1) as nat, 925);
        let big = pow2((e + 895) as nat);
        let t = pow2(925);
        assert((0x10_0000_0000_0000 + g) * big == ((0x80_0000 + f) * k) * t) by (nonlinear_arith)
            requires
                g == f * 0x2000_0000,
                0x2000_0000 * big == k * t,
        ;
        assert(widened_magnitude(mag as int) == (e + 896) * 0x10_0000_0000_0000 + g);
        assert((e + 896) * pow2(52) + g == widened_magnitude(mag as int));
        assert(size_of_bits(mag, 23) == (0x80_0000 + f) * k);
        assert(size_of_bits(widened_magnitude(mag as int) as nat, 52) == size_of_bits(mag, 23) * t);
    } else if f == 0 {
        lemma_size_of_zero(52);
        lemma_size_of_zero(23);
        assert(mag == 0);
        assert(0 * pow2(925) == 0) by (nonlinear_arith);
        assert(size_of_bits(mag, 23) * pow2(925) == 0);
    } else {
        lemma_top_bit(f);
        lemma_top_bit_below(f, 23);
        let p = floor_log2(f);
        let h = pow2(p);
        let k = pow2((52 - p) as nat);
        lemma_pow2_pos((52 - p) as nat);
        lemma_pow2_adds(p, (52 - p) as nat);
        let g = ((f - h) * k) as nat;
        assert(0 <= (f - h) * k < h * k) by (nonlinear_arith)
            requires
                h <= f < 2 * h,
                k > 0,
        ;
        lemma_size_of_fields(p + 874, g, 52);
        lemma_pow2_adds((52 - p) as nat, (p + 873) as nat);
        let big = pow2((p + 873) as nat);
        assert((h * k + (f - h) * k) * big == f * (k * big)) by (nonlinear_arith);
        assert(size_of_bits(mag, 23) == f);
        assert(widened_magnitude(mag as int) == (p + 874) * 0x10_0000_0000_0000 + g);
        assert((p + 874) * pow2(52) + g == widened_magnitude(mag as int));
        assert(k * big == pow2(925));
        assert(h * k == pow2(52));
        assert((pow2(52) + g) * big == f * pow2(925));
        assert(size_of_bits(widened_magnitude(mag as int) as nat, 52) == f * pow2(925));
    }
}

/// Widening a 32 bit float keeps the number that it stands for, and what is no number stays none.
pub proof fn widening_keeps_the_number(bits: u32)
    ensures
        is_number32(bits) <==> is_number64(f64_of_f32(bits)),
        bits % 0x8000_0000 < 0x7f80_0000 ==> number64(f64_of_f32(bits)) == number32(bits) * pow2(
            925,
        ),
        bits % 0x8000_0000 == 0x7f80_0000 ==> f64_of_f32(bits) % 0x8000_0000_0000_0000
            == 0x7ff0_0000_0000_0000,
        bits >= 0x8000_0000 <==> f64_of_f32(bits) >= 0x8000_0000_0000_0000,
{
    let mag = (bits % 0x8000_0000) as nat;
    if mag <= 0x7f80_0000 {
        lemma_widened(mag);
        let n = size_of_bits(mag, 23) as int;
        assert((-n) * pow2(925) == -(n * pow2(925))) by (nonlinear_arith);
    } else {
        let f = mag % 0x80_0000;
        assert(mag / 0x80_0000 == 255);
        assert(f > 0);
        assert(widened_magnitude(mag as int) == 0x7ff0_0000_0000_0000 + f * 0x2000_0000);
    }
}

/// Widening 32 bit floats keeps their order.
pub proof fn widening_keeps_the_order(a: u32, b: u32)
    requires
        is_number32(a),
        is_number32(b),
    ensures
        number32(a) < number32(b) <==> number64(f64_of_f32(a)) < number64(f64_of_f32(b)),
        number32(a) == number32(b) <==> number64(f64_of_f32(a)) == number64(f64_of_f32(b)),
{
    let x = (a % 0x8000_0000) as nat;
    let y = (b % 0x8000_0000) as nat;
    let a_neg = a >= 0x8000_0000;
    let b_neg = b >= 0x8000_0000;
    let (u, v) = lemma_widened_bits(a, b);
    lemma_signed_sizes(x, a_neg, y, b_neg, 23);
    lemma_signed_sizes(u, a_neg, v, b_neg, 52);
}

proof fn lemma_widened_bits(a: u32, b: u32) -> (r: (nat, nat))
    requires
        is_number32(a),
        is_number32(b),
    ensures
        r.0 < 0x8000_0000_0000_0000,
        r.1 < 0x8000_0000_0000_0000,
        f64_of_f32(a) == (if a >= 0x8000_0000 {
            r.0 + 0x8000_0000_0000_0000
        } else {
            r.0
        }),
        f64_of_f32(b) == (if b >= 0x8000_0000 {
            r.1 + 0x8000_0000_0000_0000
        } else {
            r.1
        }),
        a % 0x8000_0000 == 0 <==> r.0 == 0,
        b % 0x8000_0000 == 0 <==> r.1 == 0,
        a % 0x8000_0000 < b % 0x8000_0000 <==> r.0 < r.1,
        a % 0x8000_0000 == b % 0x8000_0000 <==> r.0 == r.1,
{
    let x = (a % 0x8000_0000) as nat;
    let y = (b % 0x8000_0000) as nat;
    lemma_widened_order(x, y);
    lemma_widened_order(y, x);
    lemma_widened(x);
    lemma_widened(y);
    lemma_widened_order(0, x);
    lemma_widened_order(0, y);
    assert(widened_magnitude(0) == 0);
    (widened_magnitude(x as int) as nat, widened_magnitude(y as int) as nat)
}

proof fn lemma_widened_order(x: nat, y: nat)
    requires
        x <= 0x7f80_0000,
        y <= 0x7f80_0000,
    ensures
        x < y ==> widened_magnitude(x as int) < widened_magnitude(y as int),
{
    if x < y {
        lemma_widened(x);
        lemma_widened(y);
        if y < 0x7f80_0000 {
            let u = widened_magnitude(x as int) as nat;
            let v = widened_magnitude(y as int) as nat;
            let t = pow2(925);
            lemma_pow2_pos(925);
            lemma_size_increases(x, y, 23);
            let a = size_of_bits(x, 23);
            let b = size_of_bits(y, 23);
            assert(a * t < b * t) by (nonlinear_arith)
                requires
                    a < b,
                    t > 0,
            ;
            if v < u {
                lemma_size_increases(v, u, 52);
            }
        }
    }
}

/// The size of a number whose significand, of 53 bits, is `s`.
proof fn lemma_size_at(e: nat, s: nat)
    requires
        e > 0,
        pow2(52) <= s <= 2 * pow2(52),
    ensures
        size_of_bits((e * pow2(52) + s - pow2(52)) as nat, 52) == s * pow2((e - 1) as nat),
{
    let p = pow2(52);
    lemma_pow2_pos(52);
    if s < 2 * p {
        lemma_size_of_fields(e, (s - p) as nat, 52);
    } else {
        lemma_size_of_fields(e + 1, 0, 52);
        lemma_pow2_unfold(e);
        let k = pow2((e - 1) as nat);
        assert((e + 1) * p == e * p + s - p) by (nonlinear_arith)
            requires
                s == 2 * p,
        ;
        assert(p * (2 * k) == (2 * p) * k) by (nonlinear_arith);
    }
}

/// How far a rounded integer is from the integer, in halves of the unit of its last bit.
proof fn lemma_rounded(m: nat)
    requires
        0 < m <= 0x8000_0000_0000_0000,
    ensures
        ({
            let e = floor_log2(m);
            let s = rounded_significand(m, 52);
            let v = s * pow2((e + 1022) as nat);
            let exact = m * pow2(1074);
            let unit = pow2((e + 1022) as nat);
            &&& e <= 63
            &&& pow2(52) <= s <= 2 * pow2(52)
            &&& rounded_magnitude(m, 52, 1023) == (e + 1023) * pow2(52) + s - pow2(52)
            &&& e <= 52 ==> v == exact
            &&& -unit <= 2 * (v - exact) <= unit
            &&& s == pow2(52) ==> v <= exact
            &&& 2 * (v - exact) == unit || 2 * (v - exact) == -unit ==> s % 2 == 0
        }),
{
    lemma2_to64();
    lemma2_to64_rest();
    lemma_top_bit(m);
    let e = floor_log2(m);
    let h = pow2(e);
    if e >= 64 {
        if e > 64 {
            vstd::arithmetic::power2::lemma_pow2_strictly_increases(64, e);
        }
        assert(false);
    }
    let p = pow2(52);
    let t = pow2(1074);
    let u = pow2((e + 1022) as nat);
    lemma_pow2_pos(1074);
    lemma_pow2_pos((e + 1022) as nat);
    let s = rounded_significand(m, 52);
    if e <= 52 {
        let k = pow2((52 - e) as nat);
        lemma_pow2_pos((52 - e) as nat);
        lemma_pow2_adds((52 - e) as nat, e);
        lemma_pow2_adds((52 - e) as nat, (e + 1022) as nat);
        assert(k * h == p);
        assert(k * u == t);
        assert(s == m * k);
        assert(k * h <= m * k < 2 * (k * h)) by (nonlinear_arith)
            requires
                h <= m < 2 * h,
                k > 0,
        ;
        assert((m * k) * u == m * (k * u)) by (nonlinear_arith);
    } else {
        let k = pow2((e - 52) as nat);
        lemma_pow2_pos((e - 52) as nat);
        lemma_pow2_adds((e - 52) as nat, 52);
        lemma_pow2_adds((e - 52) as nat, 1074);
        assert(k * p == h);
        assert(k * t == u);
        let q = m / k;
        let r = m % k;
        vstd::arithmetic::div_mod::lemma_fundamental_div_mod(m as int, k as int);
        assert(m == k * q + r);
        assert(q >= p) by (nonlinear_arith)
            requires
                m == k * q + r,
                r < k,
                m >= k * p,
                k > 0,
        ;
        assert(q < 2 * p) by (nonlinear_arith)
            requires
                m == k * q + r,
                r >= 0,
                m < 2 * (k * p),
                k > 0,
        ;
        assert(s == q || s == q + 1);
        let d = s - q;
        assert(s * u - m * t == (d * k - r) * t) by (nonlinear_arith)
            requires
                u == k * t,
                m == k * q + r,
                s == q + d,
        ;
        assert(d * k == (if d == 0 {
            0
        } else {
            k as int
        })) by (nonlinear_arith)
            requires
                d == 0 || d == 1,
        ;
        let off = d * k - r;
        assert(-(k as int) <= 2 * off <= k);
        assert(-(k * t) <= 2 * (off * t) <= k * t) by (nonlinear_arith)
            requires
                -(k as int) <= 2 * off <= k,
                t > 0,
        ;
        if 2 * (s * u - m * t) == u || 2 * (s * u - m * t) == -(u as int) {
            assert(2 * off == k || 2 * off == -(k as int)) by (nonlinear_arith)
                requires
                    2 * (off * t) == k * t || 2 * (off * t) == -(k * t),
                    t > 0,
            ;
        }
        if s == p {
            assert(off == -(r as int));
            assert(off * t <= 0) by (nonlinear_arith)
                requires
                    off <= 0,
                    t > 0,
            ;
        }
    }
}

spec fn apart(a: int, b: int) -> int {
    if a < b {
        b - a
    } else {
        a - b
    }
}

proof fn lemma_nearest(m: nat, other: nat)
    requires
        m <= 0x8000_0000_0000_0000,
    ensures
        ({
            let mag = rounded_magnitude(m, 52, 1023);
            let v = size_of_bits(mag, 52) as int;
            let w = size_of_bits(other, 52) as int;
            let exact = m * pow2(1074);
            &&& mag < 0x7ff0_0000_0000_0000
            &&& m <= 0x20_0000_0000_0000 ==> v == exact
            &&& apart(v, exact as int) <= apart(w, exact as int)
            &&& other != mag && apart(v, exact as int) == apart(w, exact as int) ==> mag % 2 == 0
        }),
{
    let mag = rounded_magnitude(m, 52, 1023);
    let exact = (m * pow2(1074)) as int;
    lemma2_to64();
    lemma2_to64_rest();
    let p = pow2(52);
    if m == 0 {
        lemma_size_of_zero(52);
        assert(0 * pow2(1074) == 0) by (nonlinear_arith);
    } else {
        lemma_rounded(m);
        let e = floor_log2(m);
        let s = rounded_significand(m, 52);
        let u = pow2((e + 1022) as nat) as int;
        lemma_size_at((e + 1023) as nat, s);
        let v = s * u;
        assert(size_of_bits(mag, 52) == v);
        assert((e + 1023) * p <= 1086 * p) by (nonlinear_arith)
            requires
                e <= 63,
        ;
        if m <= 0x20_0000_0000_0000 {
            assert(v == exact) by {
                if e > 52 {
                    lemma_top_bit(m);
                    if e > 53 {
                        vstd::arithmetic::power2::lemma_pow2_strictly_increases(53, e);
                    }
                    assert(m == 0x20_0000_0000_0000 && e == 53);
                    let k = pow2(1);
                    assert(m / 2 == p);
                    lemma_pow2_adds(1, 1074);
                    assert(p * (2 * pow2(1074)) == (2 * p) * pow2(1074)) by (nonlinear_arith);
                }
            }
        }
        let w = size_of_bits(other, 52) as int;
        if other > mag {
            if other > mag + 1 {
                lemma_size_increases(mag + 1, other, 52);
            }
            if s < 2 * p {
                lemma_size_at((e + 1023) as nat, s + 1);
                assert((s + 1) * u == s * u + u) by (nonlinear_arith);
            } else {
                lemma_size_at((e + 1024) as nat, p + 1);
                lemma_pow2_unfold((e + 1023) as nat);
                assert((p + 1) * (2 * u) == s * u + 2 * u) by (nonlinear_arith)
                    requires
                        s == 2 * p,
                ;
                assert((e + 1024) * p + (p + 1) - p == (e + 1023) * p + s - p + 1) by (
                nonlinear_arith)
                    requires
                        s == 2 * p,
                ;
            }
            assert(w >= v + u);
        } else if other < mag {
            if s > p {
                if other < mag - 1 {
                    lemma_size_increases(other, (mag - 1) as nat, 52);
                }
                lemma_size_at((e + 1023) as nat, (s - 1) as nat);
                assert((s - 1) * u == s * u - u) by (nonlinear_arith);
                assert(w <= v - u);
            } else {
                lemma_size_increases(other, mag, 52);
            }
        }
        assert(p % 2 == 0);
        assert(((e + 1023) * p) % 2 == 0) by (nonlinear_arith)
            requires
                p == 2 * 0x8_0000_0000_0000,
        ;
    }
}

/// An integer becomes the 64 bit number nearest to it: no other is nearer, and of two that are
/// equally near it is the one whose last bit is zero. Integers of up to 53 bits become themselves.
pub proof fn integers_become_the_nearest_number(n: i64, x: u64)
    ensures
        is_number64(f64_of_int(n as int)),
        f64_of_int(n as int) % 0x8000_0000_0000_0000 < 0x7ff0_0000_0000_0000,
        -0x20_0000_0000_0000 <= n <= 0x20_0000_0000_0000 ==> number64(f64_of_int(n as int)) == n
            * pow2(1074),
        ({
            let unit = pow2(1074) as int;
            let off = number64(f64_of_int(n as int)) - n * unit;
            let other = number64(x) - n * unit;
            &&& off <= other || off <= -other
            &&& -off <= other || -off <= -other
            &&& number64(x) != number64(f64_of_int(n as int)) && (off == other || off == -other)
                ==> f64_of_int(n as int) % 2 == 0
        }),
{
    let m = if n < 0 {
        (-(n as int)) as nat
    } else {
        n as nat
    };
    let t = pow2(1074) as int;
    lemma_pow2_pos(1074);
    let y = (x % 0x8000_0000_0000_0000) as nat;
    lemma_nearest(m, y);
    lemma_nearest(m, 0);
    lemma_size_of_zero(52);
    let mag = rounded_magnitude(m, 52, 1023);
    assert((-(n as int)) * t == -(n * t)) by (nonlinear_arith);
    assert(m * t >= 0) by (nonlinear_arith)
        requires
            m >= 0,
            t > 0,
    ;
    assert(f64_of_int(n as int) % 0x8000_0000_0000_0000 == mag);
    if y > 0 {
        lemma_size_increases(0, y, 52);
    }
}

/// Turning integers into 64 bit numbers never turns their order around.
pub proof fn integers_keep_their_order(a: i64, b: i64)
    requires
        a <= b,
    ensures
        number64(f64_of_int(a as int)) <= number64(f64_of_int(b as int)),
{
    let t = pow2(1074) as int;
    lemma_pow2_pos(1074);
    if a < b {
        integers_become_the_nearest_number(a, f64_of_int(b as int));
        integers_become_the_nearest_number(b, f64_of_int(a as int));
        assert(a * t < b * t) by (nonlinear_arith)
            requires
                a < b,
                t > 0,
        ;
    }
}

} // verus!
