//! IEEE 754 numbers held as their bit patterns.
//!
//! A binary32 or binary64 number is an unsigned integer here: the most significant
//! bit is the sign, then the exponent field, then the fraction field. Two numbers
//! that are not NaN are ordered as their sign-magnitude readings are.

use vstd::prelude::*;
use vstd::arithmetic::power2::{pow2, lemma_pow2_pos, lemma_pow2_unfold, lemma_pow2_adds, lemma_pow2_strictly_increases, lemma2_to64, lemma2_to64_rest};

verus! {

/// The outcome of a three-way comparison.
#[derive(Clone, Copy, Debug, PartialEq, Eq, Structural)]
pub enum Comparison {
    Less,
    Equal,
    Greater,
}

impl Comparison {
    /// The comparison with its two sides exchanged.
    pub open spec fn flipped(self) -> Comparison {
        match self {
            Comparison::Less => Comparison::Greater,
            Comparison::Equal => Comparison::Equal,
            Comparison::Greater => Comparison::Less,
        }
    }

    /// Exchanges the two sides of the comparison.
    pub fn reverse(self) -> (r: Comparison)
        ensures
            r == self.flipped(),
    {
        match self {
            Comparison::Less => Comparison::Greater,
            Comparison::Equal => Comparison::Equal,
            Comparison::Greater => Comparison::Less,
        }
    }
}

/// How two integers compare.
pub open spec fn compare_ints(a: int, b: int) -> Comparison {
    if a < b {
        Comparison::Less
    } else if a == b {
        Comparison::Equal
    } else {
        Comparison::Greater
    }
}

pub const F32_SIGN: u32 = 0x8000_0000;

pub const F32_INFINITY: u32 = 0x7f80_0000;

pub const F64_SIGN: u64 = 0x8000_0000_0000_0000;

pub const F64_INFINITY: u64 = 0x7ff0_0000_0000_0000;

/// The number of fraction values of a binary64 number: two to the power 52.
pub const F64_FRACTIONS: u64 = 0x10_0000_0000_0000;

/// The number of fraction values of a binary32 number: two to the power 23.
pub const F32_FRACTIONS: u32 = 0x80_0000;

/// The bits of a binary32 number without its sign.
pub open spec fn f32_magnitude(bits: u32) -> int {
    if bits >= F32_SIGN {
        bits - F32_SIGN
    } else {
        bits as int
    }
}

/// The bits of a binary64 number without its sign.
pub open spec fn f64_magnitude(bits: u64) -> int {
    if bits >= F64_SIGN {
        bits - F64_SIGN
    } else {
        bits as int
    }
}

pub open spec fn f32_is_nan(bits: u32) -> bool {
    f32_magnitude(bits) > F32_INFINITY
}

pub open spec fn f64_is_nan(bits: u64) -> bool {
    f64_magnitude(bits) > F64_INFINITY
}

/// The sign-magnitude reading of a binary32 number; both zeros read as zero.
pub open spec fn f32_rank(bits: u32) -> int {
    if bits >= F32_SIGN {
        -f32_magnitude(bits)
    } else {
        f32_magnitude(bits)
    }
}

/// The sign-magnitude reading of a binary64 number; both zeros read as zero.
pub open spec fn f64_rank(bits: u64) -> int {
    if bits >= F64_SIGN {
        -f64_magnitude(bits)
    } else {
        f64_magnitude(bits)
    }
}

/// How two binary32 numbers compare; `None` where one of them is NaN.
pub open spec fn f32_order(a: u32, b: u32) -> Option<Comparison> {
    if f32_is_nan(a) || f32_is_nan(b) {
        None
    } else {
        Some(compare_ints(f32_rank(a), f32_rank(b)))
    }
}

/// How two binary64 numbers compare; `None` where one of them is NaN.
pub open spec fn f64_order(a: u64, b: u64) -> Option<Comparison> {
    if f64_is_nan(a) || f64_is_nan(b) {
        None
    } else {
        Some(compare_ints(f64_rank(a), f64_rank(b)))
    }
}

pub fn compare_f32(a: u32, b: u32) -> (r: Option<Comparison>)
    ensures
        r == f32_order(a, b),
{
    let a_neg = a >= F32_SIGN;
    let b_neg = b >= F32_SIGN;
    let a_mag: u32 = if a_neg { a - F32_SIGN } else { a };
    let b_mag: u32 = if b_neg { b - F32_SIGN } else { b };
    if a_mag > F32_INFINITY || b_mag > F32_INFINITY {
        return None;
    }
    let ra: i64 = if a_neg { -(a_mag as i64) } else { a_mag as i64 };
    let rb: i64 = if b_neg { -(b_mag as i64) } else { b_mag as i64 };
    if ra < rb {
        Some(Comparison::Less)
    } else if ra == rb {
        Some(Comparison::Equal)
    } else {
        Some(Comparison::Greater)
    }
}

pub fn compare_f64(a: u64, b: u64) -> (r: Option<Comparison>)
    ensures
        r == f64_order(a, b),
{
    let a_neg = a >= F64_SIGN;
    let b_neg = b >= F64_SIGN;
    let a_mag: u64 = if a_neg { a - F64_SIGN } else { a };
    let b_mag: u64 = if b_neg { b - F64_SIGN } else { b };
    if a_mag > F64_INFINITY || b_mag > F64_INFINITY {
        return None;
    }
    let ra: i64 = if a_neg { -(a_mag as i64) } else { a_mag as i64 };
    let rb: i64 = if b_neg { -(b_mag as i64) } else { b_mag as i64 };
    if ra < rb {
        Some(Comparison::Less)
    } else if ra == rb {
        Some(Comparison::Equal)
    } else {
        Some(Comparison::Greater)
    }
}

/// The position of the highest bit that is set in `m`.
pub open spec fn floor_log2(m: nat) -> nat
    decreases m,
{
    if m <= 1 {
        0
    } else {
        1 + floor_log2(m / 2)
    }
}

proof fn lemma_floor_log2_unique(m: nat, e: nat)
    requires
        pow2(e) <= m < 2 * pow2(e),
    ensures
        floor_log2(m) == e,
    decreases e,
{
    lemma2_to64();
    lemma2_to64_rest();
    lemma_pow2_pos(e);
    if e == 0 {
        assert(m == 1);
    } else {
        lemma_pow2_unfold(e);
        lemma_pow2_pos((e - 1) as nat);
        lemma_floor_log2_unique(m / 2, (e - 1) as nat);
    }
}

/// The significand that stands for `m` with `digits` fraction bits: `m` scaled so that its
/// highest bit is bit `digits`, rounded to the nearest, a tie to the even neighbour.
pub open spec fn rounded_significand(m: nat, digits: nat) -> nat {
    let e = floor_log2(m);
    if e <= digits {
        m * pow2((digits - e) as nat)
    } else {
        let unit = pow2((e - digits) as nat);
        let q = m / unit;
        let r = m % unit;
        if 2 * r > unit || (2 * r == unit && q % 2 == 1) {
            q + 1
        } else {
            q
        }
    }
}

/// The magnitude bits of the number nearest to `m`, with `digits` fraction bits and the given
/// exponent bias. A significand that rounds up to the next power of two carries into the
/// exponent field.
pub open spec fn rounded_magnitude(m: nat, digits: nat, bias: nat) -> nat {
    if m == 0 {
        0
    } else {
        ((floor_log2(m) + bias) * pow2(digits) + rounded_significand(m, digits) - pow2(digits)) as nat
    }
}

pub open spec fn abs(n: int) -> nat {
    if n < 0 {
        (-n) as nat
    } else {
        n as nat
    }
}

/// The binary64 number nearest to the integer `n`.
pub open spec fn f64_of_int(n: int) -> u64 {
    let mag = rounded_magnitude(abs(n), 52, 1023);
    if n < 0 {
        (mag + F64_SIGN) as u64
    } else {
        mag as u64
    }
}

/// Finds the highest bit of `m` and the power of two that it stands for.
fn highest_bit(m: u64) -> (r: (u64, u64))
    requires
        m > 0,
    ensures
        r.0 == floor_log2(m as nat),
        r.1 == pow2(r.0 as nat),
        r.0 < 64,
        r.1 <= m,
        m < 2 * r.1,
{
    let mut e: u64 = 0;
    let mut p: u64 = 1;
    proof {
        lemma2_to64();
        lemma2_to64_rest();
    }
    while m / 2 >= p
        invariant
            p == pow2(e as nat),
            1 <= p <= m,
            e < 64,
        decreases m - p,
    {
        proof {
            lemma2_to64();
            lemma2_to64_rest();
            lemma_pow2_unfold((e + 1) as nat);
            if e >= 63 {
                assert(p >= pow2(63));
            }
        }
        p = p * 2;
        e = e + 1;
    }
    proof {
        lemma_floor_log2_unique(m as nat, e as nat);
    }
    (e, p)
}

fn round_significand(m: u64, digits: u64, fractions: u64, e: u64, p: u64) -> (r: u64)
    requires
        m > 0,
        e == floor_log2(m as nat),
        p == pow2(e as nat),
        p <= m < 2 * p,
        e < 64,
        digits < 60,
        fractions == pow2(digits as nat),
    ensures
        r == rounded_significand(m as nat, digits as nat),
        fractions <= r <= 2 * fractions,
{
    proof {
        lemma_pow2_pos(e as nat);
        lemma_pow2_pos(digits as nat);
        lemma2_to64();
        lemma2_to64_rest();
    }
    if e <= digits {
        let ghost k = pow2((digits - e) as nat);
        proof {
            lemma_pow2_adds((digits - e) as nat, e as nat);
            lemma_pow2_pos((digits - e) as nat);
            assert(fractions == k * p);
            vstd::arithmetic::div_mod::lemma_div_multiples_vanish(k as int, p as int);
            assert(p * k == k * p) by (nonlinear_arith);
            assert(m * k < 2 * (p * k) && m * k >= p * k) by (nonlinear_arith)
                requires
                    p <= m < 2 * p,
                    k > 0,
            ;
            if digits < 60 {
                lemma_pow2_strictly_increases(digits as nat, 60);
                lemma2_to64();
                lemma2_to64_rest();
            }
        }
        let scale: u64 = fractions / p;
        m * scale
    } else {
        let ghost u = pow2((e - digits) as nat);
        proof {
            lemma_pow2_adds((e - digits) as nat, digits as nat);
            lemma_pow2_pos((e - digits) as nat);
            assert(p == u * fractions);
            vstd::arithmetic::div_mod::lemma_div_multiples_vanish(u as int, fractions as int);
            assert(u * fractions == fractions * u) by (nonlinear_arith);
        }
        let unit: u64 = p / fractions;
        let q: u64 = m / unit;
        let r: u64 = m % unit;
        proof {
            vstd::arithmetic::div_mod::lemma_fundamental_div_mod(m as int, unit as int);
            assert(q < 2 * fractions) by (nonlinear_arith)
                requires
                    m == unit * q + r,
                    0 <= r,
                    m < 2 * (unit * fractions),
                    unit > 0,
            ;
            assert(q >= fractions) by (nonlinear_arith)
                requires
                    m == unit * q + r,
                    r < unit,
                    m >= unit * fractions,
                    unit > 0,
            ;
            if digits < 60 {
                lemma_pow2_strictly_increases(digits as nat, 60);
                lemma2_to64();
                lemma2_to64_rest();
            }
        }
        let twice_exceeds = r > unit - r;
        let tie = r == unit - r;
        if twice_exceeds || (tie && q % 2 == 1) {
            q + 1
        } else {
            q
        }
    }
}

/// The bits of the binary64 number nearest to `n`.
pub fn f64_from_int(n: i64) -> (r: u64)
    ensures
        r == f64_of_int(n as int),
        !f64_is_nan(r),
{
    if n == 0 {
        return 0;
    }
    let m: u64 = if n < 0 { ((-(n + 1)) as u64) + 1 } else { n as u64 };
    let (e, p) = highest_bit(m);
    proof {
        lemma2_to64();
        lemma2_to64_rest();
    }
    let s = round_significand(m, 52, F64_FRACTIONS, e, p);
    proof {
        assert((e + 1023) * F64_FRACTIONS <= 1086 * F64_FRACTIONS);
    }
    let mag: u64 = (e + 1023) * F64_FRACTIONS + (s - F64_FRACTIONS);
    if n < 0 {
        mag + F64_SIGN
    } else {
        mag
    }
}

/// The magnitude bits, in binary64, of the binary32 number with magnitude bits `mag`. The
/// exponent bias grows from 127 to 1023 and the fraction by 29 bits; a subnormal number, a
/// fraction in units of two to the power -149, becomes a normal one.
pub open spec fn widened_magnitude(mag: int) -> int {
    let exponent = mag / (F32_FRACTIONS as int);
    let fraction = mag % (F32_FRACTIONS as int);
    if exponent == 255 {
        F64_INFINITY + fraction * 0x2000_0000
    } else if exponent > 0 {
        (exponent + 896) * F64_FRACTIONS + fraction * 0x2000_0000
    } else if fraction == 0 {
        0
    } else {
        let p = floor_log2(fraction as nat);
        (p + 874) * F64_FRACTIONS + (fraction - pow2(p)) * pow2((52 - p) as nat)
    }
}

/// The binary64 number that equals a binary32 number.
pub open spec fn f64_of_f32(bits: u32) -> u64 {
    let mag = widened_magnitude(f32_magnitude(bits));
    if bits >= F32_SIGN {
        (mag + F64_SIGN) as u64
    } else {
        mag as u64
    }
}

/// Widens a binary32 number to binary64.
pub fn f64_from_f32(bits: u32) -> (r: u64)
    ensures
        r == f64_of_f32(bits),
{
    let negative = bits >= F32_SIGN;
    let mag: u32 = if negative { bits - F32_SIGN } else { bits };
    let exponent: u64 = (mag / F32_FRACTIONS) as u64;
    let fraction: u64 = (mag % F32_FRACTIONS) as u64;
    let wide: u64 = if exponent == 255 {
        F64_INFINITY + fraction * 0x2000_0000
    } else if exponent > 0 {
        (exponent + 896) * F64_FRACTIONS + fraction * 0x2000_0000
    } else if fraction == 0 {
        0
    } else {
        let (e, p) = highest_bit(fraction);
        proof {
            lemma2_to64();
            lemma2_to64_rest();
            if e >= 23 {
                assert(pow2(23) <= pow2(e as nat)) by {
                    if e > 23 {
                        lemma_pow2_strictly_increases(23, e as nat);
                    }
                }
            }
            lemma_pow2_adds(e as nat, (52 - e) as nat);
            lemma_pow2_pos((52 - e) as nat);
            lemma_pow2_pos(e as nat);
            let k = pow2((52 - e) as nat);
            assert(p * k == k * p) by (nonlinear_arith);
            vstd::arithmetic::div_mod::lemma_div_multiples_vanish(k as int, p as int);
            assert((fraction - p) * k < p * k) by (nonlinear_arith)
                requires
                    fraction < 2 * p,
                    k > 0,
            ;
            assert(0 <= (fraction - p) * k) by (nonlinear_arith)
                requires
                    fraction >= p,
                    k > 0,
            ;
        }
        (e + 874) * F64_FRACTIONS + (fraction - p) * (F64_FRACTIONS / p)
    };
    if negative {
        wide + F64_SIGN
    } else {
        wide
    }
}

} // verus!
