//! IEEE 754 numbers as their bit patterns.
//!
//! The engine keeps no floating-point arithmetic.  A double is the 64 bits
//! that hold it and a single the 32 bits that hold it; the conversions here
//! work on those bits with whole numbers, and round to the nearest
//! representable value, to the even one of two that are equally near.

use crate::codec::narrow;
use vstd::prelude::*;

verus! {

/// The bit that holds the sign of a double.
pub const DOUBLE_SIGN: u64 = 0x8000_0000_0000_0000;

/// The bits of the double `+infinity`: every finite double that is not
/// negative has smaller bits.
pub const DOUBLE_INFINITY: u64 = 0x7FF0_0000_0000_0000;

/// The bits of the double that stands for every number that is none.
pub const DOUBLE_NAN: u64 = 0x7FF8_0000_0000_0000;

/// The bit that holds the sign of a single.
pub const SINGLE_SIGN: u32 = 0x8000_0000;

/// The bits of the single `+infinity`.
pub const SINGLE_INFINITY: u32 = 0x7F80_0000;

/// The bits of the single that stands for every number that is none.
pub const SINGLE_NAN: u32 = 0x7FC0_0000;

/// 2 to the power `k`.
pub open spec fn pow2(k: nat) -> nat
    decreases k,
{
    if k == 0 {
        1
    } else {
        2 * pow2((k - 1) as nat)
    }
}

/// The number of binary digits of `m`: none for zero.
pub open spec fn bit_length(m: nat) -> nat
    decreases m,
{
    if m == 0 {
        0
    } else {
        1 + bit_length(m / 2)
    }
}

/// `n / d`, rounded to the nearest whole number, and to the even one where
/// two are equally near.
pub open spec fn round_half_even(n: nat, d: nat) -> nat {
    let q = n / d;
    let r = n % d;
    if 2 * r > d || (2 * r == d && q % 2 == 1) {
        q + 1
    } else {
        q
    }
}

/// `m * 2^s`, rounded to the nearest whole number, and to the even one
/// where two are equally near.
pub open spec fn scaled(m: nat, s: int) -> nat {
    if s >= 0 {
        m * pow2(s as nat)
    } else {
        round_half_even(m, pow2((-s) as nat))
    }
}

/// The bits, without the sign, of the number nearest to `m * 2^e` in the
/// binary format with `p` significant digits and `w` bits of exponent.
///
/// The leading digit of a number `m * 2^e` has the weight
/// `2^(bit_length(m) - 1 + e)`.  Where that weight is too great for the
/// format the bits are those of infinity.  Where it is that of a normal
/// number, `m` is scaled to `p` digits, and the exponent stands above
/// them.  Where it is too small for a normal number, `m` is scaled to the
/// weight of the smallest one, and the exponent field is zero.
pub open spec fn nearest_bits(m: nat, e: int, p: nat, w: nat) -> nat {
    let bias = pow2((w - 1) as nat) - 1;
    let biased = bit_length(m) - 1 + e + bias;
    if m == 0 {
        0
    } else if biased >= pow2(w) - 1 {
        ((pow2(w) - 1) * pow2((p - 1) as nat)) as nat
    } else if biased >= 1 {
        ((biased - 1) * pow2((p - 1) as nat) + scaled(m, p - bit_length(m))) as nat
    } else {
        scaled(m, e + bias + p - 2)
    }
}

/// The powers of two that the two formats call for.
pub proof fn lemma_pow2_values()
    ensures
        pow2(0) == 1,
        pow2(1) == 2,
        pow2(7) == 0x80,
        pow2(8) == 0x100,
        pow2(10) == 0x400,
        pow2(11) == 0x800,
        pow2(23) == 0x80_0000,
        pow2(24) == 0x100_0000,
        pow2(31) == 0x8000_0000,
        pow2(32) == 0x1_0000_0000,
        pow2(52) == 0x10_0000_0000_0000,
        pow2(53) == 0x20_0000_0000_0000,
        pow2(63) == 0x8000_0000_0000_0000,
        pow2(64) == 0x1_0000_0000_0000_0000,
        pow2(127) == 0x8000_0000_0000_0000_0000_0000_0000_0000,
{
    reveal_with_fuel(pow2, 12);
    assert(pow2(11) == 0x800);
    assert(pow2(22) == 0x40_0000);
    assert(pow2(32) == 0x1_0000_0000);
    assert(pow2(42) == 0x400_0000_0000);
    assert(pow2(52) == 0x10_0000_0000_0000);
    assert(pow2(62) == 0x4000_0000_0000_0000);
    assert(pow2(72) == 0x100_0000_0000_0000_0000);
    assert(pow2(82) == 0x4_0000_0000_0000_0000_0000);
    assert(pow2(92) == 0x1000_0000_0000_0000_0000_0000);
    assert(pow2(102) == 0x40_0000_0000_0000_0000_0000_0000);
    assert(pow2(112) == 0x1_0000_0000_0000_0000_0000_0000_0000);
    assert(pow2(122) == 0x400_0000_0000_0000_0000_0000_0000_0000);
}

/// `2^k` is above zero and grows with `k`.
pub proof fn lemma_pow2_monotone(a: nat, b: nat)
    requires
        a <= b,
    ensures
        0 < pow2(a) <= pow2(b),
    decreases b,
{
    if a < b {
        lemma_pow2_monotone(a, (b - 1) as nat);
    } else if a > 0 {
        lemma_pow2_monotone((a - 1) as nat, (a - 1) as nat);
    }
}

/// `2^(a + b)` is `2^a * 2^b`.
pub proof fn lemma_pow2_split(a: nat, b: nat)
    ensures
        pow2(a + b) == pow2(a) * pow2(b),
    decreases a,
{
    if a == 0 {
        assert(pow2(0 + b) == 1 * pow2(b));
    } else {
        lemma_pow2_split((a - 1) as nat, b);
        assert(pow2(a + b) == 2 * pow2((a - 1 + b) as nat));
        assert(2 * (pow2((a - 1) as nat) * pow2(b)) == (2 * pow2((a - 1) as nat)) * pow2(b))
            by (nonlinear_arith);
    }
}

/// A number of `n` binary digits is at least `2^(n - 1)` and below `2^n`.
pub proof fn lemma_bit_length(m: nat)
    ensures
        m < pow2(bit_length(m)),
        m > 0 ==> pow2((bit_length(m) - 1) as nat) <= m,
    decreases m,
{
    if m > 0 {
        lemma_bit_length(m / 2);
    }
}

/// A number below `2^k` has at most `k` binary digits.
pub proof fn lemma_bit_length_bound(m: nat, k: nat)
    requires
        m < pow2(k),
    ensures
        bit_length(m) <= k,
    decreases m,
{
    if m > 0 {
        if k == 0 {
        } else {
            lemma_bit_length_bound(m / 2, (k - 1) as nat);
        }
    }
}

/// `2^k`, for `k` up to 127.
pub fn power_of_two(k: u32) -> (r: u128)
    requires
        k <= 127,
    ensures
        r == pow2(k as nat),
{
    let mut r: u128 = 1;
    let mut i: u32 = 0;
    while i < k
        invariant
            i <= k <= 127,
            r == pow2(i as nat),
        decreases k - i,
    {
        proof {
            lemma_pow2_monotone((i + 1) as nat, 127);
            lemma_pow2_values();
        }
        r = r * 2;
        i += 1;
    }
    r
}

/// The number of binary digits of `m`.
pub fn count_bits(m: u64) -> (n: u32)
    ensures
        n == bit_length(m as nat),
        n <= 64,
{
    proof {
        lemma_pow2_values();
        lemma_bit_length_bound(m as nat, 64);
    }
    let mut n: u32 = 0;
    let mut rest: u64 = m;
    while rest > 0
        invariant
            n + bit_length(rest as nat) == bit_length(m as nat),
            bit_length(m as nat) <= 64,
        decreases rest,
    {
        rest = rest / 2;
        n += 1;
    }
    n
}

/// `m * 2^s`, rounded to the nearest whole number, and to the even one
/// where two are equally near.
pub fn scale(m: u64, s: i32) -> (r: u128)
    requires
        -4000 <= s <= 63,
    ensures
        r == scaled(m as nat, s as int),
        s < 0 ==> r <= m && (r - 1) * pow2((-s) as nat) <= m,
{
    proof {
        lemma_pow2_values();
    }
    if s >= 0 {
        let f = power_of_two(s as u32);
        proof {
            lemma_pow2_monotone(s as nat, 63);
            assert(m * f <= 0xffff_ffff_ffff_ffff * 0x8000_0000_0000_0000) by (nonlinear_arith)
                requires
                    0 <= m <= 0xffff_ffff_ffff_ffff,
                    0 <= f <= 0x8000_0000_0000_0000,
            ;
        }
        (m as u128) * f
    } else if s < -65 {
        proof {
            let d = pow2((-s) as nat);
            lemma_pow2_monotone(66, (-s) as nat);
            lemma_pow2_split(64, 2);
            assert(pow2(2) == 4) by {
                reveal_with_fuel(pow2, 3);
            }
            assert(4 * m < d);
            vstd::arithmetic::div_mod::lemma_small_mod(m as nat, d);
            vstd::arithmetic::div_mod::lemma_basic_div(m as int, d as int);
        }
        0
    } else {
        let d = power_of_two((-s) as u32);
        proof {
            lemma_pow2_monotone((-s) as nat, 65);
            lemma_pow2_monotone(1, (-s) as nat);
            lemma_pow2_split(64, 1);
            vstd::arithmetic::div_mod::lemma_fundamental_div_mod(m as int, d as int);
            vstd::arithmetic::div_mod::lemma_mod_bound(m as int, d as int);
            vstd::arithmetic::div_mod::lemma_div_pos_is_pos(m as int, d as int);
        }
        let q = (m as u128) / d;
        let r = (m as u128) % d;
        assert(q <= m) by {
            assert(q * d <= m) by (nonlinear_arith)
                requires
                    m == d * q + r,
                    r >= 0,
            ;
            assert(q <= q * d) by (nonlinear_arith)
                requires
                    d >= 1,
                    q >= 0,
            ;
        }
        assert((q - 1) * d <= m && q * d <= m) by (nonlinear_arith)
            requires
                m == d * q + r,
                r >= 0,
                d >= 1,
                q >= 0,
        ;
        if 2 * r > d || (2 * r == d && q % 2 == 1) {
            assert(q + 1 <= m) by {
                assert(r > 0);
                assert(d >= 2);
                assert(m >= 2 * q + r) by (nonlinear_arith)
                    requires
                        m == d * q + r,
                        d >= 2,
                        q >= 0,
                ;
                if q == 0 {
                    assert(m == r) by (nonlinear_arith)
                        requires
                            m == d * q + r,
                            q == 0,
                    ;
                    assert(m >= 1);
                }
            }
            q + 1
        } else {
            q
        }
    }
}


/// The bits, without the sign, of the number nearest to `m * 2^e` in the
/// format of a single (`p` is 24 and `w` is 8) or of a double (`p` is 53
/// and `w` is 11).
pub fn nearest(m: u64, e: i32, p: u32, w: u32) -> (bits: u64)
    requires
        (p == 24 && w == 8) || (p == 53 && w == 11),
        -2000 <= e <= 2000,
    ensures
        bits == nearest_bits(m as nat, e as int, p as nat, w as nat),
        bits <= (pow2(w as nat) - 1) * pow2((p - 1) as nat),
{
    proof {
        lemma_pow2_values();
    }
    if m == 0 {
        return 0;
    }
    let bias: i32 = if w == 8 {
        127
    } else {
        1023
    };
    let top: u64 = if w == 8 {
        255
    } else {
        2047
    };
    let unit: u64 = if p == 24 {
        0x80_0000
    } else {
        0x10_0000_0000_0000
    };
    let len: i32 = count_bits(m) as i32;
    let biased: i32 = len - 1 + e + bias;
    proof {
        lemma_bit_length(m as nat);
    }
    if biased >= top as i32 {
        top * unit
    } else if biased >= 1 {
        let s: i32 = p as i32 - len;
        let r = scale(m, s);
        proof {
            // The scaled digits are at most `2^p`.
            if s >= 0 {
                lemma_pow2_split(len as nat, s as nat);
                assert(m * pow2(s as nat) <= pow2(len as nat) * pow2(s as nat))
                    by (nonlinear_arith)
                    requires
                        m <= pow2(len as nat),
                ;
            } else {
                lemma_pow2_split(p as nat, (-s) as nat);
                lemma_pow2_monotone(0, (-s) as nat);
                let d = pow2((-s) as nat);
                assert(r - 1 < pow2(p as nat)) by (nonlinear_arith)
                    requires
                        (r - 1) * d <= m,
                        m < pow2(p as nat) * d,
                        d > 0,
                ;
            }
            lemma_pow2_split(1, (p - 1) as nat);
            assert(r <= 2 * unit);
            assert((biased - 1) * unit <= (top - 2) * unit) by (nonlinear_arith)
                requires
                    biased <= top - 1,
                    unit >= 0,
            ;
            assert((top - 2) * unit + 2 * unit == top * unit) by (nonlinear_arith);
        }
        (biased - 1) as u64 * unit + r as u64
    } else {
        let s: i32 = e + bias + p as i32 - 2;
        let r = scale(m, s);
        proof {
            // The scaled digits are at most `2^(p - 1)`.
            if s >= 0 {
                lemma_pow2_split(len as nat, s as nat);
                lemma_pow2_monotone((len + s) as nat, (p - 1) as nat);
                assert(m * pow2(s as nat) <= pow2(len as nat) * pow2(s as nat))
                    by (nonlinear_arith)
                    requires
                        m <= pow2(len as nat),
                ;
            } else {
                let d = pow2((-s) as nat);
                lemma_pow2_monotone(0, (-s) as nat);
                if len + s >= 0 {
                    lemma_pow2_split((len + s) as nat, (-s) as nat);
                    lemma_pow2_monotone((len + s) as nat, (p - 1) as nat);
                    assert(r - 1 < pow2((len + s) as nat)) by (nonlinear_arith)
                        requires
                            (r - 1) * d <= m,
                            m < pow2((len + s) as nat) * d,
                            d > 0,
                    ;
                } else {
                    lemma_pow2_monotone(len as nat, (-s) as nat);
                    assert(r - 1 < 1) by (nonlinear_arith)
                        requires
                            (r - 1) * d <= m,
                            m < d,
                            d > 0,
                    ;
                    lemma_pow2_monotone(0, (p - 1) as nat);
                }
            }
            assert(r <= unit);
            assert(unit <= top * unit) by (nonlinear_arith)
                requires
                    top >= 1,
                    unit >= 0,
            ;
        }
        r as u64
    }
}


/// Whether the sign bit of the double is set.
pub open spec fn double_negative(bits: u64) -> bool {
    bits >= DOUBLE_SIGN
}

/// The exponent field of the double.
pub open spec fn double_exponent(bits: u64) -> nat {
    ((bits as nat) / 0x10_0000_0000_0000) % 0x800
}

/// The fraction field of the double.
pub open spec fn double_fraction(bits: u64) -> nat {
    (bits as nat) % 0x10_0000_0000_0000
}

/// Whether the double is a number, and not an infinite one.
pub open spec fn double_finite(bits: u64) -> bool {
    double_exponent(bits) != 0x7ff
}

/// Whether the double is no number.
pub open spec fn double_nan(bits: u64) -> bool {
    double_exponent(bits) == 0x7ff && double_fraction(bits) != 0
}

/// The digits `m` of a finite double, whose magnitude is `m * 2^e`.
pub open spec fn double_digits(bits: u64) -> nat {
    if double_exponent(bits) == 0 {
        double_fraction(bits)
    } else {
        0x10_0000_0000_0000 + double_fraction(bits)
    }
}

/// The scale `e` of a finite double, whose magnitude is `m * 2^e`.
pub open spec fn double_scale(bits: u64) -> int {
    if double_exponent(bits) == 0 {
        -1074
    } else {
        double_exponent(bits) - 1075
    }
}

/// Whether the double is finite and not below zero: its sign bit is clear
/// and it is not infinite, or it is `-0.0`.
pub open spec fn double_finite_non_negative(bits: u64) -> bool {
    bits < DOUBLE_INFINITY || bits == DOUBLE_SIGN
}

/// The whole part of the magnitude of a double: the magnitude without what
/// follows the binary point.  Zero for a double that is not finite.
pub open spec fn double_whole_magnitude(bits: u64) -> nat {
    if !double_finite(bits) {
        0
    } else if double_scale(bits) >= 0 {
        double_digits(bits) * pow2(double_scale(bits) as nat)
    } else {
        double_digits(bits) / pow2((-double_scale(bits)) as nat)
    }
}

/// The whole part of a double: the double truncated toward zero.  Zero for
/// a double that is not finite.
pub open spec fn double_whole(bits: u64) -> int {
    if double_negative(bits) {
        -(double_whole_magnitude(bits) as int)
    } else {
        double_whole_magnitude(bits) as int
    }
}

/// Whether the sign bit of the single is set.
pub open spec fn single_negative(bits: u32) -> bool {
    bits >= SINGLE_SIGN
}

/// The exponent field of the single.
pub open spec fn single_exponent(bits: u32) -> nat {
    ((bits as nat) / 0x80_0000) % 0x100
}

/// The fraction field of the single.
pub open spec fn single_fraction(bits: u32) -> nat {
    (bits as nat) % 0x80_0000
}

/// The digits `m` of a finite single, whose magnitude is `m * 2^e`.
pub open spec fn single_digits(bits: u32) -> nat {
    if single_exponent(bits) == 0 {
        single_fraction(bits)
    } else {
        0x80_0000 + single_fraction(bits)
    }
}

/// The scale `e` of a finite single, whose magnitude is `m * 2^e`.
pub open spec fn single_scale(bits: u32) -> int {
    if single_exponent(bits) == 0 {
        -149
    } else {
        single_exponent(bits) - 150
    }
}

/// The bits of the double nearest to a whole number that is not negative.
pub open spec fn double_of_unsigned(u: nat) -> nat {
    nearest_bits(u, 0, 53, 11)
}

/// The bits of the double nearest to a whole number.
pub open spec fn double_of_integer(v: int) -> nat {
    if v < 0 {
        DOUBLE_SIGN as nat + nearest_bits((-v) as nat, 0, 53, 11)
    } else {
        nearest_bits(v as nat, 0, 53, 11)
    }
}

/// The bits of the single nearest to a whole number.
pub open spec fn single_of_integer(v: int) -> nat {
    if v < 0 {
        SINGLE_SIGN as nat + nearest_bits((-v) as nat, 0, 24, 8)
    } else {
        nearest_bits(v as nat, 0, 24, 8)
    }
}

/// The bits of the single nearest to a double.  No number stays no number,
/// and an infinite one stays infinite; the sign is kept.
pub open spec fn single_of_double(bits: u64) -> nat {
    let sign: nat = if double_negative(bits) {
        SINGLE_SIGN as nat
    } else {
        0
    };
    if double_nan(bits) {
        sign + SINGLE_NAN as nat
    } else if !double_finite(bits) {
        sign + SINGLE_INFINITY as nat
    } else {
        sign + nearest_bits(double_digits(bits), double_scale(bits), 24, 8)
    }
}

/// The bits of the double that a single is.  No number stays no number,
/// and an infinite one stays infinite; the sign is kept.
pub open spec fn double_of_single(bits: u32) -> nat {
    let sign: nat = if single_negative(bits) {
        DOUBLE_SIGN as nat
    } else {
        0
    };
    if single_exponent(bits) == 0xff && single_fraction(bits) != 0 {
        sign + DOUBLE_NAN as nat
    } else if single_exponent(bits) == 0xff {
        sign + DOUBLE_INFINITY as nat
    } else {
        sign + nearest_bits(single_digits(bits), single_scale(bits), 53, 11)
    }
}

/// Whether the double is finite and not below zero.
pub fn finite_non_negative(bits: u64) -> (b: bool)
    ensures
        b == double_finite_non_negative(bits),
{
    bits < DOUBLE_INFINITY || bits == DOUBLE_SIGN
}

/// The whole part of the magnitude of a double, where a `u64` holds it.
pub fn double_to_magnitude(bits: u64) -> (r: Option<u64>)
    ensures
        r == (if double_whole_magnitude(bits) <= u64::MAX {
            Some(double_whole_magnitude(bits) as u64)
        } else {
            None
        }),
{
    proof {
        lemma_pow2_values();
    }
    let e: u64 = (bits / 0x10_0000_0000_0000) % 0x800;
    let f: u64 = bits % 0x10_0000_0000_0000;
    if e == 0x7ff {
        return Some(0);
    }
    if e == 0 {
        proof {
            lemma_pow2_monotone(53, 1074);
            vstd::arithmetic::div_mod::lemma_basic_div(f as int, pow2(1074) as int);
        }
        return Some(0);
    }
    let m: u64 = 0x10_0000_0000_0000 + f;
    if e >= 1075 {
        let s: u64 = e - 1075;
        if s >= 12 {
            proof {
                assert(pow2(12) == 0x1000) by {
                    reveal_with_fuel(pow2, 13);
                }
                lemma_pow2_monotone(12, s as nat);
                assert(m * pow2(s as nat) >= 0x10_0000_0000_0000 * 0x1000) by (nonlinear_arith)
                    requires
                        m >= 0x10_0000_0000_0000,
                        pow2(s as nat) >= 0x1000,
                ;
            }
            None
        } else {
            let p = power_of_two(s as u32);
            proof {
                lemma_pow2_monotone(s as nat, 11);
                assert(m * p <= 0x1f_ffff_ffff_ffff * 0x800) by (nonlinear_arith)
                    requires
                        0 <= m <= 0x1f_ffff_ffff_ffff,
                        0 <= p <= 0x800,
                ;
            }
            Some((m as u128 * p) as u64)
        }
    } else {
        let s: u64 = 1075 - e;
        if s >= 64 {
            proof {
                lemma_pow2_monotone(64, s as nat);
                vstd::arithmetic::div_mod::lemma_basic_div(m as int, pow2(s as nat) as int);
            }
            Some(0)
        } else {
            let p = power_of_two(s as u32);
            proof {
                lemma_pow2_monotone(0, s as nat);
                vstd::arithmetic::div_mod::lemma_div_pos_is_pos(m as int, p as int);
                vstd::arithmetic::div_mod::lemma_div_is_ordered_by_denominator(
                    m as int,
                    1,
                    p as int,
                );
            }
            Some((m as u128 / p) as u64)
        }
    }
}

/// The low 64 bits of the whole part of the magnitude of a double.
fn double_to_low_magnitude(bits: u64) -> (r: u64)
    ensures
        r == double_whole_magnitude(bits) % pow2(64),
{
    proof {
        lemma_pow2_values();
    }
    match double_to_magnitude(bits) {
        Some(m) => {
            proof {
                vstd::arithmetic::div_mod::lemma_small_mod(m as nat, pow2(64));
            }
            m
        },
        None => {
            let e: u64 = (bits / 0x10_0000_0000_0000) % 0x800;
            let f: u64 = bits % 0x10_0000_0000_0000;
            let m: u64 = 0x10_0000_0000_0000 + f;
            assert(e != 0x7ff && e >= 1075) by {
                if e < 1075 && e != 0 {
                    lemma_pow2_monotone(0, (1075 - e) as nat);
                    vstd::arithmetic::div_mod::lemma_div_is_ordered_by_denominator(
                        m as int,
                        1,
                        pow2((1075 - e) as nat) as int,
                    );
                    vstd::arithmetic::div_mod::lemma_div_pos_is_pos(
                        m as int,
                        pow2((1075 - e) as nat) as int,
                    );
                }
                if e == 0 {
                    lemma_pow2_monotone(53, 1074);
                    vstd::arithmetic::div_mod::lemma_basic_div(f as int, pow2(1074) as int);
                }
            }
            let s: u64 = e - 1075;
            if s >= 64 {
                proof {
                    lemma_pow2_split(64, (s - 64) as nat);
                    let k = pow2((s - 64) as nat);
                    assert(m * (pow2(64) * k) == (m * k) * pow2(64)) by (nonlinear_arith);
                    vstd::arithmetic::div_mod::lemma_mod_multiples_basic(
                        (m * k) as int,
                        pow2(64) as int,
                    );
                }
                0
            } else {
                let p = power_of_two(s as u32);
                proof {
                    lemma_pow2_monotone(s as nat, 63);
                    assert(m * p <= 0x20_0000_0000_0000 * 0x8000_0000_0000_0000)
                        by (nonlinear_arith)
                        requires
                            0 <= m <= 0x20_0000_0000_0000,
                            0 <= p <= 0x8000_0000_0000_0000,
                    ;
                }
                ((m as u128 * p) % 0x1_0000_0000_0000_0000) as u64
            }
        },
    }
}

/// The whole part of a double, as a signed 64-bit number: truncated toward
/// zero, and wrapped where 64 bits do not hold it.
pub fn double_to_integer(bits: u64) -> (v: i64)
    ensures
        v == narrow(double_whole(bits), 8, true),
{
    let low = double_to_low_magnitude(bits);
    proof {
        lemma_pow2_values();
        crate::codec::lemma_pow256_values();
    }
    let ghost mag = double_whole_magnitude(bits) as int;
    let ghost modulus = pow2(64) as int;
    if bits >= DOUBLE_SIGN {
        let back: u64 = if low == 0 {
            0
        } else {
            (0xffff_ffff_ffff_ffff - low) + 1
        };
        proof {
            vstd::arithmetic::div_mod::lemma_fundamental_div_mod(mag, modulus);
            let k = mag / modulus;
            if low == 0 {
                assert(-mag == modulus * (-k) + 0) by (nonlinear_arith)
                    requires
                        mag == modulus * k + 0,
                ;
                vstd::arithmetic::div_mod::lemma_fundamental_div_mod_converse(
                    -mag,
                    modulus,
                    -k,
                    0,
                );
            } else {
                assert(-mag == modulus * (-k - 1) + (modulus - low)) by (nonlinear_arith)
                    requires
                        mag == modulus * k + low,
                ;
                vstd::arithmetic::div_mod::lemma_fundamental_div_mod_converse(
                    -mag,
                    modulus,
                    -k - 1,
                    modulus - low,
                );
            }
            vstd::arithmetic::div_mod::lemma_small_mod(back as nat, modulus as nat);
        }
        crate::codec::to_signed(back)
    } else {
        proof {
            vstd::arithmetic::div_mod::lemma_small_mod(low as nat, modulus as nat);
            vstd::arithmetic::div_mod::lemma_mod_twice(mag, modulus);
        }
        crate::codec::to_signed(low)
    }
}

/// The bits of the double nearest to a whole number that is not negative.
pub fn unsigned_to_double(u: u64) -> (bits: u64)
    ensures
        bits == double_of_unsigned(u as nat),
        bits <= DOUBLE_INFINITY,
{
    proof {
        lemma_pow2_values();
    }
    nearest(u, 0, 53, 11)
}

/// The magnitude of a signed number.
fn magnitude(v: i64) -> (m: u64)
    ensures
        v >= 0 ==> m == v,
        v < 0 ==> m == -v,
{
    if v >= 0 {
        v as u64
    } else if v == i64::MIN {
        0x8000_0000_0000_0000
    } else {
        (-v) as u64
    }
}

/// The bits of the double nearest to a whole number.
pub fn integer_to_double(v: i64) -> (bits: u64)
    ensures
        bits == double_of_integer(v as int),
{
    proof {
        lemma_pow2_values();
    }
    let m = nearest(magnitude(v), 0, 53, 11);
    if v < 0 {
        DOUBLE_SIGN + m
    } else {
        m
    }
}

/// The bits of the single nearest to a whole number.
pub fn integer_to_single(v: i64) -> (bits: u32)
    ensures
        bits == single_of_integer(v as int),
{
    proof {
        lemma_pow2_values();
    }
    let m = nearest(magnitude(v), 0, 24, 8) as u32;
    if v < 0 {
        SINGLE_SIGN + m
    } else {
        m
    }
}

/// The bits of the single nearest to a double.
pub fn double_to_single(bits: u64) -> (single: u32)
    ensures
        single == single_of_double(bits),
{
    proof {
        lemma_pow2_values();
    }
    let sign: u32 = if bits >= DOUBLE_SIGN {
        SINGLE_SIGN
    } else {
        0
    };
    let e: u64 = (bits / 0x10_0000_0000_0000) % 0x800;
    let f: u64 = bits % 0x10_0000_0000_0000;
    if e == 0x7ff {
        if f != 0 {
            sign + SINGLE_NAN
        } else {
            sign + SINGLE_INFINITY
        }
    } else if e == 0 {
        sign + nearest(f, -1074, 24, 8) as u32
    } else {
        sign + nearest(0x10_0000_0000_0000 + f, e as i32 - 1075, 24, 8) as u32
    }
}

/// The bits of the double that a single is.
pub fn single_to_double(bits: u32) -> (double: u64)
    ensures
        double == double_of_single(bits),
{
    proof {
        lemma_pow2_values();
    }
    let sign: u64 = if bits >= SINGLE_SIGN {
        DOUBLE_SIGN
    } else {
        0
    };
    let e: u32 = (bits / 0x80_0000) % 0x100;
    let f: u32 = bits % 0x80_0000;
    if e == 0xff {
        if f != 0 {
            sign + DOUBLE_NAN
        } else {
            sign + DOUBLE_INFINITY
        }
    } else if e == 0 {
        sign + nearest(f as u64, -149, 53, 11)
    } else {
        sign + nearest((0x80_0000 + f) as u64, e as i32 - 150, 53, 11)
    }
}


/// The nearest bits never exceed those of infinity.
pub proof fn lemma_nearest_bits_bound(m: nat, e: int, p: nat, w: nat)
    requires
        (p == 24 && w == 8) || (p == 53 && w == 11),
        m <= u64::MAX,
        -2000 <= e <= 2000,
    ensures
        nearest_bits(m, e, p, w) <= (pow2(w) - 1) * pow2((p - 1) as nat),
{
    // Case by case as the bits are defined: infinity itself, a normal
    // number, whose digits are at most `2^p`, or a subnormal one, whose
    // digits are at most `2^(p - 1)`.
    lemma_pow2_values();
    if m == 0 {
        return ;
    }
    let bias = pow2((w - 1) as nat) - 1;
    let top = pow2(w) - 1;
    let unit = pow2((p - 1) as nat);
    let len = bit_length(m);
    lemma_bit_length(m);
    lemma_bit_length_bound(m, 64);
    let biased = len - 1 + e + bias;
    if biased >= top {
    } else if biased >= 1 {
        let s = p - len;
        let r = scaled(m, s);
        if s >= 0 {
            lemma_pow2_split(len, s as nat);
            assert(m * pow2(s as nat) <= pow2(len) * pow2(s as nat)) by (nonlinear_arith)
                requires
                    m <= pow2(len),
            ;
        } else {
            lemma_scaled_bound(m, s);
            lemma_pow2_split(p, (-s) as nat);
            lemma_pow2_monotone(0, (-s) as nat);
            let d = pow2((-s) as nat);
            assert(r - 1 < pow2(p)) by (nonlinear_arith)
                requires
                    (r - 1) * d <= m,
                    m < pow2(p) * d,
                    d > 0,
            ;
        }
        lemma_pow2_split(1, (p - 1) as nat);
        assert((biased - 1) * unit <= (top - 2) * unit) by (nonlinear_arith)
            requires
                biased <= top - 1,
                unit >= 0,
        ;
        assert((top - 2) * unit + 2 * unit == top * unit) by (nonlinear_arith);
    } else {
        let s = e + bias + p - 2;
        let r = scaled(m, s);
        if s >= 0 {
            lemma_pow2_split(len, s as nat);
            lemma_pow2_monotone((len + s) as nat, (p - 1) as nat);
            assert(m * pow2(s as nat) <= pow2(len) * pow2(s as nat)) by (nonlinear_arith)
                requires
                    m <= pow2(len),
            ;
        } else {
            lemma_scaled_bound(m, s);
            let d = pow2((-s) as nat);
            lemma_pow2_monotone(0, (-s) as nat);
            if len + s >= 0 {
                lemma_pow2_split((len + s) as nat, (-s) as nat);
                lemma_pow2_monotone((len + s) as nat, (p - 1) as nat);
                assert(r - 1 < pow2((len + s) as nat)) by (nonlinear_arith)
                    requires
                        (r - 1) * d <= m,
                        m < pow2((len + s) as nat) * d,
                        d > 0,
                ;
            } else {
                lemma_pow2_monotone(len, (-s) as nat);
                assert(r - 1 < 1) by (nonlinear_arith)
                    requires
                        (r - 1) * d <= m,
                        m < d,
                        d > 0,
                ;
                lemma_pow2_monotone(0, (p - 1) as nat);
            }
        }
        assert(unit <= top * unit) by (nonlinear_arith)
            requires
                top >= 1,
                unit >= 0,
        ;
    }
}

/// A number scaled down is at most one more than its quotient.
pub proof fn lemma_scaled_bound(m: nat, s: int)
    requires
        s < 0,
    ensures
        (scaled(m, s) - 1) * pow2((-s) as nat) <= m,
{
    let d = pow2((-s) as nat);
    lemma_pow2_monotone(0, (-s) as nat);
    vstd::arithmetic::div_mod::lemma_fundamental_div_mod(m as int, d as int);
    vstd::arithmetic::div_mod::lemma_mod_bound(m as int, d as int);
    vstd::arithmetic::div_mod::lemma_div_pos_is_pos(m as int, d as int);
    let q = m / d;
    let r = m % d;
    assert((q - 1) * d <= m && q * d <= m) by (nonlinear_arith)
        requires
            m == d * q + r,
            r >= 0,
            d >= 1,
            q >= 0,
    ;
}

/// The bits of the single nearest to a whole number of 64 bits are 32 bits.
pub proof fn lemma_single_bits(v: int)
    requires
        -0x8000_0000_0000_0000 <= v <= 0x7fff_ffff_ffff_ffff,
    ensures
        single_of_integer(v) <= u32::MAX,
{
    lemma_pow2_values();
    if v < 0 {
        lemma_nearest_bits_bound((-v) as nat, 0, 24, 8);
    } else {
        lemma_nearest_bits_bound(v as nat, 0, 24, 8);
    }
}

/// The bits of the double nearest to a whole number of 64 bits are 64 bits.
pub proof fn lemma_double_bits(v: int)
    requires
        -0x8000_0000_0000_0000 <= v <= 0x7fff_ffff_ffff_ffff,
    ensures
        double_of_integer(v) <= u64::MAX,
{
    lemma_pow2_values();
    if v < 0 {
        lemma_nearest_bits_bound((-v) as nat, 0, 53, 11);
    } else {
        lemma_nearest_bits_bound(v as nat, 0, 53, 11);
    }
}

/// The bits of the single nearest to a double are 32 bits.
pub proof fn lemma_single_of_double_bits(bits: u64)
    ensures
        single_of_double(bits) <= u32::MAX,
{
    lemma_pow2_values();
    if double_finite(bits) {
        lemma_nearest_bits_bound(double_digits(bits), double_scale(bits), 24, 8);
    }
}

/// The bits of the double that a single is are 64 bits.
pub proof fn lemma_double_of_single_bits(bits: u32)
    ensures
        double_of_single(bits) <= u64::MAX,
{
    lemma_pow2_values();
    if single_exponent(bits) != 0xff {
        lemma_nearest_bits_bound(single_digits(bits), single_scale(bits), 53, 11);
    }
}


/// A number that is at least `2^(k - 1)` and below `2^k` has `k` binary
/// digits.
pub proof fn lemma_bit_length_is(m: nat, k: nat)
    requires
        k >= 1,
        pow2((k - 1) as nat) <= m < pow2(k),
    ensures
        bit_length(m) == k,
{
    lemma_bit_length(m);
    lemma_pow2_monotone(0, (k - 1) as nat);
    let len = bit_length(m);
    if len < k {
        lemma_pow2_monotone(len, (k - 1) as nat);
    } else if len > k {
        lemma_pow2_monotone(k, (len - 1) as nat);
    }
}

/// A multiple of `2^k` is scaled down by `2^k` without rounding.
pub proof fn lemma_scaled_exact(m: nat, k: nat)
    requires
        k >= 1,
    ensures
        scaled(m * pow2(k), -(k as int)) == m,
{
    let d = pow2(k);
    lemma_pow2_monotone(0, k);
    assert(m * d == d * m) by (nonlinear_arith);
    vstd::arithmetic::div_mod::lemma_fundamental_div_mod_converse(
        (m * d) as int,
        d as int,
        m as int,
        0,
    );
}

/// A double is its sign, its exponent field and its fraction field, one
/// above the other.
pub proof fn lemma_double_fields(bits: u64, sign: nat, exponent: nat, fraction: nat)
    requires
        sign <= 1,
        exponent < 0x800,
        fraction < 0x10_0000_0000_0000,
        bits == sign * 0x8000_0000_0000_0000 + exponent * 0x10_0000_0000_0000 + fraction,
    ensures
        double_negative(bits) == (sign == 1),
        double_exponent(bits) == exponent,
        double_fraction(bits) == fraction,
{
    let unit = 0x10_0000_0000_0000int;
    assert(bits == unit * (sign * 0x800 + exponent) + fraction) by (nonlinear_arith)
        requires
            bits == sign * 0x8000_0000_0000_0000 + exponent * 0x10_0000_0000_0000 + fraction,
            unit == 0x10_0000_0000_0000,
    ;
    vstd::arithmetic::div_mod::lemma_fundamental_div_mod_converse(
        bits as int,
        unit,
        (sign * 0x800 + exponent) as int,
        fraction as int,
    );
    vstd::arithmetic::div_mod::lemma_fundamental_div_mod_converse(
        (sign * 0x800 + exponent) as int,
        0x800,
        sign as int,
        exponent as int,
    );
}

/// A single is its sign, its exponent field and its fraction field, one
/// above the other.
pub proof fn lemma_single_fields(bits: u32)
    ensures
        bits == (if single_negative(bits) {
            SINGLE_SIGN as nat
        } else {
            0
        }) + single_exponent(bits) * 0x80_0000 + single_fraction(bits),
        single_exponent(bits) < 0x100,
        single_fraction(bits) < 0x80_0000,
{
    let unit = 0x80_0000int;
    let upper = bits as int / unit;
    vstd::arithmetic::div_mod::lemma_fundamental_div_mod(bits as int, unit);
    vstd::arithmetic::div_mod::lemma_fundamental_div_mod(upper, 0x100);
    vstd::arithmetic::div_mod::lemma_mod_bound(bits as int, unit);
    vstd::arithmetic::div_mod::lemma_mod_bound(upper, 0x100);
    let sign = upper / 0x100;
    assert(bits == sign * 0x8000_0000 + (upper % 0x100) * unit + bits as int % unit)
        by (nonlinear_arith)
        requires
            bits == unit * upper + bits as int % unit,
            upper == 0x100 * sign + upper % 0x100,
            unit == 0x80_0000,
    ;
    assert(0 <= sign <= 1) by (nonlinear_arith)
        requires
            bits == sign * 0x8000_0000 + (upper % 0x100) * unit + bits as int % unit,
            0 <= upper % 0x100,
            0 <= bits as int % unit,
            unit == 0x80_0000,
            0 <= bits < 0x1_0000_0000,
            upper % 0x100 < 0x100,
            bits as int % unit < unit,
    ;
    if sign == 1 {
        assert(bits >= SINGLE_SIGN) by (nonlinear_arith)
            requires
                bits == sign * 0x8000_0000 + (upper % 0x100) * unit + bits as int % unit,
                sign == 1,
                0 <= upper % 0x100,
                0 <= bits as int % unit,
                unit == 0x80_0000,
        ;
    } else {
        assert(bits < SINGLE_SIGN) by (nonlinear_arith)
            requires
                bits == sign * 0x8000_0000 + (upper % 0x100) * unit + bits as int % unit,
                sign == 0,
                upper % 0x100 <= 0xff,
                bits as int % unit < unit,
                unit == 0x80_0000,
        ;
    }
}

/// A single that is widened to a double and narrowed again is the single
/// that it was; one that is no number comes back as no number, with its
/// sign.
pub proof fn lemma_single_round_trip(bits: u32)
    ensures
        double_of_single(bits) <= u64::MAX,
        single_of_double(double_of_single(bits) as u64) == (if single_exponent(bits) == 0xff
            && single_fraction(bits) != 0 {
            (if single_negative(bits) {
                SINGLE_SIGN as nat
            } else {
                0
            }) + SINGLE_NAN as nat
        } else {
            bits as nat
        }),
{
    lemma_pow2_values();
    lemma_single_fields(bits);
    lemma_double_of_single_bits(bits);
    let sign: nat = if single_negative(bits) {
        1
    } else {
        0
    };
    let e = single_exponent(bits);
    let f = single_fraction(bits);
    let double = double_of_single(bits) as u64;
    if e == 0xff {
        if f != 0 {
            lemma_double_fields(double, sign, 0x7ff, 0x8_0000_0000_0000);
        } else {
            lemma_double_fields(double, sign, 0x7ff, 0);
        }
    } else if e == 0 && f == 0 {
        lemma_double_fields(double, sign, 0, 0);
    } else if e == 0 {
        // A subnormal single is a normal double.
        let len = bit_length(f);
        lemma_bit_length(f);
        lemma_bit_length_bound(f, 23);
        let up = (53 - len) as nat;
        let digits = f * pow2(up);
        lemma_pow2_split(len, up);
        lemma_pow2_split((len - 1) as nat, up);
        lemma_pow2_monotone(0, up);
        assert(pow2(52) <= digits < pow2(53)) by (nonlinear_arith)
            requires
                pow2((len - 1) as nat) <= f < pow2(len),
                pow2(52) == pow2((len - 1) as nat) * pow2(up),
                pow2(53) == pow2(len) * pow2(up),
                digits == f * pow2(up),
                pow2(up) > 0,
        ;
        assert(scaled(f, 53 - len) == digits);
        assert(nearest_bits(f, -149, 53, 11) == (len + 872) * 0x10_0000_0000_0000 + digits);
        let g = (digits - pow2(52)) as nat;
        assert(double == sign * 0x8000_0000_0000_0000 + (len + 873) * 0x10_0000_0000_0000 + g)
            by (nonlinear_arith)
            requires
                double == sign * 0x8000_0000_0000_0000 + (len + 872) * 0x10_0000_0000_0000
                    + digits,
                g == digits - 0x10_0000_0000_0000,
        ;
        lemma_double_fields(double, sign, len + 873, g);
        lemma_bit_length_is(digits, 53);
        lemma_scaled_exact(f, up);
    } else {
        // A normal single is a normal double.
        let m = 0x80_0000 + f;
        lemma_bit_length_is(m, 24);
        let digits = m * pow2(29);
        lemma_pow2_split(23, 29);
        lemma_pow2_split(24, 29);
        assert(pow2(29) == 0x2000_0000) by {
            lemma_pow2_split(24, 5);
            assert(pow2(5) == 32) by {
                reveal_with_fuel(pow2, 6);
            }
        }
        let g = f * pow2(29);
        assert(digits == 0x10_0000_0000_0000 + g) by (nonlinear_arith)
            requires
                digits == (0x80_0000 + f) * pow2(29),
                g == f * pow2(29),
                pow2(29) == 0x2000_0000,
        ;
        assert(g < 0x10_0000_0000_0000) by (nonlinear_arith)
            requires
                g == f * pow2(29),
                f < 0x80_0000,
                pow2(29) == 0x2000_0000,
        ;
        assert(scaled(m, 53 - 24) == digits);
        assert(nearest_bits(m, e - 150, 53, 11) == (e + 895) * 0x10_0000_0000_0000 + digits);
        assert(double == sign * 0x8000_0000_0000_0000 + (e + 896) * 0x10_0000_0000_0000 + g)
            by (nonlinear_arith)
            requires
                double == sign * 0x8000_0000_0000_0000 + (e + 895) * 0x10_0000_0000_0000
                    + digits,
                digits == 0x10_0000_0000_0000 + g,
        ;
        lemma_double_fields(double, sign, e + 896, g);
        lemma_bit_length_is(digits, 53);
        lemma_scaled_exact(m, 29);
    }
}


/// A whole number of at most 53 binary digits is a double exactly: the
/// whole part of the double nearest to it is the number itself.
pub proof fn lemma_integer_round_trip(v: int)
    requires
        -0x20_0000_0000_0000 < v < 0x20_0000_0000_0000,
    ensures
        double_of_integer(v) <= u64::MAX,
        double_whole(double_of_integer(v) as u64) == v,
{
    lemma_pow2_values();
    lemma_double_bits(v);
    let sign: nat = if v < 0 {
        1
    } else {
        0
    };
    let m: nat = if v < 0 {
        (-v) as nat
    } else {
        v as nat
    };
    let double = double_of_integer(v) as u64;
    if m == 0 {
        lemma_double_fields(double, sign, 0, 0);
        lemma_pow2_monotone(0, 1074);
        vstd::arithmetic::div_mod::lemma_basic_div(0, pow2(1074) as int);
    } else {
        let len = bit_length(m);
        lemma_bit_length(m);
        lemma_bit_length_bound(m, 53);
        let up = (53 - len) as nat;
        let digits = m * pow2(up);
        lemma_pow2_split(len, up);
        lemma_pow2_split((len - 1) as nat, up);
        lemma_pow2_monotone(0, up);
        assert(pow2(52) <= digits < pow2(53)) by (nonlinear_arith)
            requires
                pow2((len - 1) as nat) <= m < pow2(len),
                pow2(52) == pow2((len - 1) as nat) * pow2(up),
                pow2(53) == pow2(len) * pow2(up),
                digits == m * pow2(up),
                pow2(up) > 0,
        ;
        assert(scaled(m, 53 - len) == digits);
        assert(nearest_bits(m, 0, 53, 11) == (len + 1021) * 0x10_0000_0000_0000 + digits);
        let g = (digits - pow2(52)) as nat;
        assert(double == sign * 0x8000_0000_0000_0000 + (len + 1022) * 0x10_0000_0000_0000
            + g) by (nonlinear_arith)
            requires
                double == sign * 0x8000_0000_0000_0000 + (len + 1021) * 0x10_0000_0000_0000
                    + digits,
                g == digits - 0x10_0000_0000_0000,
        ;
        lemma_double_fields(double, sign, len + 1022, g);
        if up == 0 {
            assert(digits == m) by (nonlinear_arith)
                requires
                    digits == m * pow2(up),
                    pow2(up) == 1,
            ;
            assert(digits * pow2(0) == digits) by (nonlinear_arith)
                requires
                    pow2(0) == 1,
            ;
        } else {
            assert(m * pow2(up) == pow2(up) * m) by (nonlinear_arith);
            vstd::arithmetic::div_mod::lemma_fundamental_div_mod_converse(
                digits as int,
                pow2(up) as int,
                m as int,
                0,
            );
        }
    }
}


/// Rounding gives the whole number nearest to the quotient: it is at most
/// half a unit away, and where it is just half a unit away it is even.
pub proof fn lemma_round_half_even(n: nat, d: nat)
    requires
        d > 0,
    ensures
        ({
            let r = round_half_even(n, d);
            &&& -(d as int) <= 2 * (r * d - n) <= d
            &&& (2 * (r * d - n) == d || 2 * (r * d - n) == -(d as int)) ==> r % 2 == 0
        }),
{
    let q = n / d;
    let rest = n % d;
    vstd::arithmetic::div_mod::lemma_fundamental_div_mod(n as int, d as int);
    vstd::arithmetic::div_mod::lemma_mod_bound(n as int, d as int);
    let r = round_half_even(n, d);
    assert(q * d - n == -(rest as int)) by (nonlinear_arith)
        requires
            n == d * q + rest,
    ;
    assert((q + 1) * d - n == d - rest) by (nonlinear_arith)
        requires
            n == d * q + rest,
    ;
    if r == q + 1 && 2 * rest == d {
        assert(q % 2 == 1);
        assert((q + 1) % 2 == 0) by {
            vstd::arithmetic::div_mod::lemma_fundamental_div_mod(q as int, 2);
            vstd::arithmetic::div_mod::lemma_fundamental_div_mod_converse(
                q as int + 1,
                2,
                q as int / 2 + 1,
                0,
            );
        }
    }
}

/// The whole part of a finite double is the magnitude without what follows
/// the binary point: it is not above the magnitude, and less than one
/// below it.
pub proof fn lemma_double_whole_magnitude(bits: u64)
    requires
        double_finite(bits),
    ensures
        double_scale(bits) >= 0 ==> double_whole_magnitude(bits) == double_digits(bits) * pow2(
            double_scale(bits) as nat,
        ),
        double_scale(bits) < 0 ==> double_whole_magnitude(bits) * pow2(
            (-double_scale(bits)) as nat,
        ) <= double_digits(bits) < (double_whole_magnitude(bits) + 1) * pow2(
            (-double_scale(bits)) as nat,
        ),
{
    if double_scale(bits) < 0 {
        let d = pow2((-double_scale(bits)) as nat);
        let m = double_digits(bits);
        lemma_pow2_monotone(0, (-double_scale(bits)) as nat);
        vstd::arithmetic::div_mod::lemma_fundamental_div_mod(m as int, d as int);
        vstd::arithmetic::div_mod::lemma_mod_bound(m as int, d as int);
        let q = m / d;
        let r = m % d;
        assert(q * d <= m < (q + 1) * d) by (nonlinear_arith)
            requires
                m == d * q + r,
                0 <= r < d,
        ;
    }
}

} // verus!
