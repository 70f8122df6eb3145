//! Samples as IEEE 754 bit patterns, and their scaling to integers.
//!
//! A sample travels through the library as the bit pattern of a double, and
//! scaling it takes integer arithmetic only: a finite double is a whole number
//! over a power of two, and so is its product with an integer.

use vstd::arithmetic::power2::{
    lemma2_to64, lemma2_to64_rest, lemma_pow2_adds, lemma_pow2_pos, lemma_pow2_strictly_increases,
    lemma_pow2_unfold, pow2,
};
use vstd::prelude::*;

use crate::double::{
    as_double, excess_bits, lemma_as_double_bound, lemma_as_double_error,
    lemma_as_double_is_monotone, lemma_as_double_scaled, lemma_excess_of_shifted,
    lemma_nearest_bound, lemma_nearest_is_monotone, lemma_nearest_scaled, lemma_small_is_exact,
    lemma_step_bound, nearest, power_of_two, round_to_double,
};

verus! {

/// One sample to be written, in both widths the wav format takes it in.
#[derive(Debug, Clone, Copy, PartialEq, Eq, Structural)]
pub struct Sample {
    /// The bit pattern of the sample as a double, which the integer formats are
    /// scaled from.
    pub wide: u64,
    /// The bit pattern of the sample as a single, which the float format stores.
    pub narrow: u32,
}

/// Whether the sign bit is set.
pub open spec fn is_negative(bits: u64) -> bool {
    bits >= 0x8000_0000_0000_0000
}

/// The biased exponent field.
pub open spec fn exponent(bits: u64) -> int {
    ((bits / 0x10_0000_0000_0000) % 0x800) as int
}

/// The fraction field.
pub open spec fn fraction(bits: u64) -> int {
    (bits % 0x10_0000_0000_0000) as int
}

/// Whether the pattern is not a number.
pub open spec fn is_nan(bits: u64) -> bool {
    exponent(bits) == 0x7ff && fraction(bits) != 0
}

/// Whether the magnitude is one or more, infinity included.
pub open spec fn is_full_scale(bits: u64) -> bool {
    exponent(bits) >= 0x3ff
}

/// Whether the number lies in `[-1, 1]`.
pub open spec fn is_within_scale(bits: u64) -> bool {
    !is_full_scale(bits) || (exponent(bits) == 0x3ff && fraction(bits) == 0)
}

/// The magnitude of a finite number is `significand / 2^scale`.
pub open spec fn significand(bits: u64) -> int {
    if exponent(bits) == 0 {
        fraction(bits)
    } else {
        fraction(bits) + 0x10_0000_0000_0000
    }
}

/// See [`significand`]. Negative for numbers of `2^53` and more.
pub open spec fn scale(bits: u64) -> int {
    if exponent(bits) == 0 {
        1074
    } else {
        1075 - exponent(bits)
    }
}

/// What a sample becomes on an integer scale that ends at `max`: the sample
/// clamped to `[-1, 1]` times `max` in double precision, rounded to the nearest
/// integer with ties going away from zero and clamped to the scale, and silence
/// for what is not a number.
#[verifier::opaque]
pub open spec fn quantized(bits: u64, max: int) -> int {
    let magnitude = if is_nan(bits) {
        0
    } else if is_full_scale(bits) {
        max
    } else {
        let product = as_double((significand(bits) * max) as nat);
        let rounded = nearest(product, pow2(scale(bits) as nat) as int);
        if rounded > max {
            max
        } else {
            rounded
        }
    };
    if is_negative(bits) {
        -magnitude
    } else {
        magnitude
    }
}

proof fn lemma_product_bound(m: int, max: int)
    requires
        0 <= m < 0x20_0000_0000_0000,
        0 < max <= 0x7fff_ffff,
    ensures
        0 <= m * max < 0x20_0000_0000_0000 * 0x8000_0000,
{
    assert(0 <= m * max < 0x20_0000_0000_0000 * 0x8000_0000) by (nonlinear_arith)
        requires
            0 <= m < 0x20_0000_0000_0000,
            0 < max <= 0x7fff_ffff,
    ;
}

/// Every sample lands on the scale it was quantized to, so full scale input
/// neither wraps nor drops out.
pub proof fn lemma_quantized_in_range(bits: u64, max: int)
    requires
        0 < max <= 0x7fff_ffff,
    ensures
        -max <= quantized(bits, max) <= max,
{
    reveal(quantized);
    if !is_nan(bits) && !is_full_scale(bits) {
        lemma_product_bound(significand(bits), max);
        let product = (significand(bits) * max) as nat;
        let d = pow2(scale(bits) as nat) as int;
        lemma_pow2_pos(scale(bits) as nat);
        lemma_as_double_bound(product);
        let v = as_double(product);
        assert(0 <= (2 * v + d) / (2 * d)) by (nonlinear_arith)
            requires
                0 <= v,
                0 < d,
        ;
    }
}

/// A product that a double has room for is scaled to the nearest integer there
/// is, without any rounding on the way.
pub proof fn lemma_exact_product_is_nearest(bits: u64, max: int)
    requires
        0 < max <= 0x7fff_ffff,
        !is_negative(bits),
        !is_full_scale(bits),
        (significand(bits) * max) % (pow2(
            excess_bits((significand(bits) * max) as nat),
        ) as int) == 0,
    ensures
        quantized(bits, max) == nearest(significand(bits) * max, pow2(scale(bits) as nat) as int),
{
    reveal(quantized);
    let m = significand(bits);
    lemma_product_bound(m, max);
    let p = m * max;
    let step = pow2(excess_bits(p as nat)) as int;
    lemma_pow2_pos(excess_bits(p as nat));
    vstd::arithmetic::div_mod::lemma_fundamental_div_mod(p, step);
    assert(as_double(p as nat) == p) by {
        assert(step * (p / step) == (p / step) * step) by (nonlinear_arith);
    }
    let d = pow2(scale(bits) as nat) as int;
    lemma2_to64();
    lemma2_to64_rest();
    if scale(bits) > 53 {
        lemma_pow2_strictly_increases(53, scale(bits) as nat);
    }
    assert((2 * (m * max) + d) / (2 * d) <= max) by (nonlinear_arith)
        requires
            0 <= m < d,
            0 < max,
    ;
}

/// A sample that came from a single has so few significant bits that every
/// scale of up to 29 bits takes its product exactly: what the 8-bit and 16-bit
/// formats store is the integer nearest to the scaled sample.
pub proof fn lemma_single_precision_is_scaled_exactly(bits: u64, max: int)
    requires
        0 < max < 0x2000_0000,
        !is_negative(bits),
        !is_full_scale(bits),
        exponent(bits) != 0,
        fraction(bits) % 0x2000_0000 == 0,
    ensures
        quantized(bits, max) == nearest(significand(bits) * max, pow2(scale(bits) as nat) as int),
{
    lemma2_to64();
    lemma2_to64_rest();
    let m = significand(bits);
    let a = m / 0x2000_0000;
    assert(m == a * 0x2000_0000 && 0 <= a < 0x100_0000);
    assert(0 <= a * max < 0x20_0000_0000_0000) by (nonlinear_arith)
        requires
            0 <= a < 0x100_0000,
            0 < max < 0x2000_0000,
    ;
    let am = (a * max) as nat;
    assert(m * max == am * pow2(29)) by (nonlinear_arith)
        requires
            m == a * 0x2000_0000,
            am == a * max,
            pow2(29) == 0x2000_0000,
    ;
    lemma_excess_of_shifted(am, 29);
    lemma_exact_product_is_nearest(bits, max);
}

/// Flipping the sign of a sample flips the sign of the integer it becomes, so
/// the scale is symmetric around silence.
pub proof fn lemma_quantized_is_odd(bits: u64, max: int)
    requires
        !is_negative(bits),
    ensures
        is_negative((bits + 0x8000_0000_0000_0000) as u64),
        quantized((bits + 0x8000_0000_0000_0000) as u64, max) == -quantized(bits, max),
{
    reveal(quantized);
    let flipped = (bits + 0x8000_0000_0000_0000) as u64;
    assert(exponent(flipped) == exponent(bits) && fraction(flipped) == fraction(bits)) by {
        assert(flipped / 0x10_0000_0000_0000 == bits / 0x10_0000_0000_0000 + 0x800);
    }
}

/// Full scale and everything beyond it is clamped to the ends of the scale.
pub proof fn lemma_full_scale_is_clamped(bits: u64, max: int)
    requires
        is_full_scale(bits),
        !is_nan(bits),
    ensures
        quantized(bits, max) == if is_negative(bits) {
            -max
        } else {
            max
        },
{
    reveal(quantized);
}

/// The numerator of a finite number over `2^scale`, with its sign.
pub open spec fn signed_significand(bits: u64) -> int {
    if is_negative(bits) {
        -significand(bits)
    } else {
        significand(bits)
    }
}

/// The value of a number in units of the smallest double, `2^-1074`. Infinity takes the
/// place after the largest finite number.
pub open spec fn value(bits: u64) -> int {
    signed_significand(bits) * pow2((1074 - scale(bits)) as nat)
}

proof fn lemma_scale_range(bits: u64)
    ensures
        0 <= significand(bits) < 0x20_0000_0000_0000,
        -972 <= scale(bits) <= 1074,
        is_full_scale(bits) ==> scale(bits) <= 52 && 0x10_0000_0000_0000 <= significand(bits),
        !is_full_scale(bits) ==> 53 <= scale(bits) && significand(bits) < pow2(
            scale(bits) as nat,
        ),
{
    if !is_full_scale(bits) {
        lemma2_to64();
        lemma2_to64_rest();
        if scale(bits) > 53 {
            lemma_pow2_strictly_increases(53, scale(bits) as nat);
        }
    }
}

/// What [`quantized`] gives for the magnitude of a sample.
spec fn quantized_magnitude(bits: u64, max: int) -> int {
    if is_negative(bits) {
        -quantized(bits, max)
    } else {
        quantized(bits, max)
    }
}

/// The scaled and rounded magnitude of a sample below full scale, before it is clamped.
spec fn scaled(bits: u64, max: int) -> int {
    nearest(as_double((significand(bits) * max) as nat), pow2(scale(bits) as nat) as int)
}

proof fn lemma_scaled_in_other_units(bits: u64, max: int, j: nat)
    requires
        0 < max <= 0x7fff_ffff,
        !is_full_scale(bits),
    ensures
        scaled(bits, max) == nearest(
            as_double((significand(bits) * pow2(j) * max) as nat),
            pow2(scale(bits) as nat) * pow2(j) as int,
        ),
{
    let m = significand(bits);
    lemma_scale_range(bits);
    lemma_product_bound(m, max);
    let p = (m * max) as nat;
    lemma_as_double_scaled(p, j);
    assert(m * pow2(j) * max == p * pow2(j)) by (nonlinear_arith)
        requires
            p == m * max,
    ;
    lemma_pow2_pos(j);
    lemma_pow2_pos(scale(bits) as nat);
    lemma_nearest_scaled(as_double(p), pow2(scale(bits) as nat) as int, pow2(j) as int);
}

proof fn lemma_scaled_is_monotone(a: u64, b: u64, max: int)
    requires
        0 < max <= 0x7fff_ffff,
        !is_full_scale(a),
        !is_full_scale(b),
        significand(a) * pow2((1074 - scale(a)) as nat) <= significand(b) * pow2(
            (1074 - scale(b)) as nat,
        ),
    ensures
        scaled(a, max) <= scaled(b, max),
{
    lemma_scale_range(a);
    lemma_scale_range(b);
    let top = if scale(a) >= scale(b) {
        scale(a)
    } else {
        scale(b)
    };
    let i = (top - scale(a)) as nat;
    let j = (top - scale(b)) as nat;
    let rest = (1074 - top) as nat;
    lemma_pow2_adds(i, rest);
    lemma_pow2_adds(j, rest);
    lemma_pow2_adds(scale(a) as nat, i);
    lemma_pow2_adds(scale(b) as nat, j);
    lemma_pow2_pos(i);
    lemma_pow2_pos(j);
    lemma_pow2_pos(rest);
    lemma_pow2_pos(top as nat);
    let x = significand(a) * pow2(i);
    let y = significand(b) * pow2(j);
    assert(x * pow2(rest) <= y * pow2(rest)) by {
        assert(x * pow2(rest) == significand(a) * (pow2(i) * pow2(rest))) by (nonlinear_arith)
            requires
                x == significand(a) * pow2(i),
        ;
        assert(y * pow2(rest) == significand(b) * (pow2(j) * pow2(rest))) by (nonlinear_arith)
            requires
                y == significand(b) * pow2(j),
        ;
    }
    assert(x <= y) by (nonlinear_arith)
        requires
            x * pow2(rest) <= y * pow2(rest),
            pow2(rest) > 0,
    ;
    assert(0 <= x * max <= y * max) by (nonlinear_arith)
        requires
            0 <= x <= y,
            0 < max,
    ;
    assert(0 <= x) by (nonlinear_arith)
        requires
            x == significand(a) * pow2(i),
            0 <= significand(a),
    ;
    lemma_scaled_in_other_units(a, max, i);
    lemma_scaled_in_other_units(b, max, j);
    lemma_as_double_is_monotone((x * max) as nat, (y * max) as nat);
    lemma_nearest_is_monotone(
        as_double((x * max) as nat),
        as_double((y * max) as nat),
        pow2(top as nat) as int,
    );
}

proof fn lemma_full_scale_is_larger(a: u64, b: u64)
    requires
        is_full_scale(a),
        !is_full_scale(b),
    ensures
        significand(b) * pow2((1074 - scale(b)) as nat) < significand(a) * pow2(
            (1074 - scale(a)) as nat,
        ),
{
    lemma_scale_range(a);
    lemma_scale_range(b);
    let x = (1074 - scale(a)) as nat;
    let y = (1074 - scale(b)) as nat;
    lemma_pow2_pos(y);
    lemma_pow2_unfold(y + 1);
    if y + 1 < x {
        lemma_pow2_strictly_increases(y + 1, x);
    }
    assert(significand(b) * pow2(y) < significand(a) * pow2(x)) by (nonlinear_arith)
        requires
            0 < pow2(y),
            2 * pow2(y) <= pow2(x),
            0 <= significand(b) < 0x20_0000_0000_0000,
            0x10_0000_0000_0000 <= significand(a),
    ;
}

proof fn lemma_quantized_magnitude_is_monotone(a: u64, b: u64, max: int)
    requires
        0 < max <= 0x7fff_ffff,
        !is_nan(a),
        !is_nan(b),
        significand(a) * pow2((1074 - scale(a)) as nat) <= significand(b) * pow2(
            (1074 - scale(b)) as nat,
        ),
    ensures
        0 <= quantized_magnitude(a, max) <= quantized_magnitude(b, max),
{
    reveal(quantized);
    lemma_quantized_is_nonnegative(a, max);
    lemma_quantized_in_range(a, max);
    if is_full_scale(a) && !is_full_scale(b) {
        lemma_full_scale_is_larger(a, b);
    } else if !is_full_scale(b) {
        lemma_scaled_is_monotone(a, b, max);
    }
}

proof fn lemma_quantized_is_nonnegative(bits: u64, max: int)
    requires
        0 < max <= 0x7fff_ffff,
    ensures
        0 <= quantized_magnitude(bits, max),
{
    reveal(quantized);
    if !is_full_scale(bits) {
        lemma_scale_range(bits);
        lemma_product_bound(significand(bits), max);
        let product = (significand(bits) * max) as nat;
        let d = pow2(scale(bits) as nat) as int;
        lemma_as_double_bound(product);
        lemma_pow2_pos(scale(bits) as nat);
        lemma_nearest_is_monotone(0, as_double(product), d);
        assert(nearest(0, d) == 0) by {
            vstd::arithmetic::div_mod::lemma_basic_div(d, 2 * d);
        }
    }
}

proof fn lemma_zero_is_silent(bits: u64, max: int)
    requires
        0 < max <= 0x7fff_ffff,
        significand(bits) * pow2((1074 - scale(bits)) as nat) == 0,
    ensures
        quantized(bits, max) == 0,
{
    lemma_scale_range(bits);
    let d = pow2((1074 - scale(bits)) as nat) as int;
    lemma_pow2_pos((1074 - scale(bits)) as nat);
    assert(significand(bits) == 0) by (nonlinear_arith)
        requires
            significand(bits) * d == 0,
            0 < d,
    ;
    reveal(quantized);
    lemma_small_is_exact(0);
    assert(0 * max == 0) by (nonlinear_arith);
    lemma_pow2_pos(scale(bits) as nat);
    let unit = pow2(scale(bits) as nat) as int;
    vstd::arithmetic::div_mod::lemma_basic_div(unit, 2 * unit);
}

/// A smaller sample never becomes a larger integer.
pub proof fn lemma_quantized_is_monotone(a: u64, b: u64, max: int)
    requires
        0 < max <= 0x7fff_ffff,
        !is_nan(a),
        !is_nan(b),
        value(a) <= value(b),
    ensures
        quantized(a, max) <= quantized(b, max),
{
    let x = significand(a) * pow2((1074 - scale(a)) as nat);
    let y = significand(b) * pow2((1074 - scale(b)) as nat);
    assert(value(a) == if is_negative(a) { -x } else { x }) by {
        assert(-significand(a) * pow2((1074 - scale(a)) as nat) == -x) by (nonlinear_arith)
            requires
                x == significand(a) * pow2((1074 - scale(a)) as nat),
        ;
    }
    assert(value(b) == if is_negative(b) { -y } else { y }) by {
        assert(-significand(b) * pow2((1074 - scale(b)) as nat) == -y) by (nonlinear_arith)
            requires
                y == significand(b) * pow2((1074 - scale(b)) as nat),
        ;
    }
    assert(0 <= x && 0 <= y) by {
        lemma_scale_range(a);
        lemma_scale_range(b);
        vstd::arithmetic::mul::lemma_mul_nonnegative(
            significand(a),
            pow2((1074 - scale(a)) as nat) as int,
        );
        vstd::arithmetic::mul::lemma_mul_nonnegative(
            significand(b),
            pow2((1074 - scale(b)) as nat) as int,
        );
    }
    lemma_quantized_is_nonnegative(a, max);
    lemma_quantized_is_nonnegative(b, max);
    if is_negative(a) && is_negative(b) {
        lemma_quantized_magnitude_is_monotone(b, a, max);
    } else if !is_negative(a) && !is_negative(b) {
        lemma_quantized_magnitude_is_monotone(a, b, max);
    } else if !is_negative(a) {
        lemma_zero_is_silent(a, max);
        lemma_zero_is_silent(b, max);
    }
}

/// A sample below full scale becomes an integer that is less than one away from the
/// scaled sample: the product is rounded to a double, which moves it by at most half
/// a step of one, and then to an integer, which moves it by at most one half.
pub proof fn lemma_quantized_is_close(bits: u64, max: int)
    requires
        0 < max <= 0x7fff_ffff,
        !is_full_scale(bits),
    ensures
        ({
            let d = pow2(scale(bits) as nat) as int;
            let step = pow2(excess_bits((significand(bits) * max) as nat)) as int;
            let error = quantized(bits, max) * d - signed_significand(bits) * max;
            &&& -(d + step) <= 2 * error <= d + step
            &&& step <= 0x8000_0000
            &&& -d < error < d
        }),
{
    reveal(quantized);
    lemma_scale_range(bits);
    let m = significand(bits);
    lemma_product_bound(m, max);
    let p = (m * max) as nat;
    let step = pow2(excess_bits(p)) as int;
    let d = pow2(scale(bits) as nat) as int;
    lemma_pow2_pos(scale(bits) as nat);
    lemma_as_double_error(p);
    lemma_nearest_bound(as_double(p), d);
    lemma2_to64();
    lemma2_to64_rest();
    lemma_step_bound(p, 31);
    if scale(bits) > 53 {
        lemma_pow2_strictly_increases(53, scale(bits) as nat);
    }
    let rounded = scaled(bits, max);
    let clamped = if rounded > max {
        max
    } else {
        rounded
    };
    assert(m * max <= d * max) by (nonlinear_arith)
        requires
            0 <= m < d,
            0 < max,
    ;
    assert(rounded > max ==> max * d <= rounded * d) by (nonlinear_arith)
        requires
            0 < d,
    ;
    assert(max * d == d * max) by (nonlinear_arith);
    assert(-clamped * d == -(clamped * d) && -m * max == -(m * max)) by (nonlinear_arith);
}

/// Scales the sample with bit pattern `bits` to an integer.
///
/// Rounds to the nearest integer and clamps to `[-max, max]`, so that full scale
/// input neither wraps nor drops out.
pub fn to_int(bits: u64, max: u32) -> (value: i32)
    requires
        0 < max <= 0x7fff_ffff,
    ensures
        value == quantized(bits, max as int),
        -max <= value <= max,
{
    proof {
        reveal(quantized);
    }
    proof {
        lemma_quantized_in_range(bits, max as int);
    }
    let exp: u64 = (bits / 0x10_0000_0000_0000) % 0x800;
    let frac: u64 = bits % 0x10_0000_0000_0000;
    if exp == 0x7ff && frac != 0 {
        return 0;
    }
    let negative: bool = bits >= 0x8000_0000_0000_0000;
    let magnitude: i32 = if exp >= 0x3ff {
        max as i32
    } else {
        let m: u64 = if exp == 0 {
            frac
        } else {
            frac + 0x10_0000_0000_0000
        };
        let k: u32 = if exp == 0 {
            1074
        } else {
            (1075 - exp) as u32
        };
        proof {
            lemma_product_bound(m as int, max as int);
            lemma_pow2_pos(k as nat);
        }
        let product: u128 = round_to_double((m as u128) * (max as u128));
        if k > 90 {
            proof {
                let d = pow2(k as nat) as int;
                lemma2_to64();
                lemma2_to64_rest();
                lemma_pow2_adds(45, 45);
                lemma_pow2_strictly_increases(90, k as nat);
                assert((2 * product + d) / (2 * d) == 0) by (nonlinear_arith)
                    requires
                        0 <= 2 * product < d,
                ;
            }
            0
        } else {
            let d: u128 = power_of_two(k);
            proof {
                if k < 90 {
                    lemma_pow2_strictly_increases(k as nat, 90);
                }
                lemma2_to64();
                lemma2_to64_rest();
                lemma_pow2_adds(45, 45);
            }
            let q: u128 = (2 * product + d) / (2 * d);
            if q > max as u128 {
                max as i32
            } else {
                q as i32
            }
        }
    };
    if negative {
        -magnitude
    } else {
        magnitude
    }
}

/// The index of the highest bit of `a`, for a positive `a`.
pub open spec fn top_bit(a: nat) -> nat
    decreases a,
{
    if a <= 1 {
        0
    } else {
        1 + top_bit(a / 2)
    }
}

/// The sign bit of a double.
pub open spec fn sign_bit(negative: bool) -> int {
    if negative {
        0x8000_0000_0000_0000
    } else {
        0
    }
}

/// The bit pattern of the double with the value `a / 2^k`, for an `a` of up to 53
/// bits and a value in the normal range.
#[verifier::opaque]
pub open spec fn dyadic(negative: bool, a: nat, k: int) -> u64 {
    if a == 0 {
        sign_bit(negative) as u64
    } else {
        (sign_bit(negative) + (1023 + top_bit(a) - k) * 0x10_0000_0000_0000 + (a * pow2(
            (52 - top_bit(a)) as nat,
        ) - 0x10_0000_0000_0000)) as u64
    }
}

/// The bit pattern of the double with the value `v / 2^k`.
pub open spec fn ratio(v: int, k: int) -> u64 {
    dyadic(
        v < 0,
        (if v < 0 {
            -v
        } else {
            v
        }) as nat,
        k,
    )
}

/// The bit pattern of the double with the value of the single with the pattern
/// `narrow`. What is not a number stays so: the sign and the payload are kept, and
/// the bit that makes it a quiet one is set.
pub open spec fn widened(narrow: u32) -> u64 {
    let negative = narrow >= 0x8000_0000;
    let exp = (narrow / 0x80_0000) as int % 0x100;
    let frac = narrow as int % 0x80_0000;
    if exp == 0xff && frac == 0 {
        (sign_bit(negative) + 0x7ff0_0000_0000_0000) as u64
    } else if exp == 0xff {
        (sign_bit(negative) + 0x7ff8_0000_0000_0000 + (frac % 0x40_0000) * 0x2000_0000) as u64
    } else if exp == 0 {
        dyadic(negative, frac as nat, 149)
    } else {
        (sign_bit(negative) + (exp + 896) * 0x10_0000_0000_0000 + frac * 0x2000_0000) as u64
    }
}

proof fn lemma_top_bit(a: nat)
    requires
        0 < a,
    ensures
        pow2(top_bit(a)) <= a < pow2(top_bit(a) + 1),
    decreases a,
{
    lemma2_to64();
    if a > 1 {
        lemma_top_bit(a / 2);
        lemma_pow2_unfold(top_bit(a));
        lemma_pow2_unfold(top_bit(a) + 1);
    }
}

proof fn lemma_top_bit_bound(a: nat)
    requires
        0 < a < 0x20_0000_0000_0000,
    ensures
        top_bit(a) <= 52,
        0x10_0000_0000_0000 <= a * pow2((52 - top_bit(a)) as nat) < 0x20_0000_0000_0000,
{
    let t = top_bit(a);
    lemma_top_bit(a);
    lemma2_to64();
    lemma2_to64_rest();
    if t > 52 {
        if t > 53 {
            lemma_pow2_strictly_increases(53, t);
        }
        assert(false);
    }
    let r = (52 - t) as nat;
    lemma_pow2_adds(t, r);
    lemma_pow2_adds(t + 1, r);
    lemma_pow2_pos(r);
    assert(pow2(t) * pow2(r) <= a * pow2(r) < pow2(t + 1) * pow2(r)) by (nonlinear_arith)
        requires
            pow2(t) <= a < pow2(t + 1),
            pow2(r) > 0,
    ;
}

/// The pattern [`dyadic`] gives stands for the value `a / 2^k`: its sign is the
/// one asked for, and `significand / 2^scale` is `a / 2^k`.
pub proof fn lemma_dyadic_value(negative: bool, a: nat, k: int)
    requires
        a < 0x20_0000_0000_0000,
        0 <= k <= 1022,
    ensures
        is_negative(dyadic(negative, a, k)) == negative,
        exponent(dyadic(negative, a, k)) < 0x7ff,
        scale(dyadic(negative, a, k)) >= 0,
        significand(dyadic(negative, a, k)) * pow2(k as nat) == a * pow2(
            scale(dyadic(negative, a, k)) as nat,
        ),
{
    reveal(dyadic);
    let bits = dyadic(negative, a, k);
    if a == 0 {
        assert(exponent(bits) == 0 && fraction(bits) == 0);
        assert(0 * pow2(k as nat) == 0 * pow2(1074)) by (nonlinear_arith);
    } else {
        lemma_top_bit_bound(a);
        let t = top_bit(a);
        let r = (52 - t) as nat;
        let m = (a * pow2(r)) as int;
        let exp = 1023 + t - k;
        assert(bits == sign_bit(negative) + exp * 0x10_0000_0000_0000 + (m
            - 0x10_0000_0000_0000));
        assert(exponent(bits) == exp && fraction(bits) == m - 0x10_0000_0000_0000);
        assert(scale(bits) == r + k);
        lemma_pow2_adds(r, k as nat);
        assert(m * pow2(k as nat) == a * (pow2(r) * pow2(k as nat))) by (nonlinear_arith)
            requires
                m == a * pow2(r),
        ;
    }
}

/// The bit pattern of the double with the value `a / 2^k`.
pub fn dyadic_bits(negative: bool, a: u64, k: u32) -> (bits: u64)
    requires
        a < 0x20_0000_0000_0000,
        k <= 1022,
    ensures
        bits == dyadic(negative, a as nat, k as int),
{
    proof {
        reveal(dyadic);
    }
    let sign: u64 = if negative {
        0x8000_0000_0000_0000
    } else {
        0
    };
    if a == 0 {
        return sign;
    }
    proof {
        lemma_top_bit_bound(a as nat);
    }
    // Shift the highest bit up to where a double implies it.
    let mut shifted: u64 = a;
    let mut exp: u64 = 1023 + 52 - k as u64;
    let ghost mut by: nat = 0;
    proof {
        lemma2_to64();
        lemma_top_bit(a as nat);
    }
    while shifted < 0x10_0000_0000_0000
        invariant
            0 < a < 0x20_0000_0000_0000,
            k <= 1022,
            top_bit(a as nat) <= 52,
            pow2(top_bit(a as nat)) <= a < pow2(top_bit(a as nat) + 1),
            shifted == a * pow2(by),
            shifted < 0x20_0000_0000_0000,
            by <= 52 - top_bit(a as nat),
            exp + by == 1075 - k,
        decreases 0x20_0000_0000_0000 - shifted,
    {
        proof {
            let t = top_bit(a as nat);
            lemma2_to64();
            lemma2_to64_rest();
            if by == 52 - t {
                lemma_top_bit_bound(a as nat);
                assert(false);
            }
            lemma_pow2_unfold(by + 1);
            assert(2 * (a * pow2(by)) == a * pow2(by + 1)) by (nonlinear_arith)
                requires
                    pow2(by + 1) == 2 * pow2(by),
            ;
            assert(0 < a * pow2(by)) by (nonlinear_arith)
                requires
                    0 < a,
                    0 < pow2(by),
            ;
            by = by + 1;
        }
        shifted = shifted * 2;
        exp = exp - 1;
    }
    proof {
        let t = top_bit(a as nat);
        if by < 52 - t {
            lemma_top_bit_bound(a as nat);
            lemma_pow2_strictly_increases(by, (52 - t) as nat);
            let rest = (52 - t - by) as nat;
            lemma_pow2_adds(by, rest);
            lemma2_to64();
            if rest > 1 {
                lemma_pow2_strictly_increases(1, rest);
            }
            assert(a * pow2((52 - t) as nat) >= 2 * shifted) by (nonlinear_arith)
                requires
                    pow2((52 - t) as nat) == pow2(by) * pow2(rest),
                    pow2(rest) >= 2,
                    shifted == a * pow2(by),
                    a > 0,
            ;
            assert(false);
        }
    }
    sign + exp * 0x10_0000_0000_0000 + (shifted - 0x10_0000_0000_0000)
}

/// The bit pattern of the double with the value `v / 2^k`.
pub fn ratio_bits(v: i32, k: u32) -> (bits: u64)
    requires
        k <= 1022,
    ensures
        bits == ratio(v as int, k as int),
{
    if v < 0 {
        dyadic_bits(true, (-(v as i64)) as u64, k)
    } else {
        dyadic_bits(false, v as u64, k)
    }
}

/// The bit pattern of the double with the value of the single with the pattern
/// `narrow`.
pub fn widen(narrow: u32) -> (bits: u64)
    ensures
        bits == widened(narrow),
{
    let negative: bool = narrow >= 0x8000_0000;
    let sign: u64 = if negative {
        0x8000_0000_0000_0000
    } else {
        0
    };
    let exp: u64 = ((narrow / 0x80_0000) % 0x100) as u64;
    let frac: u64 = (narrow % 0x80_0000) as u64;
    if exp == 0xff && frac == 0 {
        sign + 0x7ff0_0000_0000_0000
    } else if exp == 0xff {
        sign + 0x7ff8_0000_0000_0000 + (frac % 0x40_0000) * 0x2000_0000
    } else if exp == 0 {
        dyadic_bits(negative, frac, 149)
    } else {
        sign + (exp + 896) * 0x10_0000_0000_0000 + frac * 0x2000_0000
    }
}

/// Scaling a sample in `[-1, 1]` to a signed integer of `k + 1` bits and back moves it by
/// less than `2 / 2^k`: with `x` for the sample and `y` for what comes back,
/// `|y - x| * 2^k < 2`, written here without fractions.
pub proof fn lemma_scaling_back_is_close(bits: u64, k: nat)
    requires
        0 < k <= 31,
        is_within_scale(bits),
    ensures
        ({
            let back = ratio(quantized(bits, pow2(k) - 1), k as int);
            let d = pow2(scale(bits) as nat) as int;
            let e = pow2(scale(back) as nat) as int;
            let difference = signed_significand(back) * d - signed_significand(bits) * e;
            &&& 0 <= scale(bits)
            &&& 0 <= scale(back)
            &&& !is_nan(back)
            &&& -2 * (d * e) < difference * pow2(k) < 2 * (d * e)
        }),
{
    lemma2_to64();
    lemma2_to64_rest();
    lemma_pow2_unfold(k);
    lemma_pow2_pos((k - 1) as nat);
    if k < 31 {
        lemma_pow2_strictly_increases(k, 31);
    }
    let full = pow2(k) as int;
    let max = full - 1;
    let q = quantized(bits, max);
    lemma_quantized_in_range(bits, max);
    lemma_scale_range(bits);
    let s = signed_significand(bits);
    let d = pow2(scale(bits) as nat) as int;
    lemma_pow2_pos(scale(bits) as nat);
    assert(s * full == s * max + s) by (nonlinear_arith)
        requires
            max == full - 1,
    ;
    if is_full_scale(bits) {
        lemma_full_scale_is_clamped(bits, max);
        assert(d == significand(bits));
        assert(max * d == d * max && -max * d == -d * max) by (nonlinear_arith);
    } else {
        lemma_quantized_is_close(bits, max);
    }
    assert(-2 * d < q * d - s * full < 2 * d);

    let magnitude = (if q < 0 {
        -q
    } else {
        q
    }) as nat;
    let back = ratio(q, k as int);
    lemma_dyadic_value(q < 0, magnitude, k as int);
    let e = pow2(scale(back) as nat) as int;
    lemma_pow2_pos(scale(back) as nat);
    let t = signed_significand(back);
    assert(t * full == q * e) by (nonlinear_arith)
        requires
            significand(back) * full == magnitude * e,
            t == if q < 0 {
                -significand(back)
            } else {
                significand(back)
            },
            q == if q < 0 {
                -magnitude
            } else {
                magnitude as int
            },
    ;
    let difference = t * d - s * e;
    assert(difference * full == (q * d - s * full) * e) by (nonlinear_arith)
        requires
            difference == t * d - s * e,
            t * full == q * e,
    ;
    assert(-2 * (d * e) < (q * d - s * full) * e < 2 * (d * e)) by (nonlinear_arith)
        requires
            -2 * d < q * d - s * full < 2 * d,
            0 < e,
    ;
}

/// What the bit pattern of a double stands for, in units of the smallest one: a sign bit,
/// eleven bits of exponent and 52 of the significand, whose leading bit is left out unless
/// the exponent is zero. The largest exponent is for infinity and for what is not a number.
pub proof fn lemma_patterns_of_doubles(bits: u64)
    ensures
        ({
            let exp = (bits / 0x10_0000_0000_0000) % 0x800;
            let frac = bits % 0x10_0000_0000_0000;
            let magnitude = if exp == 0 {
                frac as int
            } else {
                (0x10_0000_0000_0000 + frac) * pow2((exp - 1) as nat)
            };
            &&& is_negative(bits) == (bits / 0x8000_0000_0000_0000 == 1)
            &&& is_nan(bits) == (exp == 0x7ff && frac > 0)
            &&& value(bits) == (if bits / 0x8000_0000_0000_0000 == 1 {
                -magnitude
            } else {
                magnitude
            })
        }),
{
    lemma2_to64();
    let exp = exponent(bits);
    let m = significand(bits);
    let unit = pow2((1074 - scale(bits)) as nat) as int;
    assert(exp == 0 ==> unit == 1);
    assert(exp > 0 ==> 1074 - scale(bits) == exp - 1);
    assert((-m) * unit == -(m * unit)) by (nonlinear_arith);
    assert(exp == 0 ==> m * unit == m) by (nonlinear_arith)
        requires
            exp == 0 ==> unit == 1,
    ;
}

/// A single keeps its value as a double: a sign bit, eight bits of exponent and 23 of the
/// significand, in units of the smallest double. Infinity stays infinite, and what is not
/// a number stays so, as a quiet one with the same payload.
pub proof fn lemma_singles_keep_their_value(narrow: u32)
    ensures
        ({
            let exp = (narrow / 0x80_0000) % 0x100;
            let frac = narrow % 0x80_0000;
            let magnitude = if exp == 0 {
                frac * pow2(925)
            } else {
                (0x80_0000 + frac) * pow2((924 + exp) as nat)
            };
            let wide = widened(narrow);
            &&& is_negative(wide) == (narrow / 0x8000_0000 == 1)
            &&& is_nan(wide) == (exp == 0xff && frac > 0)
            &&& exp < 0xff ==> value(wide) == (if narrow / 0x8000_0000 == 1 {
                -magnitude
            } else {
                magnitude as int
            })
            &&& exp == 0xff ==> wide == (narrow / 0x8000_0000) * 0x8000_0000_0000_0000
                + 0x7ff0_0000_0000_0000 + (if frac == 0 {
                0
            } else {
                0x8_0000_0000_0000 + (frac % 0x40_0000) * 0x2000_0000
            })
        }),
{
    let exp = (narrow / 0x80_0000) as int % 0x100;
    let frac = narrow as int % 0x80_0000;
    let negative = narrow >= 0x8000_0000;
    let wide = widened(narrow);
    if exp == 0 {
        lemma_dyadic_value(negative, frac as nat, 149);
        lemma_scale_range(wide);
        let m = significand(wide);
        let k = scale(wide) as nat;
        let rest = (1074 - k) as nat;
        lemma_pow2_adds(149, 925);
        lemma_pow2_adds(k, rest);
        lemma_pow2_pos(149);
        let a = pow2(149) as int;
        let b = pow2(925) as int;
        let c = pow2(rest) as int;
        let d = pow2(k) as int;
        assert(m * c == frac * b) by (nonlinear_arith)
            requires
                m * a == frac * d,
                a * b == d * c,
                0 < a,
        ;
        assert((-m) * c == -(m * c)) by (nonlinear_arith);
    } else if exp < 0xff {
        assert(exponent(wide) == exp + 896 && fraction(wide) == frac * 0x2000_0000);
        lemma2_to64();
        lemma_pow2_adds(29, (895 + exp) as nat);
        let m = significand(wide);
        let c = pow2((895 + exp) as nat) as int;
        assert(1074 - scale(wide) == 895 + exp);
        assert(m * c == (0x80_0000 + frac) * (0x2000_0000 * c)) by (nonlinear_arith)
            requires
                m == (0x80_0000 + frac) * 0x2000_0000,
        ;
        assert((-m) * c == -(m * c)) by (nonlinear_arith);
    } else if frac == 0 {
        assert(exponent(wide) == 0x7ff && fraction(wide) == 0);
    } else {
        assert(exponent(wide) == 0x7ff && fraction(wide) == 0x8_0000_0000_0000 + (frac % 0x40_0000)
            * 0x2000_0000);
    }
}

/// What a sample becomes on an integer scale, by its value in units of the smallest double,
/// of which `2^1074` make up full scale. What is not a number is silent, and what is beyond
/// full scale becomes the end of the scale. Anything else becomes the integer nearest to
/// the scaled sample, up to the one part in `2^53` that rounding to a double can move it.
pub proof fn lemma_samples_are_scaled_to_the_nearest_integer(bits: u64, max: int)
    requires
        0 < max <= 0x7fff_ffff,
    ensures
        is_nan(bits) ==> quantized(bits, max) == 0,
        !is_nan(bits) && value(bits) >= pow2(1074) ==> quantized(bits, max) == max,
        !is_nan(bits) && value(bits) <= -pow2(1074) ==> quantized(bits, max) == -max,
        -pow2(1074) < value(bits) < pow2(1074) ==> {
            let off = 0x40_0000_0000_0000 * (quantized(bits, max) * pow2(1074) - value(bits)
                * max);
            let size = if value(bits) < 0 {
                -value(bits) * max
            } else {
                value(bits) * max
            };
            let most = 0x20_0000_0000_0000 * pow2(1074) + 2 * size;
            -most <= off <= most
        },
        -pow2(1074) < value(bits) < pow2(1074) ==> -max <= quantized(bits, max) <= max,
{
    lemma_scale_range(bits);
    lemma_quantized_in_range(bits, max);
    let m = significand(bits);
    let unit = pow2((1074 - scale(bits)) as nat) as int;
    let one = pow2(1074) as int;
    lemma_pow2_pos((1074 - scale(bits)) as nat);
    lemma_pow2_pos(1074);
    assert((-m) * unit == -(m * unit)) by (nonlinear_arith);
    assert(0 <= m * unit) by (nonlinear_arith)
        requires
            0 <= m,
            0 < unit,
    ;
    if is_nan(bits) {
        reveal(quantized);
        lemma_full_scale_value(bits);
    } else if is_full_scale(bits) {
        lemma_full_scale_is_clamped(bits, max);
        lemma_full_scale_value(bits);
    } else {
        let d = pow2(scale(bits) as nat) as int;
        lemma_pow2_adds(scale(bits) as nat, (1074 - scale(bits)) as nat);
        assert(m * unit < one) by (nonlinear_arith)
            requires
                m < d,
                one == d * unit,
                0 < unit,
        ;
        lemma_rounding_below_full_scale(bits, max);
        let q = quantized(bits, max);
        let s = signed_significand(bits);
        let v = s * unit;
        let size = m * max;
        let inner = 0x40_0000_0000_0000 * (q * d - s * max);
        let limit = 0x20_0000_0000_0000 * d + 2 * size;
        assert(0x40_0000_0000_0000 * (q * one - v * max) == inner * unit) by (nonlinear_arith)
            requires
                one == d * unit,
                v == s * unit,
                inner == 0x40_0000_0000_0000 * (q * d - s * max),
        ;
        assert(0x20_0000_0000_0000 * one + 2 * (m * unit * max) == limit * unit)
            by (nonlinear_arith)
            requires
                one == d * unit,
                limit == 0x20_0000_0000_0000 * d + 2 * (m * max),
        ;
        assert(-(limit * unit) <= inner * unit <= limit * unit) by (nonlinear_arith)
            requires
                -limit <= inner <= limit,
                0 < unit,
        ;
        assert(v < 0 ==> -v * max == m * unit * max);
    }
}

proof fn lemma_full_scale_value(bits: u64)
    requires
        is_full_scale(bits),
    ensures
        significand(bits) * pow2((1074 - scale(bits)) as nat) >= pow2(1074),
{
    lemma_scale_range(bits);
    lemma2_to64();
    lemma2_to64_rest();
    let k = (1074 - scale(bits)) as nat;
    lemma_pow2_adds(52, 1022);
    lemma_pow2_pos(1022);
    if 1022 < k {
        lemma_pow2_strictly_increases(1022, k);
    }
    assert(significand(bits) * pow2(k) >= 0x10_0000_0000_0000 * pow2(1022)) by (nonlinear_arith)
        requires
            significand(bits) >= 0x10_0000_0000_0000,
            pow2(k) >= pow2(1022),
            pow2(1022) > 0,
    ;
}

proof fn lemma_rounding_below_full_scale(bits: u64, max: int)
    requires
        0 < max <= 0x7fff_ffff,
        !is_full_scale(bits),
    ensures
        ({
            let d = pow2(scale(bits) as nat) as int;
            let off = 0x40_0000_0000_0000 * (quantized(bits, max) * d - signed_significand(bits)
                * max);
            let most = 0x20_0000_0000_0000 * d + 2 * (significand(bits) * max);
            -most <= off <= most
        }),
{
    reveal(quantized);
    lemma_scale_range(bits);
    let m = significand(bits);
    lemma_product_bound(m, max);
    let p = (m * max) as nat;
    let d = pow2(scale(bits) as nat) as int;
    lemma_pow2_pos(scale(bits) as nat);
    lemma_as_double_error(p);
    lemma_nearest_bound(as_double(p), d);
    let rounded = scaled(bits, max);
    let clamped = if rounded > max {
        max
    } else {
        rounded
    };
    assert(m * max <= d * max) by (nonlinear_arith)
        requires
            0 <= m < d,
            0 < max,
    ;
    assert(rounded > max ==> max * d <= rounded * d) by (nonlinear_arith)
        requires
            0 < d,
    ;
    assert(max * d == d * max) by (nonlinear_arith);
    assert(-clamped * d == -(clamped * d) && -m * max == -(m * max)) by (nonlinear_arith);
}

/// A scaled sample of up to 53 bits is rounded to the integer nearest to it, and where two
/// are equally near to the one further from silence.
pub proof fn lemma_ties_go_away_from_silence(bits: u64, max: int)
    requires
        0 < max <= 0x7fff_ffff,
        !is_full_scale(bits),
        significand(bits) * max < 0x20_0000_0000_0000,
    ensures
        ({
            let d = pow2(scale(bits) as nat) as int;
            let off = 2 * (quantized(bits, max) * d - signed_significand(bits) * max);
            &&& -d <= off <= d
            &&& off == d ==> !is_negative(bits)
            &&& off == -d ==> is_negative(bits)
        }),
{
    reveal(quantized);
    lemma_scale_range(bits);
    let m = significand(bits);
    lemma_product_bound(m, max);
    let p = (m * max) as nat;
    let d = pow2(scale(bits) as nat) as int;
    lemma_pow2_pos(scale(bits) as nat);
    lemma_small_is_exact(p);
    lemma_nearest_bound(p as int, d);
    let rounded = scaled(bits, max);
    let clamped = if rounded > max {
        max
    } else {
        rounded
    };
    assert(m * max < d * max) by (nonlinear_arith)
        requires
            0 <= m < d,
            0 < max,
    ;
    assert(rounded > max ==> max * d + d <= rounded * d) by (nonlinear_arith)
        requires
            0 < d,
    ;
    assert(max * d == d * max) by (nonlinear_arith);
    assert(-clamped * d == -(clamped * d) && -m * max == -(m * max)) by (nonlinear_arith);
}

/// Samples are scaled in double precision: the product with the end of the scale is rounded
/// to a double, that to the nearest integer, and a tie goes away from silence. Only the
/// end of the scale bounds it.
pub proof fn lemma_samples_are_scaled_in_double_precision(bits: u64, max: int)
    requires
        0 < max <= 0x7fff_ffff,
        !is_full_scale(bits),
    ensures
        ({
            let d = pow2(scale(bits) as nat) as int;
            let product = as_double((significand(bits) * max) as nat);
            let size = if is_negative(bits) {
                -quantized(bits, max)
            } else {
                quantized(bits, max)
            };
            &&& 0 <= size <= max
            &&& 2 * (size * d - product) <= d
            &&& size == max || -d < 2 * (size * d - product)
        }),
{
    reveal(quantized);
    lemma_quantized_is_nonnegative(bits, max);
    lemma_quantized_in_range(bits, max);
    lemma_scale_range(bits);
    lemma_product_bound(significand(bits), max);
    let d = pow2(scale(bits) as nat) as int;
    lemma_pow2_pos(scale(bits) as nat);
    let product = as_double((significand(bits) * max) as nat);
    lemma_nearest_bound(product, d);
    let rounded = scaled(bits, max);
    assert(rounded > max ==> max * d <= rounded * d) by (nonlinear_arith)
        requires
            0 < d,
    ;
}

} // verus!
