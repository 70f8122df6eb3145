//! Positions in a stream, as frames.
//!
//! A time is turned into a frame in double precision. It is a number of seconds, made of
//! the whole ones and the fraction, and times the sample rate it is a number of frames.
//! Each of these is rounded to the nearest double, and the last to the nearest frame. All
//! of it takes whole numbers here, in units of `2^-82` seconds: the fraction of a second
//! is at least a nanosecond, or nothing, and no bit of such a double is smaller than that.

use std::time::Duration;

use vstd::arithmetic::div_mod::{lemma_fundamental_div_mod, lemma_fundamental_div_mod_converse};
use vstd::arithmetic::power2::{
    lemma2_to64, lemma2_to64_rest, lemma_pow2_adds, lemma_pow2_pos, lemma_pow2_unfold, pow2,
};
use vstd::prelude::*;

use super::Position;
use crate::double::{
    as_double, divide_to_double, lemma_as_double_error, lemma_as_double_is_monotone,
    lemma_as_double_scaled, lemma_excess_is, lemma_nearest_bound, lemma_nearest_is_monotone,
    lemma_nearest_scaled, lemma_quotient_error, lemma_quotient_exact, lemma_quotient_is_a_double,
    lemma_quotient_is_monotone, lemma_small_is_exact, lemma_small_term_is_lost, nearest,
    nearest_even, power_of_two, quotient_as_double, round_to_double,
};

verus! {

/// The number of whole seconds a duration contains.
pub uninterp spec fn duration_secs(duration: Duration) -> u64;

/// The fractional part of a duration, in nanoseconds.
pub uninterp spec fn duration_subsec_nanos(duration: Duration) -> u32;

/// `Duration::as_secs` of the standard library: the number of whole seconds contained by
/// a duration.
pub assume_specification[ Duration::as_secs ](duration: &Duration) -> (secs: u64)
    ensures
        secs == duration_secs(*duration),
;

/// `Duration::subsec_nanos` of the standard library: the fractional part of a duration in
/// nanoseconds, which is less than a second.
pub assume_specification[ Duration::subsec_nanos ](duration: &Duration) -> (nanos: u32)
    ensures
        nanos == duration_subsec_nanos(*duration),
        nanos < 1_000_000_000,
;

/// A fraction of a second as a double, in units of `2^-82` seconds.
pub open spec fn fraction(nanos: nat) -> int {
    quotient_as_double(nanos * pow2(82), 1_000_000_000)
}

/// A time as a double, in units of `2^-82` seconds.
pub open spec fn seconds(secs: nat, nanos: nat) -> int {
    as_double((as_double(secs) * pow2(82) + fraction(nanos)) as nat)
}

/// The frame nearest to a double in units of `2^-82` seconds, with a tie going to the
/// later one.
pub open spec fn nearest_frame(units: int, sample_rate: nat) -> int {
    nearest(as_double((units * sample_rate) as nat), pow2(82) as int)
}

/// The frame a time names: the nearest one, and the last one that can be named for
/// anything beyond it.
pub open spec fn frame_at(secs: nat, nanos: nat, sample_rate: nat) -> int {
    let frame = nearest_frame(seconds(secs, nanos), sample_rate);
    if frame > usize::MAX {
        usize::MAX as int
    } else {
        frame
    }
}

/// The frame a position names, if it names one.
pub open spec fn frame_of(position: Position, sample_rate: u32) -> Option<usize> {
    match position {
        Position::Default => None,
        Position::Time(duration) => Some(
            frame_at(
                duration_secs(duration) as nat,
                duration_subsec_nanos(duration) as nat,
                sample_rate as nat,
            ) as usize,
        ),
        Position::Frame(frame) => Some(frame),
    }
}

proof fn lemma_units()
    ensures
        pow2(82) == 0x4_0000_0000_0000_0000_0000,
{
    lemma2_to64();
    lemma2_to64_rest();
    lemma_pow2_adds(64, 18);
}

/// The fraction is less than a second, and off by at most one part in `2^53`.
proof fn lemma_fraction(nanos: nat)
    requires
        nanos < 1_000_000_000,
    ensures
        0 <= fraction(nanos) < pow2(82),
        as_double(fraction(nanos) as nat) == fraction(nanos),
        -(nanos * pow2(82)) <= 0x20_0000_0000_0000 * (fraction(nanos) * 1_000_000_000 - nanos
            * pow2(82)) <= nanos * pow2(82),
{
    lemma_units();
    assert(nanos * pow2(82) == nanos * 0x4_0000_0000_0000_0000_0000) by (nonlinear_arith)
        requires
            pow2(82) == 0x4_0000_0000_0000_0000_0000,
    ;
    lemma_quotient_is_a_double(nanos * pow2(82), 1_000_000_000);
    lemma_quotient_error(nanos * pow2(82), 1_000_000_000);
}

/// The integer nearest to `numer / denom`, with a tie going up.
fn round_half_up(numer: u128, denom: u128) -> (rounded: u128)
    requires
        numer < 0x1000_0000_0000_0000_0000_0000_0000_0000,
        0 < denom <= 0x4_0000_0000_0000_0000_0000,
    ensures
        rounded == nearest(numer as int, denom as int),
{
    (2 * numer + denom) / (2 * denom)
}

/// The frame nearest to a fraction of a second, in units of `2^-82` seconds.
fn frame_of_fraction(part: u128, sample_rate: u32) -> (frame: u128)
    requires
        part < pow2(82),
    ensures
        frame == nearest_frame(part as int, sample_rate as nat),
{
    proof {
        lemma_units();
        assert(0 <= part * sample_rate < 0x4_0000_0000_0000_0000_0000 * 0x1_0000_0000)
            by (nonlinear_arith)
            requires
                part < 0x4_0000_0000_0000_0000_0000,
                sample_rate < 0x1_0000_0000,
        ;
    }
    let product: u128 = round_to_double(part * (sample_rate as u128));
    round_half_up(product, power_of_two(82))
}

/// The frame nearest to so many whole seconds.
fn frame_of_seconds(whole: u128, sample_rate: u32) -> (frame: u128)
    requires
        whole <= 0x2_0000_0000_0000_0000,
    ensures
        frame == nearest_frame(whole * pow2(82), sample_rate as nat),
{
    proof {
        lemma_units();
        assert(0 <= whole * sample_rate < 0x2_0000_0000_0000_0000 * 0x1_0000_0000)
            by (nonlinear_arith)
            requires
                whole <= 0x2_0000_0000_0000_0000,
                sample_rate < 0x1_0000_0000,
        ;
        let product = (whole * sample_rate) as nat;
        lemma_as_double_scaled(product, 82);
        assert(whole * pow2(82) * sample_rate == product * pow2(82)) by (nonlinear_arith)
            requires
                product == whole * sample_rate,
        ;
        lemma_nearest_scaled(as_double(product), 1, pow2(82) as int);
        lemma_nearest_bound(as_double(product), 1);
    }
    round_to_double(whole * (sample_rate as u128))
}

/// The frame nearest to whole seconds and a fraction, the latter in units of `2^-82`
/// seconds, after their sum is rounded to a double.
fn frame_of_sum(whole: u128, part: u128, sample_rate: u32) -> (frame: u128)
    requires
        0 < whole < 0x20_0000_0000_0000,
        part < pow2(82),
    ensures
        frame == nearest_frame(
            as_double((whole * pow2(82) + part) as nat),
            sample_rate as nat,
        ),
{
    let mut scaled: u128 = whole;
    let mut shift: u32 = 0;
    proof {
        lemma2_to64();
    }
    while scaled < 0x10_0000_0000_0000
        invariant
            0 < whole,
            scaled == whole * pow2(shift as nat),
            0 < scaled < 0x20_0000_0000_0000,
            shift <= 52,
            pow2(shift as nat) <= scaled,
        decreases 0x20_0000_0000_0000 - scaled,
    {
        proof {
            lemma_pow2_unfold((shift + 1) as nat);
            lemma2_to64();
            lemma2_to64_rest();
            if shift == 52 {
                assert(pow2(52) == 0x10_0000_0000_0000);
            }
            assert(2 * scaled == whole * pow2((shift + 1) as nat)) by (nonlinear_arith)
                requires
                    scaled == whole * pow2(shift as nat),
                    pow2((shift + 1) as nat) == 2 * pow2(shift as nat),
            ;
        }
        scaled = 2 * scaled;
        shift = shift + 1;
    }
    let step: u128 = power_of_two(82 - shift);
    proof {
        lemma_units();
        lemma_pow2_pos((82 - shift) as nat);
        lemma_pow2_pos(shift as nat);
        assert(part / step <= part) by (nonlinear_arith)
            requires
                0 < step,
        ;
    }
    let quotient: u128 = scaled + part / step;
    let rest: u128 = part % step;
    proof {
        lemma_pow2_adds(shift as nat, (82 - shift) as nat);
        lemma_sum(whole, part, scaled, shift as nat, step, quotient, rest);
    }
    let significand: u128 = if rest < step - rest || (rest == step - rest && quotient % 2 == 0) {
        quotient
    } else {
        quotient + 1
    };
    assert(0 <= significand * sample_rate < 0x40_0000_0000_0000 * 0x1_0000_0000)
        by (nonlinear_arith)
        requires
            significand < 0x40_0000_0000_0000,
            sample_rate < 0x1_0000_0000,
    ;
    let product: u128 = round_to_double(significand * (sample_rate as u128));
    proof {
        let p = (significand * sample_rate) as nat;
        lemma_as_double_scaled(p, (82 - shift) as nat);
        assert(significand * step * sample_rate == p * step) by (nonlinear_arith)
            requires
                p == significand * sample_rate,
        ;
        lemma_nearest_scaled(product as int, pow2(shift as nat) as int, step as int);
    }
    round_half_up(product, power_of_two(shift))
}

proof fn lemma_sum(
    whole: u128,
    part: u128,
    scaled: u128,
    shift: nat,
    step: u128,
    quotient: u128,
    rest: u128,
)
    requires
        shift <= 52,
        scaled == whole * pow2(shift),
        0x10_0000_0000_0000 <= scaled < 0x20_0000_0000_0000,
        step == pow2((82 - shift) as nat),
        0 < step,
        pow2(82) == pow2(shift) * step,
        part < pow2(82),
        quotient == scaled + part / step,
        rest == part % step,
    ensures
        as_double((whole * pow2(82) + part) as nat) == nearest_even(
            whole * pow2(82) + part,
            step as int,
        ) * step,
        (whole * pow2(82) + part) / step as int == quotient,
        (whole * pow2(82) + part) % step as int == rest,
        quotient < 0x20_0000_0000_0000,
{
    let sum = whole * pow2(82) + part;
    lemma_fundamental_div_mod(part as int, step as int);
    let q = part as int / step as int;
    assert(whole * pow2(82) == scaled * step) by (nonlinear_arith)
        requires
            scaled == whole * pow2(shift),
            pow2(82) == pow2(shift) * step,
    ;
    assert(sum == quotient * step + rest) by (nonlinear_arith)
        requires
            sum == scaled * step + part,
            part == step * q + rest,
            quotient == scaled + q,
    ;
    lemma_fundamental_div_mod_converse(sum, step as int, quotient as int, rest as int);
    // The seconds leave room for the fraction below the highest bit.

    lemma2_to64();
    lemma2_to64_rest();
    let room = pow2((53 - shift) as nat) as int;
    lemma_pow2_adds(shift, (53 - shift) as nat);
    assert(whole < room) by (nonlinear_arith)
        requires
            whole * pow2(shift) < room * pow2(shift),
            0 <= pow2(shift),
    ;
    assert(scaled + pow2(shift) <= 0x20_0000_0000_0000) by (nonlinear_arith)
        requires
            scaled == whole * pow2(shift),
            whole + 1 <= room,
            room * pow2(shift) == 0x20_0000_0000_0000,
    ;
    assert(sum < 0x20_0000_0000_0000 * step) by (nonlinear_arith)
        requires
            sum == scaled * step + part,
            part < pow2(shift) * step,
            scaled + pow2(shift) <= 0x20_0000_0000_0000,
            0 < step,
    ;
    assert(0x10_0000_0000_0000 * step <= sum) by (nonlinear_arith)
        requires
            sum == scaled * step + part,
            0 <= part,
            0x10_0000_0000_0000 <= scaled,
    ;
    assert(quotient < 0x20_0000_0000_0000) by (nonlinear_arith)
        requires
            quotient * step + rest < 0x20_0000_0000_0000 * step,
            0 <= rest,
            0 < step,
    ;
    lemma_excess_is(sum as nat, (82 - shift) as nat);
}

/// The frame nearest to a time of whole seconds and a fraction.
pub fn time_to_frame(secs: u64, nanos: u32, sample_rate: u32) -> (frame: usize)
    requires
        nanos < 1_000_000_000,
    ensures
        frame == frame_at(secs as nat, nanos as nat, sample_rate as nat),
{
    proof {
        lemma_units();
        lemma_fraction(nanos as nat);
    }
    let whole: u128 = round_to_double(secs as u128);
    let part: u128 = divide_to_double((nanos as u128) * power_of_two(82), 1_000_000_000);
    proof {
        lemma_small_is_exact(0);
        if whole >= 0x20_0000_0000_0000 {
            if secs < 0x20_0000_0000_0000 {
                lemma_small_is_exact(secs as nat);
            }
            lemma_small_term_is_lost(secs as nat, 82, part as nat);
        }
        assert(0 * pow2(82) == 0);
    }
    let frame: u128 = if whole == 0 {
        frame_of_fraction(part, sample_rate)
    } else if whole < 0x20_0000_0000_0000 {
        frame_of_sum(whole, part, sample_rate)
    } else {
        frame_of_seconds(whole, sample_rate)
    };
    if frame > usize::MAX as u128 {
        usize::MAX
    } else {
        frame as usize
    }
}

/// The frame a position names, if it names one.
///
/// A time position that does not land on a frame boundary is rounded to the
/// nearest frame.
pub fn position_to_frame(position: Position, sample_rate: u32) -> (frame: Option<usize>)
    ensures
        frame == frame_of(position, sample_rate),
{
    match position {
        Position::Default => None,
        Position::Time(duration) => Some(
            time_to_frame(duration.as_secs(), duration.subsec_nanos(), sample_rate),
        ),
        Position::Frame(frame) => Some(frame),
    }
}

/// A later time never names an earlier frame.
pub proof fn lemma_time_positions_are_ordered(
    secs: nat,
    nanos: nat,
    later_secs: nat,
    later_nanos: nat,
    sample_rate: nat,
)
    requires
        nanos < 1_000_000_000,
        later_nanos < 1_000_000_000,
        secs < later_secs || (secs == later_secs && nanos <= later_nanos),
    ensures
        frame_at(secs, nanos, sample_rate) <= frame_at(later_secs, later_nanos, sample_rate),
{
    lemma_units();
    lemma_fraction(nanos);
    lemma_fraction(later_nanos);
    lemma_as_double_is_monotone(secs, later_secs);
    let x = seconds(secs, nanos);
    let y = seconds(later_secs, later_nanos);
    let a = (as_double(secs) * pow2(82) + fraction(nanos)) as nat;
    let b = (as_double(later_secs) * pow2(82) + fraction(later_nanos)) as nat;
    lemma_as_double_error(secs);
    lemma_as_double_error(later_secs);
    assert(0 <= x <= y) by {
        if secs == later_secs {
            assert(nanos * pow2(82) <= later_nanos * pow2(82)) by (nonlinear_arith)
                requires
                    nanos <= later_nanos,
            ;
            lemma_quotient_is_monotone(
                nanos * pow2(82),
                later_nanos * pow2(82),
                1_000_000_000,
            );
            lemma_as_double_is_monotone(a, b);
        } else if later_secs <= 0x20_0000_0000_0000 {
            lemma_small_is_exact(secs);
            lemma_small_is_exact(later_secs);
            assert(a <= b);
            lemma_as_double_is_monotone(a, b);
        } else {
            lemma_small_term_is_lost(later_secs, 82, fraction(later_nanos) as nat);
            if secs < 0x20_0000_0000_0000 {
                lemma_small_is_exact(secs);
                lemma_small_is_exact(0x20_0000_0000_0000);
                lemma_as_double_is_monotone(0x20_0000_0000_0000, later_secs);
                lemma_as_double_is_monotone(a, b);
            } else {
                lemma_small_term_is_lost(secs, 82, fraction(nanos) as nat);
            }
        }
        lemma_as_double_error(a);
    }
    assert(0 <= x * sample_rate <= y * sample_rate) by (nonlinear_arith)
        requires
            0 <= x <= y,
            0 <= sample_rate,
    ;
    lemma_as_double_is_monotone((x * sample_rate) as nat, (y * sample_rate) as nat);
    lemma_nearest_is_monotone(
        as_double((x * sample_rate) as nat),
        as_double((y * sample_rate) as nat),
        pow2(82) as int,
    );
}

/// A time names the nearest frame: the two are at most half a frame apart, and the four
/// parts in `2^53` that rounding to doubles can add up to.
pub proof fn lemma_time_names_the_nearest_frame(secs: nat, nanos: nat, sample_rate: nat)
    requires
        nanos < 1_000_000_000,
    ensures
        ({
            let exact = (secs * 1_000_000_000 + nanos) * sample_rate;
            let frame = nearest_frame(seconds(secs, nanos), sample_rate);
            let most = 0x20_0000_0000_0000 * 1_000_000_000 + 8 * exact;
            &&& 0 <= frame
            &&& -most <= 0x40_0000_0000_0000 * (frame * 1_000_000_000 - exact) <= most
        }),
{
    lemma_units();
    lemma_fraction(nanos);
    let a = as_double(secs);
    let q = fraction(nanos);
    let sum = (a * pow2(82) + q) as nat;
    let x = as_double(sum);
    assert(nanos * pow2(82) == nanos * 0x4_0000_0000_0000_0000_0000) by (nonlinear_arith)
        requires
            pow2(82) == 0x4_0000_0000_0000_0000_0000,
    ;
    assert(a * pow2(82) == a * 0x4_0000_0000_0000_0000_0000) by (nonlinear_arith)
        requires
            pow2(82) == 0x4_0000_0000_0000_0000_0000,
    ;
    lemma_as_double_error(secs);
    lemma_as_double_error(sum);
    let total = secs * 1_000_000_000 + nanos;
    let whole = total * 0x4_0000_0000_0000_0000_0000;
    let off = x * 1_000_000_000 - whole;
    let bound = 0x40_0000_0000_0001 * whole;
    assert(0 <= a);
    assert(sum == a * 0x4_0000_0000_0000_0000_0000 + q);
    assert(0 <= x);
    assert(-whole <= 0x20_0000_0000_0000 * (sum * 1_000_000_000 - whole) <= whole);
    assert(-bound <= 0x400_0000_0000_0000_0000_0000_0000 * off <= bound);

    let product = (x * sample_rate) as nat;
    let exact = total * sample_rate;
    assert(0 <= x * sample_rate && 0 <= exact) by (nonlinear_arith)
        requires
            0 <= x,
            0 <= total,
            exact == total * sample_rate,
    ;
    let units = exact * 0x4_0000_0000_0000_0000_0000;
    let most = 0x40_0000_0000_0001 * units;
    assert(-most <= 0x400_0000_0000_0000_0000_0000_0000 * (product * 1_000_000_000 - units)
        <= most) by (nonlinear_arith)
        requires
            -bound <= 0x400_0000_0000_0000_0000_0000_0000 * off <= bound,
            off == x * 1_000_000_000 - total * 0x4_0000_0000_0000_0000_0000,
            bound == 0x40_0000_0000_0001 * (total * 0x4_0000_0000_0000_0000_0000),
            most == 0x40_0000_0000_0001 * units,
            units == exact * 0x4_0000_0000_0000_0000_0000,
            product == x * sample_rate,
            exact == total * sample_rate,
            0 <= sample_rate,
    ;
    let p = as_double(product);
    lemma_as_double_error(product);
    lemma_nearest_bound(p, pow2(82) as int);
    let frame = nearest(p, pow2(82) as int);
    assert(frame * pow2(82) == frame * 0x4_0000_0000_0000_0000_0000) by (nonlinear_arith)
        requires
            pow2(82) == 0x4_0000_0000_0000_0000_0000,
    ;
    assert(-4 * units <= 0x20_0000_0000_0000 * (p * 1_000_000_000 - units) <= 4 * units);
}

/// The time of a frame names that frame again: a position derived from a frame index does
/// not move a frame earlier, although its nanoseconds are cut off. That holds as long as
/// cutting them off and rounding to doubles cost less than half a frame, such as for
/// every frame below `2^48` at a rate of up to 250 MHz.
pub proof fn lemma_time_of_a_frame_is_that_frame(frame: nat, sample_rate: nat)
    requires
        0 < sample_rate,
        frame <= usize::MAX,
        2 * (0x20_0000_0000_0000 * sample_rate + 4_000_000_000 * frame)
            <= 0x20_0000_0000_0000 * 1_000_000_000,
    ensures
        ({
            let nanos = frame * 1_000_000_000 / sample_rate;
            frame_at(nanos / 1_000_000_000, nanos % 1_000_000_000, sample_rate) == frame
        }),
{
    let nanos = frame * 1_000_000_000 / sample_rate;
    lemma_fundamental_div_mod((frame * 1_000_000_000) as int, sample_rate as int);
    assert(sample_rate * nanos == nanos * sample_rate) by (nonlinear_arith);
    lemma_time_names_the_nearest_frame(
        nanos / 1_000_000_000,
        nanos % 1_000_000_000,
        sample_rate,
    );
}

/// A frame position names its frame, a time the frame nearest to it, and the default none.
/// The nearest frame is at most half a frame away from the time, seconds and fraction
/// together, and the four parts in `2^53` that rounding to doubles can add up to. A time
/// whose frame is beyond the last that can be named stands for that one.
pub proof fn lemma_positions_name_frames(position: Position, sample_rate: u32)
    requires
        position matches Position::Time(duration) ==> duration_subsec_nanos(duration)
            < 1_000_000_000,
    ensures
        match position {
            Position::Default => frame_of(position, sample_rate) is None,
            Position::Frame(n) => frame_of(position, sample_rate) == Some(n),
            Position::Time(duration) => frame_of(position, sample_rate) matches Some(frame) && {
                let exact = (duration_secs(duration) * 1_000_000_000 + duration_subsec_nanos(
                    duration,
                )) * sample_rate;
                let most = 0x20_0000_0000_0000 * 1_000_000_000 + 8 * exact;
                &&& 0x40_0000_0000_0000 * (frame * 1_000_000_000 - exact) <= most
                &&& frame < usize::MAX ==> -most <= 0x40_0000_0000_0000 * (frame * 1_000_000_000
                    - exact)
                &&& frame == usize::MAX ==> -most <= 0x40_0000_0000_0000 * (exact - frame
                    * 1_000_000_000)
            },
        },
{
    if let Position::Time(duration) = position {
        lemma_time_names_the_nearest_frame(
            duration_secs(duration) as nat,
            duration_subsec_nanos(duration) as nat,
            sample_rate as nat,
        );
    }
}

/// A time that lies on a frame names exactly that frame, as long as rounding to doubles
/// costs less than half a frame.
pub proof fn lemma_times_on_a_frame_are_exact(duration: Duration, sample_rate: u32, frame: int)
    requires
        duration_subsec_nanos(duration) < 1_000_000_000,
        (duration_secs(duration) * 1_000_000_000 + duration_subsec_nanos(duration)) * sample_rate
            == frame * 1_000_000_000,
        0 <= frame <= usize::MAX,
        8 * frame < 0x20_0000_0000_0000,
    ensures
        frame_of(Position::Time(duration), sample_rate) == Some(frame as usize),
{
    lemma_time_names_the_nearest_frame(
        duration_secs(duration) as nat,
        duration_subsec_nanos(duration) as nat,
        sample_rate as nat,
    );
}

/// A later time position never names an earlier frame.
pub proof fn lemma_later_positions_name_later_frames(
    earlier: Duration,
    later: Duration,
    sample_rate: u32,
)
    requires
        duration_subsec_nanos(earlier) < 1_000_000_000,
        duration_subsec_nanos(later) < 1_000_000_000,
        duration_secs(earlier) * 1_000_000_000 + duration_subsec_nanos(earlier) <= duration_secs(
            later,
        ) * 1_000_000_000 + duration_subsec_nanos(later),
    ensures
        frame_of(Position::Time(earlier), sample_rate)->0 <= frame_of(
            Position::Time(later),
            sample_rate,
        )->0,
{
    lemma_time_positions_are_ordered(
        duration_secs(earlier) as nat,
        duration_subsec_nanos(earlier) as nat,
        duration_secs(later) as nat,
        duration_subsec_nanos(later) as nat,
        sample_rate as nat,
    );
    lemma_time_names_the_nearest_frame(
        duration_secs(earlier) as nat,
        duration_subsec_nanos(earlier) as nat,
        sample_rate as nat,
    );
    lemma_time_names_the_nearest_frame(
        duration_secs(later) as nat,
        duration_subsec_nanos(later) as nat,
        sample_rate as nat,
    );
}

/// A time that doubles hold exactly, a whole number of 512ths of a second, names the frame
/// nearest to it exactly, and where it lies half way between two frames the later one.
pub proof fn lemma_exact_times_round_half_up(duration: Duration, sample_rate: u32, parts: int)
    requires
        0 <= parts < 512,
        duration_subsec_nanos(duration) == 1_953_125 * parts,
        512 * duration_secs(duration) + parts < 0x20_0000_0000_0000,
        (512 * duration_secs(duration) + parts) * sample_rate < 0x20_0000_0000_0000,
        (512 * duration_secs(duration) + parts) * sample_rate <= 512 * (usize::MAX - 1),
    ensures
        frame_of(Position::Time(duration), sample_rate) matches Some(frame) && -512 < 2 * (512
            * frame - (512 * duration_secs(duration) + parts) * sample_rate) <= 512,
{
    let secs = duration_secs(duration) as nat;
    let nanos = duration_subsec_nanos(duration) as nat;
    let whole = (512 * secs + parts) as nat;
    let product = (whole * sample_rate) as nat;
    lemma_units();
    lemma2_to64();
    lemma2_to64_rest();
    lemma_pow2_adds(64, 9);
    let unit = pow2(73);
    assert(unit == 0x200_0000_0000_0000_0000);
    // Each step is exact.

    let part = (parts * unit) as nat;
    lemma_small_is_exact(parts as nat);
    lemma_as_double_scaled(parts as nat, 73);
    assert(parts * unit == parts * 0x200_0000_0000_0000_0000) by (nonlinear_arith)
        requires
            unit == 0x200_0000_0000_0000_0000,
    ;
    assert(nanos * pow2(82) == nanos * 0x4_0000_0000_0000_0000_0000) by (nonlinear_arith)
        requires
            pow2(82) == 0x4_0000_0000_0000_0000_0000,
    ;
    assert(nanos * pow2(82) == part * 1_000_000_000);
    lemma_quotient_exact(part, 1_000_000_000);
    assert(fraction(nanos) == part);

    lemma_small_is_exact(secs);
    assert(secs * pow2(82) == secs * 0x4_0000_0000_0000_0000_0000) by (nonlinear_arith)
        requires
            pow2(82) == 0x4_0000_0000_0000_0000_0000,
    ;
    assert(whole * unit == whole * 0x200_0000_0000_0000_0000) by (nonlinear_arith)
        requires
            unit == 0x200_0000_0000_0000_0000,
    ;
    assert(secs * pow2(82) + part == whole * unit);
    lemma_small_is_exact(whole);
    lemma_as_double_scaled(whole, 73);
    assert(seconds(secs, nanos) == whole * unit);

    assert(whole * unit * sample_rate == product * unit) by (nonlinear_arith)
        requires
            product == whole * sample_rate,
    ;
    assert(0 <= whole * sample_rate) by (nonlinear_arith)
        requires
            0 <= whole,
            0 <= sample_rate,
    ;
    lemma_small_is_exact(product);
    lemma_as_double_scaled(product, 73);
    lemma_nearest_scaled(product as int, 512, unit as int);
    lemma_nearest_bound(product as int, 512);
    let frame = nearest(product as int, 512);
    assert(512 * unit == pow2(82));
    assert(nearest_frame(seconds(secs, nanos), sample_rate as nat) == frame);
}

/// Times are turned into frames in double precision: the whole seconds, the fraction, their
/// sum and its product with the sample rate are each rounded to a double, and the product
/// to the nearest frame, a tie going to the later one. The last frame that can be named
/// bounds it.
pub proof fn lemma_times_are_calculated_in_double_precision(duration: Duration, sample_rate: u32)
    requires
        duration_subsec_nanos(duration) < 1_000_000_000,
    ensures
        ({
            let unit = 0x4_0000_0000_0000_0000_0000int;
            let part = quotient_as_double(
                (duration_subsec_nanos(duration) * unit) as nat,
                1_000_000_000,
            );
            let sum = as_double((as_double(duration_secs(duration) as nat) * unit + part) as nat);
            let product = as_double((sum * sample_rate) as nat);
            frame_of(Position::Time(duration), sample_rate) matches Some(frame) && {
                &&& 2 * (frame * unit - product) <= unit
                &&& frame == usize::MAX || -unit < 2 * (frame * unit - product)
            }
        }),
{
    let secs = duration_secs(duration) as nat;
    let nanos = duration_subsec_nanos(duration) as nat;
    lemma_units();
    lemma_time_names_the_nearest_frame(secs, nanos, sample_rate as nat);
    let product = as_double((seconds(secs, nanos) * sample_rate) as nat);
    lemma_nearest_bound(product, pow2(82) as int);
}

} // verus!
