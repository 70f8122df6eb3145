//! Timestamps, frames, and when seeking is worth it.
//!
//! A compressed format has no formula for where frame `n` lives: the position of a
//! decoded packet has to be recovered from its timestamp, and a seek landing has
//! to be verified rather than trusted.

use vstd::prelude::*;

use crate::text::same_text;

verus! {

/// The length of a timestamp tick, as a fraction of a second.
#[derive(Debug, Clone, Copy, PartialEq, Eq, Structural)]
pub struct TimeBase {
    pub numer: u32,
    pub denom: u32,
}

impl TimeBase {
    /// Whether the fraction is a positive number.
    pub open spec fn wf(self) -> bool {
        self.numer > 0 && self.denom > 0
    }

    /// The time base `numer / denom`, unless either is zero.
    pub fn try_new(numer: u32, denom: u32) -> (tb: Option<Self>)
        ensures
            tb == (if numer > 0 && denom > 0 {
                Some(TimeBase { numer, denom })
            } else {
                None
            }),
    {
        if numer > 0 && denom > 0 {
            Some(TimeBase { numer, denom })
        } else {
            None
        }
    }

    /// The frames a tick spans are `tick_frames / denom`.
    pub open spec fn tick_frames(self, sample_rate: u32) -> int {
        self.numer * sample_rate
    }
}

/// The unsigned 64-bit number nearest to `v`.
pub open spec fn saturated(v: int) -> u64 {
    if v > u64::MAX {
        u64::MAX
    } else if v < 0 {
        0
    } else {
        v as u64
    }
}

/// The frame a timestamp and a subsequent trim refer to. Fractions of a frame are
/// cut off, on either side of zero, and what lies before the first frame or beyond
/// the last that can be named becomes that frame.
pub open spec fn timestamp_frame(ts: i64, trim_start: u64, tb: TimeBase, sample_rate: u32) -> u64 {
    let frames = if ts < 0 {
        -((-ts) * tb.tick_frames(sample_rate) / tb.denom as int)
    } else {
        ts * tb.tick_frames(sample_rate) / tb.denom as int
    };
    saturated(frames + trim_start)
}

/// The frames of a tick fit into 64 bits.
proof fn lemma_tick_frames_bound(tb: TimeBase, sample_rate: u32)
    ensures
        0 <= tb.tick_frames(sample_rate) <= 0xffff_ffff * 0xffff_ffff,
{
    assert(0 <= tb.numer * sample_rate <= 0xffff_ffff * 0xffff_ffff) by (nonlinear_arith)
        requires
            0 <= tb.numer <= 0xffff_ffff,
            0 <= sample_rate <= 0xffff_ffff,
    ;
}

/// Frame index that a signed timestamp and subsequent frame trim refer to.
pub fn timestamp_to_frame(ts: i64, trim_start: u64, tb: TimeBase, sample_rate: u32) -> (frame: u64)
    requires
        tb.wf(),
    ensures
        frame == timestamp_frame(ts, trim_start, tb, sample_rate),
{
    proof {
        lemma_tick_frames_bound(tb, sample_rate);
    }
    let per_tick: u128 = (tb.numer as u128) * (sample_rate as u128);
    let magnitude: u128 = if ts < 0 {
        (-(ts as i128)) as u128
    } else {
        ts as u128
    };
    assert(0 <= magnitude * per_tick <= 0x8000_0000_0000_0000 * (0xffff_ffff * 0xffff_ffff))
        by (nonlinear_arith)
        requires
            0 <= magnitude <= 0x8000_0000_0000_0000,
            0 <= per_tick <= 0xffff_ffff * 0xffff_ffff,
    ;
    let product: u128 = magnitude * per_tick;
    let frames: u128 = product / (tb.denom as u128);
    assert(0 <= frames <= product) by (nonlinear_arith)
        requires
            frames == product / (tb.denom as u128),
            tb.denom > 0,
    ;
    let trim: u128 = trim_start as u128;
    if ts < 0 {
        if frames >= trim {
            0
        } else {
            (trim - frames) as u64
        }
    } else {
        let sum: u128 = frames + trim;
        if sum > 0xffff_ffff_ffff_ffff {
            0xffff_ffff_ffff_ffff
        } else {
            sum as u64
        }
    }
}

/// Largest number of frames one timestamp tick can span.
pub open spec fn tick_span(tb: TimeBase, sample_rate: u32) -> int {
    (tb.tick_frames(sample_rate) + tb.denom - 1) / tb.denom as int
}

/// Largest number of frames one timestamp tick can span, which bounds how far a
/// timestamp can be from the frame it refers to.
pub fn frames_per_tick(tb: TimeBase, sample_rate: u32) -> (frames: u64)
    requires
        tb.wf(),
    ensures
        frames == tick_span(tb, sample_rate),
{
    proof {
        lemma_tick_frames_bound(tb, sample_rate);
        let n = tb.tick_frames(sample_rate);
        assert(0 <= (n + tb.denom - 1) / tb.denom as int <= n) by (nonlinear_arith)
            requires
                0 <= n,
                0 < tb.denom,
        ;
    }
    let numer: u128 = (tb.numer as u128) * (sample_rate as u128);
    let denom: u128 = tb.denom as u128;
    ((numer + (denom - 1)) / denom) as u64
}

/// Whether each timestamp tick maps to an exact audio-frame boundary.
pub open spec fn exact_frames(tb: TimeBase, sample_rate: u32) -> bool {
    tb.tick_frames(sample_rate) % tb.denom as int == 0
}

/// Whether each timestamp tick maps to an exact audio-frame boundary.
pub fn time_base_has_exact_frames(tb: TimeBase, sample_rate: u32) -> (exact: bool)
    requires
        tb.wf(),
    ensures
        exact == exact_frames(tb, sample_rate),
{
    proof {
        lemma_tick_frames_bound(tb, sample_rate);
    }
    ((tb.numer as u64) * (sample_rate as u64)) % (tb.denom as u64) == 0
}

/// The timestamp of a frame, cut off to a whole tick and to 64 bits.
pub open spec fn frame_timestamp(frame: u64, tb: TimeBase, sample_rate: u32) -> u64 {
    ((frame * tb.denom / tb.tick_frames(sample_rate)) % 0x1_0000_0000_0000_0000) as u64
}

/// Timestamp that refers to the frame at index `frame`.
pub fn frames_to_ts(frame: u64, tb: TimeBase, sample_rate: u32) -> (ts: u64)
    requires
        tb.wf(),
        sample_rate > 0,
    ensures
        ts == frame_timestamp(frame, tb, sample_rate),
{
    proof {
        lemma_tick_frames_bound(tb, sample_rate);
        assert(0 < tb.numer * sample_rate) by (nonlinear_arith)
            requires
                0 < tb.numer,
                0 < sample_rate,
        ;
        assert(0 <= frame * tb.denom <= 0xffff_ffff_ffff_ffff * 0xffff_ffff) by (nonlinear_arith)
            requires
                0 <= frame <= 0xffff_ffff_ffff_ffff,
                0 <= tb.denom <= 0xffff_ffff,
        ;
    }
    let dividend: u128 = (frame as u128) * (tb.denom as u128);
    let divisor: u128 = (tb.numer as u128) * (sample_rate as u128);
    let quotient: u128 = dividend / divisor;
    (quotient % 0x1_0000_0000_0000_0000) as u64
}

/// Whether to seek to the requested start instead of decoding up to it.
pub open spec fn seek_is_worth_it(
    start_frame: usize,
    sample_rate: u32,
    tb: TimeBase,
    format_name: Seq<char>,
) -> bool {
    &&& start_frame > sample_rate
    &&& exact_frames(tb, sample_rate)
    &&& format_name != "matroska"@
}

/// Whether to seek to the requested start instead of decoding up to it.
///
/// Seeking avoids decoding data that is thrown away again, but it is only worth
/// it, and only frame-exact, under all of these conditions:
///
/// - The offset is more than one second. Below that the seek overhead is not worth
///   it, and decoding from the beginning while discarding samples is simpler.
/// - Every timestamp tick maps to a whole number of audio frames, so that the seek
///   target and the landing can be expressed exactly.
/// - The container is not Matroska, whose accurate seek lands on a cue point that
///   can be well after the requested target. The landing is still validated for
///   every container, so this only avoids the wasted attempt.
pub fn should_seek(start_frame: usize, sample_rate: u32, tb: TimeBase, format_name: &str) -> (seek:
    bool)
    requires
        tb.wf(),
    ensures
        seek == seek_is_worth_it(start_frame, sample_rate, tb, format_name@),
{
    start_frame as u64 > sample_rate as u64 && time_base_has_exact_frames(tb, sample_rate)
        && !same_text(format_name, "matroska")
}

/// The timestamp to seek to: one second before the requested start, to give codecs
/// with inter-frame dependencies time to warm up.
pub open spec fn target_timestamp(start_frame: usize, tb: TimeBase, sample_rate: u32) -> i64 {
    let ts = frame_timestamp(saturated(start_frame - sample_rate), tb, sample_rate);
    if ts > i64::MAX {
        i64::MAX
    } else {
        ts as i64
    }
}

/// The timestamp to seek to so that `start_frame` can still be decoded.
pub fn seek_target(start_frame: usize, tb: TimeBase, sample_rate: u32) -> (ts: i64)
    requires
        tb.wf(),
        sample_rate > 0,
    ensures
        ts == target_timestamp(start_frame, tb, sample_rate),
{
    let target: u64 = (start_frame as u64).saturating_sub(sample_rate as u64);
    let ts: u64 = frames_to_ts(target, tb, sample_rate);
    if ts > 0x7fff_ffff_ffff_ffff {
        0x7fff_ffff_ffff_ffff
    } else {
        ts as i64
    }
}

/// Whether a seek landed early enough to decode the requested start frame.
pub fn seek_landing_is_safe(actual_ts: i64, start_frame: u64, tb: TimeBase, sample_rate: u32) -> (
safe: bool)
    requires
        tb.wf(),
    ensures
        safe == (timestamp_frame(actual_ts, 0, tb, sample_rate) <= start_frame),
{
    timestamp_to_frame(actual_ts, 0, tb, sample_rate) <= start_frame
}

/// Whether a seek left the format reader where `start_frame` can still be decoded.
/// `landing` is the timestamp it reported, if it succeeded at all.
pub open spec fn landed_before(
    landing: Option<i64>,
    start_frame: usize,
    tb: TimeBase,
    sample_rate: u32,
) -> bool {
    landing matches Some(ts) && timestamp_frame(ts, 0, tb, sample_rate) <= start_frame
}

/// Report whether a seek left the format reader where `start_frame` can still be
/// decoded.
///
/// Some format readers land after the requested start; such a landing cannot
/// produce the full requested range, and neither can a seek that failed outright.
/// Both leave the format reader at an unspecified position, so a `false` return
/// means the caller has to reopen the file.
pub fn seek_before(landing: Option<i64>, start_frame: usize, tb: TimeBase, sample_rate: u32) -> (
usable: bool)
    requires
        tb.wf(),
    ensures
        usable == landed_before(landing, start_frame, tb, sample_rate),
{
    match landing {
        Some(ts) => seek_landing_is_safe(ts, start_frame as u64, tb, sample_rate),
        None => false,
    }
}

/// A timestamp is never further than one tick behind the frame it was made from,
/// and never ahead of it.
pub proof fn lemma_timestamps_are_off_by_less_than_a_tick(
    frame: u64,
    tb: TimeBase,
    sample_rate: u32,
)
    requires
        tb.wf(),
        sample_rate > 0,
        frame * tb.denom / tb.tick_frames(sample_rate) <= i64::MAX,
    ensures
        ({
            let ts = frame_timestamp(frame, tb, sample_rate) as i64;
            let back = timestamp_frame(ts, 0, tb, sample_rate);
            back <= frame && frame - back <= tick_span(tb, sample_rate)
        }),
{
    let n = tb.tick_frames(sample_rate);
    let d = tb.denom as int;
    lemma_tick_frames_bound(tb, sample_rate);
    assert(0 < n) by (nonlinear_arith)
        requires
            n == tb.numer * sample_rate,
            0 < tb.numer,
            0 < sample_rate,
    ;
    let t = frame * d / n;
    assert(0 <= t) by (nonlinear_arith)
        requires
            t == frame * d / n,
            0 <= frame,
            0 < d,
            0 < n,
    ;
    assert(t * n <= frame * d < t * n + n) by (nonlinear_arith)
        requires
            t == frame * d / n,
            0 < n,
    ;
    let back = t * n / d;
    assert(0 <= back <= frame && back * d <= t * n < back * d + d) by (nonlinear_arith)
        requires
            back == t * n / d,
            0 < d,
            0 < n,
            0 <= t,
            t * n <= frame * d,
    ;
    let span = tick_span(tb, sample_rate);
    assert(frame - back <= span) by (nonlinear_arith)
        requires
            span == (n + d - 1) / d,
            0 < d,
            frame * d < t * n + n,
            t * n < back * d + d,
            back <= frame,
    ;
}

/// Where every tick is a whole number of frames, the timestamp of a frame on a tick
/// names that frame again, so seek targets and landings are frame-exact.
pub proof fn lemma_exact_time_bases_are_frame_exact(ticks: int, tb: TimeBase, sample_rate: u32)
    requires
        tb.wf(),
        sample_rate > 0,
        exact_frames(tb, sample_rate),
        0 <= ticks <= i64::MAX,
        ticks * (tb.tick_frames(sample_rate) / tb.denom as int) <= u64::MAX,
    ensures
        ({
            let frame = ticks * (tb.tick_frames(sample_rate) / tb.denom as int);
            &&& timestamp_frame(ticks as i64, 0, tb, sample_rate) == frame
            &&& frame_timestamp(frame as u64, tb, sample_rate) == ticks
        }),
{
    let n = tb.tick_frames(sample_rate);
    let d = tb.denom as int;
    let k = n / d;
    lemma_tick_frames_bound(tb, sample_rate);
    assert(0 < n) by (nonlinear_arith)
        requires
            n == tb.numer * sample_rate,
            0 < tb.numer,
            0 < sample_rate,
    ;
    vstd::arithmetic::div_mod::lemma_fundamental_div_mod(n, d);
    let frame = ticks * k;
    assert(0 <= frame && ticks * n == frame * d) by (nonlinear_arith)
        requires
            n == d * k,
            frame == ticks * k,
            0 <= ticks,
            0 < n,
            0 < d,
    ;
    vstd::arithmetic::div_mod::lemma_div_multiples_vanish(frame, d);
    vstd::arithmetic::div_mod::lemma_div_multiples_vanish(ticks, n);
    assert(d * frame == frame * d && n * ticks == ticks * n) by (nonlinear_arith);
}

} // verus!
