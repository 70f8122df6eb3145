//! Where packets go, and what comes of the other things a read is told.
//!
//! The laws here say it in terms of timestamps, frames and samples alone.

use vstd::prelude::*;

use super::general::{
    after_failure, after_packet, after_placing, after_reopening, after_reset, after_seek,
    after_track_change, at_the_beginning, blocks_ahead, description, filled, grid_point,
    lemma_no_grid_point_is_nearer, repeated, snapped, Cursor, Damage, Failure, PacketInfo, Step,
};
use super::timing::{
    exact_frames, frame_timestamp, landed_before, seek_is_worth_it, target_timestamp, tick_span,
    timestamp_frame, TimeBase,
};
use super::track::{declared, TrackInfo};
use super::{plan_of, Plan, ReadConfig, ReadError, MAX_PREALLOC_SAMPLES};
use crate::select::{lemma_pick_index, lemma_pick_len, pick};

verus! {

/// The frame of a timestamp: the last whole one that its ticks, of `numer / denom` seconds
/// each, make up at the sample rate of the stream, and the trimmed frames on top of it.
/// What lies before the first frame becomes the first, and what lies beyond the last that
/// can be named becomes that one.
pub proof fn lemma_timestamps_count_ticks(ts: i64, trim: u64, tb: TimeBase, sample_rate: u32)
    requires
        tb.numer > 0,
        tb.denom > 0,
    ensures
        ({
            let frame = timestamp_frame(ts, trim, tb, sample_rate);
            let ticks = ts * (tb.numer * sample_rate);
            let whole = frame - trim;
            &&& ts >= 0 ==> {
                &&& trim <= frame
                &&& whole * tb.denom <= ticks
                &&& frame < u64::MAX ==> ticks < (whole + 1) * tb.denom
            }
            &&& ts < 0 ==> {
                &&& frame <= trim
                &&& frame > 0 ==> (whole - 1) * tb.denom < ticks <= whole * tb.denom
                &&& frame == 0 ==> ticks <= -trim * tb.denom
            }
        }),
{
    let n = tb.numer * sample_rate;
    let d = tb.denom as int;
    assert(0 <= n) by (nonlinear_arith)
        requires
            n == tb.numer * sample_rate,
            0 <= tb.numer,
            0 <= sample_rate,
    ;
    let size: int = if ts < 0 {
        -ts
    } else {
        ts as int
    };
    let product = size * n;
    let q = product / d;
    assert(0 <= product) by (nonlinear_arith)
        requires
            product == size * n,
            0 <= size,
            0 <= n,
    ;
    vstd::arithmetic::div_mod::lemma_fundamental_div_mod(product, d);
    assert(0 <= q) by (nonlinear_arith)
        requires
            q == product / d,
            0 <= product,
            0 < d,
    ;
    assert(q * d <= product < (q + 1) * d) by (nonlinear_arith)
        requires
            product == d * q + product % d,
            0 <= product % d < d,
    ;
    assert(ts * n == if ts < 0 {
        -product
    } else {
        product
    }) by (nonlinear_arith)
        requires
            product == size * n,
            size == if ts < 0 {
                -ts
            } else {
                ts as int
            },
    ;
    let frame = timestamp_frame(ts, trim, tb, sample_rate);
    let whole = frame - trim;
    if ts >= 0 {
        assert(whole * d <= q * d) by (nonlinear_arith)
            requires
                whole <= q,
                0 < d,
        ;
    } else if frame > 0 {
        assert(whole == -q);
        assert((-q) * d == -(q * d) && (-q - 1) * d == -((q + 1) * d)) by (nonlinear_arith);
    } else {
        assert(trim * d <= q * d && -trim * d == -(trim * d)) by (nonlinear_arith)
            requires
                trim <= q,
                0 < d,
        ;
    }
}

/// Where a packet starts: where the frames before it ended, as long as that is known. After
/// a seek, a reset or a hole its timestamp counts, at the sample rate of the stream and from
/// the beginning of the track on; a packet without frames starts nowhere then. Without a
/// time base there is nothing to count but the beginning of the track.
pub proof fn lemma_packets_start_where_their_timestamps_say(
    cursor: Cursor,
    plan: Plan,
    packet: PacketInfo,
)
    requires
        cursor.track.time_base matches Some(tb) ==> tb.numer > 0 && tb.denom > 0,
    ensures
        cursor.position is Some ==> cursor.packet_start(plan, packet) == cursor.position,
        cursor.position is None && packet.frames == 0 ==> cursor.packet_start(plan, packet) is None,
        cursor.position is None && packet.frames > 0 ==> cursor.packet_start(plan, packet) is Some,
        cursor.position is None && packet.frames > 0 && cursor.track.time_base is None
            ==> cursor.packet_start(plan, packet) == Some(cursor.stream_base),
        cursor.position is None && packet.frames > 0 && cursor.grid_anchor is None ==> (
        cursor.track.time_base matches Some(tb) ==> {
            let start = cursor.packet_start(plan, packet)->0;
            let ticks = packet.pts * (tb.numer * plan.sample_rate);
            let whole = start - cursor.stream_base - packet.trim_start;
            &&& cursor.stream_base <= start
            &&& packet.pts < 0 ==> start <= cursor.stream_base + packet.trim_start
            &&& packet.pts >= 0 ==> {
                &&& whole * tb.denom <= ticks
                &&& start < u64::MAX ==> ticks < (whole + 1) * tb.denom && 0 <= whole
            }
            &&& packet.pts < 0 && start < u64::MAX ==> {
                &&& whole <= 0
                &&& start > cursor.stream_base ==> (whole - 1) * tb.denom < ticks <= whole
                    * tb.denom
                &&& start == cursor.stream_base ==> ticks <= -packet.trim_start * tb.denom
            }
        }),
{
    if let Some(tb) = cursor.track.time_base {
        lemma_timestamps_count_ticks(packet.pts, packet.trim_start, tb, plan.sample_rate);
        if cursor.position is None && packet.frames > 0 && cursor.grid_anchor is None {
            let frame = timestamp_frame(
                packet.pts,
                packet.trim_start,
                tb,
                plan.sample_rate,
            );
            let start = cursor.packet_start(plan, packet)->0;
            let whole = start - cursor.stream_base - packet.trim_start;
            assert(start <= cursor.stream_base + frame);
            assert(whole * tb.denom <= (frame - packet.trim_start) * tb.denom) by (nonlinear_arith)
                requires
                    whole <= frame - packet.trim_start,
                    0 < tb.denom,
            ;
            if start < u64::MAX {
                assert(start == cursor.stream_base + frame);
                assert(whole == frame - packet.trim_start);
            }
        }
    }
}

/// Where every tick is a whole number of frames at the sample rate of the stream, a packet
/// at a known timestamp starts exactly at that many frames times the ticks.
pub proof fn lemma_whole_ticks_are_exact(
    cursor: Cursor,
    plan: Plan,
    packet: PacketInfo,
    tb: TimeBase,
    per_tick: int,
)
    requires
        cursor.position is None,
        cursor.grid_anchor is None,
        cursor.track.time_base == Some(tb),
        tb.numer > 0,
        tb.denom > 0,
        tb.numer * plan.sample_rate == per_tick * tb.denom,
        packet.frames > 0,
        packet.pts >= 0,
        cursor.stream_base + packet.pts * per_tick + packet.trim_start < u64::MAX,
    ensures
        cursor.packet_start(plan, packet) == Some(
            (cursor.stream_base + packet.pts * per_tick + packet.trim_start) as u64,
        ),
{
    let d = tb.denom as int;
    let exact = packet.pts * per_tick;
    lemma_packets_start_where_their_timestamps_say(cursor, plan, packet);
    let start = cursor.packet_start(plan, packet)->0;
    let whole = start - cursor.stream_base - packet.trim_start;
    let ticks = packet.pts * (tb.numer * plan.sample_rate);
    assert(ticks == exact * d) by (nonlinear_arith)
        requires
            ticks == packet.pts * (tb.numer * plan.sample_rate),
            tb.numer * plan.sample_rate == per_tick * d,
            exact == packet.pts * per_tick,
    ;
    assert(whole <= exact) by (nonlinear_arith)
        requires
            whole * d <= exact * d,
            0 < d,
    ;
    assert(exact <= whole) by (nonlinear_arith)
        requires
            exact * d < (whole + 1) * d,
            0 < d,
    ;
}

/// After a hole, a packet starts at the point of the packet grid nearest to where its
/// timestamp alone would put it, if that lies within a tick: the grid begins where the last
/// packet before the hole ended, and its points are the length of this packet apart.
pub proof fn lemma_packets_after_a_hole_snap_to_the_grid(
    cursor: Cursor,
    plan: Plan,
    packet: PacketInfo,
    tb: TimeBase,
    anchor: u64,
)
    requires
        cursor.position is None,
        cursor.track.time_base == Some(tb),
        cursor.grid_anchor == Some(anchor),
        packet.frames > 0,
    ensures
        ({
            let alone = Cursor { grid_anchor: None, ..cursor };
            let estimate = alone.packet_start(plan, packet)->0;
            cursor.packet_start(plan, packet) == Some(
                snapped(
                    estimate as int,
                    anchor as int,
                    packet.frames as int,
                    tick_span(tb, plan.sample_rate),
                ) as u64,
            )
        }),
{
}

/// A tick spans at most the frames of [`tick_span`], and more than one less.
pub proof fn lemma_tick_span_is_the_least_bound(tb: TimeBase, sample_rate: u32)
    requires
        tb.denom > 0,
    ensures
        (tick_span(tb, sample_rate) - 1) * tb.denom < tb.numer * sample_rate <= tick_span(
            tb,
            sample_rate,
        ) * tb.denom,
{
    let n = tb.numer * sample_rate;
    let d = tb.denom as int;
    let span = tick_span(tb, sample_rate);
    assert((span - 1) * d < n <= span * d) by (nonlinear_arith)
        requires
            span == (n + d - 1) / d,
            0 < d,
    ;
}

/// A seek is worth it exactly where the start is more than a second in, every tick is a
/// whole number of frames, and the container is not Matroska.
pub proof fn lemma_when_to_seek(
    start_frame: usize,
    sample_rate: u32,
    tb: TimeBase,
    format_name: Seq<char>,
)
    requires
        tb.denom > 0,
    ensures
        seek_is_worth_it(start_frame, sample_rate, tb, format_name) ==> {
            &&& start_frame > sample_rate
            &&& exists|per_tick: int| #[trigger] (per_tick * tb.denom) == tb.numer * sample_rate
            &&& format_name != "matroska"@
        },
        forall|per_tick: int|
            start_frame > sample_rate && #[trigger] (per_tick * tb.denom) == tb.numer * sample_rate
                && format_name != "matroska"@ ==> seek_is_worth_it(
                start_frame,
                sample_rate,
                tb,
                format_name,
            ),
{
    let n = tb.numer * sample_rate;
    let d = tb.denom as int;
    vstd::arithmetic::div_mod::lemma_fundamental_div_mod(n, d);
    if exact_frames(tb, sample_rate) {
        let k = n / d;
        assert(k * d == n) by (nonlinear_arith)
            requires
                n == d * k,
        ;
    }
    assert forall|per_tick: int|
        start_frame > sample_rate && #[trigger] (per_tick * tb.denom) == tb.numer * sample_rate
            && format_name != "matroska"@ implies seek_is_worth_it(
        start_frame,
        sample_rate,
        tb,
        format_name,
    ) by {
        vstd::arithmetic::div_mod::lemma_mod_multiples_basic(per_tick, d);
    }
}

/// The timestamp of a frame is the last tick that does not lie after it, `tick`, as far as
/// 64 bits have room for it. The one to seek to is limited to what a timestamp can be.
pub proof fn lemma_timestamps_keep_64_bits(frame: u64, tb: TimeBase, sample_rate: u32, tick: int)
    requires
        tb.numer > 0,
        tb.denom > 0,
        sample_rate > 0,
        tick * (tb.numer * sample_rate) <= frame * tb.denom < (tick + 1) * (tb.numer
            * sample_rate),
    ensures
        (tick - frame_timestamp(frame, tb, sample_rate)) % 0x1_0000_0000_0000_0000 == 0,
        frame + sample_rate <= usize::MAX ==> target_timestamp(
            (frame + sample_rate) as usize,
            tb,
            sample_rate,
        ) == (if frame_timestamp(frame, tb, sample_rate) > 0x7fff_ffff_ffff_ffff {
            0x7fff_ffff_ffff_ffff
        } else {
            frame_timestamp(frame, tb, sample_rate) as int
        }),
{
    let n = tb.numer * sample_rate;
    assert(0 < n) by (nonlinear_arith)
        requires
            n == tb.numer * sample_rate,
            0 < tb.numer,
            0 < sample_rate,
    ;
    let x = frame * tb.denom;
    assert(tick == x / n) by (nonlinear_arith)
        requires
            tick * n <= x < (tick + 1) * n,
            0 < n,
    ;
    assert(0 <= tick) by (nonlinear_arith)
        requires
            x < (tick + 1) * n,
            x == frame * tb.denom,
            0 <= frame,
            0 <= tb.denom,
            0 < n,
    ;
}

/// The timestamp of a frame is the last tick that does not lie after it.
pub proof fn lemma_frames_become_the_tick_before(frame: u64, tb: TimeBase, sample_rate: u32)
    requires
        tb.numer > 0,
        tb.denom > 0,
        sample_rate > 0,
        frame * tb.denom < 0x1_0000_0000_0000_0000 * (tb.numer * sample_rate),
    ensures
        ({
            let ts = frame_timestamp(frame, tb, sample_rate);
            ts * (tb.numer * sample_rate) <= frame * tb.denom < (ts + 1) * (tb.numer * sample_rate)
        }),
{
    let n = tb.numer * sample_rate;
    assert(0 < n) by (nonlinear_arith)
        requires
            n == tb.numer * sample_rate,
            0 < tb.numer,
            0 < sample_rate,
    ;
    let x = frame * tb.denom;
    assert(0 <= x) by (nonlinear_arith)
        requires
            x == frame * tb.denom,
            0 <= frame,
            0 <= tb.denom,
    ;
    let q = x / n;
    assert(0 <= q && q * n <= x < (q + 1) * n && q < 0x1_0000_0000_0000_0000) by (nonlinear_arith)
        requires
            q == x / n,
            0 <= x,
            0 < n,
            x < 0x1_0000_0000_0000_0000 * n,
    ;
}

/// The timestamp to seek to is the last tick that lies at least a second before the start,
/// or the first one where the start is less than a second in.
pub proof fn lemma_seeks_go_one_second_early(start_frame: usize, tb: TimeBase, sample_rate: u32)
    requires
        tb.numer > 0,
        tb.denom > 0,
        sample_rate > 0,
        start_frame * tb.denom < 0x8000_0000_0000_0000 * (tb.numer * sample_rate),
    ensures
        ({
            let ts = target_timestamp(start_frame, tb, sample_rate);
            let n = tb.numer * sample_rate;
            &&& 0 <= ts
            &&& start_frame <= sample_rate ==> ts == 0
            &&& start_frame > sample_rate ==> ts * n <= (start_frame - sample_rate) * tb.denom < (ts
                + 1) * n
        }),
{
    let n = tb.numer * sample_rate;
    assert(0 < n) by (nonlinear_arith)
        requires
            n == tb.numer * sample_rate,
            0 < tb.numer,
            0 < sample_rate,
    ;
    let frame: int = if start_frame > sample_rate {
        start_frame - sample_rate
    } else {
        0
    };
    let d = tb.denom as int;
    assert(frame * d < 0x8000_0000_0000_0000 * n && 0x8000_0000_0000_0000 * n
        < 0x1_0000_0000_0000_0000 * n) by (nonlinear_arith)
        requires
            0 <= frame <= start_frame,
            start_frame * d < 0x8000_0000_0000_0000 * n,
            0 < d,
            0 < n,
    ;
    lemma_frames_become_the_tick_before(frame as u64, tb, sample_rate);
    let ts = frame_timestamp(frame as u64, tb, sample_rate);
    assert(ts < 0x8000_0000_0000_0000) by (nonlinear_arith)
        requires
            ts * n <= frame * d,
            frame * d < 0x8000_0000_0000_0000 * n,
            0 < n,
    ;
    if frame == 0 {
        assert(ts == 0) by (nonlinear_arith)
            requires
                ts * n <= 0 * d,
                0 <= ts,
                0 < n,
        ;
    }
}

/// A landing is early enough exactly where there is one and its frame does not lie after
/// the start.
pub proof fn lemma_when_a_landing_is_early_enough(
    landing: Option<i64>,
    start_frame: usize,
    tb: TimeBase,
    sample_rate: u32,
)
    requires
        tb.numer > 0,
        tb.denom > 0,
        start_frame < u64::MAX,
    ensures
        landing is None ==> !landed_before(landing, start_frame, tb, sample_rate),
        landing matches Some(ts) ==> (landed_before(landing, start_frame, tb, sample_rate) <==> ts
            * (tb.numer * sample_rate) < (start_frame + 1) * tb.denom),
{
    if let Some(ts) = landing {
        let d = tb.denom as int;
        let n = tb.numer * sample_rate;
        let ticks = ts * n;
        lemma_timestamps_count_ticks(ts, 0, tb, sample_rate);
        let frame = timestamp_frame(ts, 0, tb, sample_rate) as int;
        if ts >= 0 {
            if frame <= start_frame {
                assert(ticks < (start_frame + 1) * d) by (nonlinear_arith)
                    requires
                        ticks < (frame + 1) * d,
                        frame <= start_frame,
                        0 < d,
                ;
            } else {
                assert((start_frame + 1) * d <= ticks) by (nonlinear_arith)
                    requires
                        frame * d <= ticks,
                        start_frame + 1 <= frame,
                        0 < d,
                ;
            }
        } else {
            assert(ticks <= 0 && 0 < (start_frame + 1) * d) by (nonlinear_arith)
                requires
                    ticks == ts * n,
                    ts < 0,
                    0 <= n,
                    0 < d,
                    0 <= start_frame,
            ;
        }
    }
}

/// Snapping moves an estimate ahead of the anchor to the nearest point of the grid after
/// the anchor, where one lies within the tolerance, and leaves it alone where none does.
pub proof fn lemma_estimates_snap_to_the_nearest_point(
    estimate: int,
    anchor: int,
    block: int,
    tolerance: int,
    blocks: int,
)
    requires
        0 <= anchor,
        0 < block,
        0 <= tolerance,
        estimate + block <= u64::MAX,
        1 <= blocks,
    ensures
        ({
            let position = snapped(estimate, anchor, block, tolerance);
            let point = anchor + blocks * block;
            let off = if point > estimate {
                point - estimate
            } else {
                estimate - point
            };
            let moved = if position > estimate {
                position - estimate
            } else {
                estimate - position
            };
            &&& estimate < anchor ==> position == estimate
            &&& moved <= tolerance
            &&& anchor <= estimate && off <= tolerance ==> {
                &&& moved <= off
                &&& moved == off ==> point <= position
                &&& exists|n: int| 1 <= n && position == anchor + #[trigger] (n * block)
            }
            &&& position != estimate ==> exists|n: int|
                1 <= n && position == anchor + #[trigger] (n * block)
        }),
{
    if anchor <= estimate {
        lemma_no_grid_point_is_nearer(estimate, anchor, block, blocks);
        let n = blocks_ahead(estimate - anchor, block);
        assert(grid_point(estimate, anchor, block) == anchor + n * block);
    }
}

/// A grid whose points coincide has the anchor alone, and an estimate at or after it goes
/// there where it lies within the tolerance.
pub proof fn lemma_an_empty_grid_is_its_anchor(estimate: int, anchor: int, tolerance: int)
    requires
        0 <= anchor <= u64::MAX,
        0 <= tolerance,
    ensures
        snapped(estimate, anchor, 0, tolerance) == (if anchor <= estimate <= anchor + tolerance {
            anchor
        } else {
            estimate
        }),
{
}

/// What is taken out of a packet that starts at `start`, and where the read stands after
/// it.
///
/// A packet that turns out to lie after the start of a read that was seeked is given up.
/// Unless damage is concealed, one that lies after the next frame to deliver is an error.
/// Of any other the frames count that were asked for and not delivered yet, and of these
/// the selected channels, in order. Where damage is concealed, frames that are missing
/// before them are silent, as far as the read can have frames at all, except before the
/// first frame of a read that was seeked.
#[verifier::rlimit(100)]
pub proof fn lemma_packets_take_their_place<T>(
    cursor: Cursor,
    damage: Damage,
    plan: Plan,
    samples: Seq<T>,
    silence: T,
    packet: PacketInfo,
    interleaved: Seq<T>,
    start: u64,
)
    requires
        plan.layout.start + plan.layout.count <= plan.layout.total,
        0 < plan.layout.count,
        packet.channels == plan.layout.total,
        interleaved.len() == packet.frames * packet.channels,
    ensures
        ({
            let (next, out, step) = after_placing(
                cursor,
                damage,
                plan,
                samples,
                silence,
                packet,
                interleaved,
                start,
            );
            let until = if start + packet.frames > u64::MAX {
                u64::MAX as int
            } else {
                start + packet.frames
            };
            let last = if plan.end_frame is Some && plan.end_frame->0 < until {
                plan.end_frame->0 as int
            } else {
                until
            };
            let wanted = if plan.end_frame is Some && plan.end_frame->0 < start {
                plan.end_frame->0 as int
            } else {
                start as int
            };
            let asked = if start > plan.start_frame {
                start as int
            } else {
                plan.start_frame as int
            };
            let first = if asked > cursor.copied_until {
                asked
            } else {
                cursor.copied_until as int
            };
            let hole = first - cursor.copied_until;
            let count = plan.layout.count as int;
            let written = samples.len() as int / count;
            let end = match (plan.end_frame, cursor.track.num_frames) {
                (Some(stop), Some(frames)) => Some(
                    if stop < frames {
                        stop as int
                    } else {
                        frames as int
                    },
                ),
                (Some(stop), None) => Some(stop as int),
                (None, Some(frames)) => Some(
                    if frames < usize::MAX {
                        frames as int
                    } else {
                        usize::MAX as int
                    },
                ),
                (None, None) => None,
            };
            let room = match end {
                Some(end) => if end > plan.start_frame && end - plan.start_frame > written {
                    end - plan.start_frame - written
                } else {
                    0
                },
                None => 16_777_216int / count,
            };
            let fills = damage == Damage::Conceal && (!cursor.seeked || cursor.copied_until
                > plan.start_frame);
            let silent = if !fills {
                0
            } else if hole < room && hole <= usize::MAX {
                hole
            } else if room < usize::MAX {
                room
            } else {
                usize::MAX as int
            };
            let verified = Cursor { unverified_landing: false, ..cursor };
            if cursor.unverified_landing && start > plan.start_frame {
                &&& step == Ok::<Step, ReadError>(Step::Reopen)
                &&& out == samples
                &&& next == verified
            } else if damage == Damage::Reject && wanted > cursor.copied_until {
                &&& step == Err::<Step, ReadError>(
                    ReadError::MissingFrames { start: cursor.copied_until, end: wanted as u64 },
                )
                &&& out == samples
                &&& next == verified
            } else {
                &&& step == Ok::<Step, ReadError>(
                    if plan.end_frame is Some && plan.end_frame->0 <= until {
                        Step::Done
                    } else {
                        Step::Continue
                    },
                )
                &&& next.position == Some(until as u64)
                &&& next == Cursor {
                    position: next.position,
                    copied_until: next.copied_until,
                    ..verified
                }
                &&& first >= last ==> out == samples && next.copied_until == cursor.copied_until
                &&& first < last ==> {
                    let begin = samples.len() + silent * count;
                    &&& next.copied_until == last
                    &&& out.len() == begin + (last - first) * count
                    &&& forall|i: int|
                        0 <= i < samples.len() ==> #[trigger] out[i] == samples[i]
                    &&& forall|i: int|
                        samples.len() <= i < begin ==> #[trigger] out[i] == silence
                    &&& forall|frame: int, channel: int|
                        first <= frame < last && 0 <= channel < count ==> #[trigger] out[begin + (
                        frame - first) * count + channel] == interleaved[(frame - start)
                            * plan.layout.total + plan.layout.start + channel]
                }
            }
        }),
{
    let (next, out, step) = after_placing(
        cursor,
        damage,
        plan,
        samples,
        silence,
        packet,
        interleaved,
        start,
    );
    let count = plan.layout.count as int;
    let total = plan.layout.total as int;
    let first = cursor.copy_start(plan, start);
    let until = super::timing::saturated(start + packet.frames);
    let last = plan.bounded(until as int);
    assert(MAX_PREALLOC_SAMPLES == 16_777_216);
    if first < last {
        let written = samples.len() as int / count;
        let silent = cursor.silent_frames(damage, plan, start, written);
        assert(0 <= written) by (nonlinear_arith)
            requires
                written == samples.len() as int / count,
                0 < count,
        ;
        assert(0 <= 16_777_216int / count) by (nonlinear_arith)
            requires
                0 < count,
        ;
        assert(0 <= silent);
        assert(0 <= silent * count) by (nonlinear_arith)
            requires
                0 <= silent,
                0 < count,
        ;
        let from = first - start;
        let to = last - start;
        let taken = pick(interleaved, total, plan.layout.start as int, count, from, to);
        assert(to * total <= interleaved.len()) by (nonlinear_arith)
            requires
                to <= packet.frames,
                interleaved.len() == packet.frames * packet.channels,
                packet.channels == total,
                0 <= total,
        ;
        lemma_pick_len(interleaved, total, plan.layout.start as int, count, from, to);
        let before = samples + repeated(silence, silent * count);
        let begin = samples.len() + silent * count;
        assert(before.len() == begin);
        if !(cursor.unverified_landing && start > plan.start_frame) && !(damage == Damage::Reject
            && plan.bounded(start as int) > cursor.copied_until) {
            assert(out == before + taken);
            assert forall|frame: int, channel: int|
                first <= frame < last && 0 <= channel < count implies #[trigger] out[begin + (frame
                - first) * count + channel] == interleaved[(frame - start) * plan.layout.total
                + plan.layout.start + channel] by {
                lemma_pick_index(
                    interleaved,
                    total,
                    plan.layout.start as int,
                    count,
                    from,
                    to,
                    frame - start,
                    channel,
                );
            }
        }
    }
}

/// What comes of a packet: the first one resolves the plan, which it fails where the
/// selection does, and asks for a seek where that is worth it. Every later one has to have
/// the rate and the channels of the first. One that cannot be placed changes nothing.
pub proof fn lemma_packets_are_checked_and_placed<T>(
    cursor: Cursor,
    damage: Damage,
    config: ReadConfig,
    samples: Seq<T>,
    silence: T,
    packet: PacketInfo,
    interleaved: Seq<T>,
    format_name: Seq<char>,
)
    ensures
        ({
            let (next, out, step) = after_packet(
                cursor,
                damage,
                config,
                samples,
                silence,
                packet,
                interleaved,
                format_name,
            );
            let known = match cursor.plan {
                Some(plan) => if packet.rate != plan.sample_rate {
                    Err(
                        ReadError::SampleRateChanged {
                            expected: plan.sample_rate,
                            found: packet.rate,
                        },
                    )
                } else if packet.channels != plan.layout.total {
                    Err(
                        ReadError::ChannelCountChanged {
                            expected: plan.layout.total,
                            found: packet.channels,
                        },
                    )
                } else {
                    Ok(plan)
                },
                None => plan_of(packet.rate, packet.channels, config),
            };
            match known {
                Err(error) => {
                    &&& step == Err::<Step, ReadError>(error)
                    &&& out == samples
                    &&& next == cursor
                },
                Ok(plan) => {
                    let planned = if cursor.plan is Some {
                        cursor
                    } else {
                        Cursor {
                            plan: Some(plan),
                            copied_until: plan.start_frame as u64,
                            ..cursor
                        }
                    };
                    let track = cursor.track;
                    if cursor.plan is None && track.time_base is Some && seek_is_worth_it(
                        plan.start_frame,
                        packet.rate,
                        track.time_base->0,
                        format_name,
                    ) {
                        &&& step == Ok::<Step, ReadError>(
                            Step::Seek {
                                track_id: track.id,
                                start_frame: plan.start_frame,
                                sample_rate: packet.rate,
                                time_base: track.time_base->0,
                            },
                        )
                        &&& out == samples
                        &&& next == planned
                    } else {
                        match planned.packet_start(plan, packet) {
                            None => {
                                &&& step == Ok::<Step, ReadError>(Step::Continue)
                                &&& out == samples
                                &&& next == planned
                            },
                            Some(start) => (next, out, step) == after_placing(
                                planned,
                                damage,
                                plan,
                                samples,
                                silence,
                                packet,
                                interleaved,
                                start,
                            ),
                        }
                    }
                },
            }
        }),
{
    super::requests::lemma_plans_are_as_asked_for(packet.rate, packet.channels, config);
}

/// What comes of a packet that failed. A reset makes the position unknown and fails
/// nothing. Where damage is concealed, a packet that is malformed or could not be read is
/// dropped, if the stream has timestamps to find the position again, and the last known
/// position is kept to do that by. Anything else fails the read.
pub proof fn lemma_what_comes_of_failures(
    cursor: Cursor,
    damage: Damage,
    failure: Failure,
    error: symphonia::core::errors::Error,
)
    ensures
        ({
            let (next, step) = after_failure(cursor, damage, failure, error);
            let drops = damage == Damage::Conceal && cursor.track.time_base is Some && (failure
                == Failure::Io || failure == Failure::Malformed);
            if failure == Failure::Reset {
                &&& step == Ok::<Step, ReadError>(Step::ResetDecoder)
                &&& next == Cursor { position: None, grid_anchor: None, ..cursor }
            } else if drops {
                &&& step == Ok::<Step, ReadError>(Step::Continue)
                &&& next == Cursor { position: None, grid_anchor: next.grid_anchor, ..cursor }
                &&& cursor.position is Some ==> next.grid_anchor == cursor.position
                &&& cursor.position is None ==> next.grid_anchor == cursor.grid_anchor
            } else {
                &&& step == Err::<Step, ReadError>(ReadError::Decode(error))
                &&& next == cursor
            }
        }),
        after_reset(cursor) == (Cursor { position: None, grid_anchor: None, ..cursor }),
{
}

/// What comes of a new track: one of another rate fails a read whose rate is known, and any
/// other continues where the last one ended. Its timestamps count from there, and a read
/// that does not know its position counts from the beginning of the last track on.
pub proof fn lemma_what_comes_of_track_changes(cursor: Cursor, next: TrackInfo)
    ensures
        ({
            let (after, result) = after_track_change(cursor, next);
            if cursor.plan is Some && cursor.plan->0.sample_rate != next.sample_rate {
                &&& result == Err::<(), ReadError>(
                    ReadError::SampleRateChanged {
                        expected: cursor.plan->0.sample_rate,
                        found: next.sample_rate,
                    },
                )
                &&& after == cursor
            } else {
                &&& result is Ok
                &&& after.track == next
                &&& after.grid_anchor is None
                &&& cursor.position is Some ==> after.stream_base == cursor.position->0
                &&& cursor.position is None ==> after.stream_base == cursor.stream_base
                &&& after == Cursor {
                    track: next,
                    stream_base: after.stream_base,
                    grid_anchor: None,
                    ..cursor
                }
            }
        }),
{
}

/// What comes of a seek, and of opening the file again. A landing that is early enough
/// leaves the position to the next packet, which has to show that it is. Any other is given
/// up. A file that was opened again is read from its first frame.
pub proof fn lemma_what_comes_of_seeks(
    cursor: Cursor,
    plan: Plan,
    tb: TimeBase,
    landing: Option<i64>,
    track: TrackInfo,
)
    ensures
        ({
            let (next, step) = after_seek(cursor, plan, tb, landing);
            if landed_before(landing, plan.start_frame, tb, plan.sample_rate) {
                &&& step == Step::ResetDecoder
                &&& next.position is None
                &&& next.unverified_landing
                &&& next.seeked
                &&& next.grid_anchor is None
                &&& next == Cursor {
                    position: None,
                    unverified_landing: true,
                    seeked: true,
                    grid_anchor: None,
                    ..cursor
                }
            } else {
                step == Step::Reopen && next == cursor
            }
        }),
        ({
            let next = after_reopening(cursor, track);
            &&& next.track == track
            &&& next.position == Some(0u64)
            &&& !next.seeked
            &&& next.grid_anchor is None
            &&& next == Cursor {
                track,
                position: Some(0u64),
                seeked: false,
                grid_anchor: None,
                ..cursor
            }
        }),
        ({
            let next = at_the_beginning(track);
            &&& next.track == track
            &&& next.plan is None
            &&& next.position == Some(0u64)
            &&& next.stream_base == 0
            &&& next.copied_until == 0
            &&& !next.seeked
            &&& !next.unverified_landing
            &&& next.grid_anchor is None
        }),
{
}

/// A finished read is described by what its packets said, and where there were none by what
/// the container says, if it says enough.
pub proof fn lemma_what_describes_a_read(cursor: Cursor, config: ReadConfig)
    ensures
        cursor.plan matches Some(plan) ==> description(cursor, config) == Ok::<Plan, ReadError>(
            plan,
        ),
        cursor.plan is None ==> match cursor.track.channels {
            None => description(cursor, config) == Err::<Plan, ReadError>(ReadError::NoChannels),
            Some(channels) => description(cursor, config) == plan_of(
                cursor.track.sample_rate,
                channels,
                config,
            ),
        },
        match cursor.track.channels {
            None => declared(cursor.track, config) == Err::<Plan, ReadError>(
                ReadError::NoChannels,
            ),
            Some(channels) => declared(cursor.track, config) == plan_of(
                cursor.track.sample_rate,
                channels,
                config,
            ),
        },
{
}

/// How many frames a read can have: those up to the stop or to the end of the file,
/// whichever comes first, from the start on. Nothing is known where neither is.
pub proof fn lemma_how_many_frames_to_expect(plan: Plan, num_frames: Option<u64>)
    ensures
        plan.expected(num_frames) is None <==> plan.end_frame is None && num_frames is None,
        plan.expected(num_frames) matches Some(expected) ==> {
            let until = plan.start_frame + expected;
            &&& 0 <= expected
            &&& plan.end_frame matches Some(stop) ==> expected == 0 || until <= stop
            &&& num_frames matches Some(frames) ==> expected == 0 || until <= frames
            &&& expected == 0 || until <= usize::MAX
            &&& (plan.end_frame matches Some(stop) && until >= stop) || (num_frames matches Some(
                frames,
            ) && until >= frames) || until >= usize::MAX
        },
{
}

/// How much of a hole is filled: all of it, as far as the read can still have frames, or as
/// far as the budget for memory goes where that is not known.
pub proof fn lemma_how_much_is_filled(
    missing: int,
    written: int,
    channels: int,
    max_frames: Option<int>,
)
    requires
        0 <= missing <= usize::MAX,
        0 <= written,
        0 <= channels,
    ensures
        ({
            let frames = filled(missing, written, channels, max_frames);
            &&& 0 <= frames <= missing
            &&& max_frames matches Some(most) ==> {
                &&& frames == 0 || written + frames <= most
                &&& frames == missing || written + frames >= most
            }
            &&& max_frames is None ==> {
                &&& frames * channels <= 16_777_216
                &&& channels > 0 ==> frames == missing || frames * channels + channels > 16_777_216
                &&& channels == 0 ==> frames == missing || frames == 16_777_216
            }
        }),
{
    assert(MAX_PREALLOC_SAMPLES == 16_777_216);
    let frames = filled(missing, written, channels, max_frames);
    let most = if channels > 1 {
        channels
    } else {
        1
    };
    let budget = 16_777_216int / most;
    assert(0 <= budget && budget * most <= 16_777_216 && budget * most + most > 16_777_216)
        by (nonlinear_arith)
        requires
            budget == 16_777_216int / most,
            1 <= most,
    ;
    if max_frames is None {
        assert(0 <= frames <= budget);
        assert(frames * channels <= budget * most) by (nonlinear_arith)
            requires
                0 <= frames <= budget,
                0 <= channels <= most,
        ;
    }
}

} // verus!
