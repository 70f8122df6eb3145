//! What a packet adds to a read.
//!
//! A timeline gives every frame of a stream, by its index. A read is frame-exact if
//! its output is a stretch of the timeline, however the stream was cut into packets.

use vstd::prelude::*;

use super::general::{
    after_failure, after_packet, after_placing, after_planned, repeated, Cursor, Damage, Failure,
    PacketInfo, Session, Step,
};
use super::{Layout, Plan, ReadConfig, ReadError};
use crate::select::{lemma_frame_in_range, lemma_pick_len, pick};

verus! {

/// The selected channels of the frames `[from, to)` of a timeline.
pub open spec fn delivered<T>(
    timeline: spec_fn(int) -> Seq<T>,
    layout: Layout,
    from: int,
    to: int,
) -> Seq<T>
    decreases to - from,
{
    if to <= from {
        Seq::empty()
    } else {
        delivered(timeline, layout, from, to - 1) + timeline(to - 1).subrange(
            layout.start as int,
            layout.start + layout.count,
        )
    }
}

/// A stretch of a timeline, sample by sample: of each frame the selected channels.
pub proof fn lemma_delivered_samples<T>(
    timeline: spec_fn(int) -> Seq<T>,
    layout: Layout,
    from: int,
    to: int,
)
    requires
        from <= to,
        layout.start + layout.count <= layout.total,
        forall|f: int| from <= f < to ==> (#[trigger] timeline(f)).len() == layout.total,
    ensures
        delivered(timeline, layout, from, to).len() == (to - from) * layout.count,
        forall|frame: int, channel: int|
            0 <= frame < to - from && 0 <= channel < layout.count ==> #[trigger] delivered(
                timeline,
                layout,
                from,
                to,
            )[frame * layout.count + channel] == timeline(from + frame)[layout.start + channel],
    decreases to - from,
{
    let count = layout.count as int;
    if from < to {
        lemma_delivered_samples(timeline, layout, from, to - 1);
        let shorter = delivered(timeline, layout, from, to - 1);
        let whole = delivered(timeline, layout, from, to);
        assert((to - from) * count == (to - 1 - from) * count + count) by (nonlinear_arith);
        assert(timeline(to - 1).len() == layout.total);
        assert forall|frame: int, channel: int|
            0 <= frame < to - from && 0 <= channel < count implies #[trigger] whole[frame * count
            + channel] == timeline(from + frame)[layout.start + channel] by {
            lemma_frame_in_range(count, frame, to - from);
            if frame < to - 1 - from {
                lemma_frame_in_range(count, frame, to - 1 - from);
                assert(whole[frame * count + channel] == shorter[frame * count + channel]);
            }
        }
    } else {
        assert(0 * count == 0) by (nonlinear_arith);
    }
}

/// One frame of interleaved samples.
pub open spec fn frame_of_packet<T>(interleaved: Seq<T>, channels: int, frame: int) -> Seq<T> {
    interleaved.subrange(frame * channels, frame * channels + channels)
}

/// Whether a packet holds the frames of the timeline from `start` on.
pub open spec fn agrees<T>(
    timeline: spec_fn(int) -> Seq<T>,
    start: int,
    packet: PacketInfo,
    interleaved: Seq<T>,
) -> bool {
    &&& interleaved.len() == packet.frames * packet.channels
    &&& forall|i: int|
        0 <= i < packet.frames ==> #[trigger] frame_of_packet(
            interleaved,
            packet.channels as int,
            i,
        ) == timeline(start + i)
}

/// Two stretches one after the other are the stretch they make up together.
pub proof fn lemma_delivered_concat<T>(
    timeline: spec_fn(int) -> Seq<T>,
    layout: Layout,
    from: int,
    middle: int,
    to: int,
)
    requires
        from <= middle <= to,
    ensures
        delivered(timeline, layout, from, middle) + delivered(timeline, layout, middle, to)
            == delivered(timeline, layout, from, to),
    decreases to - middle,
{
    let left = delivered(timeline, layout, from, middle);
    if middle == to {
        assert(left + Seq::<T>::empty() =~= left);
    } else {
        lemma_delivered_concat(timeline, layout, from, middle, to - 1);
        let shorter = delivered(timeline, layout, middle, to - 1);
        let frame = timeline(to - 1).subrange(layout.start as int, layout.start + layout.count);
        assert(left + (shorter + frame) =~= left + shorter + frame);
    }
}

/// What is picked out of a packet is a stretch of the timeline.
proof fn lemma_picked_is_delivered<T>(
    timeline: spec_fn(int) -> Seq<T>,
    layout: Layout,
    start: int,
    packet: PacketInfo,
    interleaved: Seq<T>,
    first: int,
    last: int,
)
    requires
        layout.wf(),
        packet.channels == layout.total,
        agrees(timeline, start, packet, interleaved),
        0 <= first <= last <= packet.frames,
    ensures
        pick(
            interleaved,
            layout.total as int,
            layout.start as int,
            layout.count as int,
            first,
            last,
        ) == delivered(timeline, layout, start + first, start + last),
    decreases last - first,
{
    if first < last {
        lemma_picked_is_delivered(timeline, layout, start, packet, interleaved, first, last - 1);
        let total = layout.total as int;
        let frame = last - 1;
        lemma_frame_in_range(total, frame, packet.frames as int);
        let whole = frame_of_packet(interleaved, total, frame);
        assert(whole == timeline(start + frame));
        assert(whole.subrange(layout.start as int, layout.start + layout.count)
            =~= interleaved.subrange(
            frame * total + layout.start,
            frame * total + layout.start + layout.count,
        ));
    }
}

/// Every packet that agrees with the timeline extends the read along it: nothing is
/// delivered twice, nothing is left out, and nothing is delivered beyond the stop.
/// When the read is done, everything up to the stop has been delivered.
#[verifier::rlimit(40)]
pub proof fn lemma_packet_extends_the_read<T>(
    timeline: spec_fn(int) -> Seq<T>,
    cursor: Cursor,
    plan: Plan,
    samples: Seq<T>,
    silence: T,
    packet: PacketInfo,
    interleaved: Seq<T>,
)
    requires
        cursor.wf(),
        cursor.plan == Some(plan),
        packet.channels == plan.layout.total,
        samples == delivered(
            timeline,
            plan.layout,
            plan.start_frame as int,
            cursor.copied_until as int,
        ),
        cursor.packet_start(plan, packet) matches Some(start) ==> agrees(
            timeline,
            start as int,
            packet,
            interleaved,
        ) && start + packet.frames <= u64::MAX,
    ensures
        ({
            let (next, out, step) = after_planned(
                cursor,
                Damage::Reject,
                plan,
                samples,
                silence,
                packet,
                interleaved,
            );
            &&& out == delivered(
                timeline,
                plan.layout,
                plan.start_frame as int,
                next.copied_until as int,
            )
            &&& next.wf()
            &&& next.plan == Some(plan)
            &&& next.copied_until >= cursor.copied_until
            &&& step == Ok::<Step, ReadError>(Step::Done) ==> (plan.end_frame matches Some(end)
                && next.copied_until == end)
        }),
{
    if let Some(start) = cursor.packet_start(plan, packet) {
        let copy_start = cursor.copy_start(plan, start);
        let copy_end = plan.bounded(start + packet.frames);
        if !(cursor.unverified_landing && start > plan.start_frame) && plan.bounded(start as int)
            <= cursor.copied_until && copy_start < copy_end {
            assert(copy_start == cursor.copied_until);
            lemma_picked_is_delivered(
                timeline,
                plan.layout,
                start as int,
                packet,
                interleaved,
                copy_start - start,
                copy_end - start,
            );
            lemma_delivered_concat(
                timeline,
                plan.layout,
                plan.start_frame as int,
                copy_start,
                copy_end,
            );
            assert(0 * plan.layout.count == 0) by (nonlinear_arith);
            assert(samples + repeated(silence, 0) =~= samples);
        }
    }
}

/// A narrower selection is a part of a wider one.
pub proof fn lemma_delivered_part<T>(
    timeline: spec_fn(int) -> Seq<T>,
    layout: Layout,
    whole: Layout,
    frames: int,
    from: int,
    to: int,
)
    requires
        layout.wf(),
        whole.total == layout.total,
        whole.start == 0,
        whole.count == layout.total,
        0 <= from <= to <= frames,
        forall|f: int| 0 <= f < frames ==> (#[trigger] timeline(f)).len() == layout.total,
    ensures
        delivered(timeline, whole, 0, frames).len() == frames * layout.total,
        delivered(timeline, layout, from, to) == pick(
            delivered(timeline, whole, 0, frames),
            layout.total as int,
            layout.start as int,
            layout.count as int,
            from,
            to,
        ),
    decreases to - from,
{
    let total = layout.total as int;
    lemma_delivered_whole(timeline, whole, total, frames);
    if from < to {
        lemma_delivered_part(timeline, layout, whole, frames, from, to - 1);
        let frame = to - 1;
        let full = delivered(timeline, whole, 0, frames);
        lemma_frame_in_range(total, frame, frames);
        assert(full.subrange(frame * total, frame * total + total) == timeline(frame));
        assert(timeline(frame).subrange(layout.start as int, layout.start + layout.count)
            =~= full.subrange(
            frame * total + layout.start,
            frame * total + layout.start + layout.count,
        ));
    }
}

proof fn lemma_delivered_whole<T>(
    timeline: spec_fn(int) -> Seq<T>,
    whole: Layout,
    total: int,
    frames: int,
)
    requires
        whole.start == 0,
        whole.count == total,
        0 <= frames,
        forall|f: int| 0 <= f < frames ==> (#[trigger] timeline(f)).len() == total,
    ensures
        delivered(timeline, whole, 0, frames).len() == frames * total,
        forall|f: int|
            0 <= f < frames ==> delivered(timeline, whole, 0, frames).subrange(
                f * total,
                f * total + total,
            ) == #[trigger] timeline(f),
    decreases frames,
{
    let full = delivered(timeline, whole, 0, frames);
    if frames > 0 {
        lemma_delivered_whole(timeline, whole, total, frames - 1);
        let shorter = delivered(timeline, whole, 0, frames - 1);
        let last = timeline(frames - 1);
        assert(last.subrange(0, total) =~= last);
        assert((frames - 1) * total + total == frames * total) by (nonlinear_arith);
        assert forall|f: int| 0 <= f < frames implies full.subrange(f * total, f * total + total)
            == #[trigger] timeline(f) by {
            lemma_frame_in_range(total, f, frames);
            if f == frames - 1 {
                assert(full.subrange(f * total, f * total + total) =~= last);
            } else {
                lemma_frame_in_range(total, f, frames - 1);
                assert(full.subrange(f * total, f * total + total) =~= shorter.subrange(
                    f * total,
                    f * total + total,
                ));
            }
        }
    } else {
        assert(0 * total == 0) by (nonlinear_arith);
    }
}

/// A read never returns more frames than lie between its start and its stop.
pub proof fn lemma_at_most_the_requested_frames<T: Copy>(session: Session<T>)
    requires
        session.wf(),
        session.damage == Damage::Reject,
    ensures
        session.cursor.plan matches Some(plan) ==> (plan.end_frame matches Some(end)
            ==> session.samples@.len() <= (end - plan.start_frame) * plan.layout.count),
{
    if let Some(plan) = session.cursor.plan {
        if let Some(end) = plan.end_frame {
            let until = session.cursor.copied_until as int;
            assert((until - plan.start_frame) * plan.layout.count <= (end - plan.start_frame)
                * plan.layout.count) by (nonlinear_arith)
                requires
                    until <= end,
                    0 <= plan.layout.count,
            ;
        }
    }
}

/// Unless damage is concealed, a packet the decoder rejects fails the whole read.
pub proof fn lemma_a_rejected_packet_fails_the_read(
    cursor: Cursor,
    failure: Failure,
    error: symphonia::core::errors::Error,
)
    requires
        failure != Failure::Reset,
    ensures
        after_failure(cursor, Damage::Reject, failure, error) == (
            cursor,
            Err::<Step, ReadError>(ReadError::Decode(error)),
        ),
{
}

/// Unless damage is concealed, a gap in what was asked for is an error that names the
/// missing frames, and never a shorter read.
pub proof fn lemma_a_gap_is_reported<T>(
    cursor: Cursor,
    plan: Plan,
    samples: Seq<T>,
    silence: T,
    packet: PacketInfo,
    interleaved: Seq<T>,
    start: u64,
)
    requires
        cursor.wf(),
        !cursor.unverified_landing,
        cursor.packet_start(plan, packet) == Some(start),
        start > cursor.copied_until,
        plan.end_frame matches Some(end) ==> cursor.copied_until < end,
    ensures
        after_planned(cursor, Damage::Reject, plan, samples, silence, packet, interleaved).2
            == Err::<Step, ReadError>(
            ReadError::MissingFrames {
                start: cursor.copied_until,
                end: plan.bounded(start as int) as u64,
            },
        ),
{
}

/// Once a position is known, decoded frame counts advance it and timestamps no longer
/// matter, so a timestamp that is off neither duplicates frames nor leaves any out.
pub proof fn lemma_timestamps_only_anchor<T>(
    cursor: Cursor,
    damage: Damage,
    plan: Plan,
    samples: Seq<T>,
    silence: T,
    packet: PacketInfo,
    interleaved: Seq<T>,
    pts: i64,
    trim_start: u64,
)
    requires
        cursor.position is Some,
    ensures
        ({
            let outcome = after_planned(
                cursor,
                damage,
                plan,
                samples,
                silence,
                packet,
                interleaved,
            );
            let stamped = PacketInfo { pts, trim_start, ..packet };
            &&& outcome == after_planned(
                cursor,
                damage,
                plan,
                samples,
                silence,
                stamped,
                interleaved,
            )
            &&& cursor.position->0 + packet.frames <= u64::MAX && (outcome.2 == Ok::<
                Step,
                ReadError,
            >(Step::Continue) || outcome.2 == Ok::<Step, ReadError>(Step::Done))
                ==> outcome.0.position == Some((cursor.position->0 + packet.frames) as u64)
        }),
{
}

/// A packet without frames, as a decoder emits while it warms up, neither delivers nor
/// shifts anything.
pub proof fn lemma_empty_packets_shift_nothing<T>(
    cursor: Cursor,
    damage: Damage,
    plan: Plan,
    samples: Seq<T>,
    silence: T,
    packet: PacketInfo,
    interleaved: Seq<T>,
)
    requires
        cursor.wf(),
        cursor.plan == Some(plan),
        packet.frames == 0,
    ensures
        ({
            let (next, out, step) = after_planned(
                cursor,
                damage,
                plan,
                samples,
                silence,
                packet,
                interleaved,
            );
            &&& out == samples
            &&& next == cursor
        }),
{
}

/// Once the plan is resolved, no packet changes it: a different rate or channel count
/// is an error.
pub proof fn lemma_the_specification_stays<T>(
    cursor: Cursor,
    damage: Damage,
    config: ReadConfig,
    samples: Seq<T>,
    silence: T,
    packet: PacketInfo,
    interleaved: Seq<T>,
    format_name: Seq<char>,
)
    requires
        cursor.plan is Some,
    ensures
        ({
            let plan = cursor.plan->0;
            let (next, out, step) = after_packet(
                cursor,
                damage,
                config,
                samples,
                silence,
                packet,
                interleaved,
                format_name,
            );
            &&& next.plan == cursor.plan
            &&& step is Ok ==> packet.rate == plan.sample_rate && packet.channels
                == plan.layout.total
        }),
{
}

/// Where damage is concealed, silence of exactly the missing length keeps every
/// later frame at its own position in the output, unless the fill is capped.
pub proof fn lemma_concealed_gaps_keep_later_frames_aligned<T>(
    cursor: Cursor,
    plan: Plan,
    samples: Seq<T>,
    silence: T,
    packet: PacketInfo,
    interleaved: Seq<T>,
    start: u64,
)
    requires
        cursor.wf(),
        cursor.plan == Some(plan),
        !cursor.unverified_landing,
        !cursor.seeked || cursor.copied_until > plan.start_frame,
        packet.channels == plan.layout.total,
        interleaved.len() == packet.frames * packet.channels,
        samples.len() == (cursor.copied_until - plan.start_frame) * plan.layout.count,
        cursor.copy_start(plan, start) > cursor.copied_until ==> cursor.silent_frames(
            Damage::Conceal,
            plan,
            start,
            samples.len() as int / plan.layout.count as int,
        ) == cursor.copy_start(plan, start) - cursor.copied_until,
    ensures
        ({
            let (next, out, step) = after_placing(
                cursor,
                Damage::Conceal,
                plan,
                samples,
                silence,
                packet,
                interleaved,
                start,
            );
            &&& out.len() == (next.copied_until - plan.start_frame) * plan.layout.count
            &&& step is Ok
        }),
{
    let copy_start = cursor.copy_start(plan, start);
    let packet_end = super::timing::saturated(start + packet.frames);
    let copy_end = plan.bounded(packet_end as int);
    if copy_start < copy_end {
        let count = plan.layout.count as int;
        let until = cursor.copied_until as int;
        let silent = cursor.silent_frames(
            Damage::Conceal,
            plan,
            start,
            samples.len() as int / count,
        );
        assert(silent == copy_start - until);
        assert((copy_end - start) * plan.layout.total <= interleaved.len()) by (nonlinear_arith)
            requires
                copy_end - start <= packet.frames,
                interleaved.len() == packet.frames * packet.channels,
                plan.layout.total == packet.channels,
                0 <= packet.channels,
        ;
        lemma_pick_len(
            interleaved,
            plan.layout.total as int,
            plan.layout.start as int,
            count,
            copy_start - start,
            copy_end - start,
        );
        assert(0 <= silent * count) by (nonlinear_arith)
            requires
                0 <= silent,
                0 <= count,
        ;
        assert((until - plan.start_frame) * count + silent * count + (copy_end - copy_start)
            * count == (copy_end - plan.start_frame) * count) by (nonlinear_arith)
            requires
                silent == copy_start - until,
        ;
    }
}

} // verus!
