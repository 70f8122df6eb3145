//! What a read through packets delivers, from the first packet to the last.
//!
//! A session is told what happens to a stream, one event after the other. However the
//! stream is cut into packets, whether it is chained out of several tracks, whether the
//! decoder is reset on the way and whether it is read from the beginning or after a seek,
//! the output is the requested stretch of the timeline.

use vstd::prelude::*;

use super::delivery::{
    agrees, delivered, frame_of_packet, lemma_delivered_part, lemma_delivered_samples,
    lemma_packet_extends_the_read,
};
use super::general::{
    after_packet, after_planned, after_reopening, after_reset, after_seek, after_track_change, at_the_beginning,
    description, most, Cursor, Damage, PacketInfo, Step,
};
use super::timing::{landed_before, seek_is_worth_it, TimeBase};
use super::track::TrackInfo;
use super::{plan_of, Plan, ReadConfig, ReadError};
use crate::select::{lemma_frame_in_range, pick};

verus! {

/// A packet as the decoder delivered it.
#[verifier::ext_equal]
pub ghost struct Delivery<T> {
    pub packet: PacketInfo,
    pub interleaved: Seq<T>,
}

/// What a session is told of a stream.
#[verifier::ext_equal]
pub ghost enum Event<T> {
    /// A packet was decoded.
    Packet(Delivery<T>),
    /// The track list changed, and this track was selected.
    TrackChanged(TrackInfo),
    /// The decoder was reset.
    Reset,
}

/// What stays the same throughout a read.
pub ghost struct Terms<T> {
    pub damage: Damage,
    pub config: ReadConfig,
    /// The sample that stands for silence.
    pub silence: T,
    /// The short name of the container.
    pub format_name: Seq<char>,
}

/// What comes of one event.
pub open spec fn after_event<T>(
    terms: Terms<T>,
    cursor: Cursor,
    samples: Seq<T>,
    event: Event<T>,
) -> (Cursor, Seq<T>, Result<Step, ReadError>) {
    match event {
        Event::Packet(delivery) => after_packet(
            cursor,
            terms.damage,
            terms.config,
            samples,
            terms.silence,
            delivery.packet,
            delivery.interleaved,
            terms.format_name,
        ),
        Event::TrackChanged(next) => (
            after_track_change(cursor, next).0,
            samples,
            match after_track_change(cursor, next).1 {
                Ok(_) => Ok(Step::Continue),
                Err(error) => Err(error),
            },
        ),
        Event::Reset => (after_reset(cursor), samples, Ok(Step::ResetDecoder)),
    }
}

/// Whether the stream is to be read on, after the decoder was reset where that is asked
/// for.
pub open spec fn goes_on(step: Result<Step, ReadError>) -> bool {
    step == Ok::<Step, ReadError>(Step::Continue) || step == Ok::<Step, ReadError>(
        Step::ResetDecoder,
    )
}

/// What comes of a sequence of events. Nothing is taken after the read is done, has
/// failed, or has to seek or to start again.
pub open spec fn after_events<T>(
    terms: Terms<T>,
    cursor: Cursor,
    samples: Seq<T>,
    events: Seq<Event<T>>,
) -> (Cursor, Seq<T>, Result<Step, ReadError>)
    decreases events.len(),
{
    if events.len() == 0 {
        (cursor, samples, Ok(Step::Continue))
    } else {
        let before = after_events(terms, cursor, samples, events.drop_last());
        if goes_on(before.2) {
            after_event(terms, before.0, before.1, events.last())
        } else {
            before
        }
    }
}

/// How many frames an event brings.
pub open spec fn frames_in<T>(event: Event<T>) -> int {
    match event {
        Event::Packet(delivery) => delivery.packet.frames as int,
        _ => 0,
    }
}

/// How many frames the events bring together.
pub open spec fn total_frames<T>(events: Seq<Event<T>>) -> int
    decreases events.len(),
{
    if events.len() == 0 {
        0
    } else {
        total_frames(events.drop_last()) + frames_in(events.last())
    }
}

/// Whether any packet was decoded.
pub open spec fn has_packet<T>(events: Seq<Event<T>>) -> bool
    decreases events.len(),
{
    events.len() > 0 && (events.last() is Packet || has_packet(events.drop_last()))
}

/// Whether the decoder was never reset.
pub open spec fn has_no_reset<T>(events: Seq<Event<T>>) -> bool
    decreases events.len(),
{
    events.len() > 0 ==> !(events.last() is Reset) && has_no_reset(events.drop_last())
}

/// Whether the packets hold the frames of the timeline from `base` on, one right after
/// the other, and everything is of this rate and number of channels.
pub open spec fn follows_from<T>(
    timeline: spec_fn(int) -> Seq<T>,
    sample_rate: u32,
    channels: usize,
    base: int,
    events: Seq<Event<T>>,
) -> bool
    decreases events.len(),
{
    events.len() > 0 ==> {
        &&& follows_from(timeline, sample_rate, channels, base, events.drop_last())
        &&& match events.last() {
            Event::Packet(delivery) => {
                &&& delivery.packet.rate == sample_rate
                &&& delivery.packet.channels == channels
                &&& agrees(
                    timeline,
                    base + total_frames(events.drop_last()),
                    delivery.packet,
                    delivery.interleaved,
                )
            },
            Event::TrackChanged(next) => next.wf() && next.sample_rate == sample_rate,
            Event::Reset => true,
        }
    }
}

/// The frame the timestamp of a packet stands for: the whole frames that its ticks make up
/// at the sample rate of the stream, cut off towards zero, and the trimmed frames on top of
/// them, from the beginning of the track on and not before it. Without a time base that is
/// the beginning of the track.
pub open spec fn stamped_frame(
    stream_base: u64,
    time_base: Option<TimeBase>,
    sample_rate: u32,
    packet: PacketInfo,
) -> int {
    match time_base {
        None => stream_base as int,
        Some(tb) => {
            let frames = if packet.pts < 0 {
                -((-packet.pts * (tb.numer * sample_rate)) / tb.denom as int)
            } else {
                packet.pts * (tb.numer * sample_rate) / tb.denom as int
            } + packet.trim_start;
            if frames < 0 {
                stream_base as int
            } else {
                stream_base + frames
            }
        },
    }
}

/// Whether timestamps are right where they count: a packet with frames that comes while
/// the position is not known, after a seek or a reset, lies by its timestamp where the
/// frames before it ended. Frames beyond the last that can be named become that one.
pub open spec fn is_placed<T>(
    terms: Terms<T>,
    cursor: Cursor,
    plan: Plan,
    base: int,
    events: Seq<Event<T>>,
) -> bool
    decreases events.len(),
{
    events.len() > 0 ==> {
        let rest = events.drop_last();
        let before = after_events(terms, cursor, Seq::empty(), rest).0;
        let here = base + total_frames(rest);
        &&& is_placed(terms, cursor, plan, base, rest)
        &&& events.last() matches Event::Packet(delivery) ==> {
            delivery.packet.frames > 0 && before.position is None ==> if before.grid_anchor
                is Some {
                before.packet_start(plan, delivery.packet) == Some(here as u64)
            } else {
                let stamped = stamped_frame(
                    before.stream_base,
                    before.track.time_base,
                    plan.sample_rate,
                    delivery.packet,
                );
                stamped == here || (stamped > u64::MAX && here == u64::MAX)
            }
        }
    }
}

/// A packet is placed by its timestamp where nothing else tells its position.
pub proof fn lemma_packets_are_placed_by_their_timestamps(
    cursor: Cursor,
    plan: Plan,
    packet: PacketInfo,
)
    requires
        cursor.track.wf(),
        cursor.position is None,
        cursor.grid_anchor is None,
        packet.frames > 0,
    ensures
        ({
            let stamped = stamped_frame(
                cursor.stream_base,
                cursor.track.time_base,
                plan.sample_rate,
                packet,
            );
            &&& 0 <= stamped
            &&& cursor.packet_start(plan, packet) == Some(
                if stamped > u64::MAX {
                    u64::MAX
                } else {
                    stamped as u64
                },
            )
        }),
{
    if let Some(tb) = cursor.track.time_base {
        let n = tb.numer * plan.sample_rate;
        assert(0 <= n) by (nonlinear_arith)
            requires
                n == tb.numer * plan.sample_rate,
                0 <= tb.numer,
                0 <= plan.sample_rate,
        ;
        let size: int = if packet.pts < 0 {
            -packet.pts
        } else {
            packet.pts as int
        };
        assert(0 <= size * n / tb.denom as int) by (nonlinear_arith)
            requires
                0 <= size,
                0 <= n,
                0 < tb.denom,
        ;
    }
}

/// Whether a track is read up to the start of `plan` rather than seeked.
pub open spec fn is_not_seeked(plan: Plan, track: TrackInfo, format_name: Seq<char>) -> bool {
    track.time_base matches Some(tb) ==> !seek_is_worth_it(
        plan.start_frame,
        plan.sample_rate,
        tb,
        format_name,
    )
}

/// Whether none of the tracks that are changed to is seeked.
pub open spec fn are_not_seeked<T>(
    plan: Plan,
    events: Seq<Event<T>>,
    format_name: Seq<char>,
) -> bool
    decreases events.len(),
{
    events.len() > 0 ==> {
        &&& are_not_seeked(plan, events.drop_last(), format_name)
        &&& events.last() matches Event::TrackChanged(next) ==> is_not_seeked(
            plan,
            next,
            format_name,
        )
    }
}

/// Where a read of a stream that has `frames` frames ends: at the stop or at the end of
/// the stream, but not before it starts.
pub open spec fn read_until(plan: Plan, frames: int) -> int {
    most(plan.start_frame as int, plan.bounded(frames))
}

/// Whether a read with this plan can begin or go on at frame `base` here, with nothing
/// delivered so far: before the first packet, which resolves the plan, or after it.
pub open spec fn is_ready<T>(
    terms: Terms<T>,
    cursor: Cursor,
    plan: Plan,
    base: u64,
) -> bool {
    &&& cursor.wf()
    &&& terms.damage == Damage::Reject
    &&& base <= plan.start_frame
    &&& cursor.position matches Some(position) ==> position == base
    &&& match cursor.plan {
        Some(resolved) => resolved == plan && cursor.copied_until == plan.start_frame,
        None => {
            &&& base == 0
            &&& plan_of(plan.sample_rate, plan.layout.total, terms.config) == Ok::<Plan, ReadError>(
                plan,
            )
            &&& is_not_seeked(plan, cursor.track, terms.format_name)
        },
    }
}

/// A read delivers exactly the requested frames and channels of the timeline, as far as
/// the stream has them. It does not matter how the stream is cut into packets, packets
/// without frames change nothing, and neither does a change of tracks or a reset of the
/// decoder, as long as timestamps are right where they count. The read is done as soon as
/// the stop is reached, and described by the specification of its packets.
#[verifier::rlimit(60)]
pub proof fn lemma_a_read_is_frame_exact<T>(
    timeline: spec_fn(int) -> Seq<T>,
    terms: Terms<T>,
    cursor: Cursor,
    plan: Plan,
    base: u64,
    events: Seq<Event<T>>,
)
    requires
        is_ready(terms, cursor, plan, base),
        cursor.plan is None ==> are_not_seeked(plan, events, terms.format_name),
        follows_from(timeline, plan.sample_rate, plan.layout.total, base as int, events),
        is_placed(terms, cursor, plan, base as int, events),
        base + total_frames(events) <= u64::MAX,
    ensures
        ({
            let (next, out, step) = after_events(terms, cursor, Seq::empty(), events);
            let frames = base + total_frames(events);
            &&& out == delivered(
                timeline,
                plan.layout,
                plan.start_frame as int,
                read_until(plan, frames),
            )
            &&& next.wf()
            &&& base <= frames
            &&& step == Ok::<Step, ReadError>(Step::Done) || goes_on(step)
            &&& step == Ok::<Step, ReadError>(Step::Done) ==> plan.is_reached(frames)
            &&& frames > base && plan.is_reached(frames) ==> step == Ok::<Step, ReadError>(
                Step::Done,
            )
            &&& goes_on(step) ==> (next.position matches Some(position) ==> position == frames)
            &&& goes_on(step) && cursor.position is Some && has_no_reset(events)
                ==> next.position is Some
            &&& next.unverified_landing ==> frames == base && goes_on(step)
            &&& if cursor.plan is Some || has_packet(events) {
                &&& next.plan == Some(plan)
                &&& next.copied_until == read_until(plan, frames)
                &&& description(next, terms.config) == Ok::<Plan, ReadError>(plan)
            } else {
                &&& next.plan is None
                &&& frames == base
                &&& goes_on(step)
                &&& is_not_seeked(plan, next.track, terms.format_name)
            }
        }),
    decreases events.len(),
{
    if events.len() > 0 {
        let rest = events.drop_last();
        lemma_a_read_is_frame_exact(timeline, terms, cursor, plan, base, rest);
        let (before, samples, step) = after_events(terms, cursor, Seq::empty(), rest);
        if goes_on(step) {
            if let Event::Packet(delivery) = events.last() {
                let planned = Cursor {
                    plan: Some(plan),
                    copied_until: if before.plan is None {
                        plan.start_frame as u64
                    } else {
                        before.copied_until
                    },
                    ..before
                };
                let packet = delivery.packet;
                if packet.frames > 0 && before.position is None && before.grid_anchor is None {
                    lemma_packets_are_placed_by_their_timestamps(before, plan, packet);
                }
                assert(planned.packet_start(plan, packet) == before.packet_start(plan, packet));
                assert(packet.frames > 0 ==> before.packet_start(plan, packet) == Some(
                    (base + total_frames(rest)) as u64,
                ));
                lemma_packet_extends_the_read(
                    timeline,
                    planned,
                    plan,
                    samples,
                    terms.silence,
                    packet,
                    delivery.interleaved,
                );
                assert(after_event(terms, before, samples, events.last()) == after_planned(
                    planned,
                    Damage::Reject,
                    plan,
                    samples,
                    terms.silence,
                    packet,
                    delivery.interleaved,
                ));
            }
        }
    }
}

/// Without a reset the position is always known, and no timestamp counts.
proof fn lemma_timestamps_do_not_count<T>(
    timeline: spec_fn(int) -> Seq<T>,
    terms: Terms<T>,
    cursor: Cursor,
    plan: Plan,
    base: u64,
    events: Seq<Event<T>>,
)
    requires
        is_ready(terms, cursor, plan, base),
        cursor.position is Some,
        cursor.plan is None ==> are_not_seeked(plan, events, terms.format_name),
        has_no_reset(events),
        follows_from(timeline, plan.sample_rate, plan.layout.total, base as int, events),
        base + total_frames(events) <= u64::MAX,
    ensures
        is_placed(terms, cursor, plan, base as int, events),
    decreases events.len(),
{
    if events.len() > 0 {
        let rest = events.drop_last();
        lemma_timestamps_do_not_count(timeline, terms, cursor, plan, base, rest);
        lemma_a_read_is_frame_exact(timeline, terms, cursor, plan, base, rest);
        let (before, samples, step) = after_events(terms, cursor, Seq::empty(), rest);
        if !goes_on(step) {
            lemma_position_stays_known(terms, cursor, rest);
        }
    }
}

proof fn lemma_position_stays_known<T>(terms: Terms<T>, cursor: Cursor, events: Seq<Event<T>>)
    requires
        cursor.position is Some,
        has_no_reset(events),
    ensures
        after_events(terms, cursor, Seq::empty(), events).0.position is Some,
    decreases events.len(),
{
    if events.len() > 0 {
        lemma_position_stays_known(terms, cursor, events.drop_last());
    }
}

/// A read from the beginning of a stream delivers exactly the requested frames and
/// channels of the timeline, as far as the stream has them: from the cursor of a new
/// session, over packets of one rate and number of channels, of which the first resolves
/// the plan, and over changes of the track, to the end of the read.
pub proof fn lemma_a_read_from_the_beginning_is_frame_exact<T>(
    timeline: spec_fn(int) -> Seq<T>,
    terms: Terms<T>,
    track: TrackInfo,
    plan: Plan,
    events: Seq<Event<T>>,
)
    requires
        terms.damage == Damage::Reject,
        track.wf(),
        plan_of(plan.sample_rate, plan.layout.total, terms.config) == Ok::<Plan, ReadError>(plan),
        is_not_seeked(plan, track, terms.format_name),
        are_not_seeked(plan, events, terms.format_name),
        has_no_reset(events),
        follows_from(timeline, plan.sample_rate, plan.layout.total, 0, events),
        total_frames(events) <= u64::MAX,
    ensures
        ({
            let (next, out, step) = after_events(
                terms,
                at_the_beginning(track),
                Seq::empty(),
                events,
            );
            let frames = total_frames(events);
            &&& out == delivered(
                timeline,
                plan.layout,
                plan.start_frame as int,
                read_until(plan, frames),
            )
            &&& step == Ok::<Step, ReadError>(Step::Done) || step == Ok::<Step, ReadError>(
                Step::Continue,
            )
            &&& step == Ok::<Step, ReadError>(Step::Done) ==> plan.is_reached(frames)
            &&& frames > 0 && plan.is_reached(frames) ==> step == Ok::<Step, ReadError>(
                Step::Done,
            )
            &&& has_packet(events) ==> description(next, terms.config) == Ok::<Plan, ReadError>(
                plan,
            )
        }),
{
    let cursor = at_the_beginning(track);
    lemma_timestamps_do_not_count(timeline, terms, cursor, plan, 0, events);
    lemma_a_read_is_frame_exact(timeline, terms, cursor, plan, 0, events);
    lemma_only_a_reset_asks_for_one(terms, cursor, events);
}

proof fn lemma_only_a_reset_asks_for_one<T>(
    terms: Terms<T>,
    cursor: Cursor,
    events: Seq<Event<T>>,
)
    requires
        has_no_reset(events),
    ensures
        after_events(terms, cursor, Seq::empty(), events).2 != Ok::<Step, ReadError>(
            Step::ResetDecoder,
        ),
    decreases events.len(),
{
    if events.len() > 0 {
        lemma_only_a_reset_asks_for_one(terms, cursor, events.drop_last());
    }
}

/// The frames the events make up are all as wide as the stream.
proof fn lemma_timeline_width<T>(
    timeline: spec_fn(int) -> Seq<T>,
    sample_rate: u32,
    channels: usize,
    events: Seq<Event<T>>,
)
    requires
        follows_from(timeline, sample_rate, channels, 0, events),
    ensures
        0 <= total_frames(events),
        forall|f: int| 0 <= f < total_frames(events) ==> (#[trigger] timeline(f)).len() == channels,
    decreases events.len(),
{
    if events.len() > 0 {
        let rest = events.drop_last();
        lemma_timeline_width(timeline, sample_rate, channels, rest);
        let before = total_frames(rest);
        assert forall|f: int| 0 <= f < total_frames(events) implies (#[trigger] timeline(f)).len()
            == channels by {
            if f >= before {
                if let Event::Packet(delivery) = events.last() {
                    let i = f - before;
                    lemma_frame_in_range(channels as int, i, delivery.packet.frames as int);
                    assert(frame_of_packet(delivery.interleaved, channels as int, i) == timeline(
                        0 + before + i,
                    ));
                }
            }
        }
    }
}

/// A stretch of the timeline is the corresponding part of all that a read without any
/// selection delivers of the stream.
proof fn lemma_stretch_is_part_of_the_full_read<T>(
    timeline: spec_fn(int) -> Seq<T>,
    terms: Terms<T>,
    track: TrackInfo,
    plan: Plan,
    everything: Plan,
    events: Seq<Event<T>>,
)
    requires
        plan.wf(),
        terms.damage == Damage::Reject,
        track.wf(),
        terms.config.start is Default,
        terms.config.stop is Default,
        terms.config.start_channel is None,
        terms.config.num_channels is None,
        plan_of(plan.sample_rate, plan.layout.total, terms.config) == Ok::<Plan, ReadError>(
            everything,
        ),
        has_no_reset(events),
        follows_from(timeline, plan.sample_rate, plan.layout.total, 0, events),
        total_frames(events) <= u64::MAX,
    ensures
        delivered(
            timeline,
            plan.layout,
            plan.start_frame as int,
            read_until(plan, total_frames(events)),
        ) == pick(
            after_events(terms, at_the_beginning(track), Seq::empty(), events).1,
            plan.layout.total as int,
            plan.layout.start as int,
            plan.layout.count as int,
            plan.start_frame as int,
            plan.bounded(total_frames(events)),
        ),
{
    let frames = total_frames(events);
    lemma_nothing_is_seeked(everything, events, terms.format_name);
    lemma_a_read_from_the_beginning_is_frame_exact(timeline, terms, track, everything, events);
    lemma_timeline_width(timeline, plan.sample_rate, plan.layout.total, events);
    if plan.start_frame <= frames {
        lemma_delivered_part(
            timeline,
            plan.layout,
            everything.layout,
            frames,
            plan.start_frame as int,
            plan.bounded(frames),
        );
    }
}

proof fn lemma_nothing_is_seeked<T>(plan: Plan, events: Seq<Event<T>>, format_name: Seq<char>)
    requires
        plan.start_frame == 0,
    ensures
        are_not_seeked(plan, events, format_name),
    decreases events.len(),
{
    if events.len() > 0 {
        lemma_nothing_is_seeked(plan, events.drop_last(), format_name);
    }
}

/// Reading a range of frames and channels gives the corresponding part of a read of the
/// whole stream.
pub proof fn lemma_range_read_matches_the_full_read<T>(
    timeline: spec_fn(int) -> Seq<T>,
    terms: Terms<T>,
    full_terms: Terms<T>,
    track: TrackInfo,
    plan: Plan,
    everything: Plan,
    events: Seq<Event<T>>,
)
    requires
        terms.damage == Damage::Reject,
        full_terms.damage == Damage::Reject,
        track.wf(),
        plan_of(plan.sample_rate, plan.layout.total, terms.config) == Ok::<Plan, ReadError>(plan),
        full_terms.config.start is Default,
        full_terms.config.stop is Default,
        full_terms.config.start_channel is None,
        full_terms.config.num_channels is None,
        plan_of(plan.sample_rate, plan.layout.total, full_terms.config) == Ok::<Plan, ReadError>(
            everything,
        ),
        is_not_seeked(plan, track, terms.format_name),
        are_not_seeked(plan, events, terms.format_name),
        has_no_reset(events),
        follows_from(timeline, plan.sample_rate, plan.layout.total, 0, events),
        total_frames(events) <= u64::MAX,
    ensures
        after_events(terms, at_the_beginning(track), Seq::empty(), events).1 == pick(
            after_events(full_terms, at_the_beginning(track), Seq::empty(), events).1,
            plan.layout.total as int,
            plan.layout.start as int,
            plan.layout.count as int,
            plan.start_frame as int,
            plan.bounded(total_frames(events)),
        ),
{
    lemma_a_read_from_the_beginning_is_frame_exact(timeline, terms, track, plan, events);
    lemma_stretch_is_part_of_the_full_read(
        timeline,
        full_terms,
        track,
        plan,
        everything,
        events,
    );
}

/// Where the first packet of a read leads to a seek: the plan is resolved, and nothing is
/// delivered.
pub open spec fn at_the_seek(track: TrackInfo, plan: Plan) -> Cursor {
    Cursor {
        plan: Some(plan),
        copied_until: plan.start_frame as u64,
        ..at_the_beginning(track)
    }
}

/// The first packet of a read that is worth seeking resolves the plan, is given up itself,
/// and asks for a seek.
pub proof fn lemma_the_first_packet_asks_for_a_seek<T>(
    terms: Terms<T>,
    track: TrackInfo,
    plan: Plan,
    first: Delivery<T>,
)
    requires
        track.wf(),
        plan_of(first.packet.rate, first.packet.channels, terms.config) == Ok::<Plan, ReadError>(
            plan,
        ),
        !is_not_seeked(plan, track, terms.format_name),
    ensures
        after_event(terms, at_the_beginning(track), Seq::empty(), Event::Packet(first)) == (
            at_the_seek(track, plan),
            Seq::<T>::empty(),
            Ok::<Step, ReadError>(
                Step::Seek {
                    track_id: track.id,
                    start_frame: plan.start_frame,
                    sample_rate: plan.sample_rate,
                    time_base: track.time_base->0,
                },
            ),
        ),
        at_the_seek(track, plan).wf(),
{
}

/// A read that was seeked delivers exactly the requested frames and channels of the
/// timeline, as far as the stream has them, where the landing is at or before the start,
/// the first packet with frames after it lies at `base`, at or before the start too, and
/// the others follow it. The stream is not reopened, and the frames before the start are
/// dropped.
pub proof fn lemma_a_seeked_read_is_frame_exact<T>(
    timeline: spec_fn(int) -> Seq<T>,
    terms: Terms<T>,
    track: TrackInfo,
    plan: Plan,
    landing: Option<i64>,
    base: u64,
    events: Seq<Event<T>>,
)
    requires
        terms.damage == Damage::Reject,
        track.wf(),
        plan_of(plan.sample_rate, plan.layout.total, terms.config) == Ok::<Plan, ReadError>(plan),
        !is_not_seeked(plan, track, terms.format_name),
        landed_before(landing, plan.start_frame, track.time_base->0, plan.sample_rate),
        base <= plan.start_frame,
        follows_from(timeline, plan.sample_rate, plan.layout.total, base as int, events),
        is_placed(
            terms,
            after_seek(at_the_seek(track, plan), plan, track.time_base->0, landing).0,
            plan,
            base as int,
            events,
        ),
        base + total_frames(events) <= u64::MAX,
    ensures
        ({
            let (landed, answer) = after_seek(
                at_the_seek(track, plan),
                plan,
                track.time_base->0,
                landing,
            );
            let (next, out, step) = after_events(terms, landed, Seq::empty(), events);
            let frames = base + total_frames(events);
            &&& answer == Step::ResetDecoder
            &&& out == delivered(
                timeline,
                plan.layout,
                plan.start_frame as int,
                read_until(plan, frames),
            )
            &&& step == Ok::<Step, ReadError>(Step::Done) || goes_on(step)
            &&& step == Ok::<Step, ReadError>(Step::Done) ==> plan.is_reached(frames)
            &&& frames > base && plan.is_reached(frames) ==> step == Ok::<Step, ReadError>(
                Step::Done,
            )
            &&& description(next, terms.config) == Ok::<Plan, ReadError>(plan)
        }),
{
    let landed = after_seek(at_the_seek(track, plan), plan, track.time_base->0, landing).0;
    lemma_a_read_is_frame_exact(timeline, terms, landed, plan, base, events);
}

/// Seeking to a range gives the corresponding part of a read of the whole stream, where
/// the packets after the seek make up the rest of it.
pub proof fn lemma_a_seeked_read_matches_the_full_read<T>(
    timeline: spec_fn(int) -> Seq<T>,
    terms: Terms<T>,
    full_terms: Terms<T>,
    track: TrackInfo,
    plan: Plan,
    everything: Plan,
    landing: Option<i64>,
    base: u64,
    events: Seq<Event<T>>,
    all_events: Seq<Event<T>>,
)
    requires
        terms.damage == Damage::Reject,
        full_terms.damage == Damage::Reject,
        track.wf(),
        plan_of(plan.sample_rate, plan.layout.total, terms.config) == Ok::<Plan, ReadError>(plan),
        full_terms.config.start is Default,
        full_terms.config.stop is Default,
        full_terms.config.start_channel is None,
        full_terms.config.num_channels is None,
        plan_of(plan.sample_rate, plan.layout.total, full_terms.config) == Ok::<Plan, ReadError>(
            everything,
        ),
        !is_not_seeked(plan, track, terms.format_name),
        landed_before(landing, plan.start_frame, track.time_base->0, plan.sample_rate),
        base <= plan.start_frame,
        follows_from(timeline, plan.sample_rate, plan.layout.total, base as int, events),
        is_placed(
            terms,
            after_seek(at_the_seek(track, plan), plan, track.time_base->0, landing).0,
            plan,
            base as int,
            events,
        ),
        has_no_reset(all_events),
        follows_from(timeline, plan.sample_rate, plan.layout.total, 0, all_events),
        base + total_frames(events) == total_frames(all_events) <= u64::MAX,
    ensures
        after_events(
            terms,
            after_seek(at_the_seek(track, plan), plan, track.time_base->0, landing).0,
            Seq::empty(),
            events,
        ).1 == pick(
            after_events(full_terms, at_the_beginning(track), Seq::empty(), all_events).1,
            plan.layout.total as int,
            plan.layout.start as int,
            plan.layout.count as int,
            plan.start_frame as int,
            plan.bounded(total_frames(all_events)),
        ),
{
    lemma_a_seeked_read_is_frame_exact(timeline, terms, track, plan, landing, base, events);
    lemma_stretch_is_part_of_the_full_read(
        timeline,
        full_terms,
        track,
        plan,
        everything,
        all_events,
    );
}

/// Where a seek is given up, because it failed or landed after the start, or because the
/// first packet with frames after the landing turned out to lie after the start, nothing
/// has been delivered, and the file is to be opened again.
pub proof fn lemma_a_bad_landing_is_given_up<T>(
    terms: Terms<T>,
    track: TrackInfo,
    plan: Plan,
    landing: Option<i64>,
    late: Delivery<T>,
)
    requires
        track.wf(),
        plan.wf(),
        track.time_base is Some,
        late.packet.rate == plan.sample_rate,
        late.packet.channels == plan.layout.total,
    ensures
        ({
            let before = at_the_seek(track, plan);
            let (landed, answer) = after_seek(before, plan, track.time_base->0, landing);
            if landed_before(landing, plan.start_frame, track.time_base->0, plan.sample_rate) {
                landed.packet_start(plan, late.packet) matches Some(start) ==> (start
                    > plan.start_frame ==> after_event(
                    terms,
                    landed,
                    Seq::empty(),
                    Event::Packet(late),
                ) == (
                    Cursor { unverified_landing: false, ..landed },
                    Seq::<T>::empty(),
                    Ok::<Step, ReadError>(Step::Reopen),
                ))
            } else {
                landed == before && answer == Step::Reopen
            }
        }),
{
}

/// After a seek was given up, the read from the beginning of the file that was opened
/// again delivers exactly the requested frames and channels of the timeline, as far as
/// the stream has them.
pub proof fn lemma_a_reopened_read_is_frame_exact<T>(
    timeline: spec_fn(int) -> Seq<T>,
    terms: Terms<T>,
    cursor: Cursor,
    track: TrackInfo,
    plan: Plan,
    events: Seq<Event<T>>,
)
    requires
        terms.damage == Damage::Reject,
        cursor.wf(),
        cursor.plan == Some(plan),
        cursor.copied_until == plan.start_frame,
        !cursor.unverified_landing,
        track.wf(),
        has_no_reset(events),
        follows_from(timeline, plan.sample_rate, plan.layout.total, 0, events),
        total_frames(events) <= u64::MAX,
    ensures
        ({
            let (next, out, step) = after_events(
                terms,
                after_reopening(cursor, track),
                Seq::empty(),
                events,
            );
            let frames = total_frames(events);
            &&& out == delivered(
                timeline,
                plan.layout,
                plan.start_frame as int,
                read_until(plan, frames),
            )
            &&& step == Ok::<Step, ReadError>(Step::Done) || step == Ok::<Step, ReadError>(
                Step::Continue,
            )
            &&& step == Ok::<Step, ReadError>(Step::Done) ==> plan.is_reached(frames)
            &&& frames > 0 && plan.is_reached(frames) ==> step == Ok::<Step, ReadError>(
                Step::Done,
            )
            &&& description(next, terms.config) == Ok::<Plan, ReadError>(plan)
        }),
{
    let reopened = after_reopening(cursor, track);
    lemma_timestamps_do_not_count(timeline, terms, reopened, plan, 0, events);
    lemma_a_read_is_frame_exact(timeline, terms, reopened, plan, 0, events);
    lemma_only_a_reset_asks_for_one(terms, reopened, events);
}

/// What a read from the beginning returns, sample by sample: of the frames of the timeline
/// from the start, inclusive, up to the stop, exclusive, as far as the stream has them, the
/// selected channels, in order and nothing else.
pub proof fn lemma_a_read_returns_what_was_asked_for<T>(
    timeline: spec_fn(int) -> Seq<T>,
    terms: Terms<T>,
    track: TrackInfo,
    plan: Plan,
    events: Seq<Event<T>>,
)
    requires
        terms.damage == Damage::Reject,
        track.wf(),
        plan_of(plan.sample_rate, plan.layout.total, terms.config) == Ok::<Plan, ReadError>(plan),
        is_not_seeked(plan, track, terms.format_name),
        are_not_seeked(plan, events, terms.format_name),
        has_no_reset(events),
        follows_from(timeline, plan.sample_rate, plan.layout.total, 0, events),
        total_frames(events) <= u64::MAX,
    ensures
        ({
            let out = after_events(terms, at_the_beginning(track), Seq::empty(), events).1;
            let frames = total_frames(events);
            let stop = if plan.end_frame is Some && plan.end_frame->0 < frames {
                plan.end_frame->0 as int
            } else {
                frames
            };
            let number = if stop > plan.start_frame {
                stop - plan.start_frame
            } else {
                0
            };
            let count = plan.layout.count as int;
            &&& out.len() == number * count
            &&& forall|frame: int, channel: int|
                0 <= frame < number && 0 <= channel < count ==> #[trigger] out[frame * count
                    + channel] == timeline(plan.start_frame + frame)[plan.layout.start + channel]
        }),
{
    let frames = total_frames(events);
    lemma_a_read_from_the_beginning_is_frame_exact(timeline, terms, track, plan, events);
    lemma_timeline_width(timeline, plan.sample_rate, plan.layout.total, events);
    lemma_delivered_samples(
        timeline,
        plan.layout,
        plan.start_frame as int,
        read_until(plan, frames),
    );
}

/// What a seeked read returns, sample by sample: as much as one from the beginning does.
pub proof fn lemma_a_seeked_read_returns_what_was_asked_for<T>(
    timeline: spec_fn(int) -> Seq<T>,
    terms: Terms<T>,
    track: TrackInfo,
    plan: Plan,
    landing: Option<i64>,
    base: u64,
    events: Seq<Event<T>>,
)
    requires
        terms.damage == Damage::Reject,
        track.wf(),
        plan_of(plan.sample_rate, plan.layout.total, terms.config) == Ok::<Plan, ReadError>(plan),
        !is_not_seeked(plan, track, terms.format_name),
        landed_before(landing, plan.start_frame, track.time_base->0, plan.sample_rate),
        base <= plan.start_frame,
        follows_from(timeline, plan.sample_rate, plan.layout.total, base as int, events),
        is_placed(
            terms,
            after_seek(at_the_seek(track, plan), plan, track.time_base->0, landing).0,
            plan,
            base as int,
            events,
        ),
        base + total_frames(events) <= u64::MAX,
        forall|f: int| 0 <= f ==> (#[trigger] timeline(f)).len() == plan.layout.total,
    ensures
        ({
            let landed = after_seek(
                at_the_seek(track, plan),
                plan,
                track.time_base->0,
                landing,
            ).0;
            let out = after_events(terms, landed, Seq::empty(), events).1;
            let frames = base + total_frames(events);
            let stop = if plan.end_frame is Some && plan.end_frame->0 < frames {
                plan.end_frame->0 as int
            } else {
                frames
            };
            let number = if stop > plan.start_frame {
                stop - plan.start_frame
            } else {
                0
            };
            let count = plan.layout.count as int;
            &&& out.len() == number * count
            &&& forall|frame: int, channel: int|
                0 <= frame < number && 0 <= channel < count ==> #[trigger] out[frame * count
                    + channel] == timeline(plan.start_frame + frame)[plan.layout.start + channel]
        }),
{
    let frames = base + total_frames(events);
    lemma_a_seeked_read_is_frame_exact(timeline, terms, track, plan, landing, base, events);
    lemma_delivered_samples(
        timeline,
        plan.layout,
        plan.start_frame as int,
        read_until(plan, frames),
    );
}

} // verus!
