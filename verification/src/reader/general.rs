//! The general decoding path, for every format the wav fast path does not claim.
//!
//! A demuxer and a decoder do the outside work, and a [`Session`] decides: it is
//! told what they delivered and answers what to do next. It turns packets, whose
//! positions have to be recovered from timestamps, into the same frame-exact and
//! channel-exact read the wav path gets from indexing into a byte array.
//!
//! By default it repairs nothing: a packet the decoder rejects ends the read with
//! an error rather than being skipped over, and so does a gap between packets.
//! [`Damage::Conceal`] is for callers who would rather have a damaged file with
//! silence in place of what was lost than no audio at all.

use vstd::prelude::*;

use super::timing::{
    frames_per_tick, landed_before, saturated, seek_before, seek_is_worth_it, should_seek,
    tick_span, timestamp_frame, timestamp_to_frame, TimeBase,
};
use super::track::{declared, declared_plan, TrackInfo};
use super::{
    plan_of, prealloc_len, Decoded, Layout, Plan, ReadConfig, ReadError, MAX_PREALLOC_SAMPLES,
};
use crate::select::pick;

verus! {

/// The smaller of two numbers.
pub open spec fn least(a: int, b: int) -> int {
    if a < b {
        a
    } else {
        b
    }
}

/// The larger of two numbers.
pub open spec fn most(a: int, b: int) -> int {
    if a > b {
        a
    } else {
        b
    }
}

/// `v`, or zero where that is negative.
pub open spec fn at_least_zero(v: int) -> int {
    if v < 0 {
        0
    } else {
        v
    }
}

impl Plan {
    /// Number of frames the read is expected to yield, if the stop position or the
    /// length of the file bounds it.
    pub open spec fn expected(self, num_frames: Option<u64>) -> Option<int> {
        match (self.end_frame, num_frames) {
            (Some(end), Some(total)) => Some(
                at_least_zero(least(end as int, least(total as int, usize::MAX as int))
                    - self.start_frame),
            ),
            (Some(end), None) => Some(at_least_zero(end - self.start_frame)),
            (None, Some(total)) => Some(
                at_least_zero(least(total as int, usize::MAX as int) - self.start_frame),
            ),
            (None, None) => None,
        }
    }

    /// Number of frames the read is expected to yield, if the file length is known.
    pub fn expected_frames(&self, num_frames: Option<u64>) -> (frames: Option<usize>)
        ensures
            match (frames, self.expected(num_frames)) {
                (Some(n), Some(expected)) => n == expected,
                (None, None) => true,
                _ => false,
            },
    {
        let total: Option<usize> = match num_frames {
            Some(n) => if n > usize::MAX as u64 {
                Some(usize::MAX)
            } else {
                Some(n as usize)
            },
            None => None,
        };
        let end: usize = match (self.end_frame, total) {
            (Some(end), Some(total)) => if end < total {
                end
            } else {
                total
            },
            (Some(end), None) => end,
            (None, Some(total)) => total,
            (None, None) => {
                return None;
            },
        };
        Some(end.saturating_sub(self.start_frame))
    }

    /// `frame`, or the frame the read stops before where that comes first.
    pub open spec fn bounded(self, frame: int) -> int {
        match self.end_frame {
            Some(end) => least(frame, end as int),
            None => frame,
        }
    }

    /// Whether a stream that has reached `frame` has delivered all that was asked
    /// for.
    pub open spec fn is_reached(self, frame: int) -> bool {
        self.end_frame matches Some(end) && frame >= end
    }

    /// How many samples to reserve up front, so that long reads don't repeatedly
    /// reallocate a growing buffer, and a bogus frame count does not request a huge
    /// allocation.
    pub fn prealloc_samples(&self, num_frames: Option<u64>) -> (samples: usize)
        ensures
            samples == (match self.expected(num_frames) {
                Some(frames) => least(frames * self.layout.count, MAX_PREALLOC_SAMPLES as int),
                None => 0,
            }),
    {
        match self.expected_frames(num_frames) {
            None => 0,
            Some(frames) => prealloc_len(frames, self.layout.count),
        }
    }
}

/// Append the selected channels of frames `[first, last)` of an interleaved buffer
/// to the output.
pub fn append_selected<T: Copy>(
    samples: &mut Vec<T>,
    interleaved: &[T],
    layout: Layout,
    first: usize,
    last: usize,
)
    requires
        layout.start + layout.count <= layout.total,
        first <= last,
        last * layout.total <= interleaved@.len(),
    ensures
        final(samples)@ == old(samples)@ + pick(
            interleaved@,
            layout.total as int,
            layout.start as int,
            layout.count as int,
            first as int,
            last as int,
        ),
{
    let len: usize = interleaved.len();
    let total: usize = layout.total;
    let start: usize = layout.start;
    let count: usize = layout.count;
    let ghost before = samples@;
    let mut frame: usize = first;
    assert(samples@ =~= before + pick(
        interleaved@,
        total as int,
        start as int,
        count as int,
        first as int,
        first as int,
    ));
    while frame < last
        invariant
            len == interleaved@.len(),
            start + count <= total,
            first <= frame <= last,
            last * total <= len,
            samples@ == before + pick(
                interleaved@,
                total as int,
                start as int,
                count as int,
                first as int,
                frame as int,
            ),
        decreases last - frame,
    {
        proof {
            crate::select::lemma_frame_in_range(total as int, frame as int, last as int);
        }
        let at: usize = frame * total + start;
        let ghost so_far = samples@;
        let ghost wanted = interleaved@.subrange(at as int, at + count);
        let mut c: usize = 0;
        assert(so_far + wanted.take(0) =~= so_far);
        while c < count
            invariant
                len == interleaved@.len(),
                c <= count,
                at + count <= len,
                wanted == interleaved@.subrange(at as int, at + count),
                samples@ == so_far + wanted.take(c as int),
            decreases count - c,
        {
            samples.push(interleaved[at + c]);
            c += 1;
            assert(samples@ =~= so_far + wanted.take(c as int));
        }
        assert(wanted.take(count as int) =~= wanted);
        proof {
            let picked = pick(
                interleaved@,
                total as int,
                start as int,
                count as int,
                first as int,
                frame as int,
            );
            assert(before + picked + wanted =~= before + (picked + wanted));
        }
        frame += 1;
    }
}

/// How much of a hole is filled.
pub open spec fn filled(missing: int, written: int, channels: int, max_frames: Option<int>) -> int {
    least(
        least(missing, usize::MAX as int),
        match max_frames {
            Some(max) => at_least_zero(max - written),
            None => MAX_PREALLOC_SAMPLES as int / most(channels, 1),
        },
    )
}

/// Number of silent frames to insert for a hole of `missing` frames, after
/// `written` frames have been produced.
///
/// A corrupt timestamp could ask for an enormous hole, so the fill is capped by the
/// frames the read can produce at all, and by the same budget as the preallocation
/// when neither the stop position nor the file length bounds it. A capped fill
/// leaves the output short, which a truncated file does as well.
pub fn fill_frames(missing: u64, written: usize, channels: usize, max_frames: Option<usize>) -> (
frames: usize)
    ensures
        frames == filled(
            missing as int,
            written as int,
            channels as int,
            (match max_frames {
                Some(max) => Some(max as int),
                None => None,
            }),
        ),
{
    let missing: usize = if missing > usize::MAX as u64 {
        usize::MAX
    } else {
        missing as usize
    };
    let limit: usize = match max_frames {
        Some(max) => max.saturating_sub(written),
        None => if channels == 0 {
            assert(MAX_PREALLOC_SAMPLES as int / 1 == MAX_PREALLOC_SAMPLES) by (nonlinear_arith);
            MAX_PREALLOC_SAMPLES
        } else {
            MAX_PREALLOC_SAMPLES / channels
        },
    };
    if missing < limit {
        missing
    } else {
        limit
    }
}

/// How many whole blocks a position `ahead` of the anchor is nearest to, a tie
/// going up. At least one packet was lost to get there, so it is never none.
pub open spec fn blocks_ahead(ahead: int, block: int) -> int {
    if block == 0 {
        1
    } else {
        most(least(ahead + block / 2, u64::MAX as int) / block, 1)
    }
}

/// The grid point of the grid of `block`s from `anchor` that is nearest to
/// `estimate`.
pub open spec fn grid_point(estimate: int, anchor: int, block: int) -> int {
    least(
        anchor + least(blocks_ahead(estimate - anchor, block) * block, u64::MAX as int),
        u64::MAX as int,
    )
}

/// The estimate rounded onto the grid, if it lies within `tolerance` of it.
pub open spec fn snapped(estimate: int, anchor: int, block: int, tolerance: int) -> int {
    let point = grid_point(estimate, anchor, block);
    if estimate < anchor {
        estimate
    } else if -tolerance <= point - estimate <= tolerance {
        point
    } else {
        estimate
    }
}

/// Round a position estimate onto the packet grid that starts at `anchor`.
///
/// A timestamp coarser than one frame, such as the milliseconds of a Matroska file
/// at 44.1 kHz, locates a packet only to within one tick. A codec with a constant
/// blocksize spaces its packets `block` frames apart, so the true position is a
/// whole number of blocks after a position that is already known exactly, and the
/// estimate can be rounded back onto it.
///
/// `block` is the frame count of the packet being positioned, which is only the
/// real spacing if the codec has a constant blocksize and this is not its last,
/// short packet. `tolerance` is what makes that guess safe: an estimate further
/// than one timestamp tick from the nearest grid point is returned unchanged,
/// because timestamp quantization cannot account for the difference.
pub fn snap_to_grid(estimate: u64, anchor: u64, block: u64, tolerance: u64) -> (position: u64)
    ensures
        position == snapped(estimate as int, anchor as int, block as int, tolerance as int),
{
    // Only a position ahead of the anchor can sit on the grid ahead of it.
    if estimate < anchor {
        return estimate;
    }
    let ahead: u64 = estimate - anchor;
    // At least one packet was lost to get here, so the nearest grid point can never
    // be the anchor itself.
    let blocks: u64 = if block == 0 {
        1
    } else {
        let whole: u64 = ahead.saturating_add(block / 2) / block;
        if whole < 1 {
            1
        } else {
            whole
        }
    };
    let distance: u64 = match blocks.checked_mul(block) {
        Some(distance) => distance,
        None => 0xffff_ffff_ffff_ffff,
    };
    let point: u64 = anchor.saturating_add(distance);
    let off: u64 = if point > estimate {
        point - estimate
    } else {
        estimate - point
    };
    if off <= tolerance {
        point
    } else {
        estimate
    }
}

/// Where the codec spaces its packets evenly and the timestamp is off by less than
/// half a block, the exact position is recovered from the grid.
pub proof fn lemma_quantized_position_is_recovered(
    anchor: int,
    blocks: int,
    block: int,
    estimate: int,
    tolerance: int,
)
    requires
        0 <= anchor,
        0 < block,
        1 <= blocks,
        anchor + blocks * block + block <= u64::MAX,
        anchor <= estimate,
        -tolerance <= estimate - (anchor + blocks * block) <= tolerance,
        2 * tolerance < block,
    ensures
        snapped(estimate, anchor, block, tolerance) == anchor + blocks * block,
{
    let ahead = estimate - anchor;
    let off = ahead - blocks * block;
    let shifted = ahead + block / 2;
    assert(shifted / block == blocks) by (nonlinear_arith)
        requires
            shifted == blocks * block + (off + block / 2),
            0 <= off + block / 2 < block,
            0 < block,
    ;
    assert(0 <= blocks * block) by (nonlinear_arith)
        requires
            0 < block,
            1 <= blocks,
    ;
}

/// No point of the grid after the anchor is nearer to the estimate than the one it is
/// rounded to, and where two are equally near that is the later one.
pub proof fn lemma_no_grid_point_is_nearer(estimate: int, anchor: int, block: int, blocks: int)
    requires
        0 <= anchor <= estimate,
        0 < block,
        estimate + block <= u64::MAX,
        1 <= blocks,
    ensures
        ({
            let point = grid_point(estimate, anchor, block);
            let other = anchor + blocks * block;
            let off = most(point - estimate, estimate - point);
            let other_off = most(other - estimate, estimate - other);
            &&& point == anchor + blocks_ahead(estimate - anchor, block) * block
            &&& 1 <= blocks_ahead(estimate - anchor, block)
            &&& off <= other_off
            &&& off == other_off ==> other <= point
        }),
{
    let ahead = estimate - anchor;
    let shifted = ahead + block / 2;
    let whole = shifted / block;
    let nearest = blocks_ahead(ahead, block);
    vstd::arithmetic::div_mod::lemma_fundamental_div_mod(shifted, block);
    assert(block * whole == whole * block) by (nonlinear_arith);
    assert(0 <= whole) by (nonlinear_arith)
        requires
            whole == shifted / block,
            0 <= shifted,
            0 < block,
    ;
    let point = nearest * block;
    let other = blocks * block;
    if whole < 1 {
        assert(whole * block == 0) by (nonlinear_arith)
            requires
                whole == 0,
        ;
        assert(1 * block == block);
        assert(block <= other) by (nonlinear_arith)
            requires
                1 <= blocks,
                0 < block,
                other == blocks * block,
        ;
    } else if blocks < nearest {
        assert(other + block <= point) by (nonlinear_arith)
            requires
                blocks + 1 <= nearest,
                0 < block,
                other == blocks * block,
                point == nearest * block,
        ;
    } else if blocks > nearest {
        assert(point + block <= other) by (nonlinear_arith)
            requires
                nearest + 1 <= blocks,
                0 < block,
                other == blocks * block,
                point == nearest * block,
        ;
    }
}

/// Snapping never moves a position by more than the tolerance, so a spacing that is
/// not the real one does no more harm than the timestamp already did.
pub proof fn lemma_snapping_stays_within_the_tolerance(
    estimate: int,
    anchor: int,
    block: int,
    tolerance: int,
)
    requires
        0 <= tolerance,
    ensures
        -tolerance <= snapped(estimate, anchor, block, tolerance) - estimate <= tolerance,
{
}

/// What becomes of a read that runs into damage.
#[derive(Debug, Clone, Copy, PartialEq, Eq, Structural)]
pub enum Damage {
    /// A packet the decoder rejects, or frames the stream never delivers, end the
    /// read with an error.
    Reject,
    /// A packet the decoder rejects is dropped where its place can be recovered from
    /// timestamps, and silence takes the place of frames that are missing.
    Conceal,
}

impl Default for Damage {
    /// A file is either read in full or not at all.
    fn default() -> (damage: Self)
        ensures
            damage == Damage::Reject,
    {
        Damage::Reject
    }
}

/// What a decoder says about a packet it has decoded.
#[derive(Debug, Clone, Copy, PartialEq, Eq, Structural)]
pub struct PacketInfo {
    /// Sample rate of the decoded audio.
    pub rate: u32,
    /// Channels of the decoded audio.
    pub channels: usize,
    /// Frames the decoder emitted for this packet, which can be none.
    pub frames: usize,
    /// Presentation timestamp of the packet.
    pub pts: i64,
    /// Frames the decoder dropped from the beginning of the packet.
    pub trim_start: u64,
}

/// What to do next.
#[allow(inconsistent_fields)]
#[derive(Debug, Clone, Copy, PartialEq, Eq, Structural)]
pub enum Step {
    /// Go on with the next packet.
    Continue,
    /// Stop, everything that was asked for has been delivered.
    Done,
    /// Reset the decoder, and go on with the next packet.
    ResetDecoder,
    /// Seek to what [`super::timing::seek_target`] says, and report the landing with
    /// [`Session::seek_finished`].
    Seek { track_id: u32, start_frame: usize, sample_rate: u32, time_base: TimeBase },
    /// Open the file again from the beginning, select a track, and report it with
    /// [`Session::reopened`].
    Reopen,
}

/// Where a read stands.
#[derive(Debug, Clone, Copy, PartialEq, Eq, Structural)]
pub struct Cursor {
    /// The track that is being read.
    pub track: TrackInfo,
    /// Resolved from the first packet that decodes, see [`Plan`].
    pub plan: Option<Plan>,
    /// Whether the read was seeked.
    pub seeked: bool,
    /// Absolute frame index of the next decoded frame. Decoding from the beginning
    /// has an exact zero anchor. After a successful seek (or a discontinuity), one
    /// packet timestamp establishes a new anchor; decoded frame counts advance it
    /// from then on. Re-anchoring every packet would turn timestamp quantization
    /// into overlaps or gaps.
    pub position: Option<u64>,
    /// Offset for re-anchoring within a chained stream, whose packet timestamps
    /// restart at zero even though its decoded frames continue the output.
    pub stream_base: u64,
    /// Set while a seek landing still has to be checked against the requested
    /// start, which can only be done once a packet after it has been positioned.
    pub unverified_landing: bool,
    /// Last position that was known exactly before a discarded packet left a hole,
    /// and the origin of the grid the next position is snapped to. Only a discarded
    /// packet keeps the timeline around the hole intact; a seek or a decoder reset
    /// is a real discontinuity, where no grid carries over.
    pub grid_anchor: Option<u64>,
    /// First frame that has not been written to the output yet. Set to the start
    /// frame as soon as the plan is resolved.
    pub copied_until: u64,
}

impl Cursor {
    /// Whether this is a state that a read can be in.
    pub open spec fn wf(self) -> bool {
        &&& self.track.wf()
        &&& match self.plan {
            Some(plan) => {
                &&& plan.wf()
                &&& plan.start_frame <= self.copied_until
                &&& plan.bounded(self.copied_until as int) == self.copied_until
            },
            None => {
                &&& self.copied_until == 0
                &&& self.stream_base == 0
                &&& !self.seeked
                &&& !self.unverified_landing
                &&& self.position matches Some(at) ==> at == 0
            },
        }
        &&& self.unverified_landing ==> self.position is None && self.stream_base == 0
    }

    /// The frame a packet starts at. Decoder output is continuous after it has been
    /// anchored; at a discontinuity the timestamp counts, and a packet without
    /// frames cannot be positioned.
    pub open spec fn packet_start(self, plan: Plan, packet: PacketInfo) -> Option<u64> {
        match (self.position, self.track.time_base) {
            (Some(position), _) => Some(position),
            (None, None) => if packet.frames == 0 {
                None
            } else {
                Some(self.stream_base)
            },
            (None, Some(tb)) => if packet.frames == 0 {
                None
            } else {
                let estimate = saturated(
                    self.stream_base + timestamp_frame(
                        packet.pts,
                        packet.trim_start,
                        tb,
                        plan.sample_rate,
                    ),
                );
                match self.grid_anchor {
                    Some(anchor) => Some(
                        snapped(
                            estimate as int,
                            anchor as int,
                            packet.frames as int,
                            tick_span(tb, plan.sample_rate),
                        ) as u64,
                    ),
                    None => Some(estimate),
                }
            },
        }
    }

    /// The first frame that is taken from a packet at `start`.
    pub open spec fn copy_start(self, plan: Plan, start: u64) -> int {
        most(most(start as int, plan.start_frame as int), self.copied_until as int)
    }

    /// How many silent frames go before the first frame taken from a packet. A hole
    /// before the first copied frame is only filled when the read was not seeked:
    /// after a seek the first packet may simply start later than requested, and its
    /// frames were never lost.
    pub open spec fn silent_frames(
        self,
        damage: Damage,
        plan: Plan,
        start: u64,
        written: int,
    ) -> int {
        let copy_start = self.copy_start(plan, start);
        if damage == Damage::Conceal && copy_start > self.copied_until && (!self.seeked
            || self.copied_until > plan.start_frame) {
            filled(
                copy_start - self.copied_until,
                written,
                plan.layout.count as int,
                plan.expected(self.track.num_frames),
            )
        } else {
            0
        }
    }
}

/// `n` times the same value.
pub open spec fn repeated<T>(value: T, n: int) -> Seq<T> {
    Seq::new(n as nat, |i: int| value)
}

/// What comes of a packet that starts at `start`: the next state, the samples, and
/// what to do next.
pub open spec fn after_placing<T>(
    cursor: Cursor,
    damage: Damage,
    plan: Plan,
    samples: Seq<T>,
    silence: T,
    packet: PacketInfo,
    interleaved: Seq<T>,
    start: u64,
) -> (Cursor, Seq<T>, Result<Step, ReadError>) {
    let verified = Cursor { unverified_landing: false, ..cursor };
    let expected_until = plan.bounded(start as int);
    let packet_end = saturated(start + packet.frames);
    let copy_start = cursor.copy_start(plan, start);
    let copy_end = plan.bounded(packet_end as int);
    let next = Cursor { position: Some(packet_end), ..verified };
    let step = if plan.is_reached(packet_end as int) {
        Step::Done
    } else {
        Step::Continue
    };
    if cursor.unverified_landing && start > plan.start_frame {
        (verified, samples, Ok(Step::Reopen))
    } else if damage == Damage::Reject && expected_until > cursor.copied_until {
        (
            verified,
            samples,
            Err(
                ReadError::MissingFrames {
                    start: cursor.copied_until,
                    end: expected_until as u64,
                },
            ),
        )
    } else if copy_start < copy_end {
        let silent = cursor.silent_frames(
            damage,
            plan,
            start,
            samples.len() as int / plan.layout.count as int,
        );
        (
            Cursor { copied_until: copy_end as u64, ..next },
            samples + repeated(silence, silent * plan.layout.count) + pick(
                interleaved,
                plan.layout.total as int,
                plan.layout.start as int,
                plan.layout.count as int,
                copy_start - start,
                copy_end - start,
            ),
            Ok(step),
        )
    } else {
        (next, samples, Ok(step))
    }
}

/// What comes of a packet once the plan is known.
pub open spec fn after_planned<T>(
    cursor: Cursor,
    damage: Damage,
    plan: Plan,
    samples: Seq<T>,
    silence: T,
    packet: PacketInfo,
    interleaved: Seq<T>,
) -> (Cursor, Seq<T>, Result<Step, ReadError>) {
    match cursor.packet_start(plan, packet) {
        None => (cursor, samples, Ok(Step::Continue)),
        Some(start) => after_placing(
            cursor,
            damage,
            plan,
            samples,
            silence,
            packet,
            interleaved,
            start,
        ),
    }
}

/// What comes of a packet. The first one that decodes resolves the plan, and is
/// given up again where it is worth seeking; every later one has to have the same
/// specification.
pub open spec fn after_packet<T>(
    cursor: Cursor,
    damage: Damage,
    config: ReadConfig,
    samples: Seq<T>,
    silence: T,
    packet: PacketInfo,
    interleaved: Seq<T>,
    format_name: Seq<char>,
) -> (Cursor, Seq<T>, Result<Step, ReadError>) {
    match cursor.plan {
        Some(plan) => if packet.rate != plan.sample_rate {
            (
                cursor,
                samples,
                Err(
                    ReadError::SampleRateChanged {
                        expected: plan.sample_rate,
                        found: packet.rate,
                    },
                ),
            )
        } else if packet.channels != plan.layout.total {
            (
                cursor,
                samples,
                Err(
                    ReadError::ChannelCountChanged {
                        expected: plan.layout.total,
                        found: packet.channels,
                    },
                ),
            )
        } else {
            after_planned(cursor, damage, plan, samples, silence, packet, interleaved)
        },
        None => match plan_of(packet.rate, packet.channels, config) {
            Err(error) => (cursor, samples, Err(error)),
            Ok(plan) => {
                let planned = Cursor {
                    plan: Some(plan),
                    copied_until: plan.start_frame as u64,
                    ..cursor
                };
                if cursor.track.time_base matches Some(tb) && seek_is_worth_it(
                    plan.start_frame,
                    plan.sample_rate,
                    tb,
                    format_name,
                ) {
                    (
                        planned,
                        samples,
                        Ok(
                            Step::Seek {
                                track_id: cursor.track.id,
                                start_frame: plan.start_frame,
                                sample_rate: plan.sample_rate,
                                time_base: cursor.track.time_base->0,
                            },
                        ),
                    )
                } else {
                    after_planned(planned, damage, plan, samples, silence, packet, interleaved)
                }
            },
        },
    }
}

/// A read in progress.
#[derive(Debug)]
pub struct Session<T> {
    pub config: ReadConfig,
    pub damage: Damage,
    /// The sample that stands for silence.
    pub silence: T,
    pub cursor: Cursor,
    /// What has been copied to the output so far.
    pub samples: Vec<T>,
}

/// What kind of error a decoder reported.
#[derive(Debug, Clone, Copy, PartialEq, Eq, Structural)]
pub enum Failure {
    /// The stream could not be read.
    Io,
    /// The packet is malformed.
    Malformed,
    /// The demuxer or the decoder has to be reset.
    Reset,
    /// Anything else.
    Other,
}

/// Which kind of error `symphonia::core::errors::Error` is.
pub uninterp spec fn failure_of(error: symphonia::core::errors::Error) -> Failure;

/// Tells the variants of `symphonia::core::errors::Error` apart. The kind depends
/// on the error alone; which variant gives which kind is in the body.
#[verifier::external_body]
fn failure_kind(error: &symphonia::core::errors::Error) -> (failure: Failure)
    ensures
        failure == failure_of(*error),
{
    match error {
        symphonia::core::errors::Error::IoError(_) => Failure::Io,
        symphonia::core::errors::Error::DecodeError(_) => Failure::Malformed,
        symphonia::core::errors::Error::ResetRequired => Failure::Reset,
        _ => Failure::Other,
    }
}

/// Whether a packet that failed can be dropped: only one that is malformed or could not
/// be read, whose place can be recovered from timestamps, and only where damage is
/// concealed. Without a time base the dropped frames would shift everything that follows.
pub open spec fn can_be_dropped(damage: Damage, track: TrackInfo, failure: Failure) -> bool {
    &&& damage == Damage::Conceal
    &&& track.time_base is Some
    &&& failure == Failure::Io || failure == Failure::Malformed
}

/// Where a read is after the decoder was reset. The reset is a discontinuity, not a
/// hole in an otherwise intact timeline.
pub open spec fn after_reset(cursor: Cursor) -> Cursor {
    Cursor { position: None, grid_anchor: None, ..cursor }
}

/// What comes of a packet the decoder did not decode.
pub open spec fn after_failure(
    cursor: Cursor,
    damage: Damage,
    failure: Failure,
    error: symphonia::core::errors::Error,
) -> (Cursor, Result<Step, ReadError>) {
    if failure == Failure::Reset {
        (after_reset(cursor), Ok(Step::ResetDecoder))
    } else if can_be_dropped(damage, cursor.track, failure) {
        (
            Cursor {
                position: None,
                grid_anchor: if cursor.position is Some {
                    cursor.position
                } else {
                    cursor.grid_anchor
                },
                ..cursor
            },
            Ok(Step::Continue),
        )
    } else {
        (cursor, Err(ReadError::Decode(error)))
    }
}

/// Where a read of the selected track begins.
pub open spec fn at_the_beginning(track: TrackInfo) -> Cursor {
    Cursor {
        track,
        plan: None,
        seeked: false,
        position: Some(0),
        stream_base: 0,
        unverified_landing: false,
        grid_anchor: None,
        copied_until: 0,
    }
}

/// What comes of a track list that changed, with `next` as the selected track. Its
/// timestamps restart at zero while its frames continue the output, so the boundary is
/// kept for a position that has to be found again.
pub open spec fn after_track_change(cursor: Cursor, next: TrackInfo) -> (
    Cursor,
    Result<(), ReadError>,
) {
    match cursor.plan {
        Some(plan) if next.sample_rate != plan.sample_rate => (
            cursor,
            Err(
                ReadError::SampleRateChanged {
                    expected: plan.sample_rate,
                    found: next.sample_rate,
                },
            ),
        ),
        _ => (
            Cursor {
                track: next,
                stream_base: (match cursor.position {
                    Some(position) => position,
                    None => cursor.stream_base,
                }),
                grid_anchor: None,
                ..cursor
            },
            Ok(()),
        ),
    }
}

/// What comes of a seek to the start of `plan`: a landing at or before it is where the
/// read goes on, and anything else is given up.
pub open spec fn after_seek(cursor: Cursor, plan: Plan, tb: TimeBase, landing: Option<i64>) -> (
    Cursor,
    Step,
) {
    if landed_before(landing, plan.start_frame, tb, plan.sample_rate) {
        (
            Cursor {
                position: None,
                seeked: true,
                unverified_landing: true,
                grid_anchor: None,
                ..cursor
            },
            Step::ResetDecoder,
        )
    } else {
        (cursor, Step::Reopen)
    }
}

/// Where a read is after the file was opened again and `track` was selected.
pub open spec fn after_reopening(cursor: Cursor, track: TrackInfo) -> Cursor {
    Cursor { track, position: Some(0), seeked: false, grid_anchor: None, ..cursor }
}

/// What a finished read is described by: the specification of the packets, or, where
/// nothing was decoded, what the container declares.
pub open spec fn description(cursor: Cursor, config: ReadConfig) -> Result<Plan, ReadError> {
    match cursor.plan {
        Some(plan) => Ok(plan),
        None => declared(cursor.track, config),
    }
}

/// Whether a demuxer error only means that the track list changed, which happens for
/// chained streams. A track has to be selected again then, and reported with
/// [`Session::track_changed`]; any other error ends the read.
pub fn demux_failed_as(failure: Failure, error: symphonia::core::errors::Error) -> (result: Result<
    (),
    ReadError,
>)
    ensures
        result == (if failure == Failure::Reset {
            Ok::<(), ReadError>(())
        } else {
            Err(ReadError::Decode(error))
        }),
{
    if failure == Failure::Reset {
        Ok(())
    } else {
        Err(ReadError::Decode(error))
    }
}

/// As [`demux_failed_as`], for the kind of error that `error` is.
pub fn demux_failed(error: symphonia::core::errors::Error) -> (result: Result<(), ReadError>)
    ensures
        result == (if failure_of(error) == Failure::Reset {
            Ok::<(), ReadError>(())
        } else {
            Err(ReadError::Decode(error))
        }),
{
    let failure = failure_kind(&error);
    demux_failed_as(failure, error)
}

/// Appends `frames` frames of `count` silent samples.
fn push_silence<T: Copy>(samples: &mut Vec<T>, silence: T, frames: usize, count: usize)
    ensures
        final(samples)@ == old(samples)@ + repeated(silence, frames * count),
{
    let ghost before = samples@;
    let mut frame: usize = 0;
    assert(0 * count == 0) by (nonlinear_arith);
    assert(before + repeated(silence, 0) =~= before);
    while frame < frames
        invariant
            frame <= frames,
            samples@ == before + repeated(silence, frame * count),
        decreases frames - frame,
    {
        let mut c: usize = 0;
        assert(0 <= frame * count) by (nonlinear_arith)
            requires
                0 <= frame,
                0 <= count,
        ;
        while c < count
            invariant
                c <= count,
                0 <= frame * count,
                samples@ == before + repeated(silence, frame * count + c),
            decreases count - c,
        {
            samples.push(silence);
            c += 1;
            assert(samples@ =~= before + repeated(silence, frame * count + c));
        }
        assert((frame + 1) * count == frame * count + count) by (nonlinear_arith);
        frame += 1;
    }
}

impl<T: Copy> Session<T> {
    /// Whether this is a state that a read can be in. Unless damage is concealed,
    /// the output holds exactly the frames from the start up to where it has been
    /// copied.
    pub open spec fn wf(self) -> bool {
        &&& self.cursor.wf()
        &&& self.cursor.plan is None ==> self.samples@.len() == 0
        &&& self.damage == Damage::Reject ==> {
            &&& self.cursor.grid_anchor is None
            &&& self.cursor.plan matches Some(plan) ==> self.samples@.len() == (
            self.cursor.copied_until - plan.start_frame) * plan.layout.count
        }
    }

    /// A read that has not seen any packet, of the selected track.
    pub fn new(track: TrackInfo, config: ReadConfig, damage: Damage, silence: T) -> (session: Self)
        requires
            track.wf(),
        ensures
            session.wf(),
            session.config == config,
            session.damage == damage,
            session.silence == silence,
            session.cursor == at_the_beginning(track),
            session.samples@.len() == 0,
    {
        Session {
            config,
            damage,
            silence,
            cursor: Cursor {
                track,
                plan: None,
                seeked: false,
                position: Some(0),
                stream_base: 0,
                unverified_landing: false,
                grid_anchor: None,
                copied_until: 0,
            },
            samples: Vec::new(),
        }
    }

    /// Whether a packet of this track is to be decoded.
    pub fn wants(&self, track_id: u32) -> (wanted: bool)
        ensures
            wanted == (track_id == self.cursor.track.id),
    {
        track_id == self.cursor.track.id
    }

    /// The track list changed, and `next` was selected. Reading only continues if
    /// the new track is compatible with what has been decoded so far.
    pub fn track_changed(&mut self, next: TrackInfo) -> (result: Result<(), ReadError>)
        requires
            old(self).wf(),
            next.wf(),
        ensures
            final(self).wf(),
            final(self).config == old(self).config,
            final(self).damage == old(self).damage,
            final(self).silence == old(self).silence,
            final(self).samples@ == old(self).samples@,
            (final(self).cursor, result) == after_track_change(old(self).cursor, next),
    {
        if let Some(plan) = self.cursor.plan {
            if next.sample_rate != plan.sample_rate {
                return Err(
                    ReadError::SampleRateChanged {
                        expected: plan.sample_rate,
                        found: next.sample_rate,
                    },
                );
            }
        }
        // Keep `position` for normal decoding, and retain the boundary as the base
        // if a later reset requires re-anchoring from this new stream's zero-based
        // timestamps.
        let stream_base: u64 = match self.cursor.position {
            Some(position) => position,
            None => self.cursor.stream_base,
        };
        self.cursor = Cursor { track: next, stream_base, grid_anchor: None, ..self.cursor };
        Ok(())
    }

    /// The decoder did not decode a packet, with an error of this kind.
    ///
    /// A packet the decoder rejects means the file is damaged, truncated, or in an
    /// encoding that cannot be decoded. Its frames are simply gone, and unless damage
    /// is concealed the read fails.
    pub fn packet_failed_as(&mut self, failure: Failure, error: symphonia::core::errors::Error) -> (
    result: Result<Step, ReadError>)
        requires
            old(self).wf(),
        ensures
            final(self).wf(),
            final(self).config == old(self).config,
            final(self).damage == old(self).damage,
            final(self).silence == old(self).silence,
            final(self).samples@ == old(self).samples@,
            (final(self).cursor, result) == after_failure(
                old(self).cursor,
                old(self).damage,
                failure,
                error,
            ),
    {
        if failure == Failure::Reset {
            // The reset is a discontinuity, not a hole in an otherwise intact
            // timeline.
            self.cursor = Cursor { position: None, grid_anchor: None, ..self.cursor };
            return Ok(Step::ResetDecoder);
        }
        if self.damage == Damage::Conceal && self.cursor.track.time_base.is_some() && (failure
            == Failure::Io || failure == Failure::Malformed) {
            // The number of frames lost with this packet is unknown. Let the next
            // non-empty packet establish a new position instead of shifting all later
            // decoded frames by the missing amount. Keep the position before the hole
            // as the grid origin, including across a run of several discarded packets.
            let grid_anchor = match self.cursor.position {
                Some(position) => Some(position),
                None => self.cursor.grid_anchor,
            };
            self.cursor = Cursor { position: None, grid_anchor, ..self.cursor };
            return Ok(Step::Continue);
        }
        Err(ReadError::Decode(error))
    }

    /// The decoder did not decode a packet.
    pub fn packet_failed(&mut self, error: symphonia::core::errors::Error) -> (result: Result<
        Step,
        ReadError,
    >)
        requires
            old(self).wf(),
        ensures
            final(self).wf(),
            final(self).config == old(self).config,
            final(self).damage == old(self).damage,
            final(self).silence == old(self).silence,
            final(self).samples@ == old(self).samples@,
            (final(self).cursor, result) == after_failure(
                old(self).cursor,
                old(self).damage,
                failure_of(error),
                error,
            ),
    {
        let failure = failure_kind(&error);
        self.packet_failed_as(failure, error)
    }

    /// The seek that was asked for is over. `landing` is the timestamp the format
    /// reader reported, if the seek succeeded at all.
    pub fn seek_finished(&mut self, landing: Option<i64>) -> (step: Step)
        requires
            old(self).wf(),
            old(self).cursor.plan is Some,
            old(self).cursor.stream_base == 0,
            old(self).cursor.track.time_base is Some,
        ensures
            final(self).wf(),
            final(self).config == old(self).config,
            final(self).damage == old(self).damage,
            final(self).silence == old(self).silence,
            final(self).samples@ == old(self).samples@,
            (final(self).cursor, step) == after_seek(
                old(self).cursor,
                old(self).cursor.plan->0,
                old(self).cursor.track.time_base->0,
                landing,
            ),
    {
        if let (Some(plan), Some(tb)) = (self.cursor.plan, self.cursor.track.time_base) {
            if seek_before(landing, plan.start_frame, tb, plan.sample_rate) {
                // The decoder keeps state from before the landing, and the frames
                // after it can no longer be counted from the beginning of the file.
                self.cursor = Cursor {
                    position: None,
                    seeked: true,
                    unverified_landing: true,
                    grid_anchor: None,
                    ..self.cursor
                };
                return Step::ResetDecoder;
            }
        }
        // A failed seek is not guaranteed to leave every format reader at its original
        // position. Reopening is also the only reliable way to undo a successful seek
        // that overshot the requested start.
        Step::Reopen
    }

    /// The file was opened again from the beginning, and `track` was selected.
    pub fn reopened(&mut self, track: TrackInfo)
        requires
            old(self).wf(),
            !old(self).cursor.unverified_landing,
            track.wf(),
        ensures
            final(self).wf(),
            final(self).config == old(self).config,
            final(self).damage == old(self).damage,
            final(self).silence == old(self).silence,
            final(self).samples@ == old(self).samples@,
            final(self).cursor == after_reopening(old(self).cursor, track),
    {
        self.cursor = Cursor {
            track,
            position: Some(0),
            seeked: false,
            grid_anchor: None,
            ..self.cursor
        };
    }

    /// The frame a packet starts at, if it can be positioned.
    fn locate(&self, plan: &Plan, packet: &PacketInfo) -> (start: Option<u64>)
        requires
            self.cursor.wf(),
        ensures
            start == self.cursor.packet_start(*plan, *packet),
    {
        match self.cursor.position {
            Some(position) => Some(position),
            // Empty warm-up buffers cannot identify the position of later output, so
            // wait for the first packet that actually emits frames.
            None => if packet.frames == 0 {
                None
            } else {
                match self.cursor.track.time_base {
                    None => Some(self.cursor.stream_base),
                    Some(tb) => {
                        let estimate: u64 = self.cursor.stream_base.saturating_add(
                            timestamp_to_frame(
                                packet.pts,
                                packet.trim_start,
                                tb,
                                plan.sample_rate,
                            ),
                        );
                        // A timestamp coarser than one frame locates this packet only
                        // to within one tick. If a discarded packet is all that stands
                        // between it and a position that was known exactly, the exact
                        // position can be recovered from the packet grid.
                        match self.cursor.grid_anchor {
                            Some(anchor) => Some(
                                snap_to_grid(
                                    estimate,
                                    anchor,
                                    packet.frames as u64,
                                    frames_per_tick(tb, plan.sample_rate),
                                ),
                            ),
                            None => Some(estimate),
                        }
                    },
                }
            },
        }
    }

    /// Takes what is asked for out of a packet that starts at `start`.
    #[verifier::rlimit(40)]
    fn place(&mut self, plan: Plan, packet: &PacketInfo, interleaved: &[T], start: u64) -> (result:
        Result<Step, ReadError>)
        requires
            old(self).wf(),
            old(self).cursor.plan == Some(plan),
            old(self).cursor.packet_start(plan, *packet) == Some(start),
            packet.channels == plan.layout.total,
            interleaved@.len() == packet.frames * packet.channels,
        ensures
            final(self).wf(),
            final(self).config == old(self).config,
            final(self).damage == old(self).damage,
            final(self).silence == old(self).silence,
            (final(self).cursor, final(self).samples@, result) == after_placing(
                old(self).cursor,
                old(self).damage,
                plan,
                old(self).samples@,
                old(self).silence,
                *packet,
                interleaved@,
                start,
            ),
    {
        let ghost before = self.cursor;
        let ghost samples_before = self.samples@;
        let copied_until: u64 = self.cursor.copied_until;
        let start_frame: u64 = plan.start_frame as u64;
        let unverified: bool = self.cursor.unverified_landing;
        self.cursor = Cursor { unverified_landing: false, ..self.cursor };

        // A format reader can report a landing at or before the requested start and
        // still deliver its first packet after it. The frames in between were never
        // lost, so the read would quietly begin late and come up short. Decoding from
        // the beginning always reaches the requested start.
        if unverified && start > start_frame {
            return Ok(Step::Reopen);
        }
        // Frames the output is still waiting for that this packet begins after are
        // ones the stream did not deliver. Skipping them would move every later frame
        // off the position it was asked for, and appending nothing in their place
        // would return a buffer that is short without saying so.

        let expected_until: u64 = match plan.end_frame {
            Some(end) => if start < end as u64 {
                start
            } else {
                end as u64
            },
            None => start,
        };
        if self.damage == Damage::Reject && expected_until > copied_until {
            return Err(ReadError::MissingFrames { start: copied_until, end: expected_until });
        }
        let packet_end: u64 = start.saturating_add(packet.frames as u64);

        // Intersect the packet with the requested frame range.
        let from: u64 = if start > start_frame {
            start
        } else {
            start_frame
        };
        let copy_start: u64 = if from > copied_until {
            from
        } else {
            copied_until
        };
        let copy_end: u64 = match plan.end_frame {
            Some(end) => if packet_end < end as u64 {
                packet_end
            } else {
                end as u64
            },
            None => packet_end,
        };
        self.cursor = Cursor { position: Some(packet_end), ..self.cursor };

        if copy_start < copy_end {
            // Frames that were lost with a discarded packet leave a hole. Filling it
            // with silence keeps every later frame at its own position in the output,
            // instead of shifting the whole remainder of the read earlier.
            if self.damage == Damage::Conceal && copy_start > copied_until && (!self.cursor.seeked
                || copied_until > start_frame) {
                let silent: usize = fill_frames(
                    copy_start - copied_until,
                    self.samples.len() / plan.layout.count,
                    plan.layout.count,
                    plan.expected_frames(self.cursor.track.num_frames),
                );
                push_silence(&mut self.samples, self.silence, silent, plan.layout.count);
            } else {
                assert(0 * plan.layout.count == 0) by (nonlinear_arith);
                assert(samples_before + repeated(self.silence, 0) =~= samples_before);
            }
            let first: usize = (copy_start - start) as usize;
            let last: usize = (copy_end - start) as usize;
            assert(last * plan.layout.total <= interleaved@.len()) by (nonlinear_arith)
                requires
                    last <= packet.frames,
                    plan.layout.total == packet.channels,
                    interleaved@.len() == packet.frames * packet.channels,
                    0 <= packet.channels,
            ;
            append_selected(&mut self.samples, interleaved, plan.layout, first, last);
            self.cursor = Cursor { copied_until: copy_end, ..self.cursor };
            proof {
                let count = plan.layout.count as int;
                crate::select::lemma_pick_len(
                    interleaved@,
                    plan.layout.total as int,
                    plan.layout.start as int,
                    count,
                    first as int,
                    last as int,
                );
                if self.damage == Damage::Reject {
                    assert(copy_start == copied_until);
                    assert((copied_until - start_frame) * count + (last - first) * count == (
                    copy_end - start_frame) * count) by (nonlinear_arith)
                        requires
                            last - first == copy_end - copied_until,
                    ;
                }
            }
        }
        match plan.end_frame {
            Some(end) => if packet_end >= end as u64 {
                Ok(Step::Done)
            } else {
                Ok(Step::Continue)
            },
            None => Ok(Step::Continue),
        }
    }

    /// The decoder decoded a packet: `interleaved` holds its samples, and
    /// `format_name` is the short name of the container.
    ///
    /// The first decoded packet is what the whole read is resolved against. A warm-up
    /// packet without any frames already carries the specification the decoder was
    /// configured with, so it resolves the plan just as well as a packet with audio
    /// in it. The specification of every later packet has to be the same, otherwise
    /// its frames do not belong to the same stream.
    #[verifier::rlimit(40)]
    pub fn packet(&mut self, packet: &PacketInfo, interleaved: &[T], format_name: &str) -> (result:
        Result<Step, ReadError>)
        requires
            old(self).wf(),
            interleaved@.len() == packet.frames * packet.channels,
        ensures
            final(self).wf(),
            final(self).config == old(self).config,
            final(self).damage == old(self).damage,
            final(self).silence == old(self).silence,
            (final(self).cursor, final(self).samples@, result) == after_packet(
                old(self).cursor,
                old(self).damage,
                old(self).config,
                old(self).samples@,
                old(self).silence,
                *packet,
                interleaved@,
                format_name@,
            ),
    {
        let plan = match self.cursor.plan {
            Some(known) => {
                if packet.rate != known.sample_rate {
                    return Err(
                        ReadError::SampleRateChanged {
                            expected: known.sample_rate,
                            found: packet.rate,
                        },
                    );
                }
                if packet.channels != known.layout.total {
                    return Err(
                        ReadError::ChannelCountChanged {
                            expected: known.layout.total,
                            found: packet.channels,
                        },
                    );
                }
                known
            },
            None => match Plan::resolve(packet.rate, packet.channels, &self.config) {
                Err(error) => {
                    return Err(error);
                },
                Ok(resolved) => {
                    self.samples.reserve(resolved.prealloc_samples(self.cursor.track.num_frames));
                    self.cursor = Cursor {
                        plan: Some(resolved),
                        copied_until: resolved.start_frame as u64,
                        ..self.cursor
                    };
                    assert(0 * resolved.layout.count == 0) by (nonlinear_arith);
                    // Seeking can only be decided here, because the frame positions it
                    // needs are resolved against the sample rate of this packet. The
                    // frames of this packet are given up, which loses nothing: decoding
                    // resumes at or before the requested start.
                    if let Some(tb) = self.cursor.track.time_base {
                        if should_seek(
                            resolved.start_frame,
                            resolved.sample_rate,
                            tb,
                            format_name,
                        ) {
                            return Ok(
                                Step::Seek {
                                    track_id: self.cursor.track.id,
                                    start_frame: resolved.start_frame,
                                    sample_rate: resolved.sample_rate,
                                    time_base: tb,
                                },
                            );
                        }
                    }
                    resolved
                },
            },
        };
        match self.locate(&plan, packet) {
            None => Ok(Step::Continue),
            Some(start) => self.place(plan, packet, interleaved, start),
        }
    }

    /// The end of the media, or of what was asked for, was reached.
    pub fn finish(self) -> (result: Result<Decoded<T>, ReadError>)
        requires
            self.wf(),
        ensures
            match description(self.cursor, self.config) {
                Err(error) => result == Err::<Decoded<T>, ReadError>(error),
                Ok(plan) => result matches Ok(decoded) && {
                    &&& decoded.samples@ == self.samples@
                    &&& decoded.num_channels == plan.layout.count
                    &&& decoded.sample_rate == plan.sample_rate
                },
            },
    {
        let plan = match self.cursor.plan {
            Some(plan) => plan,
            None => match declared_plan(&self.cursor.track, &self.config) {
                Ok(plan) => plan,
                Err(error) => {
                    return Err(error);
                },
            },
        };
        Ok(
            Decoded {
                samples: self.samples,
                num_channels: plan.layout.count,
                sample_rate: plan.sample_rate,
            },
        )
    }
}

} // verus!
