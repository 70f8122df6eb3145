//! What a read has to do with what was asked for.

use vstd::prelude::*;

use super::position::frame_of;
use super::{
    channels_of, completed, native_samples, plan_of, wanted_rate, Audio, Decoded, Plan,
    ReadConfig, ReadError,
};
use crate::resample::ResampleError;
use crate::wav::decode::{
    clamped, clamped_end, decoded_sample, parse_header, sample_at, OpenWav,
};
use crate::wav::laws::{lemma_selected_sample, lemma_selection_length};

verus! {

/// The channels that are read are the ones that were asked for: they start with
/// `start_channel`, or with the first channel where that is not given, whatever their
/// number is; there are `num_channels` of them, or all that remain where that is not
/// given. A selection is refused exactly where it is empty or the file does not have it,
/// and the error holds what was asked for.
pub proof fn lemma_channels_are_as_asked_for(config: ReadConfig, total: usize)
    ensures
        channels_of(config, total) matches Ok((start, count)) ==> {
            &&& config.start_channel matches Some(first) ==> start == first
            &&& config.start_channel is None ==> start == 0
            &&& config.num_channels matches Some(wanted) ==> count == wanted
            &&& config.num_channels is None ==> start + count == total
            &&& 0 < count
            &&& start + count <= total
        },
        channels_of(config, total) matches Err(error) ==> match error {
            ReadError::InvalidStartChannel { start, total: had } => {
                &&& had == total
                &&& total <= start
                &&& config.start_channel == Some(start) || (config.start_channel is None && start
                    == 0)
            },
            ReadError::ZeroChannels => {
                &&& config.num_channels == Some(0usize)
                &&& config.start_channel matches Some(start) ==> start < total
                &&& 0 < total
            },
            ReadError::InvalidChannelRange { start, count, total: had } => {
                &&& had == total
                &&& start < total < start + count
                &&& config.num_channels == Some(count)
                &&& config.start_channel == Some(start) || (config.start_channel is None && start
                    == 0)
            },
            _ => false,
        },
{
}

/// A plan is what was asked for: the channels as in [`lemma_channels_are_as_asked_for`],
/// the frames from the start position, or from the first frame, up to the stop position,
/// or to the end. It is refused exactly where the channels are, where there are more of
/// them than can be reported, or where the start lies after the stop.
pub proof fn lemma_plans_are_as_asked_for(sample_rate: u32, channels: usize, config: ReadConfig)
    ensures
        plan_of(sample_rate, channels, config) matches Ok(plan) ==> {
            &&& plan.sample_rate == sample_rate
            &&& plan.layout.total == channels
            &&& config.start_channel matches Some(first) ==> plan.layout.start == first
            &&& config.start_channel is None ==> plan.layout.start == 0
            &&& config.num_channels matches Some(wanted) ==> plan.layout.count == wanted
            &&& config.num_channels is None ==> plan.layout.start + plan.layout.count == channels
            &&& 0 < plan.layout.count <= 65_535
            &&& plan.layout.start + plan.layout.count <= channels
            &&& plan.end_frame == frame_of(config.stop, sample_rate)
            &&& frame_of(config.start, sample_rate) matches Some(frame) ==> plan.start_frame
                == frame
            &&& frame_of(config.start, sample_rate) is None ==> plan.start_frame == 0
            &&& plan.end_frame matches Some(end) ==> plan.start_frame <= end
        },
        plan_of(sample_rate, channels, config) matches Err(error) ==> match error {
            ReadError::InvalidFrameRange { start, end } => {
                &&& start > end
                &&& frame_of(config.stop, sample_rate) == Some(end)
                &&& frame_of(config.start, sample_rate) == Some(start)
            },
            ReadError::TooManyChannels(count) => {
                &&& count > 65_535
                &&& channels_of(config, channels) matches Ok((_, n)) && n == count
            },
            _ => channels_of(config, channels) == Err::<(usize, usize), ReadError>(error),
        },
        ({
            let from = frame_of(config.start, sample_rate);
            let to = frame_of(config.stop, sample_rate);
            plan_of(sample_rate, channels, config) is Ok <==> {
                &&& from is Some && to is Some ==> from->0 <= to->0
                &&& channels_of(config, channels) matches Ok((_, count)) && count <= 65_535
            }
        }),
        ({
            let from = frame_of(config.start, sample_rate);
            let to = frame_of(config.stop, sample_rate);
            from is Some && to is Some && from->0 > to->0 ==> plan_of(
                sample_rate,
                channels,
                config,
            ) == Err::<Plan, ReadError>(
                ReadError::InvalidFrameRange { start: from->0, end: to->0 },
            )
        }),
{
    lemma_channels_are_as_asked_for(config, channels);
}

/// Audio is resampled exactly where a rate is asked for that is not the decoded one, and
/// to that rate.
pub proof fn lemma_resampling_is_as_asked_for(decoded: u32, requested: Option<u32>)
    ensures
        wanted_rate(decoded, requested) matches Some(rate) ==> requested == Some(rate) && rate
            != decoded,
        requested matches Some(rate) ==> (rate != decoded ==> wanted_rate(decoded, requested)
            is Some),
        requested is None ==> wanted_rate(decoded, requested) is None,
{
}

/// A read that succeeds returns audio at the rate that was asked for, whatever rate was
/// decoded, and at the decoded one where none was asked for. Its samples are those of the
/// resampler exactly where the two differ, and the decoded ones otherwise. It fails
/// exactly where the resampler did, or where there are too many channels to report.
pub proof fn lemma_the_requested_rate_is_returned<F>(
    decoded: Decoded<F>,
    config: ReadConfig,
    resampled: Option<Result<Vec<F>, ResampleError>>,
)
    requires
        resampled is Some <==> config.sample_rate is Some && config.sample_rate->0
            != decoded.sample_rate,
    ensures
        completed(decoded, config, resampled) matches Ok(audio) ==> {
            &&& config.sample_rate matches Some(rate) ==> audio.sample_rate == rate
            &&& config.sample_rate is None ==> audio.sample_rate == decoded.sample_rate
            &&& config.sample_rate is Some && config.sample_rate->0 != decoded.sample_rate
                ==> resampled == Some(Ok::<Vec<F>, ResampleError>(audio.samples_interleaved))
            &&& config.sample_rate is None || config.sample_rate->0 == decoded.sample_rate
                ==> audio.samples_interleaved == decoded.samples
            &&& audio.num_channels == decoded.num_channels
        },
        completed(decoded, config, resampled) is Ok <==> decoded.num_channels <= 65_535 && !(
        resampled matches Some(Err(_))),
        decoded.num_channels > 65_535 ==> completed(decoded, config, resampled) == Err::<
            Audio<F>,
            ReadError,
        >(ReadError::TooManyChannels(decoded.num_channels)),
        decoded.num_channels <= 65_535 ==> (resampled matches Some(Err(error)) ==> completed(
            decoded,
            config,
            resampled,
        ) == Err::<Audio<F>, ReadError>(ReadError::Resample(error))),
{
}

/// What is read out of a wav file is where it says it is: the sample of a frame and a
/// channel is decoded from the bytes at `data_start + frame * block_align + channel *
/// container_bytes`, and the frames and channels that are returned are the requested ones,
/// from the start, inclusive, up to the stop, exclusive, as far as the file has them.
pub proof fn lemma_samples_are_read_from_their_place(
    file: Seq<u8>,
    wav: OpenWav,
    config: ReadConfig,
    plan: Plan,
)
    requires
        parse_header(file) == Some(wav),
        plan_of(wav.sample_rate, wav.num_channels, config) == Ok::<Plan, ReadError>(plan),
    ensures
        ({
            let out = native_samples(file, wav, plan);
            let count = plan.layout.count as int;
            let frames = wav.num_frames as int;
            let first = if plan.start_frame < frames {
                plan.start_frame as int
            } else {
                frames
            };
            let last = if plan.end_frame is Some && plan.end_frame->0 < frames {
                plan.end_frame->0 as int
            } else {
                frames
            };
            &&& first <= last
            &&& out.len() == (last - first) * count
            &&& forall|frame: int, channel: int|
                0 <= frame < last - first && 0 <= channel < count ==> #[trigger] out[frame * count
                    + channel] == decoded_sample(
                    file.subrange(
                        wav.data_start + (first + frame) * wav.block_align + (plan.layout.start
                            + channel) * wav.container_bytes,
                        wav.data_start + (first + frame) * wav.block_align + (plan.layout.start
                            + channel) * wav.container_bytes + wav.container_bytes,
                    ),
                    wav.coding,
                    wav.bits_per_sample,
                )
        }),
{
    let out = native_samples(file, wav, plan);
    let count = plan.layout.count as int;
    let start = plan.layout.start as int;
    lemma_selection_length(
        file,
        wav,
        plan.start_frame as int,
        plan.end_frame,
        start,
        count,
    );
    let first = clamped(wav, plan.start_frame as int);
    let last = clamped_end(wav, plan.end_frame);
    assert forall|frame: int, channel: int|
        0 <= frame < last - first && 0 <= channel < count implies #[trigger] out[frame * count
        + channel] == sample_at(
        file,
        wav.data_start as int,
        wav,
        first + frame,
        start + channel,
    ) by {
        lemma_selected_sample(
            file,
            wav.data_start as int,
            wav,
            first,
            last,
            start,
            count,
            first + frame,
            channel,
        );
    }
}

} // verus!
