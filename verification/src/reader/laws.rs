//! What holds between reading and writing.

use vstd::prelude::*;

use super::{native_samples, plan_of, Plan, ReadConfig, ReadError};
use crate::sample::Sample;
use crate::select::{lemma_pick_index, pick};
use crate::wav::decode::{clamped, clamped_end, parse_header, OpenWav};
use crate::wav::encode::{file_bytes, layout_of};
use crate::wav::laws::{
    lemma_accepted_input_has_a_layout, lemma_selection_is_part_of_the_full_decode,
    lemma_selection_length, lemma_written_file_opens, lemma_written_samples_read_back,
    lemma_written_selection_reads_back, read_back_all, written_wav,
};
use crate::writer::{refusal, SampleFormat};

verus! {

/// Whatever is written can be read back: every file that a write produces is
/// opened by the wav decoder with the channels, the rate and the frames that were
/// written, however many channels there are, and every selection out of it is that
/// selection of the written samples.
pub proof fn lemma_what_is_written_is_read_back(
    samples: Seq<Sample>,
    num_channels: u16,
    sample_rate: u32,
    format: SampleFormat,
    config: ReadConfig,
)
    requires
        refusal(samples.len() as int, num_channels as int, sample_rate as int, format) is None,
    ensures
        ({
            let layout = layout_of(
                samples.len() as int,
                num_channels as int,
                sample_rate as int,
                format,
            );
            let file = file_bytes(layout, samples);
            let wav = written_wav(layout);
            &&& parse_header(file) == Some(wav)
            &&& wav.num_channels == num_channels
            &&& wav.sample_rate == sample_rate
            &&& wav.num_frames == samples.len() as int / num_channels as int
            &&& plan_of(sample_rate, num_channels as usize, config) matches Ok(plan)
                ==> native_samples(file, wav, plan) == pick(
                read_back_all(samples, format),
                num_channels as int,
                plan.layout.start as int,
                plan.layout.count as int,
                clamped(wav, plan.start_frame as int),
                clamped_end(wav, plan.end_frame),
            )
        }),
{
    let layout = layout_of(samples.len() as int, num_channels as int, sample_rate as int, format);
    lemma_accepted_input_has_a_layout(samples.len() as int, num_channels, sample_rate, format);
    lemma_written_file_opens(layout, samples);
    if let Ok(plan) = plan_of(sample_rate, num_channels as usize, config) {
        lemma_written_selection_reads_back(
            layout,
            samples,
            plan.start_frame as int,
            plan.end_frame,
            plan.layout.start as int,
            plan.layout.count as int,
        );
    }
}

/// Reading a written file without any selection gives every sample back, in order.
pub proof fn lemma_everything_written_is_read_back(
    samples: Seq<Sample>,
    num_channels: u16,
    sample_rate: u32,
    format: SampleFormat,
    config: ReadConfig,
)
    requires
        refusal(samples.len() as int, num_channels as int, sample_rate as int, format) is None,
        config.start is Default,
        config.stop is Default,
        config.start_channel is None,
        config.num_channels is None,
    ensures
        ({
            let layout = layout_of(
                samples.len() as int,
                num_channels as int,
                sample_rate as int,
                format,
            );
            let file = file_bytes(layout, samples);
            let wav = written_wav(layout);
            &&& parse_header(file) == Some(wav)
            &&& plan_of(sample_rate, num_channels as usize, config) matches Ok(plan) && {
                &&& plan.layout.count == num_channels
                &&& plan.sample_rate == sample_rate
                &&& native_samples(file, wav, plan) == read_back_all(samples, format)
            }
        }),
{
    let layout = layout_of(samples.len() as int, num_channels as int, sample_rate as int, format);
    lemma_accepted_input_has_a_layout(samples.len() as int, num_channels, sample_rate, format);
    lemma_written_file_opens(layout, samples);
    lemma_written_samples_read_back(layout, samples);
}

/// Reading a range of frames and channels of a wav file gives the corresponding part of
/// a full read of the same file: from the start, inclusive, up to the stop, exclusive, as
/// far as the file has the frames, and of every frame the selected channels.
pub proof fn lemma_range_read_is_part_of_the_full_read(
    file: Seq<u8>,
    wav: OpenWav,
    config: ReadConfig,
    everything: ReadConfig,
    plan: Plan,
    whole: Plan,
)
    requires
        parse_header(file) == Some(wav),
        everything.start is Default,
        everything.stop is Default,
        everything.start_channel is None,
        everything.num_channels is None,
        plan_of(wav.sample_rate, wav.num_channels, config) == Ok::<Plan, ReadError>(plan),
        plan_of(wav.sample_rate, wav.num_channels, everything) == Ok::<Plan, ReadError>(whole),
    ensures
        ({
            let part = native_samples(file, wav, plan);
            let full = native_samples(file, wav, whole);
            let total = wav.num_channels as int;
            let start = plan.layout.start as int;
            let count = plan.layout.count as int;
            let first = clamped(wav, plan.start_frame as int);
            let last = clamped_end(wav, plan.end_frame);
            &&& full.len() == wav.num_frames * total
            &&& 0 <= first <= last <= wav.num_frames
            &&& part.len() == (last - first) * count
            &&& part == pick(full, total, start, count, first, last)
            &&& forall|frame: int, channel: int|
                0 <= frame < last - first && 0 <= channel < count ==> #[trigger] part[frame * count
                    + channel] == full[(first + frame) * total + start + channel]
        }),
{
    let part = native_samples(file, wav, plan);
    let full = native_samples(file, wav, whole);
    let total = wav.num_channels as int;
    let start = plan.layout.start as int;
    let count = plan.layout.count as int;
    let first = clamped(wav, plan.start_frame as int);
    let last = clamped_end(wav, plan.end_frame);
    lemma_selection_length(file, wav, 0, None, 0, total);
    lemma_selection_length(file, wav, plan.start_frame as int, plan.end_frame, start, count);
    lemma_selection_is_part_of_the_full_decode(
        file,
        wav.data_start as int,
        wav,
        wav.num_frames as int,
        first,
        last,
        start,
        count,
    );
    assert(last * total <= full.len()) by (nonlinear_arith)
        requires
            full.len() == wav.num_frames * total,
            last <= wav.num_frames,
            0 <= total,
    ;
    assert forall|frame: int, channel: int|
        0 <= frame < last - first && 0 <= channel < count implies #[trigger] part[frame * count
        + channel] == full[(first + frame) * total + start + channel] by {
        lemma_pick_index(full, total, start, count, first, last, first + frame, channel);
    }
}

} // verus!
