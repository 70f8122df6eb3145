//! Audio blocks: what was read or is to be written, with channel-wise access.

use audio_blocks::{AudioBlock, Interleaved, Sequential};
use vstd::prelude::*;

use crate::reader::Audio;
use crate::sample::Sample;
use crate::wav::encode::{file_bytes, layout_of};
use crate::writer::{refusal, WriteConfig, WriteError};

verus! {

/// An interleaved block of samples that were read, as the bit patterns of doubles.
#[verifier::external_body]
pub struct ReadBlock {
    inner: Interleaved<u64>,
}

/// The samples of a block that was read, frame by frame.
pub uninterp spec fn read_samples(block: ReadBlock) -> Seq<u64>;

/// The number of channels of a block that was read.
pub uninterp spec fn read_channels(block: ReadBlock) -> u16;

/// `Interleaved::from_slice` of audio_blocks: a block with a copy of the samples, as
/// they are, and this number of channels. It panics unless the samples make up whole
/// frames.
#[verifier::external_body]
fn read_block_from_slice(samples: &[u64], num_channels: u16) -> (block: ReadBlock)
    requires
        num_channels > 0,
        samples@.len() as int % num_channels as int == 0,
    ensures
        read_samples(block) == samples@,
        read_channels(block) == num_channels,
{
    ReadBlock { inner: Interleaved::from_slice(samples, num_channels) }
}

/// `AudioBlock::sample` of audio_blocks, for an interleaved block: the sample at
/// `frame * num_channels + channel`. It panics where the block has no such channel or
/// frame.
#[verifier::external_body]
fn read_block_sample(block: &ReadBlock, channel: u16, frame: usize) -> (sample: u64)
    requires
        channel < read_channels(*block),
        (frame + 1) * read_channels(*block) <= read_samples(*block).len(),
    ensures
        sample == read_samples(*block)[frame * read_channels(*block) + channel],
{
    block.inner.sample(channel, frame)
}

/// `AudioBlock::num_channels` of audio_blocks, for an interleaved block.
#[verifier::external_body]
fn read_block_channels(block: &ReadBlock) -> (channels: u16)
    ensures
        channels == read_channels(*block),
{
    block.inner.num_channels()
}

/// `Interleaved::raw_data` of audio_blocks: all samples the block holds.
#[verifier::external_body]
fn read_block_raw_data(block: &ReadBlock) -> (samples: &[u64])
    ensures
        samples@ == read_samples(*block),
{
    block.inner.raw_data()
}

impl ReadBlock {
    /// The number of channels.
    pub fn num_channels(&self) -> (channels: u16)
        ensures
            channels == read_channels(*self),
    {
        read_block_channels(self)
    }

    /// All samples, frame by frame.
    pub fn raw_data(&self) -> (samples: &[u64])
        ensures
            samples@ == read_samples(*self),
    {
        read_block_raw_data(self)
    }

    /// The number of frames.
    pub fn num_frames(&self) -> (frames: usize)
        ensures
            read_channels(*self) > 0 ==> frames == read_samples(*self).len() as int
                / read_channels(*self) as int,
            read_channels(*self) == 0 ==> frames == 0,
    {
        let channels: usize = self.num_channels() as usize;
        if channels == 0 {
            0
        } else {
            self.raw_data().len() / channels
        }
    }

    /// One sample, if the block has such a channel and frame.
    pub fn sample(&self, channel: u16, frame: usize) -> (sample: Option<u64>)
        ensures
            sample == (if channel < read_channels(*self) && (frame + 1) * read_channels(*self)
                <= read_samples(*self).len() {
                Some(read_samples(*self)[frame * read_channels(*self) + channel])
            } else {
                None
            }),
    {
        let channels: u16 = self.num_channels();
        let frames: usize = self.num_frames();
        proof {
            if channels > 0 {
                let len = read_samples(*self).len() as int;
                vstd::arithmetic::div_mod::lemma_fundamental_div_mod(len, channels as int);
                let rest = len % channels as int;
                assert(frame < frames <==> (frame + 1) * channels <= len) by (nonlinear_arith)
                    requires
                        len == channels * frames + rest,
                        0 <= rest < channels,
                ;
            }
        }
        if channel < channels && frame < frames {
            Some(read_block_sample(self, channel, frame))
        } else {
            None
        }
    }
}

/// Wraps audio that was read in an interleaved block, next to its sample rate.
pub fn read_block(audio: &Audio<u64>) -> (result: (ReadBlock, u32))
    requires
        audio.num_channels > 0,
        audio.samples_interleaved@.len() as int % audio.num_channels as int == 0,
    ensures
        read_samples(result.0) == audio.samples_interleaved@,
        read_channels(result.0) == audio.num_channels,
        result.1 == audio.sample_rate,
{
    let block = read_block_from_slice(audio.samples_interleaved.as_slice(), audio.num_channels);
    (block, audio.sample_rate)
}

/// An interleaved block of samples to be written.
#[verifier::external_body]
pub struct WriteBlock {
    pub inner: Interleaved<Sample>,
}

/// All samples a block to be written has room for, frame by frame.
pub uninterp spec fn held_samples(block: WriteBlock) -> Seq<Sample>;

/// The samples of the visible channels and frames of a block, frame by frame.
pub uninterp spec fn visible_samples(block: WriteBlock) -> Seq<Sample>;

/// The number of visible channels of a block to be written.
pub uninterp spec fn visible_channels(block: WriteBlock) -> u16;

/// `Interleaved::from_block` of audio_blocks, for an interleaved block: a copy that holds
/// the visible samples of the block, and nothing else. It panics on a block without room
/// for a single channel.
#[verifier::external_body]
fn write_block_copy(block: &WriteBlock) -> (copy: WriteBlock)
    requires
        visible_channels(*block) > 0,
    ensures
        held_samples(copy) == visible_samples(*block),
        visible_channels(copy) == visible_channels(*block),
{
    WriteBlock { inner: Interleaved::from_block(&block.inner) }
}

/// `Interleaved::raw_data` of audio_blocks: all samples the block has room for.
#[verifier::external_body]
fn write_block_raw_data(block: &WriteBlock) -> (samples: &[Sample])
    ensures
        samples@ == held_samples(*block),
{
    block.inner.raw_data()
}

/// `AudioBlock::num_channels` of audio_blocks, for an interleaved block.
#[verifier::external_body]
fn write_block_channels(block: &WriteBlock) -> (channels: u16)
    ensures
        channels == visible_channels(*block),
{
    block.inner.num_channels()
}

/// Writes the visible part of a block as a wav file, and returns the bytes of it.
pub fn write_block(block: &WriteBlock, sample_rate: u32, config: &WriteConfig) -> (result: Result<
    Vec<u8>,
    WriteError,
>)
    ensures
        match refusal(
            visible_samples(*block).len() as int,
            visible_channels(*block) as int,
            sample_rate as int,
            config.sample_format,
        ) {
            Some(error) => result == Err::<Vec<u8>, WriteError>(error),
            None => result matches Ok(file) && file@ == file_bytes(
                layout_of(
                    visible_samples(*block).len() as int,
                    visible_channels(*block) as int,
                    sample_rate as int,
                    config.sample_format,
                ),
                visible_samples(*block),
            ),
        },
{
    let channels: u16 = write_block_channels(block);
    if channels == 0 {
        return Err(WriteError::ZeroChannels);
    }
    let copy = write_block_copy(block);
    crate::writer::write(write_block_raw_data(&copy), channels, sample_rate, config)
}

/// A block of samples to be written that holds one channel after the other.
#[verifier::external_body]
pub struct SequentialBlock {
    pub inner: Sequential<Sample>,
}

/// The samples of the visible channels and frames of a block, channel by channel.
pub uninterp spec fn sequential_samples(block: SequentialBlock) -> Seq<Sample>;

/// The number of visible channels of a block that holds one channel after the other.
pub uninterp spec fn sequential_channels(block: SequentialBlock) -> u16;

/// The samples of `channels` channels of the same length, which follow one another in
/// `samples`, frame by frame.
pub open spec fn interleaved(samples: Seq<Sample>, channels: int) -> Seq<Sample> {
    let frames = samples.len() as int / channels;
    Seq::new(samples.len(), |i: int| samples[(i % channels) * frames + i / channels])
}

/// `AudioBlock::num_channels` of audio_blocks, for a sequential block.
#[verifier::external_body]
fn sequential_block_channels(block: &SequentialBlock) -> (channels: u16)
    ensures
        channels == sequential_channels(*block),
{
    block.inner.num_channels()
}

/// `Interleaved::from_block` of audio_blocks, for a sequential block: a copy that holds
/// the visible samples of the block frame by frame, and nothing else. Without a channel
/// nothing bounds the number of frames that it walks through.
#[verifier::external_body]
fn sequential_block_copy(block: &SequentialBlock) -> (copy: WriteBlock)
    requires
        sequential_channels(*block) > 0,
    ensures
        held_samples(copy) == interleaved(
            sequential_samples(*block),
            sequential_channels(*block) as int,
        ),
        visible_channels(copy) == sequential_channels(*block),
{
    WriteBlock { inner: Interleaved::from_block(&block.inner) }
}

/// Writes the visible part of a block that holds one channel after the other as a wav
/// file, and returns the bytes of it.
///
/// The samples are reinterleaved on the way.
pub fn write_sequential_block(
    block: &SequentialBlock,
    sample_rate: u32,
    config: &WriteConfig,
) -> (result: Result<Vec<u8>, WriteError>)
    ensures
        match refusal(
            sequential_samples(*block).len() as int,
            sequential_channels(*block) as int,
            sample_rate as int,
            config.sample_format,
        ) {
            Some(error) => result == Err::<Vec<u8>, WriteError>(error),
            None => result matches Ok(file) && file@ == file_bytes(
                layout_of(
                    sequential_samples(*block).len() as int,
                    sequential_channels(*block) as int,
                    sample_rate as int,
                    config.sample_format,
                ),
                interleaved(sequential_samples(*block), sequential_channels(*block) as int),
            ),
        },
{
    let channels: u16 = sequential_block_channels(block);
    if channels == 0 {
        return Err(WriteError::ZeroChannels);
    }
    let copy = sequential_block_copy(block);
    crate::writer::write(write_block_raw_data(&copy), channels, sample_rate, config)
}

} // verus!
