//! Reading audio files.
//!
//! Two decoders share the work: the wav fast path right here in this module, and
//! [`general`], the packet-based path for every other format. The wav path is
//! tried first, and the general path takes what that declines.

use std::time::Duration;

use vstd::prelude::*;
use vstd::string::*;

use self::general::{failure_of, Failure};
use crate::resample::ResampleError;
use crate::text::{append_decimal, decimal};
use crate::wav::decode::{
    clamped, clamped_end, frames_of, open_wav, parse_header, read_frames, FrameReader, OpenWav,
};

pub mod delivery;
pub mod events;
pub mod general;
pub mod laws;
pub mod placing;
pub mod position;
pub mod requests;
pub mod timing;
pub mod track;

pub use position::{frame_of, position_to_frame};

verus! {

/// What a read needs of a sample type beyond being a float. Nothing is resampled
/// here, so this asks for nothing and every type satisfies it.
pub trait ResampleSample {

}

impl<F> ResampleSample for F {

}

/// Why a demuxer or a decoder gave up.
#[verifier::external_type_specification]
#[verifier::external_body]
pub struct ExDecodeError(symphonia::core::errors::Error);

/// Audio data with interleaved samples.
#[derive(Debug, Clone)]
pub struct Audio<F> {
    /// Interleaved audio samples.
    pub samples_interleaved: Vec<F>,
    /// Sample rate in Hz.
    pub sample_rate: u32,
    /// Number of channels.
    pub num_channels: u16,
}

/// Why audio could not be read.
#[allow(inconsistent_fields)]
#[derive(Debug)]
#[non_exhaustive]
pub enum ReadError {
    /// The file could not be read.
    Io(std::io::Error),
    /// A packet the decoder rejected. The file is damaged, truncated, or in an
    /// encoding that cannot be decoded. Nothing is skipped over: a file that cannot
    /// be decoded in full is not read at all.
    Decode(symphonia::core::errors::Error),
    /// No decoder can read the file.
    UnsupportedFormat,
    /// The file has no track that can be decoded.
    NoTrack,
    /// The track does not state its sample rate.
    NoSampleRate,
    /// Neither the audio nor the container says how many channels there are.
    NoChannels,
    /// More channels than can be reported.
    TooManyChannels(usize),
    /// The read would stop before it starts.
    InvalidFrameRange { start: usize, end: usize },
    /// The first channel to extract does not exist.
    InvalidStartChannel { start: usize, total: usize },
    /// No channel is to be extracted.
    ZeroChannels,
    /// The channels to extract do not all exist.
    InvalidChannelRange { start: usize, count: usize, total: usize },
    /// The channel count changed in the middle of the stream.
    ChannelCountChanged { expected: usize, found: usize },
    /// The sample rate changed in the middle of the stream.
    SampleRateChanged { expected: u32, found: u32 },
    /// Frames the stream never delivered, which the read cannot leave out without
    /// moving every later frame off the position it was asked for.
    MissingFrames { start: u64, end: u64 },
    /// The audio could not be resampled.
    Resample(ResampleError),
}

/// Position in the audio stream (for start or stop points).
#[derive(Debug, Clone, Copy)]
pub enum Position {
    /// Start from beginning or read until the end (depending on context).
    Default,
    /// Specific time offset.
    Time(Duration),
    /// Specific frame number (sample position across all channels).
    Frame(usize),
}

impl Default for Position {
    fn default() -> (position: Self)
        ensures
            position is Default,
    {
        Position::Default
    }
}

/// What to read.
#[derive(Debug, Clone, Copy)]
pub struct ReadConfig {
    /// Where to start reading audio (time or frame-based), inclusive.
    pub start: Position,
    /// Where to stop reading audio (time or frame-based), exclusive.
    pub stop: Position,
    /// Starting channel to extract (0-indexed). `None` means start from channel 0.
    pub start_channel: Option<usize>,
    /// Number of channels to extract. `None` means extract all remaining channels.
    pub num_channels: Option<usize>,
    /// If specified the audio will be resampled to the given sample rate.
    pub sample_rate: Option<u32>,
}

impl Default for ReadConfig {
    /// Everything there is, at the rate of the file.
    fn default() -> (config: Self)
        ensures
            config.start is Default,
            config.stop is Default,
            config.start_channel is None,
            config.num_channels is None,
            config.sample_rate is None,
    {
        ReadConfig {
            start: Position::Default,
            stop: Position::Default,
            start_channel: None,
            num_channels: None,
            sample_rate: None,
        }
    }
}

/// Upper bound for the pre-allocation derived from the container metadata, so that
/// a bogus frame count cannot request a huge allocation up front. The buffer still
/// grows beyond this if the file really is that long.
pub const MAX_PREALLOC_SAMPLES: usize = 16 * 1024 * 1024;

/// How many samples to reserve for this many frames: all of them, within the budget.
pub fn prealloc_len(frames: usize, channels: usize) -> (samples: usize)
    ensures
        samples == (if frames * channels < MAX_PREALLOC_SAMPLES {
            frames * channels
        } else {
            MAX_PREALLOC_SAMPLES as int
        }),
{
    match frames.checked_mul(channels) {
        Some(samples) => if samples < MAX_PREALLOC_SAMPLES {
            samples
        } else {
            MAX_PREALLOC_SAMPLES
        },
        None => MAX_PREALLOC_SAMPLES,
    }
}

/// Decoded audio at the sample rate of the file, before any resampling.
#[derive(Debug)]
pub struct Decoded<F> {
    pub samples: Vec<F>,
    pub num_channels: usize,
    pub sample_rate: u32,
}

/// Channel layout of the decoded stream, resolved against the read config.
#[derive(Debug, Clone, Copy, PartialEq, Eq, Structural)]
pub struct Layout {
    /// Channels per frame in the file.
    pub total: usize,
    /// First channel to extract.
    pub start: usize,
    /// Number of channels to extract.
    pub count: usize,
}

impl Layout {
    /// Whether the channels to extract exist.
    pub open spec fn wf(self) -> bool {
        &&& 0 < self.count <= u16::MAX
        &&& self.start + self.count <= self.total
    }
}

/// Everything about a read that can only be resolved once the audio specification
/// is known: the frame positions depend on the sample rate, and the channel
/// selection on the channel count.
///
/// It is resolved from the first packet that decodes, because container metadata
/// can contradict the bitstream headers. The specification of decoded audio is the
/// only reliable source, and the declared one is used only for files without a
/// single decodable packet.
#[derive(Debug, Clone, Copy, PartialEq, Eq, Structural)]
pub struct Plan {
    pub sample_rate: u32,
    pub layout: Layout,
    /// First frame to copy, inclusive.
    pub start_frame: usize,
    /// Frame to stop before, if the read is bounded.
    pub end_frame: Option<usize>,
}

/// The channel count is reported as a `u16`, so a stream with more channels than
/// that cannot be described by [`Audio`].
pub fn checked_num_channels(count: usize) -> (result: Result<u16, ReadError>)
    ensures
        result == (if count <= u16::MAX {
            Ok::<u16, ReadError>(count as u16)
        } else {
            Err(ReadError::TooManyChannels(count))
        }),
{
    if count <= 0xffff {
        Ok(count as u16)
    } else {
        Err(ReadError::TooManyChannels(count))
    }
}

/// The requested channels of a file with `total` channels, as the first one and
/// their number: all remaining ones unless the config says otherwise.
pub open spec fn channels_of(config: ReadConfig, total: usize) -> Result<
    (usize, usize),
    ReadError,
> {
    let start: usize = match config.start_channel {
        Some(start) => start,
        None => 0,
    };
    let count: usize = match config.num_channels {
        Some(count) => count,
        None => (total - start) as usize,
    };
    if start >= total {
        Err(ReadError::InvalidStartChannel { start, total })
    } else if count == 0 {
        Err(ReadError::ZeroChannels)
    } else if start + count > total {
        Err(ReadError::InvalidChannelRange { start, count, total })
    } else {
        Ok((start, count))
    }
}

/// Resolve and validate the requested channel range against a file with `total`
/// channels.
pub fn channel_range(config: &ReadConfig, total: usize) -> (result: Result<
    (usize, usize),
    ReadError,
>)
    ensures
        result == channels_of(*config, total),
{
    let start: usize = match config.start_channel {
        Some(start) => start,
        None => 0,
    };
    if start >= total {
        return Err(ReadError::InvalidStartChannel { start, total });
    }
    let count: usize = match config.num_channels {
        Some(count) => count,
        None => total - start,
    };
    if count == 0 {
        return Err(ReadError::ZeroChannels);
    }
    // The end of the range is only needed for this comparison, and a requested
    // count close to `usize::MAX` would overflow while calculating it.

    match start.checked_add(count) {
        Some(end) => if end > total {
            Err(ReadError::InvalidChannelRange { start, count, total })
        } else {
            Ok((start, count))
        },
        None => Err(ReadError::InvalidChannelRange { start, count, total }),
    }
}

/// The first frame a config asks for.
pub open spec fn start_of(config: ReadConfig, sample_rate: u32) -> usize {
    match frame_of(config.start, sample_rate) {
        Some(frame) => frame,
        None => 0,
    }
}

/// What a config asks for, of audio with this specification.
pub open spec fn plan_of(sample_rate: u32, channels: usize, config: ReadConfig) -> Result<
    Plan,
    ReadError,
> {
    let start_frame = start_of(config, sample_rate);
    let end_frame = frame_of(config.stop, sample_rate);
    if end_frame matches Some(end) && start_frame > end {
        Err(ReadError::InvalidFrameRange { start: start_frame, end: end_frame->0 })
    } else {
        match channels_of(config, channels) {
            Err(error) => Err(error),
            Ok((start, count)) => if count > u16::MAX {
                Err(ReadError::TooManyChannels(count))
            } else {
                Ok(
                    Plan {
                        sample_rate,
                        layout: Layout { total: channels, start, count },
                        start_frame,
                        end_frame,
                    },
                )
            },
        }
    }
}

impl Plan {
    /// Whether the range and the channels make sense.
    pub open spec fn wf(self) -> bool {
        &&& self.layout.wf()
        &&& self.end_frame matches Some(end) ==> self.start_frame <= end
    }

    /// Resolve and validate the read config against an audio specification.
    pub fn resolve(sample_rate: u32, channels: usize, config: &ReadConfig) -> (result: Result<
        Self,
        ReadError,
    >)
        ensures
            result == plan_of(sample_rate, channels, *config),
            result matches Ok(plan) ==> plan.wf(),
    {
        let start_frame: usize = match position_to_frame(config.start, sample_rate) {
            Some(frame) => frame,
            None => 0,
        };
        let end_frame = position_to_frame(config.stop, sample_rate);
        if let Some(end) = end_frame {
            if start_frame > end {
                return Err(ReadError::InvalidFrameRange { start: start_frame, end });
            }
        }
        match channel_range(config, channels) {
            Err(error) => Err(error),
            Ok((start, count)) => {
                // `Audio` reports the channel count as a `u16`, so a selection it
                // cannot describe is rejected here instead of after the whole file
                // is decoded.
                match checked_num_channels(count) {
                    Err(error) => Err(error),
                    Ok(_) => Ok(
                        Plan {
                            sample_rate,
                            layout: Layout { total: channels, start, count },
                            start_frame,
                            end_frame,
                        },
                    ),
                }
            },
        }
    }
}

/// What the wav fast path reads out of a file, if it handles the file at all.
pub open spec fn native_samples(file: Seq<u8>, wav: OpenWav, plan: Plan) -> Seq<u64> {
    frames_of(
        file,
        wav,
        plan.start_frame as int,
        plan.end_frame,
        plan.layout.start as int,
        plan.layout.count as int,
    )
}

/// Resolves what to read out of an opened wav file: the plan, and the reader that
/// names the bytes to get.
pub fn plan_native_wav(wav: OpenWav, config: &ReadConfig) -> (result: Result<
    (Plan, FrameReader),
    ReadError,
>)
    requires
        wav.wf(),
    ensures
        match plan_of(wav.sample_rate, wav.num_channels, *config) {
            Err(error) => result == Err::<(Plan, FrameReader), ReadError>(error),
            Ok(plan) => result matches Ok((resolved, reader)) && {
                &&& resolved == plan
                &&& plan.wf()
                &&& reader.wf()
                &&& reader.wav == wav
                &&& reader.frame == clamped(wav, plan.start_frame as int)
                &&& reader.end == clamped_end(wav, plan.end_frame)
                &&& reader.channel_start == plan.layout.start
                &&& reader.channel_count == plan.layout.count
            },
        },
{
    match Plan::resolve(wav.sample_rate, wav.num_channels, config) {
        Err(error) => Err(error),
        Ok(plan) => {
            let reader = FrameReader::new(
                wav,
                plan.start_frame,
                plan.end_frame,
                plan.layout.start,
                plan.layout.count,
            );
            Ok((plan, reader))
        },
    }
}

/// Attempts the wav fast path on a file held in memory: parsing the header
/// directly and reading only the requested bytes.
///
/// Returns `Ok(None)` for anything the native decoder does not handle - a file
/// that is not wav, or a wav sample encoding it does not decode, such as ADPCM - so
/// the caller falls back to the general path. Samples are the bit patterns of
/// doubles.
pub fn try_native_wav(file: &[u8], config: &ReadConfig) -> (result: Result<
    Option<Decoded<u64>>,
    ReadError,
>)
    ensures
        match parse_header(file@) {
            None => result == Ok::<Option<Decoded<u64>>, ReadError>(None),
            Some(wav) => match plan_of(wav.sample_rate, wav.num_channels, *config) {
                Err(error) => result == Err::<Option<Decoded<u64>>, ReadError>(error),
                Ok(plan) => result matches Ok(Some(decoded)) && {
                    &&& decoded.samples@ == native_samples(file@, wav, plan)
                    &&& decoded.num_channels == plan.layout.count
                    &&& decoded.sample_rate == plan.sample_rate
                },
            },
        },
{
    match open_wav(file) {
        None => Ok(None),
        Some(wav) => match Plan::resolve(wav.sample_rate, wav.num_channels, config) {
            Err(error) => Err(error),
            Ok(plan) => {
                let samples = read_frames(
                    file,
                    wav,
                    plan.start_frame,
                    plan.end_frame,
                    plan.layout.start,
                    plan.layout.count,
                );
                Ok(
                    Some(
                        Decoded {
                            samples,
                            num_channels: plan.layout.count,
                            sample_rate: plan.sample_rate,
                        },
                    ),
                )
            },
        },
    }
}

/// Decodes a file held in memory where the wav fast path is the whole reader, so
/// that declining a file is the end of the line rather than a handover.
pub fn decode(file: &[u8], config: &ReadConfig) -> (result: Result<Decoded<u64>, ReadError>)
    ensures
        match parse_header(file@) {
            None => result == Err::<Decoded<u64>, ReadError>(ReadError::UnsupportedFormat),
            Some(wav) => match plan_of(wav.sample_rate, wav.num_channels, *config) {
                Err(error) => result == Err::<Decoded<u64>, ReadError>(error),
                Ok(plan) => result matches Ok(decoded) && {
                    &&& decoded.samples@ == native_samples(file@, wav, plan)
                    &&& decoded.num_channels == plan.layout.count
                    &&& decoded.sample_rate == plan.sample_rate
                },
            },
        },
{
    match try_native_wav(file, config) {
        Err(error) => Err(error),
        Ok(Some(decoded)) => Ok(decoded),
        Ok(None) => Err(ReadError::UnsupportedFormat),
    }
}

/// The rate decoded audio has to be resampled to: the requested one, if any and if
/// it differs from the decoded rate.
pub open spec fn wanted_rate(decoded: u32, requested: Option<u32>) -> Option<u32> {
    match requested {
        Some(rate) => if rate != decoded {
            Some(rate)
        } else {
            None
        },
        None => None,
    }
}

/// The rate decoded audio has to be resampled to, if it has to be.
pub fn resample_rate(decoded: u32, config: &ReadConfig) -> (rate: Option<u32>)
    ensures
        rate == wanted_rate(decoded, config.sample_rate),
        rate is Some <==> (config.sample_rate is Some && config.sample_rate != Some(decoded)),
        rate is Some ==> rate == config.sample_rate,
{
    match config.sample_rate {
        Some(rate) => if rate != decoded {
            Some(rate)
        } else {
            None
        },
        None => None,
    }
}

/// The samples and the rate a read returns: those of the resampler where the audio
/// has to be resampled, and the decoded ones unchanged where it does not.
///
/// `resampled` is what the resampler made of the decoded samples, and is there
/// exactly where [`resample_rate`] asks for it.
pub fn resolve_output_rate<F>(
    decoded: Decoded<F>,
    config: &ReadConfig,
    resampled: Option<Result<Vec<F>, ResampleError>>,
) -> (result: Result<(Vec<F>, u32), ReadError>)
    requires
        resampled is Some <==> wanted_rate(decoded.sample_rate, config.sample_rate) is Some,
    ensures
        match (wanted_rate(decoded.sample_rate, config.sample_rate), resampled) {
            (Some(rate), Some(Ok(samples))) => result == Ok::<(Vec<F>, u32), ReadError>(
                (samples, rate),
            ),
            (Some(_), Some(Err(error))) => result == Err::<(Vec<F>, u32), ReadError>(
                ReadError::Resample(error),
            ),
            _ => result == Ok::<(Vec<F>, u32), ReadError>((decoded.samples, decoded.sample_rate)),
        },
        result matches Ok((_, rate)) ==> rate == (match config.sample_rate {
            Some(requested) => requested,
            None => decoded.sample_rate,
        }),
{
    match resample_rate(decoded.sample_rate, config) {
        Some(rate) => match resampled {
            Some(Ok(samples)) => Ok((samples, rate)),
            Some(Err(error)) => Err(ReadError::Resample(error)),
            None => Ok((decoded.samples, decoded.sample_rate)),
        },
        None => Ok((decoded.samples, decoded.sample_rate)),
    }
}

/// What a read of decoded audio returns, where `resampled` is what the resampler made of
/// it.
pub open spec fn completed<F>(
    decoded: Decoded<F>,
    config: ReadConfig,
    resampled: Option<Result<Vec<F>, ResampleError>>,
) -> Result<Audio<F>, ReadError> {
    if decoded.num_channels > u16::MAX {
        Err(ReadError::TooManyChannels(decoded.num_channels))
    } else {
        let num_channels = decoded.num_channels as u16;
        match (wanted_rate(decoded.sample_rate, config.sample_rate), resampled) {
            (Some(sample_rate), Some(Ok(samples_interleaved))) => Ok(
                Audio { samples_interleaved, sample_rate, num_channels },
            ),
            (Some(_), Some(Err(error))) => Err(ReadError::Resample(error)),
            _ => Ok(
                Audio {
                    samples_interleaved: decoded.samples,
                    sample_rate: decoded.sample_rate,
                    num_channels,
                },
            ),
        }
    }
}

/// Completes a read: decoded audio becomes [`Audio`] at the requested rate.
///
/// `resampled` is as for [`resolve_output_rate`].
pub fn read<F: ResampleSample>(
    decoded: Decoded<F>,
    config: &ReadConfig,
    resampled: Option<Result<Vec<F>, ResampleError>>,
) -> (result: Result<Audio<F>, ReadError>)
    requires
        resampled is Some <==> wanted_rate(decoded.sample_rate, config.sample_rate) is Some,
    ensures
        result == completed(decoded, *config, resampled),
        decoded.num_channels > u16::MAX ==> result == Err::<Audio<F>, ReadError>(
            ReadError::TooManyChannels(decoded.num_channels),
        ),
        decoded.num_channels <= u16::MAX ==> match (
            wanted_rate(decoded.sample_rate, config.sample_rate),
            resampled,
        ) {
            (Some(rate), Some(Ok(samples))) => result == Ok::<Audio<F>, ReadError>(
                Audio {
                    samples_interleaved: samples,
                    sample_rate: rate,
                    num_channels: decoded.num_channels as u16,
                },
            ),
            (Some(_), Some(Err(error))) => result == Err::<Audio<F>, ReadError>(
                ReadError::Resample(error),
            ),
            _ => result == Ok::<Audio<F>, ReadError>(
                Audio {
                    samples_interleaved: decoded.samples,
                    sample_rate: decoded.sample_rate,
                    num_channels: decoded.num_channels as u16,
                },
            ),
        },
{
    match checked_num_channels(decoded.num_channels) {
        Err(error) => Err(error),
        Ok(num_channels) => match resolve_output_rate(decoded, config, resampled) {
            Err(error) => Err(error),
            Ok((samples_interleaved, sample_rate)) => Ok(
                Audio { samples_interleaved, sample_rate, num_channels },
            ),
        },
    }
}

/// The text of an error of the operating system, as `ToString` of the standard
/// library gives it. Nothing is claimed of the text, which is up to the system.
#[verifier::external_body]
fn io_error_text(error: &std::io::Error) -> (text: String)
{
    error.to_string()
}

/// The text of an error of a demuxer or a decoder, where it is not one of the operating
/// system.
pub uninterp spec fn decode_text(error: symphonia::core::errors::Error) -> Seq<char>;

/// The text of a `symphonia::core::errors::Error`, as its `Display` gives it. It depends
/// on the error alone, unless that carries one of the operating system: nothing is
/// claimed of the text then.
#[verifier::external_body]
fn decode_error_text(error: &symphonia::core::errors::Error) -> (text: String)
    ensures
        failure_of(*error) != Failure::Io ==> text@ == decode_text(*error),
{
    error.to_string()
}

impl ReadError {
    /// The error in words, where `cause` is the text of an outside error that it
    /// carries.
    pub open spec fn text(self, cause: Seq<char>) -> Seq<char> {
        match self {
            ReadError::Io(_) => "could not read file: "@ + cause,
            ReadError::Decode(_) => "could not decode audio: "@ + cause,
            ReadError::UnsupportedFormat => "no decoder in this build can read this file"@,
            ReadError::NoTrack => "no track found"@,
            ReadError::NoSampleRate => "no sample rate found"@,
            ReadError::NoChannels => "could not determine the number of channels"@,
            ReadError::TooManyChannels(count) => "channel count ("@ + decimal(count as nat)
                + ") exceeds the supported maximum of 65535"@,
            ReadError::InvalidFrameRange { start, end } => "start frame ("@ + decimal(
                start as nat,
            ) + ") must not exceed end frame ("@ + decimal(end as nat) + ")"@,
            ReadError::InvalidStartChannel { start, total } => "start channel "@ + decimal(
                start as nat,
            ) + " out of bounds (file has "@ + decimal(total as nat) + " channels)"@,
            ReadError::ZeroChannels => "channel count must not be zero"@,
            ReadError::InvalidChannelRange { start, count, total } =>
            "channel range out of bounds: "@ + decimal(count as nat)
                + " channels starting at channel "@ + decimal(start as nat) + " (file has "@
                + decimal(total as nat) + " channels)"@,
            ReadError::ChannelCountChanged { expected, found } =>
            "channel count changed mid-stream (was "@ + decimal(expected as nat) + ", now "@
                + decimal(found as nat) + ")"@,
            ReadError::SampleRateChanged { expected, found } =>
            "sample rate changed mid-stream (was "@ + decimal(expected as nat) + ", now "@
                + decimal(found as nat) + ")"@,
            ReadError::MissingFrames { start, end } => "frames "@ + decimal(start as nat) + ".."@
                + decimal(end as nat) + " are missing, the file is damaged or incomplete"@,
            ReadError::Resample(_) => "resample failed"@,
        }
    }

    /// The error in words, given the text of the outside error that it carries.
    pub fn message_with(&self, cause: &str) -> (message: String)
        ensures
            message@ == self.text(cause@),
    {
        match self {
            ReadError::Io(_) => {
                let mut message = "could not read file: ".to_owned();
                message.append(cause);
                message
            },
            ReadError::Decode(_) => {
                let mut message = "could not decode audio: ".to_owned();
                message.append(cause);
                message
            },
            ReadError::UnsupportedFormat => {
                "no decoder in this build can read this file".to_owned()
            },
            ReadError::NoTrack => "no track found".to_owned(),
            ReadError::NoSampleRate => "no sample rate found".to_owned(),
            ReadError::NoChannels => "could not determine the number of channels".to_owned(),
            ReadError::TooManyChannels(count) => {
                let mut message = "channel count (".to_owned();
                append_decimal(&mut message, *count as u64);
                message.append(") exceeds the supported maximum of 65535");
                message
            },
            ReadError::InvalidFrameRange { start, end } => {
                let mut message = "start frame (".to_owned();
                append_decimal(&mut message, *start as u64);
                message.append(") must not exceed end frame (");
                append_decimal(&mut message, *end as u64);
                message.append(")");
                message
            },
            ReadError::InvalidStartChannel { start, total } => {
                let mut message = "start channel ".to_owned();
                append_decimal(&mut message, *start as u64);
                message.append(" out of bounds (file has ");
                append_decimal(&mut message, *total as u64);
                message.append(" channels)");
                message
            },
            ReadError::ZeroChannels => "channel count must not be zero".to_owned(),
            ReadError::InvalidChannelRange { start, count, total } => {
                let mut message = "channel range out of bounds: ".to_owned();
                append_decimal(&mut message, *count as u64);
                message.append(" channels starting at channel ");
                append_decimal(&mut message, *start as u64);
                message.append(" (file has ");
                append_decimal(&mut message, *total as u64);
                message.append(" channels)");
                message
            },
            ReadError::ChannelCountChanged { expected, found } => {
                let mut message = "channel count changed mid-stream (was ".to_owned();
                append_decimal(&mut message, *expected as u64);
                message.append(", now ");
                append_decimal(&mut message, *found as u64);
                message.append(")");
                message
            },
            ReadError::SampleRateChanged { expected, found } => {
                let mut message = "sample rate changed mid-stream (was ".to_owned();
                append_decimal(&mut message, *expected as u64);
                message.append(", now ");
                append_decimal(&mut message, *found as u64);
                message.append(")");
                message
            },
            ReadError::MissingFrames { start, end } => {
                let mut message = "frames ".to_owned();
                append_decimal(&mut message, *start);
                message.append("..");
                append_decimal(&mut message, *end);
                message.append(" are missing, the file is damaged or incomplete");
                message
            },
            ReadError::Resample(_) => "resample failed".to_owned(),
        }
    }

    /// The error in words. What an error of the operating system adds to it is up to the
    /// system.
    pub fn message(&self) -> (message: String)
        ensures
            exists|cause: Seq<char>|
                {
                    &&& message@ == #[trigger] self.text(cause)
                    &&& *self matches ReadError::Decode(error) ==> (failure_of(error)
                        != Failure::Io ==> cause == decode_text(error))
                },
    {
        match self {
            ReadError::Io(error) => {
                let cause = io_error_text(error);
                self.message_with(cause.as_str())
            },
            ReadError::Decode(error) => {
                let cause = decode_error_text(error);
                self.message_with(cause.as_str())
            },
            _ => self.message_with(""),
        }
    }
}

} // verus!
