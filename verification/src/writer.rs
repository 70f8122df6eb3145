//! Writing wav files.

use vstd::prelude::*;
use vstd::string::*;

use crate::sample::Sample;
use crate::text::{append_decimal, decimal};
use crate::wav::encode::{self, file_bytes, layout_of, layout_refusal, Layout};

verus! {

/// An error reported by the operating system.
#[verifier::external_type_specification]
#[verifier::external_body]
pub struct ExIoError(std::io::Error);

/// Why samples could not be written.
#[allow(inconsistent_fields)]
#[derive(Debug)]
#[non_exhaustive]
pub enum WriteError {
    /// The file could not be written.
    Io(std::io::Error),
    /// The channel count is zero.
    ZeroChannels,
    /// The sample rate is zero.
    ZeroSampleRate,
    /// The sample count is not a multiple of the channel count.
    UnalignedSamples { samples: usize, channels: u16 },
    /// The file would exceed the 4 GiB limit of the wav format.
    FileTooLarge { bytes: u64 },
    /// One frame would exceed the 65535 byte limit of the wav format.
    FrameTooLarge { bytes: u32 },
    /// The byte rate would exceed the 32-bit limit of the wav format.
    ByteRateTooHigh { bytes_per_second: u64 },
}

/// Sample format for writing audio.
#[derive(Debug, Clone, Copy, PartialEq, Eq, Structural)]
pub enum SampleFormat {
    /// 8-bit integer samples.
    Int8,
    /// 16-bit integer samples.
    Int16,
    /// 32-bit integer samples.
    Int32,
    /// 32-bit float samples.
    Float32,
}

impl Default for SampleFormat {
    /// 16-bit integers, for the broadest compatibility.
    fn default() -> (format: Self)
        ensures
            format == SampleFormat::Int16,
    {
        SampleFormat::Int16
    }
}

/// Configuration for writing audio to wav files.
pub struct WriteConfig {
    /// Sample format to use when writing.
    pub sample_format: SampleFormat,
}

impl Default for WriteConfig {
    fn default() -> (config: Self)
        ensures
            config.sample_format == SampleFormat::Int16,
    {
        WriteConfig { sample_format: SampleFormat::Int16 }
    }
}

impl WriteError {
    /// What [`WriteError::message`] says.
    pub open spec fn text(self) -> Seq<char> {
        match self {
            WriteError::Io(_) => "could not write file"@,
            WriteError::ZeroChannels => "channel count must not be zero"@,
            WriteError::ZeroSampleRate => "sample rate must not be zero"@,
            WriteError::UnalignedSamples { samples, channels } => "sample count ("@ + decimal(
                samples as nat,
            ) + ") is not a multiple of the channel count ("@ + decimal(channels as nat) + ")"@,
            WriteError::FileTooLarge { bytes } => "file size ("@ + decimal(bytes as nat)
                + " bytes) exceeds the 4 GiB limit of the wav format"@,
            WriteError::FrameTooLarge { bytes } => "frame size ("@ + decimal(bytes as nat)
                + " bytes) exceeds the 65535 byte limit of the wav format"@,
            WriteError::ByteRateTooHigh { bytes_per_second } => "byte rate ("@ + decimal(
                bytes_per_second as nat,
            ) + " bytes/s) exceeds the limit of the wav format"@,
        }
    }

    /// The error in words.
    pub fn message(&self) -> (message: String)
        ensures
            message@ == self.text(),
    {
        match self {
            WriteError::Io(_) => "could not write file".to_owned(),
            WriteError::ZeroChannels => "channel count must not be zero".to_owned(),
            WriteError::ZeroSampleRate => "sample rate must not be zero".to_owned(),
            WriteError::UnalignedSamples { samples, channels } => {
                let mut message = "sample count (".to_owned();
                append_decimal(&mut message, *samples as u64);
                message.append(") is not a multiple of the channel count (");
                append_decimal(&mut message, *channels as u64);
                message.append(")");
                message
            },
            WriteError::FileTooLarge { bytes } => {
                let mut message = "file size (".to_owned();
                append_decimal(&mut message, *bytes);
                message.append(" bytes) exceeds the 4 GiB limit of the wav format");
                message
            },
            WriteError::FrameTooLarge { bytes } => {
                let mut message = "frame size (".to_owned();
                append_decimal(&mut message, *bytes as u64);
                message.append(" bytes) exceeds the 65535 byte limit of the wav format");
                message
            },
            WriteError::ByteRateTooHigh { bytes_per_second } => {
                let mut message = "byte rate (".to_owned();
                append_decimal(&mut message, *bytes_per_second);
                message.append(" bytes/s) exceeds the limit of the wav format");
                message
            },
        }
    }
}

/// Why such input is refused, if it is. The arguments are checked before the
/// limits of the wav format.
pub open spec fn refusal(
    num_samples: int,
    num_channels: int,
    sample_rate: int,
    format: SampleFormat,
) -> Option<WriteError> {
    if num_channels == 0 {
        Some(WriteError::ZeroChannels)
    } else if sample_rate == 0 {
        Some(WriteError::ZeroSampleRate)
    } else if num_samples % num_channels != 0 {
        Some(
            WriteError::UnalignedSamples {
                samples: num_samples as usize,
                channels: num_channels as u16,
            },
        )
    } else {
        layout_refusal(num_samples, num_channels, sample_rate, format)
    }
}

/// Validates the input of a write and resolves the byte layout of the file,
/// before anything is written. Input the wav format cannot describe therefore
/// does not leave a truncated file behind.
pub fn resolve_layout(
    num_samples: usize,
    num_channels: u16,
    sample_rate: u32,
    config: &WriteConfig,
) -> (result: Result<Layout, WriteError>)
    ensures
        match refusal(
            num_samples as int,
            num_channels as int,
            sample_rate as int,
            config.sample_format,
        ) {
            Some(error) => result == Err::<Layout, WriteError>(error),
            None => result matches Ok(layout) && layout == layout_of(
                num_samples as int,
                num_channels as int,
                sample_rate as int,
                config.sample_format,
            ) && layout.describes(
                num_samples as int,
                num_channels as int,
                sample_rate as int,
                config.sample_format,
            ),
        },
{
    if num_channels == 0 {
        return Err(WriteError::ZeroChannels);
    }
    // A zero `nSamplesPerSec` does not describe a timeline, so the file would not
    // be playable and the wav decoder refuses to open it.

    if sample_rate == 0 {
        return Err(WriteError::ZeroSampleRate);
    }
    if num_samples % (num_channels as usize) != 0 {
        return Err(WriteError::UnalignedSamples { samples: num_samples, channels: num_channels });
    }
    Layout::new(num_samples, num_channels, sample_rate, config.sample_format)
}

/// Writes interleaved audio samples as a wav file, and returns the bytes of it.
pub fn write(
    samples: &[Sample],
    num_channels: u16,
    sample_rate: u32,
    config: &WriteConfig,
) -> (result: Result<Vec<u8>, WriteError>)
    ensures
        match refusal(
            samples@.len() as int,
            num_channels as int,
            sample_rate as int,
            config.sample_format,
        ) {
            Some(error) => result == Err::<Vec<u8>, WriteError>(error),
            None => result matches Ok(file) && file@ == file_bytes(
                layout_of(
                    samples@.len() as int,
                    num_channels as int,
                    sample_rate as int,
                    config.sample_format,
                ),
                samples@,
            ),
        },
{
    match resolve_layout(samples.len(), num_channels, sample_rate, config) {
        Err(error) => Err(error),
        Ok(layout) => {
            let mut file: Vec<u8> = Vec::new();
            encode::write(&mut file, &layout, samples);
            proof {
                let written = file_bytes(layout, samples@);
                assert(Seq::<u8>::empty() + written =~= written);
            }
            Ok(file)
        },
    }
}

} // verus!
