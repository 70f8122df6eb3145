//! Writing wav files through the public configuration.

use audio_blocks::{AudioBlock, Interleaved, Sequential};
use audio_file::block::{write_block, write_sequential_block, SequentialBlock, WriteBlock};
use audio_file::reader::{decode, ReadConfig};
use audio_file::sample::Sample;
use audio_file::writer::{resolve_layout, SampleFormat, WriteConfig, WriteError};

const ALL_FORMATS: [SampleFormat; 4] = [
    SampleFormat::Int8,
    SampleFormat::Int16,
    SampleFormat::Int32,
    SampleFormat::Float32,
];

fn single(value: f32) -> Sample {
    Sample { wide: f64::from(value).to_bits(), narrow: value.to_bits() }
}

fn double(value: f64) -> Sample {
    Sample { wide: value.to_bits(), narrow: (value as f32).to_bits() }
}

fn write(
    samples: &[f32],
    num_channels: u16,
    sample_rate: u32,
    config: WriteConfig,
) -> Result<Vec<u8>, WriteError> {
    let samples: Vec<Sample> = samples.iter().map(|&s| single(s)).collect();
    audio_file::writer::write(&samples, num_channels, sample_rate, &config)
}

/// The channels, the rate and the samples of a file.
fn read(file: &[u8]) -> (usize, u32, Vec<f64>) {
    let decoded = decode(file, &ReadConfig::default()).unwrap();
    let samples = decoded.samples.iter().map(|&s| f64::from_bits(s)).collect();
    (decoded.num_channels, decoded.sample_rate, samples)
}

fn assert_close(written: &[f32], read: &[f64], epsilon: f64) {
    assert_eq!(written.len(), read.len());
    for (w, r) in written.iter().zip(read) {
        assert!((f64::from(*w) - r).abs() <= epsilon, "{w} and {r}");
    }
}

/// One second of a 440 Hz sine wave per channel, at 48 kHz.
fn sine(channels: usize) -> Vec<f32> {
    (0..48_000 * channels)
        .map(|i| {
            let frame = (i / channels) as f64;
            (2.0 * std::f64::consts::PI * 440.0 * frame / 48_000.0).sin() as f32
        })
        .collect()
}

fn assert_round_trip(channels: usize, format: SampleFormat, epsilon: f64) {
    let samples = sine(channels);
    let file = write(
        &samples,
        channels as u16,
        48_000,
        WriteConfig { sample_format: format },
    )
    .unwrap();
    let (num_channels, sample_rate, read) = read(&file);
    assert_eq!(num_channels, channels);
    assert_eq!(sample_rate, 48_000);
    assert_close(&samples, &read, epsilon);
}

#[test]
fn test_round_trip_i8() {
    // 8-bit PCM has low precision. The scale ends at 127 and is normalized by 128,
    // giving a worst-case error of ~0.016 near full scale.
    assert_round_trip(1, SampleFormat::Int8, 2e-2);
}

#[test]
fn test_round_trip_i16() {
    assert_round_trip(1, SampleFormat::Int16, 1e-4);
}

#[test]
fn test_round_trip_i32() {
    assert_round_trip(1, SampleFormat::Int32, 1e-4);
}

#[test]
fn test_round_trip_f32() {
    assert_round_trip(1, SampleFormat::Float32, 1e-6);
}

/// Multichannel output takes the extensible path, so check a decoder can
/// still read it back.
#[test]
fn test_round_trip_multichannel() {
    for (sample_format, epsilon) in [
        (SampleFormat::Int8, 2e-2),
        (SampleFormat::Int16, 1e-4),
        (SampleFormat::Int32, 1e-4),
        (SampleFormat::Float32, 1e-4),
    ] {
        assert_round_trip(4, sample_format, epsilon);
    }
}

#[test]
fn test_invalid_input_is_rejected() {
    match write(&[0.0], 0, 48000, WriteConfig::default()) {
        Err(WriteError::ZeroChannels) => (),
        other => panic!("{other:?}"),
    }

    match write(&[0.0, 0.0, 0.0], 2, 48000, WriteConfig::default()) {
        Err(WriteError::UnalignedSamples { samples: 3, channels: 2 }) => (),
        other => panic!("{other:?}"),
    }

    // A file whose `nSamplesPerSec` is zero has no timeline, so it is not
    // playable and the decoder refuses to open it.
    match write(&[0.0, 0.0], 2, 0, WriteConfig::default()) {
        Err(WriteError::ZeroSampleRate) => (),
        other => panic!("{other:?}"),
    }
}

/// Input the wav format cannot describe is rejected up front too.
#[test]
fn test_unrepresentable_input_leaves_no_file() {
    match write(&[], u16::MAX, 48000, WriteConfig { sample_format: SampleFormat::Int32 }) {
        Err(WriteError::FrameTooLarge { .. }) => (),
        other => panic!("{other:?}"),
    }
}

/// A mono float file must not be tagged `WAVEFORMATEXTENSIBLE`: its `dwChannelMask` can
/// only name a physical speaker, and naming one sends the audio to that speaker alone.
#[test]
fn test_mono_files_are_not_speaker_assigned() {
    for sample_format in ALL_FORMATS {
        let bytes = write(&[0.0f32; 8], 1, 48000, WriteConfig { sample_format }).unwrap();

        // wFormatTag sits at the start of the fmt chunk body.
        let tag = u16::from_le_bytes(bytes[20..22].try_into().unwrap());
        assert_ne!(tag, 0xfffe, "{sample_format:?} is extensible");
    }
}

/// A channel count wide enough to need the extensible layout.
#[test]
fn test_round_trip_eighteen_channels() {
    let num_channels = 18u16;
    let samples: Vec<f32> = (0..usize::from(num_channels) * 5)
        .map(|i| (i as f32 * 0.01) - 0.5)
        .collect();
    let config = WriteConfig { sample_format: SampleFormat::Int32 };
    let (channels, _, read) = read(&write(&samples, num_channels, 48000, config).unwrap());
    assert_eq!(channels, usize::from(num_channels));
    assert_close(&samples, &read, 1e-6);
}

/// The decoder reads `nChannels` directly and never looks at the speaker mask, so a file
/// with more channels than there are named speakers round trips too.
#[test]
fn test_many_channels_can_be_read_back() {
    let num_channels = 64u16;
    let total = usize::from(num_channels) * 5;
    let samples: Vec<f32> = (0..total).map(|i| (i as f32 / total as f32) - 0.5).collect();
    let config = WriteConfig { sample_format: SampleFormat::Int32 };
    let (channels, _, read) = read(&write(&samples, num_channels, 48000, config).unwrap());
    assert_eq!(channels, usize::from(num_channels));
    assert_close(&samples, &read, 1e-6);
}

/// A block is reinterleaved before it is handed to the encoder, so a channel-major block
/// has to come back in the same order it went in.
#[test]
fn test_round_trip_block() {
    // Two channels of three frames, laid out channel after channel.
    let values = [0.1f32, 0.2, 0.3, -0.1, -0.2, -0.3].map(single);
    let block = SequentialBlock { inner: Sequential::from_slice(&values, 2) };

    let config = WriteConfig { sample_format: SampleFormat::Float32 };
    let (channels, rate, read) = read(&write_sequential_block(&block, 48000, &config).unwrap());
    assert_eq!(channels, 2);
    assert_eq!(rate, 48000);
    assert_close(&[0.1f32, -0.1, 0.2, -0.2, 0.3, -0.3], &read, 1e-6);
}

/// Only the visible part of a block is written.
#[test]
fn hidden_channels_and_frames_are_not_written() {
    let values: Vec<Sample> = (0..12).map(|i| single(i as f32 / 16.0)).collect();
    // Four frames of three channels, of which two frames of two channels are visible.
    let block = WriteBlock { inner: Interleaved::from_slice_limited(&values, 2, 2, 3, 4) };
    assert_eq!(block.inner.num_frames(), 2);

    let config = WriteConfig { sample_format: SampleFormat::Float32 };
    let (channels, _, read) = read(&write_block(&block, 48000, &config).unwrap());
    assert_eq!(channels, 2);
    assert_eq!(read, [0.0, 1.0 / 16.0, 3.0 / 16.0, 4.0 / 16.0]);

    match write_block(&block, 0, &config) {
        Err(WriteError::ZeroSampleRate) => (),
        other => panic!("{other:?}"),
    }
}

/// The layout of a block makes no difference to the file.
#[test]
fn every_block_layout_gives_the_same_file() {
    let frames = [0.1f32, -0.1, 0.2, -0.2, 0.3, -0.3].map(single);
    let channels = [0.1f32, 0.2, 0.3, -0.1, -0.2, -0.3].map(single);
    let interleaved = WriteBlock { inner: Interleaved::from_slice(&frames, 2) };
    let sequential = SequentialBlock { inner: Sequential::from_slice(&channels, 2) };
    for sample_format in ALL_FORMATS {
        let config = WriteConfig { sample_format };
        let expected = audio_file::writer::write(&frames, 2, 48000, &config).unwrap();
        assert_eq!(write_block(&interleaved, 48000, &config).unwrap(), expected);
        assert_eq!(write_sequential_block(&sequential, 48000, &config).unwrap(), expected);
    }

    // Three channels of four frames, of which two channels of two frames are visible.
    let values: Vec<Sample> = (0..12).map(|i| single(i as f32 / 16.0)).collect();
    let limited = SequentialBlock { inner: Sequential::from_slice_limited(&values, 2, 2, 3, 4) };
    let config = WriteConfig { sample_format: SampleFormat::Float32 };
    let (channels, _, read) = read(&write_sequential_block(&limited, 48000, &config).unwrap());
    assert_eq!(channels, 2);
    assert_eq!(read, [0.0, 4.0 / 16.0, 1.0 / 16.0, 5.0 / 16.0]);
}

/// A block without a visible channel is refused, whether or not it has room for one.
#[test]
fn blocks_without_channels_are_refused() {
    let config = WriteConfig::default();
    let values = [single(0.5); 4];
    for inner in [
        Interleaved::from_slice_limited(&[], 0, 0, 0, 0),
        Interleaved::from_slice_limited(&[], 0, 3, 0, 4),
        Interleaved::from_slice_limited(&values, 0, 2, 2, 2),
    ] {
        match write_block(&WriteBlock { inner }, 48000, &config) {
            Err(WriteError::ZeroChannels) => (),
            other => panic!("{other:?}"),
        }
    }
    for inner in [
        Sequential::from_slice_limited(&[], 0, 0, 0, 0),
        Sequential::from_slice_limited(&[], 0, usize::MAX, 0, usize::MAX),
        Sequential::from_slice_limited(&values, 0, 2, 2, 2),
    ] {
        match write_sequential_block(&SequentialBlock { inner }, 48000, &config) {
            Err(WriteError::ZeroChannels) => (),
            other => panic!("{other:?}"),
        }
    }
}

/// The odd frame counts that need a pad byte have to survive a round trip,
/// since a decoder that trusts the chunk size would otherwise read into it.
#[test]
fn test_round_trip_odd_length() {
    for num_frames in 0..6 {
        let samples: Vec<f32> = (0..num_frames).map(|i| i as f32 / 10.0).collect();
        let config = WriteConfig { sample_format: SampleFormat::Int8 };
        let (_, _, read) = read(&write(&samples, 1, 48000, config).unwrap());
        assert_eq!(read.len(), num_frames, "{num_frames} frames");
    }
}

/// Doubles have to work end to end and not just in the encoder.
#[test]
fn test_round_trip_f64_input() {
    let values: Vec<f64> = (0..64).map(|i| (i as f64 / 32.0) - 1.0).collect();
    let samples: Vec<Sample> = values.iter().map(|&v| double(v)).collect();
    let config = WriteConfig { sample_format: SampleFormat::Float32 };
    let file = audio_file::writer::write(&samples, 2, 48000, &config).unwrap();
    let (channels, _, read) = read(&file);
    assert_eq!(channels, 2);
    assert_eq!(read, values);
}

/// Full scale samples must not wrap around or drop out.
#[test]
fn test_full_scale_round_trip() {
    let samples = [1.0f32, -1.0, 0.5, -0.5, 0.0];
    for sample_format in ALL_FORMATS {
        let (_, _, read) = read(&write(&samples, 1, 48000, WriteConfig { sample_format }).unwrap());
        assert_close(&samples, &read, 1e-2);
    }
}

/// 16-bit integers unless something else is asked for.
#[test]
fn the_default_format_is_sixteen_bit() {
    assert_eq!(SampleFormat::default(), SampleFormat::Int16);
    assert_eq!(WriteConfig::default().sample_format, SampleFormat::Int16);
    let layout = resolve_layout(4, 2, 48_000, &WriteConfig::default()).unwrap();
    assert_eq!(layout.block_align, 4);
}

/// Every error in words.
#[test]
fn write_errors_have_messages() {
    for (error, message) in [
        (WriteError::Io(std::io::Error::other("full")), "could not write file"),
        (WriteError::ZeroChannels, "channel count must not be zero"),
        (WriteError::ZeroSampleRate, "sample rate must not be zero"),
        (
            WriteError::UnalignedSamples { samples: 3, channels: 2 },
            "sample count (3) is not a multiple of the channel count (2)",
        ),
        (
            WriteError::FileTooLarge { bytes: 4_294_967_304 },
            "file size (4294967304 bytes) exceeds the 4 GiB limit of the wav format",
        ),
        (
            WriteError::FrameTooLarge { bytes: 262_140 },
            "frame size (262140 bytes) exceeds the 65535 byte limit of the wav format",
        ),
        (
            WriteError::ByteRateTooHigh { bytes_per_second: 4_295_032_830 },
            "byte rate (4295032830 bytes/s) exceeds the limit of the wav format",
        ),
    ] {
        assert_eq!(error.message(), message);
    }
}
