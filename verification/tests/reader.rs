//! Reading wav files through the public configuration.

use std::time::Duration;

use audio_file::block::{read_block, ReadBlock};
use audio_file::reader::position::time_to_frame;
use audio_file::reader::{
    checked_num_channels, channel_range, decode, plan_native_wav, position_to_frame,
    resample_rate, resolve_output_rate, try_native_wav, Audio, Decoded, Plan, Position,
    ReadConfig, ReadError,
};
use audio_file::resample::{frame_count, keep_frames, ResampleError};
use audio_file::sample::Sample;
use audio_file::wav::decode::open_wav;
use audio_file::writer::{SampleFormat, WriteConfig};

const FREQUENCIES: [f64; 4] = [440.0, 554.37, 659.25, 880.0];

const N_FRAMES: usize = 48_000;

/// Writes samples as a wav file.
fn write(samples: &[f32], num_channels: u16, sample_rate: u32, format: SampleFormat) -> Vec<u8> {
    let samples: Vec<Sample> = samples
        .iter()
        .map(|s| Sample { wide: f64::from(*s).to_bits(), narrow: s.to_bits() })
        .collect();
    audio_file::writer::write(
        &samples,
        num_channels,
        sample_rate,
        &WriteConfig { sample_format: format },
    )
    .unwrap()
}

/// Reads a file without resampling.
fn read(file: &[u8], config: ReadConfig) -> Result<Audio<u64>, ReadError> {
    let decoded = decode(file, &config)?;
    assert!(resample_rate(decoded.sample_rate, &config).is_none());
    audio_file::reader::read(decoded, &config, None)
}

fn floats(samples: &[u64]) -> Vec<f32> {
    samples.iter().map(|&s| f64::from_bits(s) as f32).collect()
}

fn to_block(audio: &Audio<u64>) -> ReadBlock {
    read_block(audio).0
}

fn sine(frequency: f64, frame: usize) -> f32 {
    (2.0 * std::f64::consts::PI * frequency * frame as f64 / 48_000.0).sin() as f32
}

/// One second of a sine wave per channel, at 48 kHz.
fn sines(channels: usize) -> Vec<u8> {
    let samples: Vec<f32> = (0..N_FRAMES)
        .flat_map(|frame| (0..channels).map(move |ch| sine(FREQUENCIES[ch], frame)))
        .collect();
    write(&samples, channels as u16, 48_000, SampleFormat::Int16)
}

fn assert_close(a: &[f32], b: &[f32], epsilon: f32) {
    assert_eq!(a.len(), b.len());
    for (x, y) in a.iter().zip(b) {
        assert!((x - y).abs() <= epsilon, "{x} and {y}");
    }
}

/// A file no decoder recognizes has nowhere left to go. That has to be said plainly
/// rather than surfacing as a missing track or a decode failure.
#[test]
fn test_unsupported_format_without_the_general_decoder() {
    match read(b"ID3 is how many an mp3 file begins", ReadConfig::default()) {
        Err(error @ ReadError::UnsupportedFormat) => {
            assert_eq!(error.message(), "no decoder in this build can read this file");
        }
        other => panic!("{:?}", other.map(|audio| audio.num_channels)),
    }
    assert!(try_native_wav(b"not wav", &ReadConfig::default()).unwrap().is_none());
}

#[test]
fn test_wav_round_trips_without_the_general_decoder() {
    let samples: Vec<f32> = (0..96).map(|i| (i as f32 / 48.0) - 1.0).collect();

    for sample_format in [SampleFormat::Int16, SampleFormat::Int32, SampleFormat::Float32] {
        let file = write(&samples, 3, 48_000, sample_format);

        let audio = read(&file, ReadConfig::default()).unwrap();
        assert_eq!(audio.num_channels, 3, "{sample_format:?}");
        assert_eq!(audio.sample_rate, 48_000, "{sample_format:?}");
        assert_close(&samples, &floats(&audio.samples_interleaved), 1e-4);

        // And a frame plus channel selection out of the middle of it.
        let audio = read(
            &file,
            ReadConfig {
                start: Position::Frame(4),
                stop: Position::Frame(9),
                start_channel: Some(1),
                num_channels: Some(2),
                sample_rate: None,
            },
        )
        .unwrap();
        assert_eq!(audio.num_channels, 2, "{sample_format:?}");
        let src = samples.as_slice();
        let expected: Vec<f32> = (4..9)
            .flat_map(|frame| (1..3).map(move |ch| src[frame * 3 + ch]))
            .collect();
        assert_close(&expected, &floats(&audio.samples_interleaved), 1e-4);
    }
}

fn sine_wave_data_integrity() {
    let file = sines(4);
    let audio = read(&file, ReadConfig::default()).unwrap();
    let block = to_block(&audio);

    assert_eq!(audio.sample_rate, 48000);
    assert_eq!(block.num_frames(), N_FRAMES);
    assert_eq!(block.num_channels(), 4);

    // Verify each channel contains the expected sine wave
    for (ch, &freq) in FREQUENCIES.iter().enumerate() {
        for frame in 0..N_FRAMES {
            let expected = sine(freq, frame);
            let actual = f64::from_bits(block.sample(ch as u16, frame).unwrap()) as f32;
            assert!(
                (actual - expected).abs() < 1e-4,
                "Mismatch at channel {ch}, frame {frame}: expected {expected}, got {actual}"
            );
        }
    }

    // Also verify reading with an offset works consistently
    let audio = read(
        &file,
        ReadConfig {
            start: Position::Frame(24000),
            stop: Position::Frame(24100),
            ..Default::default()
        },
    )
    .unwrap();
    let block = to_block(&audio);

    for (ch, &freq) in FREQUENCIES.iter().enumerate() {
        for frame in 0..100 {
            let expected = sine(freq, 24000 + frame);
            let actual = f64::from_bits(block.sample(ch as u16, frame).unwrap()) as f32;
            assert!(
                (actual - expected).abs() < 1e-4,
                "Offset mismatch at channel {ch}, frame {frame}: expected {expected}, got {actual}"
            );
        }
    }
}

#[test]
fn reader_test_sine_wave_data_integrity() {
    sine_wave_data_integrity();
}

#[test]
fn mod_test_sine_wave_data_integrity() {
    sine_wave_data_integrity();
}

fn samples_selection() {
    let file = sines(1);
    let audio1 = read(&file, ReadConfig::default()).unwrap();
    let block1 = to_block(&audio1);
    assert_eq!(audio1.sample_rate, 48000);
    assert_eq!(block1.num_frames(), 48000);
    assert_eq!(block1.num_channels(), 1);

    let audio2 = read(
        &file,
        ReadConfig {
            start: Position::Frame(1100),
            stop: Position::Frame(1200),
            ..Default::default()
        },
    )
    .unwrap();
    let block2 = to_block(&audio2);
    assert_eq!(audio2.sample_rate, 48000);
    assert_eq!(block2.num_frames(), 100);
    assert_eq!(block2.num_channels(), 1);
    assert_eq!(block1.raw_data()[1100..1200], block2.raw_data()[..]);
}

#[test]
fn reader_test_samples_selection() {
    samples_selection();
}

#[test]
fn mod_test_samples_selection() {
    samples_selection();
}

fn time_selection() {
    let file = sines(1);
    let audio1 = read(&file, ReadConfig::default()).unwrap();
    let block1 = to_block(&audio1);
    assert_eq!(audio1.sample_rate, 48000);
    assert_eq!(block1.num_frames(), 48000);
    assert_eq!(block1.num_channels(), 1);

    let audio2 = read(
        &file,
        ReadConfig {
            start: Position::Time(Duration::from_secs_f32(0.5)),
            stop: Position::Time(Duration::from_secs_f32(0.6)),
            ..Default::default()
        },
    )
    .unwrap();
    let block2 = to_block(&audio2);

    assert_eq!(audio2.sample_rate, 48000);
    assert_eq!(block2.num_frames(), 4800);
    assert_eq!(block2.num_channels(), 1);
    assert_eq!(block1.raw_data()[24000..28800], block2.raw_data()[..]);
}

#[test]
fn reader_test_time_selection() {
    time_selection();
}

#[test]
fn mod_test_time_selection() {
    time_selection();
}

fn channel_selection() {
    let file = sines(4);
    let audio1 = read(&file, ReadConfig::default()).unwrap();
    let block1 = to_block(&audio1);
    assert_eq!(audio1.sample_rate, 48000);
    assert_eq!(block1.num_frames(), 48000);
    assert_eq!(block1.num_channels(), 4);

    let audio2 = read(
        &file,
        ReadConfig {
            start_channel: Some(1),
            num_channels: Some(2),
            ..Default::default()
        },
    )
    .unwrap();
    let block2 = to_block(&audio2);

    assert_eq!(audio2.sample_rate, 48000);
    assert_eq!(block2.num_frames(), 48000);
    assert_eq!(block2.num_channels(), 2);

    // Verify we extracted channels 1 and 2 (skipping channel 0 and 3)
    for frame in 0..10 {
        assert_eq!(block2.sample(0, frame), block1.sample(1, frame));
        assert_eq!(block2.sample(1, frame), block1.sample(2, frame));
    }
}

#[test]
fn reader_test_channel_selection() {
    channel_selection();
}

#[test]
fn mod_test_channel_selection() {
    channel_selection();
}

fn fail_selection() {
    let mono = sines(1);
    match read(
        &mono,
        ReadConfig {
            start: Position::Frame(100),
            stop: Position::Frame(99),
            ..Default::default()
        },
    ) {
        Err(ReadError::InvalidFrameRange { start: _, end: _ }) => (),
        _ => panic!(),
    }

    match read(
        &mono,
        ReadConfig {
            start: Position::Time(Duration::from_secs_f32(0.6)),
            stop: Position::Time(Duration::from_secs_f32(0.5)),
            ..Default::default()
        },
    ) {
        Err(ReadError::InvalidFrameRange { start: _, end: _ }) => (),
        _ => panic!(),
    }

    match read(&mono, ReadConfig { start_channel: Some(1), ..Default::default() }) {
        Err(ReadError::InvalidStartChannel { start: _, total: _ }) => (),
        _ => panic!(),
    }

    // A start channel beyond the channel count must not overflow while
    // defaulting the channel count to "all remaining channels"
    match read(&mono, ReadConfig { start_channel: Some(3), ..Default::default() }) {
        Err(ReadError::InvalidStartChannel { start: 3, total: 1 }) => (),
        other => panic!("{other:?}"),
    }

    match read(&mono, ReadConfig { num_channels: Some(0), ..Default::default() }) {
        Err(ReadError::ZeroChannels) => (),
        _ => panic!(),
    }

    match read(&mono, ReadConfig { num_channels: Some(2), ..Default::default() }) {
        Err(ReadError::InvalidChannelRange { start: 0, count: 2, total: 1 }) => (),
        other => panic!("{other:?}"),
    }

    // A channel count that overflows the end of the range must be reported
    // instead of overflowing while validating or formatting it
    let error = read(
        &sines(4),
        ReadConfig {
            start_channel: Some(1),
            num_channels: Some(usize::MAX),
            ..Default::default()
        },
    )
    .expect_err("a channel count of usize::MAX must be rejected");

    assert!(
        matches!(
            error,
            ReadError::InvalidChannelRange { start: 1, count: usize::MAX, total: 4 }
        ),
        "{error:?}"
    );
    assert!(!error.message().is_empty());
}

#[test]
fn reader_test_fail_selection() {
    fail_selection();
}

#[test]
fn mod_test_fail_selection() {
    fail_selection();
}

fn channel_count_must_fit_the_reported_type() {
    assert_eq!(checked_num_channels(2).unwrap(), 2);
    assert_eq!(checked_num_channels(usize::from(u16::MAX)).unwrap(), u16::MAX);

    let error = checked_num_channels(usize::from(u16::MAX) + 1)
        .expect_err("more channels than u16 can hold must be rejected");
    assert!(matches!(error, ReadError::TooManyChannels(65_536)), "{error:?}");
    assert!(!error.message().is_empty());
}

#[test]
fn reader_test_channel_count_must_fit_the_reported_type() {
    channel_count_must_fit_the_reported_type();
}

#[test]
fn mod_test_channel_count_must_fit_the_reported_type() {
    channel_count_must_fit_the_reported_type();

    // The same limit is enforced when the read plan is resolved, before any
    // decoding happens
    assert!(matches!(
        Plan::resolve(48_000, 65_536, &ReadConfig::default()),
        Err(ReadError::TooManyChannels(65_536))
    ));
    // ... while selecting fewer channels than the file has stays allowed
    let plan = Plan::resolve(
        48_000,
        65_536,
        &ReadConfig { num_channels: Some(2), ..Default::default() },
    )
    .unwrap();
    assert_eq!(plan.layout.count, 2);
}

fn plan_is_resolved_against_the_given_specification() {
    let config = ReadConfig {
        start: Position::Time(std::time::Duration::from_millis(10)),
        stop: Position::Time(std::time::Duration::from_millis(20)),
        start_channel: Some(1),
        num_channels: Some(2),
        sample_rate: None,
    };

    // Frame positions follow the given sample rate, not the config
    let plan = Plan::resolve(48_000, 4, &config).unwrap();
    assert_eq!(plan.sample_rate, 48_000);
    assert_eq!(plan.start_frame, 480);
    assert_eq!(plan.end_frame, Some(960));
    assert_eq!(plan.layout.total, 4);
    assert_eq!(plan.layout.start, 1);
    assert_eq!(plan.layout.count, 2);

    let plan = Plan::resolve(24_000, 4, &config).unwrap();
    assert_eq!(plan.start_frame, 240);
    assert_eq!(plan.end_frame, Some(480));

    // The channel selection is validated against the given channel count
    assert!(matches!(
        Plan::resolve(48_000, 2, &config),
        Err(ReadError::InvalidChannelRange { start: 1, count: 2, total: 2 })
    ));

    let backwards = ReadConfig {
        start: Position::Frame(100),
        stop: Position::Frame(99),
        ..Default::default()
    };
    assert!(matches!(
        Plan::resolve(48_000, 1, &backwards),
        Err(ReadError::InvalidFrameRange { start: 100, end: 99 })
    ));
}

#[test]
fn reader_test_plan_is_resolved_against_the_given_specification() {
    plan_is_resolved_against_the_given_specification();
}

#[test]
fn mod_test_plan_is_resolved_against_the_given_specification() {
    plan_is_resolved_against_the_given_specification();
}

fn start_beyond_seek_threshold() {
    // Three seconds of a ramp, so that every frame is identifiable
    let num_frames = 48000 * 3;
    let mut samples = Vec::with_capacity(num_frames * 2);
    for frame in 0..num_frames {
        let value = frame as f32 / num_frames as f32;
        samples.push(value);
        samples.push(-value);
    }
    let file = write(&samples, 2, 48000, SampleFormat::Float32);

    for start in [48_001, 60_000, 100_000, 143_000] {
        let audio = read(
            &file,
            ReadConfig { start: Position::Frame(start), ..Default::default() },
        )
        .unwrap();

        assert_eq!(audio.num_channels, 2);
        assert_eq!(
            audio.samples_interleaved.len(),
            (num_frames - start) * 2,
            "wrong length for start frame {start}"
        );
        assert_eq!(
            floats(&audio.samples_interleaved[..2]),
            samples[start * 2..start * 2 + 2],
            "wrong first frame for start frame {start}"
        );
    }
}

#[test]
fn reader_test_start_beyond_seek_threshold() {
    start_beyond_seek_threshold();
}

#[test]
fn mod_test_start_beyond_seek_threshold() {
    start_beyond_seek_threshold();
}

/// A start beyond the end yields no samples, and a stop beyond the end clips to the
/// frames that are there.
#[test]
fn test_positions_beyond_the_end_of_the_file() {
    let num_frames = 24_000;
    let samples: Vec<f32> = (0..num_frames * 2).map(|i| i as f32 / 1e6).collect();
    let file = write(&samples, 2, 48000, SampleFormat::Float32);

    for start in [30_000, 48_001, 1_000_000] {
        let audio = read(
            &file,
            ReadConfig { start: Position::Frame(start), ..Default::default() },
        )
        .unwrap();

        assert_eq!(audio.num_channels, 2, "start frame {start}");
        assert_eq!(audio.sample_rate, 48000, "start frame {start}");
        assert!(
            audio.samples_interleaved.is_empty(),
            "start frame {start} returned {} samples",
            audio.samples_interleaved.len()
        );
    }

    // Nothing to resample, but the requested rate is still what the empty
    // audio is labelled with
    let config = ReadConfig {
        start: Position::Frame(1_000_000),
        sample_rate: Some(24_000),
        ..Default::default()
    };
    let decoded = decode(&file, &config).unwrap();
    assert_eq!(resample_rate(decoded.sample_rate, &config), Some(24_000));
    let audio = audio_file::reader::read(decoded, &config, Some(Ok(Vec::new()))).unwrap();
    assert_eq!(audio.sample_rate, 24_000);
    assert!(audio.samples_interleaved.is_empty());

    for stop in [Position::Frame(1_000_000), Position::Time(Duration::from_secs(60))] {
        let audio = read(&file, ReadConfig { stop, ..Default::default() }).unwrap();
        assert_eq!(floats(&audio.samples_interleaved), samples);
    }
}

/// A time position that does not land on a frame boundary is rounded to the
/// nearest frame instead of truncated, so that a position derived from a
/// frame index does not move a frame earlier.
#[test]
fn test_sub_frame_time_positions_are_rounded() {
    // 1000.4 frames at 48 kHz
    let start = Duration::from_nanos(20_841_666);
    // 1200.5 frames, which truncation would place at 1200
    let stop = Duration::from_nanos(25_010_417);

    let file = sines(1);
    let audio = read(
        &file,
        ReadConfig {
            start: Position::Time(start),
            stop: Position::Time(stop),
            ..Default::default()
        },
    )
    .unwrap();

    let full = read(&file, ReadConfig::default()).unwrap();
    assert_eq!(audio.samples_interleaved.len(), 201);
    assert_eq!(audio.samples_interleaved, full.samples_interleaved[1000..1201]);

    assert_eq!(position_to_frame(Position::Time(start), 48_000), Some(1000));
    assert_eq!(position_to_frame(Position::Time(stop), 48_000), Some(1201));
}

/// What a time comes to in floating point.
fn frame_in_doubles(secs: u64, nanos: u32, rate: u32) -> usize {
    (Duration::new(secs, nanos).as_secs_f64() * f64::from(rate)).round() as usize
}

/// The time of a frame, cut off to a nanosecond, names that frame again.
#[test]
fn the_time_of_a_frame_names_that_frame() {
    for rate in [1u32, 8_000, 11_025, 44_100, 48_000, 192_000, 250_000_000] {
        for frame in [0u64, 1, 2, 44_099, 44_101, 1_000_003, 1 << 40] {
            let nanos = u128::from(frame) * 1_000_000_000 / u128::from(rate);
            let secs = (nanos / 1_000_000_000) as u64;
            let rest = (nanos % 1_000_000_000) as u32;
            assert_eq!(time_to_frame(secs, rest, rate), frame as usize, "{frame} at {rate}");
        }
    }
    assert_eq!(position_to_frame(Position::Default, 48_000), None);
    assert_eq!(position_to_frame(Position::Frame(3), 48_000), Some(3));
}

/// A time is turned into a frame in double precision, ties included, and the end of the
/// number range is no overflow.
#[test]
fn times_are_calculated_in_double_precision() {
    assert_eq!(time_to_frame(0, 500_000_000, 1), 1);
    assert_eq!(time_to_frame(0, 499_999_999, 1), 0);
    // Half a frame, which a double falls short of, and half a frame that it holds.
    assert_eq!(position_to_frame(Position::Time(Duration::from_millis(175)), 44_100), Some(7_717));
    assert_eq!(position_to_frame(Position::Time(Duration::from_millis(285)), 44_100), Some(12_568));
    assert_eq!(position_to_frame(Position::Time(Duration::from_millis(125)), 44_100), Some(5_513));
    assert_eq!(position_to_frame(Position::Time(Duration::from_millis(10)), 48_000), Some(480));
    assert_eq!(position_to_frame(Position::Time(Duration::MAX), 0), Some(0));
    assert_eq!(
        position_to_frame(Position::Time(Duration::MAX), u32::MAX),
        Some(usize::MAX)
    );

    let mut state: u64 = 0x2545_f491_4f6c_dd1d;
    for round in 0..100_000u32 {
        state ^= state << 13;
        state ^= state >> 7;
        state ^= state << 17;
        let secs = state.checked_shr(round % 65).unwrap_or(0);
        let nanos = if round % 2 == 0 {
            (state % 1_000_000_000) as u32
        } else {
            (state % 1_000) as u32 * 1_000_000
        };
        for rate in [1u32, 44_100, 48_000, (state >> 32) as u32] {
            assert_eq!(
                time_to_frame(secs, nanos, rate),
                frame_in_doubles(secs, nanos, rate),
                "{secs} {nanos} {rate}"
            );
        }
    }
    for (secs, nanos) in [
        (0, 1),
        (0, 999_999_999),
        ((1 << 53) - 1, 999_999_999),
        (1 << 53, 999_999_999),
        ((1 << 53) + 1, 999_999_999),
        ((1 << 54) - 1, 500_000_000),
        (u64::MAX, 999_999_999),
    ] {
        for rate in [0u32, 1, 2, 44_100, u32::MAX] {
            assert_eq!(
                time_to_frame(secs, nanos, rate),
                frame_in_doubles(secs, nanos, rate),
                "{secs} {nanos} {rate}"
            );
        }
    }
}

/// A later time never names an earlier frame.
#[test]
fn later_times_name_later_frames() {
    for rate in [1u32, 44_100, 48_000] {
        let mut last = 0;
        for step in 0..2_000u64 {
            let nanos = step * 1_234_567;
            let frame = time_to_frame(nanos / 1_000_000_000, (nanos % 1_000_000_000) as u32, rate);
            assert!(frame >= last);
            last = frame;
        }
    }
}

fn read_block_matches_read() {
    let file = sines(4);
    let config = || ReadConfig {
        start: Position::Frame(1_000),
        stop: Position::Frame(1_500),
        start_channel: Some(1),
        num_channels: Some(2),
        sample_rate: None,
    };

    let audio = read(&file, config()).unwrap();
    let (block, sample_rate) = read_block(&read(&file, config()).unwrap());

    assert_eq!(sample_rate, audio.sample_rate);
    assert_eq!(block.num_channels(), audio.num_channels);
    assert_eq!(block.num_frames(), 500);
    assert_eq!(block.raw_data(), audio.samples_interleaved.as_slice());
    // Channel-wise access, and nothing beyond the block.
    assert_eq!(block.sample(1, 2), Some(audio.samples_interleaved[5]));
    assert_eq!(block.sample(2, 0), None);
    assert_eq!(block.sample(0, 500), None);
}

#[test]
fn reader_test_read_block_matches_read() {
    read_block_matches_read();
}

#[test]
fn mod_test_read_block_matches_read() {
    read_block_matches_read();
}

fn read_file_without_frames() {
    let file = write(&[], 2, 48000, SampleFormat::Int16);

    let audio = read(&file, ReadConfig::default()).unwrap();
    assert_eq!(audio.num_channels, 2);
    assert_eq!(audio.sample_rate, 48000);
    assert!(audio.samples_interleaved.is_empty());

    // Resampling nothing must not fail
    let config = ReadConfig { sample_rate: Some(24000), ..Default::default() };
    let decoded = decode(&file, &config).unwrap();
    let audio = audio_file::reader::read(decoded, &config, Some(Ok(Vec::new()))).unwrap();
    assert_eq!(audio.num_channels, 2);
    assert_eq!(audio.sample_rate, 24000);
    assert!(audio.samples_interleaved.is_empty());

    // An invalid selection must be rejected even without any audio frames
    match read(&file, ReadConfig { num_channels: Some(99), ..Default::default() }) {
        Err(ReadError::InvalidChannelRange { total: 2, .. }) => (),
        other => panic!("{other:?}"),
    }
}

#[test]
fn reader_test_read_file_without_frames() {
    read_file_without_frames();
}

#[test]
fn mod_test_read_file_without_frames() {
    read_file_without_frames();
}

fn decoded(sample_rate: u32, num_channels: usize) -> Decoded<u64> {
    Decoded { samples: vec![1, 2], num_channels, sample_rate }
}

/// Audio is resampled exactly where another rate is asked for.
#[test]
fn the_output_rate_is_the_requested_one() {
    let config = |sample_rate| ReadConfig { sample_rate, ..Default::default() };

    for same in [None, Some(48_000)] {
        assert_eq!(resample_rate(48_000, &config(same)), None);
        let (samples, rate) =
            resolve_output_rate(decoded(48_000, 1), &config(same), None).unwrap();
        assert_eq!(samples, [1, 2]);
        assert_eq!(rate, 48_000);
    }

    assert_eq!(resample_rate(48_000, &config(Some(24_000))), Some(24_000));
    let (samples, rate) =
        resolve_output_rate(decoded(48_000, 1), &config(Some(24_000)), Some(Ok(vec![3]))).unwrap();
    assert_eq!(samples, [3]);
    assert_eq!(rate, 24_000);

    let failure = rubato::ResamplerConstructionError::InvalidSampleRate { input: 48_000, output: 0 };
    let failed = ResampleError::ResamplerConstructionError(failure);
    assert_eq!(failed.message(), "could not create resampler");
    match audio_file::reader::read(decoded(48_000, 1), &config(Some(0)), Some(Err(failed))) {
        Err(error @ ReadError::Resample(_)) => assert_eq!(error.message(), "resample failed"),
        other => panic!("{other:?}"),
    }

    match audio_file::reader::read(decoded(48_000, 70_000), &config(None), None) {
        Err(ReadError::TooManyChannels(70_000)) => (),
        other => panic!("{other:?}"),
    }
}

/// What goes into the resampler and what is kept of its output.
#[test]
fn resampler_output_is_cut_to_what_was_written() {
    assert_eq!(frame_count(7, 2), 3);
    assert_eq!(frame_count(0, 2), 0);

    let mut out = vec![1, 2, 3, 4, 5, 6];
    keep_frames(&mut out, 2, 2);
    assert_eq!(out, [1, 2, 3, 4]);
    keep_frames(&mut out, 9, 2);
    assert_eq!(out, [1, 2, 3, 4]);
    keep_frames(&mut out, usize::MAX, 2);
    assert_eq!(out, [1, 2, 3, 4]);
    keep_frames(&mut out, 0, 2);
    assert!(out.is_empty());
}

/// The whole range of channels, or the part of it that was asked for.
#[test]
fn channel_ranges_are_validated() {
    let config = |start_channel, num_channels| ReadConfig {
        start_channel,
        num_channels,
        ..Default::default()
    };
    assert_eq!(channel_range(&config(None, None), 4).unwrap(), (0, 4));
    assert_eq!(channel_range(&config(Some(1), None), 4).unwrap(), (1, 3));
    assert_eq!(channel_range(&config(Some(1), Some(3)), 4).unwrap(), (1, 3));
    assert_eq!(
        channel_range(&config(Some(2), Some(3)), 4).unwrap_err().message(),
        "channel range out of bounds: 3 channels starting at channel 2 (file has 4 channels)"
    );
    assert_eq!(
        channel_range(&config(Some(4), None), 4).unwrap_err().message(),
        "start channel 4 out of bounds (file has 4 channels)"
    );
    assert_eq!(
        channel_range(&config(None, Some(0)), 4).unwrap_err().message(),
        "channel count must not be zero"
    );
    assert!(matches!(
        channel_range(&config(None, None), 0),
        Err(ReadError::InvalidStartChannel { start: 0, total: 0 })
    ));
}

/// The plan for an opened file, and the reader of its bytes.
#[test]
fn an_opened_file_is_planned() {
    let file = sines(4);
    let wav = open_wav(&file).unwrap();
    let config = ReadConfig {
        start: Position::Frame(10),
        stop: Position::Frame(1_000_000),
        start_channel: Some(1),
        ..Default::default()
    };
    let (plan, reader) = plan_native_wav(wav, &config).unwrap();
    assert_eq!(plan.layout.count, 3);
    assert_eq!(reader.frame, 10);
    assert_eq!(reader.end, 48_000);
    assert_eq!(reader.channel_start, 1);
    assert_eq!(reader.channel_count, 3);

    let backwards = ReadConfig { stop: Position::Frame(1), ..config };
    let error = plan_native_wav(wav, &backwards).unwrap_err();
    assert_eq!(error.message(), "start frame (10) must not exceed end frame (1)");
}

/// Every error in words.
#[test]
fn errors_have_messages() {
    let io = ReadError::Io(std::io::Error::other("disk on fire"));
    assert_eq!(io.message(), "could not read file: disk on fire");
    assert_eq!(io.message_with("gone"), "could not read file: gone");
    for (error, message) in [
        (ReadError::NoTrack, "no track found"),
        (ReadError::NoSampleRate, "no sample rate found"),
        (
            ReadError::TooManyChannels(65_536),
            "channel count (65536) exceeds the supported maximum of 65535",
        ),
        (
            ReadError::ChannelCountChanged { expected: 1, found: 20 },
            "channel count changed mid-stream (was 1, now 20)",
        ),
        (
            ReadError::SampleRateChanged { expected: 48_000, found: 0 },
            "sample rate changed mid-stream (was 48000, now 0)",
        ),
    ] {
        assert_eq!(error.message(), message);
    }
}
