//! The general decoding path.

use std::io::Cursor as IoCursor;

use audio_file::reader::general::{
    append_selected, demux_failed, demux_failed_as, fill_frames, snap_to_grid, Damage, Failure,
    PacketInfo, Session, Step,
};
use audio_file::reader::timing::{
    frames_per_tick, frames_to_ts, seek_landing_is_safe, seek_target, should_seek,
    time_base_has_exact_frames, timestamp_to_frame, TimeBase,
};
use audio_file::reader::track::{
    declared_plan, fallback_tracks, needs_decoder, prepare_track, AudioParams, TrackInfo,
    TrackParams, TrackSelection,
};
use audio_file::reader::{
    try_native_wav, Decoded, Layout, Plan, Position, ReadConfig, ReadError, MAX_PREALLOC_SAMPLES,
};
use audio_file::sample::Sample;
use audio_file::writer::{SampleFormat, WriteConfig};

type CodecParameters = symphonia::core::codecs::CodecParameters;
type AudioDecoderOptions = symphonia::core::codecs::audio::AudioDecoderOptions;
type BoxedDecoder = Box<dyn symphonia::core::codecs::audio::AudioDecoder>;
type SymphoniaError = symphonia::core::errors::Error;
type Format = dyn symphonia::core::formats::FormatReader;
type FormatOptions = symphonia::core::formats::FormatOptions;
type Hint = symphonia::core::formats::probe::Hint;
type MediaSourceStream<'a> = symphonia::core::io::MediaSourceStream<'a>;
type MetadataOptions = symphonia::core::meta::MetadataOptions;
type SeekMode = symphonia::core::formats::SeekMode;
type SeekTo = symphonia::core::formats::SeekTo;
type Timestamp = symphonia::core::units::Timestamp;
type Track = symphonia::core::formats::Track;
type TrackType = symphonia::core::formats::TrackType;
type Selected = (TrackInfo, BoxedDecoder);

/// Writes samples as a wav file.
fn write(samples: &[f32], num_channels: u16, sample_rate: u32, format: SampleFormat) -> Vec<u8> {
    let samples: Vec<Sample> = samples
        .iter()
        .map(|s| Sample { wide: f64::from(*s).to_bits(), narrow: s.to_bits() })
        .collect();
    audio_file::writer::write(
        &samples,
        num_channels,
        sample_rate,
        &WriteConfig { sample_format: format },
    )
    .unwrap()
}

fn open_format(bytes: &[u8]) -> Result<Box<Format>, ReadError> {
    let source = IoCursor::new(bytes.to_vec());
    let stream = MediaSourceStream::new(Box::new(source), Default::default());
    symphonia::default::get_probe()
        .probe(&Hint::new(), stream, FormatOptions::default(), MetadataOptions::default())
        .map_err(ReadError::Decode)
}

fn prepare(track: &Track) -> Result<Option<Selected>, ReadError> {
    let audio = track.codec_params.as_ref().and_then(CodecParameters::audio);
    let params = TrackParams {
        id: track.id,
        audio: audio.map(|params| AudioParams {
            null_codec: params.codec == symphonia::core::codecs::audio::CODEC_ID_NULL_AUDIO,
            sample_rate: params.sample_rate,
            channels: params.channels.as_ref().map(|channels| channels.count()),
        }),
        time_base: track
            .time_base
            .and_then(|tb| TimeBase::try_new(tb.numer.get(), tb.denom.get())),
        num_frames: track.num_frames,
    };
    let decoder = if needs_decoder(&params) {
        audio.map(|params| {
            symphonia::default::get_codecs()
                .make_audio_decoder(params, &AudioDecoderOptions::default())
        })
    } else {
        None
    };
    prepare_track(&params, decoder)
}

fn select_track(format: &Format) -> Result<Selected, ReadError> {
    let mut selection = TrackSelection::new();
    let default = format.default_track(TrackType::Audio);
    if let Some(track) = default {
        if let Some(selected) = selection.offer(prepare(track)) {
            return Ok(selected);
        }
    }
    let tracks = format.tracks();
    let ids: Vec<u32> = tracks.iter().map(|track| track.id).collect();
    for index in fallback_tracks(default.map(|track| track.id), &ids) {
        if let Some(selected) = selection.offer(prepare(&tracks[index])) {
            return Ok(selected);
        }
    }
    Err(selection.finish())
}

/// Decodes a file in memory, and counts the seeks that were made.
fn decode_counting_seeks(
    bytes: &[u8],
    config: &ReadConfig,
) -> Result<(Decoded<f64>, usize), ReadError> {
    let mut format = open_format(bytes)?;
    let (track, mut decoder) = select_track(&*format)?;
    let mut session = Session::new(track, *config, Damage::default(), 0.0);
    let mut seeks = 0;

    loop {
        let packet = match format.next_packet() {
            Ok(Some(packet)) => packet,
            Ok(None) => break,
            Err(error) => {
                demux_failed(error)?;
                let (next, next_decoder) = select_track(&*format)?;
                session.track_changed(next)?;
                decoder = next_decoder;
                continue;
            }
        };
        if !session.wants(packet.track_id) {
            continue;
        }
        let mut step = match decoder.decode(&packet) {
            Err(error) => session.packet_failed(error)?,
            Ok(decoded) => {
                let info = PacketInfo {
                    rate: decoded.spec().rate(),
                    channels: decoded.spec().channels().count(),
                    frames: decoded.frames(),
                    pts: packet.pts.get(),
                    trim_start: packet.trim_start.get(),
                };
                let mut interleaved = vec![0.0; decoded.samples_interleaved()];
                decoded.copy_to_slice_interleaved::<f64, _>(interleaved.as_mut_slice());
                session.packet(&info, &interleaved, format.format_info().short_name)?
            }
        };
        if let Step::Seek { track_id, start_frame, sample_rate, time_base } = step {
            seeks += 1;
            let ts = seek_target(start_frame, time_base, sample_rate);
            let landing = format.seek(
                SeekMode::Accurate,
                SeekTo::Timestamp { ts: Timestamp::new(ts), track_id },
            );
            step = session.seek_finished(landing.ok().map(|landing| landing.actual_ts.get()));
        }
        match step {
            Step::ResetDecoder => decoder.reset(),
            Step::Reopen => {
                format = open_format(bytes)?;
                let (track, next_decoder) = select_track(&*format)?;
                decoder = next_decoder;
                session.reopened(track);
            }
            Step::Done => break,
            _ => (),
        }
    }
    Ok((session.finish()?, seeks))
}

fn decode_with_symphonia(bytes: &[u8], config: &ReadConfig) -> Result<Decoded<f64>, ReadError> {
    decode_counting_seeks(bytes, config).map(|(decoded, _)| decoded)
}

fn seek_is_only_worth_it_for_exact_seekable_containers() {
    let ms = TimeBase::try_new(1, 1_000).unwrap();

    // Below one second, decoding from the beginning is simpler
    assert!(!should_seek(48_000, 48_000, ms, "ogg"));
    assert!(should_seek(48_001, 48_000, ms, "ogg"));
    // 44.1 kHz has no whole number of frames per millisecond tick
    assert!(!should_seek(100_000, 44_100, ms, "ogg"));
    // Matroska lands on cue points, so the attempt is skipped for it
    assert!(!should_seek(100_000, 48_000, ms, "matroska"));
    assert!(should_seek(100_000, 48_000, ms, "wav"));
}

#[test]
fn reader_test_seek_is_only_worth_it_for_exact_seekable_containers() {
    seek_is_only_worth_it_for_exact_seekable_containers();
}

#[test]
fn general_test_seek_is_only_worth_it_for_exact_seekable_containers() {
    seek_is_only_worth_it_for_exact_seekable_containers();
}

fn only_the_selected_channels_of_the_selected_frames_are_appended() {
    // Three frames of four channels, one digit per channel
    let interleaved: Vec<f32> = (0..12).map(|s| s as f32).collect();
    let layout = |start, count| Layout { total: 4, start, count };

    let mut all = Vec::new();
    append_selected::<f32>(&mut all, &interleaved, layout(0, 4), 0, 3);
    assert_eq!(all, (0..12).map(|s| s as f32).collect::<Vec<_>>());

    // Appending keeps what is already in the output
    append_selected::<f32>(&mut all, &interleaved, layout(1, 2), 1, 3);
    assert_eq!(all[12..], [5.0, 6.0, 9.0, 10.0]);

    // The last channels of the last frame
    let mut tail = Vec::new();
    append_selected::<f32>(&mut tail, &interleaved, layout(2, 2), 2, 3);
    assert_eq!(tail, [10.0, 11.0]);

    // An empty frame range appends nothing
    let mut none = Vec::new();
    append_selected::<f32>(&mut none, &interleaved, layout(0, 4), 1, 1);
    assert!(none.is_empty());
}

#[test]
fn reader_test_only_the_selected_channels_of_the_selected_frames_are_appended() {
    only_the_selected_channels_of_the_selected_frames_are_appended();
}

#[test]
fn general_test_only_the_selected_channels_of_the_selected_frames_are_appended() {
    only_the_selected_channels_of_the_selected_frames_are_appended();
}

#[test]
fn test_frames_per_tick_bounds_the_timestamp_error() {
    let tb = |numer, denom| TimeBase::try_new(numer, denom).unwrap();

    // A millisecond tick spans 44.1 frames at 44.1 kHz, so a timestamp can be
    // up to 45 frames away from the frame it refers to
    assert_eq!(frames_per_tick(tb(1, 1000), 44_100), 45);
    // The same tick is exact at 48 kHz
    assert_eq!(frames_per_tick(tb(1, 1000), 48_000), 48);
    // A time base of one tick per frame cannot be off at all
    assert_eq!(frames_per_tick(tb(1, 44_100), 44_100), 1);
}

#[test]
fn test_snap_to_grid_recovers_a_quantized_position() {
    // One FLAC block after the anchor, as a millisecond timestamp at 44.1 kHz
    // reports it: 22 frames early
    assert_eq!(snap_to_grid(4586, 0, 4608, 45), 4608);
    // Several blocks after a non-zero anchor, quantized late
    assert_eq!(snap_to_grid(10_000 + 3 * 4608 + 30, 10_000, 4608, 45), 23_824);
    // An exact position is already on the grid and stays put
    assert_eq!(snap_to_grid(9216, 0, 4608, 1), 9216);

    // At least one packet was lost, so the anchor itself is never the answer
    assert_eq!(snap_to_grid(20, 0, 4608, 4608), 4608);

    // An estimate too far off any grid point is left alone: something other
    // than timestamp quantization moved it, and rounding would introduce an
    // error of up to half a block instead of removing one of a few frames
    assert_eq!(snap_to_grid(7000, 0, 4608, 45), 7000);
    // The same estimate against a spacing it does fit
    assert_eq!(snap_to_grid(7000, 0, 3500, 45), 7000);

    // An estimate before the anchor is not on the grid ahead of it
    assert_eq!(snap_to_grid(500, 1000, 4608, 45), 500);
}

/// No grid point is nearer than the one a position is rounded to, and a tie goes to the
/// later one.
#[test]
fn snapping_takes_the_nearest_grid_point() {
    let anchor = 1_000u64;
    for block in [1u64, 2, 7, 64] {
        for estimate in anchor..anchor + 500 {
            let point = snap_to_grid(estimate, anchor, block, u64::MAX);
            let nearest = (1..=600)
                .map(|blocks| anchor + blocks * block)
                .min_by_key(|&at| (at.abs_diff(estimate), u64::MAX - at))
                .unwrap();
            assert_eq!(point, nearest, "{estimate} {block}");
        }
    }
}

/// The ends of the number range neither wrap nor divide by zero.
#[test]
fn snapping_saturates() {
    assert_eq!(snap_to_grid(5, 5, 0, 0), 5);
    assert_eq!(snap_to_grid(u64::MAX, 0, u64::MAX, 0), u64::MAX);
    assert_eq!(snap_to_grid(u64::MAX, u64::MAX - 1, 10, 9), u64::MAX);
    assert_eq!(snap_to_grid(u64::MAX - 1, 1, u64::MAX - 1, 1), u64::MAX);
}

fn expected_frames_is_bounded_by_the_file_length() {
    let bounded = Plan::resolve(
        48_000,
        2,
        &ReadConfig {
            start: Position::Frame(100),
            stop: Position::Frame(600),
            ..Default::default()
        },
    )
    .unwrap();
    assert_eq!(bounded.expected_frames(None), Some(500));
    // A file that ends before the stop position bounds the read
    assert_eq!(bounded.expected_frames(Some(300)), Some(200));
    assert_eq!(bounded.expected_frames(Some(50)), Some(0));

    let unbounded = Plan::resolve(48_000, 2, &ReadConfig::default()).unwrap();
    assert_eq!(unbounded.expected_frames(None), None);
    assert_eq!(unbounded.expected_frames(Some(300)), Some(300));
}

#[test]
fn reader_test_expected_frames_is_bounded_by_the_file_length() {
    expected_frames_is_bounded_by_the_file_length();
}

#[test]
fn general_test_expected_frames_is_bounded_by_the_file_length() {
    expected_frames_is_bounded_by_the_file_length();
}

/// What is reserved up front follows the expected length, up to a fixed budget.
#[test]
fn preallocation_is_bounded() {
    let plan = Plan::resolve(48_000, 2, &ReadConfig::default()).unwrap();
    assert_eq!(plan.prealloc_samples(None), 0);
    assert_eq!(plan.prealloc_samples(Some(300)), 600);
    assert_eq!(plan.prealloc_samples(Some(u64::MAX)), MAX_PREALLOC_SAMPLES);
}

fn declared_plan_is_used_when_nothing_was_decoded() {
    let track = |channels| TrackInfo {
        id: 0,
        sample_rate: 48_000,
        channels,
        time_base: None,
        num_frames: None,
    };

    let plan = declared_plan(&track(Some(2)), &ReadConfig::default()).unwrap();
    assert_eq!(plan.sample_rate, 48_000);
    assert_eq!(plan.layout.count, 2);

    // An invalid selection is rejected without decoded audio too
    let too_many = ReadConfig { num_channels: Some(3), ..Default::default() };
    assert!(matches!(
        declared_plan(&track(Some(2)), &too_many),
        Err(ReadError::InvalidChannelRange { total: 2, .. })
    ));

    // Neither decoded nor declared, so the channel count is unknown
    assert!(matches!(
        declared_plan(&track(None), &ReadConfig::default()),
        Err(ReadError::NoChannels)
    ));
}

#[test]
fn reader_test_declared_plan_is_used_when_nothing_was_decoded() {
    declared_plan_is_used_when_nothing_was_decoded();
}

#[test]
fn general_test_declared_plan_is_used_when_nothing_was_decoded() {
    declared_plan_is_used_when_nothing_was_decoded();
}

#[test]
fn test_gap_fill_is_bounded() {
    // A hole inside a known length is filled completely
    assert_eq!(fill_frames(100, 900, 2, Some(2_000)), 100);
    // ... but never beyond the frames the read can still produce
    assert_eq!(fill_frames(100, 1_950, 2, Some(2_000)), 50);
    assert_eq!(fill_frames(100, 2_000, 2, Some(2_000)), 0);
    // Without a known length, a bogus timestamp is capped by the same budget
    // as the preallocation
    assert_eq!(fill_frames(100, 0, 2, None), 100);
    assert_eq!(fill_frames(u64::MAX, 0, 2, None), MAX_PREALLOC_SAMPLES / 2);
}

fn exact_frame_time_bases() {
    assert!(time_base_has_exact_frames(TimeBase::try_new(1, 1_000).unwrap(), 48_000));
    assert!(time_base_has_exact_frames(TimeBase::try_new(1, 48_000).unwrap(), 48_000));
    assert!(!time_base_has_exact_frames(TimeBase::try_new(1, 1_000).unwrap(), 44_100));
    assert!(!time_base_has_exact_frames(TimeBase::try_new(1, 96_000).unwrap(), 48_000));
}

#[test]
fn reader_test_exact_frame_time_bases() {
    exact_frame_time_bases();
}

#[test]
fn general_test_exact_frame_time_bases() {
    exact_frame_time_bases();
}

fn seek_landing_must_not_overshoot_start() {
    let tb = TimeBase::try_new(1, 1_000).unwrap();
    assert!(seek_landing_is_safe(1_250, 60_000, tb, 48_000));
    assert!(!seek_landing_is_safe(1_251, 60_000, tb, 48_000));
}

#[test]
fn reader_test_seek_landing_must_not_overshoot_start() {
    seek_landing_must_not_overshoot_start();
}

#[test]
fn general_test_seek_landing_must_not_overshoot_start() {
    seek_landing_must_not_overshoot_start();
}

/// Negative timestamps and trims, as used for encoder delay, and the ends of the
/// number range.
#[test]
fn timestamps_become_frames() {
    let tb = TimeBase::try_new(1, 48_000).unwrap();
    assert_eq!(timestamp_to_frame(0, 0, tb, 48_000), 0);
    assert_eq!(timestamp_to_frame(-1_105, 1_105, tb, 48_000), 0);
    assert_eq!(timestamp_to_frame(-1_105, 1_200, tb, 48_000), 95);
    assert_eq!(timestamp_to_frame(-1_105, 0, tb, 48_000), 0);
    assert_eq!(timestamp_to_frame(100, u64::MAX, tb, 48_000), u64::MAX);
    // A fraction of a frame is cut off towards zero on either side.
    let ms = TimeBase::try_new(1, 1_000).unwrap();
    assert_eq!(timestamp_to_frame(1, 0, ms, 44_100), 44);
    assert_eq!(timestamp_to_frame(-1, 50, ms, 44_100), 6);

    assert!(TimeBase::try_new(0, 1).is_none());
    assert!(TimeBase::try_new(1, 0).is_none());
}

/// One second before the requested start, in ticks.
#[test]
fn seek_targets_are_one_second_early() {
    let ms = TimeBase::try_new(1, 1_000).unwrap();
    assert_eq!(frames_to_ts(4_800, ms, 48_000), 100);
    assert_eq!(seek_target(96_000, ms, 48_000), 1_000);
    assert_eq!(seek_target(10, ms, 48_000), 0);
    // A timestamp is never ahead of the frame it was made from.
    assert_eq!(frames_to_ts(44, ms, 44_100), 0);
    assert_eq!(frames_to_ts(45, ms, 44_100), 1);
    assert_eq!(timestamp_to_frame(1, 0, ms, 44_100), 44);
}

/// The wav fast path and the general path must agree exactly, not approximately: both
/// normalize an integer sample by dividing by `2^(bits-1)`, so every value either
/// matches bit for bit or one of the two is reading the file wrongly.
#[test]
fn test_native_wav_matches_symphonia_exactly() {
    let formats = [
        SampleFormat::Int8,
        SampleFormat::Int16,
        SampleFormat::Int32,
        SampleFormat::Float32,
    ];

    // Values that land on the awkward parts of every scale: full scale
    // both ways, silence, and a spread in between.
    let source: Vec<f32> = (0..600)
        .map(|i| ((i as f32 / 300.0) - 1.0).clamp(-1.0, 1.0))
        .collect();

    for format in formats {
        // Stays at or below 18 channels, since above that the extensible layout is
        // refused by the outside decoder and there is nothing to compare against.
        for num_channels in [1u16, 2, 3, 6, 18] {
            let frames = source.len() / usize::from(num_channels);
            let samples = &source[..frames * usize::from(num_channels)];
            let bytes = write(samples, num_channels, 48_000, format);

            for config in [
                ReadConfig::default(),
                ReadConfig {
                    start: Position::Frame(7),
                    stop: Position::Frame(23),
                    ..Default::default()
                },
                ReadConfig {
                    start_channel: Some(usize::from(num_channels) - 1),
                    ..Default::default()
                },
                ReadConfig {
                    start: Position::Frame(3),
                    num_channels: Some(1),
                    ..Default::default()
                },
            ] {
                let native = try_native_wav(&bytes, &config)
                    .unwrap()
                    .expect("a PCM wav file must take the fast path");
                let symphonia = decode_with_symphonia(&bytes, &config).unwrap();

                let label = format!("{format:?} {num_channels}ch");
                assert_eq!(native.sample_rate, symphonia.sample_rate, "{label}");
                assert_eq!(native.num_channels, symphonia.num_channels, "{label}");
                assert_eq!(
                    native.samples.iter().map(|&s| f64::from_bits(s)).collect::<Vec<_>>(),
                    symphonia.samples,
                    "{label}: sample values must be bit-identical"
                );
            }
        }
    }
}

/// A `WAVEFORMATEXTENSIBLE` file whose `wValidBitsPerSample` is below its
/// `wBitsPerSample` is read according to the container width, because the
/// valid bits are left-justified inside it.
#[test]
fn test_extensible_valid_bits_below_container_matches_symphonia() {
    let samples: Vec<f32> = (0..64).map(|i| (i as f32 / 32.0) - 1.0).collect();
    let mut bytes = write(&samples, 4, 48_000, SampleFormat::Int32);

    // Patch wValidBitsPerSample from 32 down to 24, leaving
    // wBitsPerSample at 32. The sample bytes are untouched, so the
    // correct reading is unchanged.
    let fmt_body = 12 + 8;
    let valid_bits_offset = fmt_body + 18;
    assert_eq!(
        u16::from_le_bytes(bytes[valid_bits_offset..valid_bits_offset + 2].try_into().unwrap()),
        32,
        "the encoder should have written a full-width wValidBitsPerSample"
    );
    bytes[valid_bits_offset..valid_bits_offset + 2].copy_from_slice(&24u16.to_le_bytes());

    let native = try_native_wav(&bytes, &ReadConfig::default())
        .unwrap()
        .expect("still a PCM wav file");
    let native: Vec<f64> = native.samples.iter().map(|&s| f64::from_bits(s)).collect();
    let symphonia = decode_with_symphonia(&bytes, &ReadConfig::default()).unwrap();

    assert_eq!(native, symphonia.samples);
    // And the values are still the ones that were written, rather than
    // the low 24 bits of them.
    for (read, written) in native.iter().zip(&samples) {
        assert!((*read as f32 - written).abs() <= 1e-6);
    }
}

/// The seek path is only taken for start offsets of more than one second, and a
/// seeked read returns the same frames as one that decodes from the beginning.
#[test]
fn seeked_ranges_match_the_full_decode() {
    let num_frames = 48_000 * 3;
    let samples: Vec<f32> = (0..num_frames)
        .flat_map(|frame| {
            let value = frame as f32 / num_frames as f32;
            [value, -value]
        })
        .collect();
    let bytes = write(&samples, 2, 48_000, SampleFormat::Float32);
    let full = decode_with_symphonia(&bytes, &ReadConfig::default()).unwrap();
    assert_eq!(full.samples.len(), samples.len());

    for (start, stop, seeks) in [
        (0usize, 100usize, 0usize),
        (47_000, 47_100, 0),
        (48_001, 48_101, 1),
        (60_000, 60_100, 1),
        (143_900, 144_000, 1),
    ] {
        let config = ReadConfig {
            start: Position::Frame(start),
            stop: Position::Frame(stop),
            ..Default::default()
        };
        let (selected, made) = decode_counting_seeks(&bytes, &config).unwrap();
        assert_eq!(made, seeks, "start {start}");
        assert_eq!(selected.num_channels, 2);
        assert_eq!(selected.samples, full.samples[start * 2..stop * 2], "start {start}");
    }

    // An unreachable start makes the seek fail, and the read yields nothing.
    let config = ReadConfig { start: Position::Frame(1_000_000), ..Default::default() };
    let beyond = decode_with_symphonia(&bytes, &config).unwrap();
    assert!(beyond.samples.is_empty());
}

/// What is not audio at all is an error that carries the words of the demuxer.
#[test]
fn an_unknown_format_is_a_decode_error() {
    let error = decode_with_symphonia(b"no audio in here", &ReadConfig::default()).unwrap_err();
    assert!(matches!(error, ReadError::Decode(_)), "{error:?}");
    let message = error.message();
    assert!(message.starts_with("could not decode audio: "), "{message}");
    assert!(message.len() > "could not decode audio: ".len());
}

fn track(time_base: Option<TimeBase>) -> TrackInfo {
    TrackInfo { id: 7, sample_rate: 48_000, channels: Some(1), time_base, num_frames: None }
}

fn packet(frames: usize, pts: i64) -> PacketInfo {
    PacketInfo { rate: 48_000, channels: 1, frames, pts, trim_start: 0 }
}

fn frames(from: i32, to: i32) -> Vec<i32> {
    (from..to).collect()
}

fn ms() -> Option<TimeBase> {
    TimeBase::try_new(1, 1_000)
}

/// Packets are cut down to the requested range, and the read is done when it is
/// reached.
#[test]
fn packets_are_cut_to_the_requested_range() {
    let config = ReadConfig {
        start: Position::Frame(5),
        stop: Position::Frame(12),
        ..Default::default()
    };
    let mut session = Session::new(track(ms()), config, Damage::Reject, 0);
    assert!(session.wants(7));
    assert!(!session.wants(8));

    // A warm-up packet without frames resolves the plan and changes nothing else.
    assert_eq!(session.packet(&packet(0, 0), &[], "ogg").unwrap(), Step::Continue);
    assert_eq!(session.packet(&packet(4, 0), &frames(0, 4), "ogg").unwrap(), Step::Continue);
    assert_eq!(session.packet(&packet(4, 0), &frames(4, 8), "ogg").unwrap(), Step::Continue);
    assert_eq!(session.packet(&packet(8, 0), &frames(8, 16), "ogg").unwrap(), Step::Done);

    let decoded = session.finish().unwrap();
    assert_eq!(decoded.samples, frames(5, 12));
    assert_eq!(decoded.num_channels, 1);
    assert_eq!(decoded.sample_rate, 48_000);
}

/// A range read is the slice of a full read, wherever the packets are cut.
#[test]
fn a_range_read_is_a_slice_of_the_full_read() {
    for size in [1usize, 3, 7, 100] {
        for (start, stop) in [(0usize, 1usize), (3, 9), (10, 60), (55, 90), (70, 80)] {
            let config = ReadConfig {
                start: Position::Frame(start),
                stop: Position::Frame(stop),
                ..Default::default()
            };
            let mut session = Session::new(track(None), config, Damage::Reject, 0);
            let all = frames(0, 60);
            for chunk in all.chunks(size) {
                let step = session.packet(&packet(chunk.len(), 0), chunk, "ogg").unwrap();
                if step == Step::Done {
                    break;
                }
            }
            let wanted = &all[start.min(60)..stop.min(60)];
            assert_eq!(session.finish().unwrap().samples, wanted, "{size} {start}..{stop}");
        }
    }
}

/// A packet the decoder rejects fails the whole read, unless damage is concealed.
#[test]
fn a_rejected_packet_fails_the_read() {
    let config = ReadConfig::default();
    let mut session = Session::new(track(ms()), config, Damage::Reject, 0);
    session.packet(&packet(4, 0), &frames(0, 4), "ogg").unwrap();
    for error in [SymphoniaError::DecodeError("damaged"), SymphoniaError::Unsupported("odd")] {
        let error = session.packet_failed(error).unwrap_err();
        assert!(matches!(error, ReadError::Decode(_)), "{error:?}");
    }
    let error = session
        .packet_failed_as(Failure::Malformed, SymphoniaError::DecodeError("damaged"))
        .unwrap_err();
    assert_eq!(error.message(), "could not decode audio: malformed stream: damaged");

    // Concealing takes a time base to find the place of the next packet.
    let mut session = Session::new(track(None), config, Damage::Conceal, 0);
    assert!(session.packet_failed(SymphoniaError::DecodeError("damaged")).is_err());
    let mut session = Session::new(track(ms()), config, Damage::Conceal, 0);
    assert!(session.packet_failed(SymphoniaError::Unsupported("odd")).is_err());
    assert_eq!(
        session.packet_failed(SymphoniaError::DecodeError("damaged")).unwrap(),
        Step::Continue
    );
}

/// A decoder reset is a discontinuity: the next packet is positioned by its
/// timestamp, and a gap before it is an error that names the missing frames.
#[test]
fn a_gap_is_reported() {
    let mut session = Session::new(track(ms()), ReadConfig::default(), Damage::Reject, 0);
    session.packet(&packet(48, 0), &frames(0, 48), "ogg").unwrap();
    assert_eq!(session.packet_failed(SymphoniaError::ResetRequired).unwrap(), Step::ResetDecoder);
    // An empty buffer cannot be positioned.
    assert_eq!(session.packet(&packet(0, 5), &[], "ogg").unwrap(), Step::Continue);
    match session.packet(&packet(4, 2), &frames(96, 100), "ogg") {
        Err(error @ ReadError::MissingFrames { start: 48, end: 96 }) => assert_eq!(
            error.message(),
            "frames 48..96 are missing, the file is damaged or incomplete"
        ),
        other => panic!("{other:?}"),
    }

    // Frames that were delivered already are not delivered twice.
    let mut session = Session::new(track(ms()), ReadConfig::default(), Damage::Reject, 0);
    session.packet(&packet(50, 0), &frames(0, 50), "ogg").unwrap();
    session.packet_failed(SymphoniaError::ResetRequired).unwrap();
    session.packet(&packet(10, 1), &frames(48, 58), "ogg").unwrap();
    assert_eq!(session.finish().unwrap().samples, frames(0, 58));
}

/// Where damage is concealed, silence takes the place of a dropped packet, and every
/// later frame stays at its own position. At 48 kHz the timestamp says where that is;
/// at 44.1 kHz it takes the grid of the packets.
#[test]
fn a_dropped_packet_leaves_one_silent_hole() {
    for (rate, pts) in [(48_000u32, 2i64), (44_100, 2)] {
        let info = |pts| PacketInfo { rate, channels: 1, frames: 48, pts, trim_start: 0 };
        let mut session = Session::new(track(ms()), ReadConfig::default(), Damage::Conceal, 0);
        session.packet(&info(0), &frames(1, 49), "matroska").unwrap();
        assert_eq!(
            session.packet_failed(SymphoniaError::DecodeError("damaged")).unwrap(),
            Step::Continue
        );
        session.packet(&info(pts), &frames(97, 145), "matroska").unwrap();
        session.packet(&info(0), &frames(145, 193), "matroska").unwrap();

        let mut expected = frames(1, 49);
        expected.extend(vec![0; 48]);
        expected.extend(frames(97, 193));
        assert_eq!(session.finish().unwrap().samples, expected, "{rate}");
    }
}

/// A chained stream may replace the decoder and the decoded layout. A real channel-count
/// change cannot be represented in one interleaved output.
fn mid_stream_channel_count_change_is_rejected() {
    let mut session = Session::new(track(ms()), ReadConfig::default(), Damage::Reject, 0);
    session.packet(&packet(4, 0), &frames(0, 4), "ogg").unwrap();
    session.track_changed(TrackInfo { id: 8, channels: Some(2), ..track(ms()) }).unwrap();
    let stereo = PacketInfo { channels: 2, ..packet(1, 0) };
    let error = session
        .packet(&stereo, &[1, 2], "ogg")
        .expect_err("the chained stream changes from mono to stereo");
    assert!(
        matches!(error, ReadError::ChannelCountChanged { expected: 1, found: 2 }),
        "{error:?}"
    );
}

#[test]
fn reader_test_mid_stream_channel_count_change_is_rejected() {
    mid_stream_channel_count_change_is_rejected();
}

#[test]
fn general_test_mid_stream_channel_count_change_is_rejected() {
    mid_stream_channel_count_change_is_rejected();
}

/// A chained stream may also change its sample rate, which cannot be represented in one
/// buffer either and would play back at the wrong speed.
fn mid_stream_sample_rate_change_is_rejected() {
    let mut session = Session::new(track(ms()), ReadConfig::default(), Damage::Reject, 0);
    session.packet(&packet(4, 0), &frames(0, 4), "ogg").unwrap();
    let error = session
        .track_changed(TrackInfo { id: 8, sample_rate: 44_100, ..track(ms()) })
        .expect_err("the chained stream changes from 48 kHz to 44.1 kHz");
    assert!(
        matches!(error, ReadError::SampleRateChanged { expected: 48_000, found: 44_100 }),
        "{error:?}"
    );
    // The container may not say so.
    let slower = PacketInfo { rate: 44_100, ..packet(1, 0) };
    let error = session
        .packet(&slower, &[1], "ogg")
        .expect_err("the chained stream changes from 48 kHz to 44.1 kHz");
    assert!(
        matches!(error, ReadError::SampleRateChanged { expected: 48_000, found: 44_100 }),
        "{error:?}"
    );
}

#[test]
fn reader_test_mid_stream_sample_rate_change_is_rejected() {
    mid_stream_sample_rate_change_is_rejected();
}

#[test]
fn general_test_mid_stream_sample_rate_change_is_rejected() {
    mid_stream_sample_rate_change_is_rejected();
}

/// A reset of the decoder and a change of the track leave a read frame-exact, where the
/// timestamp after the reset is right.
#[test]
fn resets_and_track_changes_shift_nothing() {
    let config = ReadConfig {
        start: Position::Frame(40),
        stop: Position::Frame(150),
        ..Default::default()
    };
    let mut session = Session::new(track(ms()), config, Damage::Reject, 0);
    assert_eq!(session.packet(&packet(48, 0), &frames(0, 48), "ogg").unwrap(), Step::Continue);
    // Two milliseconds, which is frame 96, and the timestamps before it do not count.
    assert_eq!(session.packet(&packet(48, 9), &frames(48, 96), "ogg").unwrap(), Step::Continue);
    let reset = || SymphoniaError::ResetRequired;
    assert_eq!(session.packet_failed(reset()).unwrap(), Step::ResetDecoder);
    assert_eq!(session.packet(&packet(24, 2), &frames(96, 120), "ogg").unwrap(), Step::Continue);
    // The next track counts from its own beginning, which is frame 120.
    session.track_changed(TrackInfo { id: 9, ..track(ms()) }).unwrap();
    assert_eq!(session.packet_failed(reset()).unwrap(), Step::ResetDecoder);
    assert_eq!(session.packet(&packet(48, 0), &frames(120, 168), "ogg").unwrap(), Step::Done);
    assert_eq!(session.finish().unwrap().samples, frames(40, 150));
}

/// The specification has to stay the same throughout the stream.
#[test]
fn a_changed_specification_is_rejected() {
    let mut session = Session::new(track(ms()), ReadConfig::default(), Damage::Reject, 0);
    session.packet(&packet(1, 0), &[1], "ogg").unwrap();

    let stereo = PacketInfo { channels: 2, ..packet(1, 0) };
    match session.packet(&stereo, &[1, 2], "ogg") {
        Err(ReadError::ChannelCountChanged { expected: 1, found: 2 }) => (),
        other => panic!("{other:?}"),
    }
    let slower = PacketInfo { rate: 44_100, ..packet(1, 0) };
    match session.packet(&slower, &[1], "ogg") {
        Err(ReadError::SampleRateChanged { expected: 48_000, found: 44_100 }) => (),
        other => panic!("{other:?}"),
    }
    let next = TrackInfo { sample_rate: 44_100, ..track(ms()) };
    match session.track_changed(next) {
        Err(ReadError::SampleRateChanged { expected: 48_000, found: 44_100 }) => (),
        other => panic!("{other:?}"),
    }
}

/// A chained stream goes on where the one before it ended, and its timestamps are
/// counted from there.
#[test]
fn chained_streams_are_continued() {
    let mut session = Session::new(track(ms()), ReadConfig::default(), Damage::Reject, 0);
    session.packet(&packet(48, 0), &frames(0, 48), "ogg").unwrap();
    let next = TrackInfo { id: 9, ..track(ms()) };
    session.track_changed(next).unwrap();
    assert!(session.wants(9));
    session.packet(&packet(48, 0), &frames(48, 96), "ogg").unwrap();
    session.packet_failed(SymphoniaError::ResetRequired).unwrap();
    // One millisecond into the second stream.
    session.packet(&packet(48, 1), &frames(96, 144), "ogg").unwrap();
    assert_eq!(session.finish().unwrap().samples, frames(0, 144));
}

/// A landing that turns out to be late is given up, and the file decoded from the
/// beginning.
#[test]
fn a_late_landing_is_given_up() {
    let config = ReadConfig { start: Position::Frame(96_000), ..Default::default() };
    let mut session = Session::new(track(ms()), config, Damage::Reject, 0);
    let step = session.packet(&packet(4, 0), &frames(0, 4), "ogg").unwrap();
    assert_eq!(
        step,
        Step::Seek {
            track_id: 7,
            start_frame: 96_000,
            sample_rate: 48_000,
            time_base: TimeBase { numer: 1, denom: 1_000 },
        }
    );
    // The format reader reports a landing in time, but the packet comes late.
    assert_eq!(session.seek_finished(Some(1_000)), Step::ResetDecoder);
    let step = session.packet(&packet(4, 3_000), &frames(0, 4), "ogg").unwrap();
    assert_eq!(step, Step::Reopen);
    session.reopened(track(ms()));
    assert_eq!(session.packet(&packet(4, 0), &frames(0, 4), "ogg").unwrap(), Step::Continue);
    assert!(session.finish().unwrap().samples.is_empty());

    // A landing after the start, or none at all, is given up right away.
    for landing in [Some(2_001), None] {
        let mut session = Session::new(track(ms()), config, Damage::Reject, 0);
        session.packet(&packet(4, 0), &frames(0, 4), "ogg").unwrap();
        assert_eq!(session.seek_finished(landing), Step::Reopen);
    }
}

/// A seeked read that lands before its start delivers the requested frames and nothing
/// else, however the packets after the landing are cut.
#[test]
fn a_seeked_read_is_a_slice_of_the_full_read() {
    // One packet at 1.5 seconds, which is frame 72000, starts the stream after the seek.
    let base = 72_000;
    let all = frames(0, 100_000);
    for size in [1_000usize, 7_777, 30_000] {
        for (start, stop) in [(96_000usize, 96_001usize), (72_001, 90_000), (80_000, 200_000)] {
            let config = ReadConfig {
                start: Position::Frame(start),
                stop: Position::Frame(stop),
                ..Default::default()
            };
            let mut session = Session::new(track(ms()), config, Damage::Reject, 0);
            session.packet(&packet(4, 0), &frames(0, 4), "ogg").unwrap();
            assert_eq!(session.seek_finished(Some(1_500)), Step::ResetDecoder);

            // A warm-up packet has no frames, and its timestamp means nothing.
            let warm_up = session.packet(&packet(0, 9_000), &[], "ogg").unwrap();
            assert_eq!(warm_up, Step::Continue);
            let mut pts = 1_500;
            for chunk in all[base..].chunks(size) {
                let step = session.packet(&packet(chunk.len(), pts), chunk, "ogg").unwrap();
                if step == Step::Done {
                    break;
                }
                assert_eq!(step, Step::Continue);
                // Later timestamps are not looked at.
                pts = 0;
            }
            let wanted = &all[start..stop.min(100_000)];
            assert_eq!(session.finish().unwrap().samples, wanted, "{size} {start}..{stop}");
        }
    }
}

/// A stream without any packet is described by what the container declares.
#[test]
fn a_stream_without_packets_is_described_by_its_container() {
    let session = Session::new(track(None), ReadConfig::default(), Damage::Reject, 0);
    let decoded = session.finish().unwrap();
    assert!(decoded.samples.is_empty());
    assert_eq!(decoded.num_channels, 1);
    assert_eq!(decoded.sample_rate, 48_000);

    let unknown = TrackInfo { channels: None, ..track(None) };
    let session = Session::new(unknown, ReadConfig::default(), Damage::Reject, 0);
    let error = session.finish().unwrap_err();
    assert!(matches!(error, ReadError::NoChannels));
    assert_eq!(error.message(), "could not determine the number of channels");
}

/// A demuxer that asks for a reset has a new track list, anything else is the end.
#[test]
fn demuxer_errors_are_told_apart() {
    assert!(demux_failed(SymphoniaError::ResetRequired).is_ok());
    assert!(matches!(
        demux_failed(SymphoniaError::DecodeError("damaged")),
        Err(ReadError::Decode(SymphoniaError::DecodeError("damaged")))
    ));
    assert!(demux_failed_as(Failure::Reset, SymphoniaError::ResetRequired).is_ok());
    assert!(demux_failed_as(Failure::Other, SymphoniaError::Unsupported("odd")).is_err());
}

/// The default track comes first, then all others in order; the first usable one is
/// selected, and the first error is reported if there is none.
#[test]
fn tracks_are_tried_in_order() {
    assert_eq!(fallback_tracks(Some(5), &[4, 5, 6]), [0, 2]);
    assert_eq!(fallback_tracks(None, &[4, 5, 6]), [0, 1, 2]);
    assert_eq!(fallback_tracks(Some(1), &[]), [0usize; 0]);

    let mut selection = TrackSelection::new();
    assert_eq!(selection.offer::<u8>(Ok(None)), None);
    assert_eq!(selection.offer::<u8>(Err(ReadError::NoSampleRate)), None);
    assert_eq!(selection.offer::<u8>(Err(ReadError::NoChannels)), None);
    assert_eq!(selection.offer::<u8>(Ok(Some(3))), Some(3));
    assert!(matches!(selection.finish(), ReadError::NoSampleRate));

    assert!(matches!(TrackSelection::new().finish(), ReadError::NoTrack));
}

/// Only an audio track with a codec, a decoder and a sample rate is usable.
#[test]
fn usable_tracks_are_told_apart() {
    let audio = AudioParams { null_codec: false, sample_rate: Some(48_000), channels: Some(2) };
    let params = |audio| TrackParams { id: 3, audio, time_base: None, num_frames: Some(9) };

    assert!(!needs_decoder(&params(None)));
    assert!(matches!(prepare_track::<u8>(&params(None), None), Ok(None)));

    let null = params(Some(AudioParams { null_codec: true, ..audio }));
    assert!(!needs_decoder(&null));
    assert!(matches!(prepare_track::<u8>(&null, None), Ok(None)));

    let usable = params(Some(audio));
    assert!(needs_decoder(&usable));
    assert!(matches!(
        prepare_track::<u8>(&usable, Some(Err(SymphoniaError::Unsupported("codec")))),
        Err(ReadError::Decode(_))
    ));
    let (info, decoder) = prepare_track(&usable, Some(Ok(1u8))).unwrap().unwrap();
    assert_eq!(decoder, 1);
    assert_eq!(
        info,
        TrackInfo {
            id: 3,
            sample_rate: 48_000,
            channels: Some(2),
            time_base: None,
            num_frames: Some(9),
        }
    );

    let rateless = params(Some(AudioParams { sample_rate: None, ..audio }));
    assert!(matches!(
        prepare_track(&rateless, Some(Ok(1u8))),
        Err(ReadError::NoSampleRate)
    ));
}
