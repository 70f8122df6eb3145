//! The wav decoder.

use audio_file::sample::Sample;
use audio_file::wav::decode::{
    open_wav, read_frames, sign_extend_24, FrameReader, HeaderParser, OpenWav, Request,
};
use audio_file::wav::encode::Layout;
use audio_file::wav::{SUBFORMAT_IEEE_FLOAT, SUBFORMAT_PCM};
use audio_file::writer::SampleFormat;

/// A float that can be written and read.
trait Real: Copy {
    fn to_sample(self) -> Sample;
    fn from_bits_of_double(bits: u64) -> Self;
}

impl Real for f32 {
    fn to_sample(self) -> Sample {
        Sample { wide: f64::from(self).to_bits(), narrow: self.to_bits() }
    }

    fn from_bits_of_double(bits: u64) -> Self {
        f64::from_bits(bits) as f32
    }
}

impl Real for f64 {
    fn to_sample(self) -> Sample {
        Sample { wide: self.to_bits(), narrow: (self as f32).to_bits() }
    }

    fn from_bits_of_double(bits: u64) -> Self {
        f64::from_bits(bits)
    }
}

/// Encodes samples as a wav file.
fn encode<F: Real>(
    samples: &[F],
    num_channels: u16,
    sample_rate: u32,
    format: SampleFormat,
) -> Vec<u8> {
    let layout = Layout::new(samples.len(), num_channels, sample_rate, format).unwrap();
    let samples: Vec<Sample> = samples.iter().map(|s| s.to_sample()).collect();
    let mut bytes = Vec::new();
    audio_file::wav::encode::write(&mut bytes, &layout, &samples);
    bytes
}

/// Opens an in-memory buffer, expecting the native decoder to accept it.
fn open(bytes: &[u8]) -> OpenWav {
    open_wav(bytes).expect("should be accepted by the native decoder")
}

/// Opens an in-memory buffer, expecting the native decoder to defer to
/// the general decoder instead.
fn open_none(bytes: &[u8]) {
    assert!(
        open_wav(bytes).is_none(),
        "should not be accepted by the native decoder"
    );
}

/// Reads a range of frames and channels.
fn read_range<F: Real>(
    bytes: &[u8],
    start: usize,
    end: Option<usize>,
    channel_start: usize,
    channel_count: usize,
) -> Vec<F> {
    read_frames(bytes, open(bytes), start, end, channel_start, channel_count)
        .into_iter()
        .map(F::from_bits_of_double)
        .collect()
}

fn read_all<F: Real>(bytes: &[u8]) -> Vec<F> {
    read_range(bytes, 0, None, 0, open(bytes).num_channels)
}

/// Builds a minimal RIFF/WAVE file from a `fmt ` chunk body and raw data
/// bytes, with no chunks in between and no trailing bytes. Also exercises
/// the RIFF padding rule for an odd-length `fmt ` chunk.
fn build_wav(fmt_body: &[u8], data: &[u8]) -> Vec<u8> {
    let mut out = Vec::new();
    out.extend_from_slice(b"RIFF");
    out.extend_from_slice(&0u32.to_le_bytes()); // patched below
    out.extend_from_slice(b"WAVE");

    out.extend_from_slice(b"fmt ");
    out.extend_from_slice(&(fmt_body.len() as u32).to_le_bytes());
    out.extend_from_slice(fmt_body);
    if fmt_body.len() % 2 == 1 {
        out.push(0);
    }

    out.extend_from_slice(b"data");
    out.extend_from_slice(&(data.len() as u32).to_le_bytes());
    out.extend_from_slice(data);
    if data.len() % 2 == 1 {
        out.push(0);
    }

    let riff_len = (out.len() - 8) as u32;
    out[4..8].copy_from_slice(&riff_len.to_le_bytes());
    out
}

/// A 16-byte `PCMWAVEFORMAT` fmt body.
fn pcm_fmt_body(format_tag: u16, num_channels: u16, sample_rate: u32, bits: u16) -> Vec<u8> {
    let container_bytes = bits.div_ceil(8);
    let block_align = num_channels * container_bytes;
    let byte_rate = sample_rate * u32::from(block_align);

    let mut body = Vec::new();
    body.extend_from_slice(&format_tag.to_le_bytes());
    body.extend_from_slice(&num_channels.to_le_bytes());
    body.extend_from_slice(&sample_rate.to_le_bytes());
    body.extend_from_slice(&byte_rate.to_le_bytes());
    body.extend_from_slice(&block_align.to_le_bytes());
    body.extend_from_slice(&bits.to_le_bytes());
    body
}

/// A 40-byte `WAVEFORMATEXTENSIBLE` fmt body.
fn extensible_fmt_body(
    num_channels: u16,
    sample_rate: u32,
    bits: u16,
    container_bytes: u16,
    valid_bits: u16,
    subformat: [u8; 16],
) -> Vec<u8> {
    let block_align = num_channels * container_bytes;
    let byte_rate = sample_rate * u32::from(block_align);

    let mut body = Vec::new();
    body.extend_from_slice(&0xfffeu16.to_le_bytes());
    body.extend_from_slice(&num_channels.to_le_bytes());
    body.extend_from_slice(&sample_rate.to_le_bytes());
    body.extend_from_slice(&byte_rate.to_le_bytes());
    body.extend_from_slice(&block_align.to_le_bytes());
    body.extend_from_slice(&bits.to_le_bytes());
    body.extend_from_slice(&22u16.to_le_bytes()); // cbSize
    body.extend_from_slice(&valid_bits.to_le_bytes());
    body.extend_from_slice(&0u32.to_le_bytes()); // dwChannelMask
    body.extend_from_slice(&subformat);
    body
}

#[test]
fn rejects_files_without_the_riff_wave_magic() {
    open_none(b"not a wav file at all, but 12+ bytes long");
}

/// Any truncation before the `data` chunk header is fully present leaves
/// no reliable frame count to derive, so the whole attempt is abandoned.
#[test]
fn rejects_truncation_before_the_data_chunk_header_is_complete() {
    let data = [1u8, 0, 2, 0];
    let full = build_wav(&pcm_fmt_body(0x0001, 1, 44_100, 16), &data);
    let data_header_end = full.len() - data.len();

    for len in 0..data_header_end {
        open_none(&full[..len]);
    }
}

/// Once the `data` chunk header is intact, a file cut short partway
/// through the samples is treated the same as a declared length that
/// overstates what is actually there: the available bytes are read
/// instead of the file being rejected or read out of bounds.
#[test]
fn a_file_truncated_within_the_data_body_still_opens_with_the_available_frames() {
    let data: Vec<u8> = [1i16, 2, 3, 4]
        .iter()
        .flat_map(|s| s.to_le_bytes())
        .collect();
    let full = build_wav(&pcm_fmt_body(0x0001, 2, 44_100, 16), &data);
    let data_header_end = full.len() - data.len();

    // One full stereo frame (4 bytes) is present; the second frame's
    // first channel is cut off after 2 of its 4 bytes.
    let truncated = &full[..data_header_end + 6];

    let samples: Vec<f32> = read_all(truncated);
    assert_eq!(samples, [1.0 / 32_768.0, 2.0 / 32_768.0]);
}

#[test]
fn rejects_unsupported_format_tags() {
    // ADPCM.
    open_none(&build_wav(&pcm_fmt_body(0x0002, 1, 44_100, 4), &[0, 0]));
}

/// A header describing something that cannot be indexed into must be
/// declined rather than decoded, since every one of these divides by
/// zero or produces a nonsense stride further down.
#[test]
fn rejects_degenerate_headers() {
    // Zero channels: the frame stride would be zero.
    let mut zero_channels = pcm_fmt_body(0x0001, 1, 44_100, 16);
    zero_channels[2..4].copy_from_slice(&0u16.to_le_bytes());
    open_none(&build_wav(&zero_channels, &[0, 0]));

    // Zero sample rate: no timeline, and a resample ratio would divide
    // by it.
    open_none(&build_wav(&pcm_fmt_body(0x0001, 1, 0, 16), &[0, 0]));

    // Zero nBlockAlign: no stride to advance by.
    let mut zero_align = pcm_fmt_body(0x0001, 1, 44_100, 16);
    zero_align[12..14].copy_from_slice(&0u16.to_le_bytes());
    open_none(&build_wav(&zero_align, &[0, 0]));

    // An nBlockAlign that is not a whole number of channels wide.
    let mut ragged = pcm_fmt_body(0x0001, 2, 44_100, 16);
    ragged[12..14].copy_from_slice(&5u16.to_le_bytes());
    open_none(&build_wav(&ragged, &[0, 0, 0, 0]));

    // A bit depth with no defined container layout.
    open_none(&build_wav(&pcm_fmt_body(0x0001, 1, 44_100, 12), &[0, 0]));

    // A fmt chunk too short to hold even WAVEFORMAT.
    open_none(&build_wav(
        &pcm_fmt_body(0x0001, 1, 44_100, 16)[..14],
        &[0, 0],
    ));
}

/// Header fields come from an untrusted file, so no combination of them
/// may panic, hang or read out of bounds. This walks a valid file and
/// corrupts it one byte at a time across the whole header region, which
/// reaches every length, count and tag the parser branches on.
#[test]
fn corrupted_headers_never_panic() {
    let base = build_wav(
        &extensible_fmt_body(2, 48_000, 16, 2, 16, SUBFORMAT_PCM),
        &[1, 0, 2, 0, 3, 0, 4, 0],
    );

    for offset in 0..base.len() {
        for patch in [0x00u8, 0x01, 0x7f, 0x80, 0xfe, 0xff] {
            let mut bytes = base.clone();
            bytes[offset] = patch;

            // Either it is declined or it decodes, but it must not
            // panic and must not disagree with itself about how many
            // samples it produced.
            if let Some(wav) = open_wav(&bytes) {
                let channels = wav.num_channels;
                let samples = read_frames(&bytes, wav, 0, None, 0, channels);
                assert_eq!(
                    samples.len() % channels,
                    0,
                    "offset {offset} patch {patch:#04x} produced a partial frame"
                );
            }
        }
    }
}

#[test]
fn rejects_a_data_chunk_before_fmt() {
    let mut out = Vec::new();
    out.extend_from_slice(b"RIFF");
    out.extend_from_slice(&0u32.to_le_bytes());
    out.extend_from_slice(b"WAVE");
    out.extend_from_slice(b"data");
    out.extend_from_slice(&4u32.to_le_bytes());
    out.extend_from_slice(&[0, 0, 0, 0]);
    let riff_len = (out.len() - 8) as u32;
    out[4..8].copy_from_slice(&riff_len.to_le_bytes());

    open_none(&out);
}

#[test]
fn skips_unknown_chunks_between_fmt_and_data() {
    let mut out = Vec::new();
    out.extend_from_slice(b"RIFF");
    out.extend_from_slice(&0u32.to_le_bytes());
    out.extend_from_slice(b"WAVE");
    out.extend_from_slice(b"fmt ");
    let fmt_body = pcm_fmt_body(0x0001, 1, 44_100, 16);
    out.extend_from_slice(&(fmt_body.len() as u32).to_le_bytes());
    out.extend_from_slice(&fmt_body);
    // Odd-length unknown chunk, to exercise the pad byte.
    out.extend_from_slice(b"LIST");
    out.extend_from_slice(&3u32.to_le_bytes());
    out.extend_from_slice(&[9, 9, 9]);
    out.push(0); // pad
    out.extend_from_slice(b"data");
    out.extend_from_slice(&2u32.to_le_bytes());
    out.extend_from_slice(&2i16.to_le_bytes());
    let riff_len = (out.len() - 8) as u32;
    out[4..8].copy_from_slice(&riff_len.to_le_bytes());

    let samples: Vec<f32> = read_all(&out);
    assert_eq!(samples, [2.0 / 32_768.0]);
}

/// An unknown chunk anywhere before the samples only moves them back.
#[test]
fn unknown_chunks_only_move_the_samples() {
    let fmt_body = pcm_fmt_body(0x0001, 1, 44_100, 16);
    let plain = build_wav(&fmt_body, &[1, 0, 2, 0, 3, 0]);
    let opened = open(&plain);
    let expected: Vec<f32> = read_all(&plain);
    for chunk in [&b"LIST\x03\0\0\0abc\0"[..], b"junk\0\0\0\0", b"id3 \x04\0\0\0data"] {
        // Before the format, and between the format and the samples.
        for at in [12, 20 + fmt_body.len()] {
            let mut file = plain.clone();
            file.splice(at..at, chunk.iter().copied());
            let moved = open(&file);
            assert_eq!(moved.data_start, opened.data_start + chunk.len() as u64);
            assert_eq!(moved.num_frames, opened.num_frames);
            assert_eq!(moved.num_channels, opened.num_channels);
            assert_eq!(moved.sample_rate, opened.sample_rate);
            assert_eq!(read_all::<f32>(&file), expected);
        }
    }
}

#[test]
fn eight_bit_pcm_is_unsigned_with_silence_at_128() {
    let bytes = build_wav(&pcm_fmt_body(0x0001, 1, 44_100, 8), &[0xff, 0x80, 0x01]);
    let samples: Vec<f32> = read_all(&bytes);
    assert_eq!(samples, [127.0 / 128.0, 0.0, -127.0 / 128.0]);
}

#[test]
fn sixteen_bit_pcm_round_trips_known_values() {
    let data: Vec<u8> = [2i16, -3, 5, -7]
        .iter()
        .flat_map(|s| s.to_le_bytes())
        .collect();
    let bytes = build_wav(&pcm_fmt_body(0x0001, 1, 44_100, 16), &data);
    let samples: Vec<f32> = read_all(&bytes);
    assert_eq!(
        samples,
        [
            2.0 / 32_768.0,
            -3.0 / 32_768.0,
            5.0 / 32_768.0,
            -7.0 / 32_768.0
        ]
    );
}

#[test]
fn thirty_two_bit_pcm_round_trips_known_values() {
    let data: Vec<u8> = [19i32, -229_373, 33_587_161, -2_147_483_497]
        .iter()
        .flat_map(|s| s.to_le_bytes())
        .collect();
    let bytes = build_wav(&pcm_fmt_body(0x0001, 2, 48_000, 32), &data);
    let samples: Vec<f64> = read_all(&bytes);
    assert_eq!(
        samples,
        [
            19.0 / 2_147_483_648.0,
            -229_373.0 / 2_147_483_648.0,
            33_587_161.0 / 2_147_483_648.0,
            -2_147_483_497.0 / 2_147_483_648.0,
        ]
    );
}

/// 24-bit samples in a plain 3-byte container, using the exact fixture
/// values from the encoder's own sign-extension expectations.
#[test]
fn twenty_four_bit_pcm_in_a_three_byte_container_sign_extends() {
    // -17 and 8_388_607 (i24::MAX), little-endian, 3 bytes each.
    let data: Vec<u8> = vec![0xef, 0xff, 0xff, 0xff, 0xff, 0x7f];
    let bytes = build_wav(&pcm_fmt_body(0x0001, 1, 192_000, 24), &data);
    let samples: Vec<f64> = read_all(&bytes);
    assert_eq!(samples, [-17.0 / 8_388_608.0, 8_388_607.0 / 8_388_608.0]);
}

/// The nonstandard but common case of 24-bit samples in a 4-byte
/// container, as produced by e.g. `arecord -f S24_LE`. `nBlockAlign`
/// implies the 4-byte stride even though `wBitsPerSample` says 24.
#[test]
fn twenty_four_bit_pcm_in_a_four_byte_container() {
    let mut fmt = pcm_fmt_body(0x0001, 2, 48_000, 24);
    // Overwrite nBlockAlign (offset 12) to 8 (2 channels * 4 bytes) and
    // nAvgBytesPerSec (offset 8) to match.
    fmt[8..12].copy_from_slice(&(48_000u32 * 8).to_le_bytes());
    fmt[12..14].copy_from_slice(&8u16.to_le_bytes());

    // -96 and 23_052, little-endian, 4-byte containers (top byte unused).
    let data: Vec<u8> = vec![0xa0, 0xff, 0xff, 0x00, 0x0c, 0x5a, 0x00, 0x00];
    let bytes = build_wav(&fmt, &data);
    let samples: Vec<f64> = read_all(&bytes);
    assert_eq!(samples, [-96.0 / 8_388_608.0, 23_052.0 / 8_388_608.0]);
}

#[test]
fn thirty_two_bit_float_is_bit_exact() {
    let data: Vec<u8> = [2.0f32, 3.0, -16_411.0, 1_019.0]
        .iter()
        .flat_map(|s| s.to_le_bytes())
        .collect();
    let bytes = build_wav(&pcm_fmt_body(0x0003, 1, 44_100, 32), &data);
    let samples: Vec<f32> = read_all(&bytes);
    assert_eq!(samples, [2.0, 3.0, -16_411.0, 1_019.0]);
}

#[test]
fn sixty_four_bit_float_is_bit_exact() {
    let data: Vec<u8> = [1.5f64, -2.5]
        .iter()
        .flat_map(|s| s.to_le_bytes())
        .collect();
    let bytes = build_wav(&pcm_fmt_body(0x0003, 1, 44_100, 64), &data);
    let samples: Vec<f64> = read_all(&bytes);
    assert_eq!(samples, [1.5, -2.5]);
}

#[test]
fn extensible_pcm_is_read_via_the_subformat_guid() {
    let fmt = extensible_fmt_body(1, 192_000, 24, 3, 24, SUBFORMAT_PCM);
    let data: Vec<u8> = vec![0xef, 0xff, 0xff]; // -17
    let bytes = build_wav(&fmt, &data);
    let samples: Vec<f64> = read_all(&bytes);
    assert_eq!(samples, [-17.0 / 8_388_608.0]);
}

#[test]
fn extensible_float_is_read_via_the_subformat_guid() {
    let fmt = extensible_fmt_body(1, 44_100, 32, 4, 32, SUBFORMAT_IEEE_FLOAT);
    let data: Vec<u8> = 2.5f32.to_le_bytes().to_vec();
    let bytes = build_wav(&fmt, &data);
    let samples: Vec<f32> = read_all(&bytes);
    assert_eq!(samples, [2.5]);
}

/// A zero `wValidBitsPerSample`, which occurs in files in the wild, says
/// nothing about how the bytes are laid out, so `wBitsPerSample` decides
/// as it always does.
#[test]
fn extensible_zero_valid_bits_is_ignored() {
    let fmt = extensible_fmt_body(2, 48_000, 32, 4, 0, SUBFORMAT_PCM);
    let data: Vec<u8> = [19i32, -229_373]
        .iter()
        .flat_map(|s| s.to_le_bytes())
        .collect();
    let bytes = build_wav(&fmt, &data);
    let samples: Vec<f64> = read_all(&bytes);
    assert_eq!(
        samples,
        [19.0 / 2_147_483_648.0, -229_373.0 / 2_147_483_648.0]
    );
}

/// `wValidBitsPerSample` below the container width does not change how
/// the bytes are read: the valid bits are left-justified in the
/// container, so reading the full container is already correct. Reading
/// the low `wValidBitsPerSample` bits instead would take the wrong bits.
#[test]
fn extensible_valid_bits_below_the_container_does_not_narrow_the_read() {
    let fmt = extensible_fmt_body(1, 48_000, 32, 4, 24, SUBFORMAT_PCM);
    let data: Vec<u8> = 33_587_161i32.to_le_bytes().to_vec();
    let bytes = build_wav(&fmt, &data);
    let samples: Vec<f64> = read_all(&bytes);

    assert_eq!(samples, [33_587_161.0 / 2_147_483_648.0]);
    // The wrong reading would take the low 24 bits and scale by 2^23,
    // which is a different value entirely rather than a rounding
    // difference.
    let wrong = f64::from(33_587_161i32 & 0x00ff_ffff) / 8_388_608.0;
    assert_ne!(samples[0], wrong);
}

/// The only case where `wValidBitsPerSample` is consulted: a zero
/// `wBitsPerSample` leaves nothing else to derive the sample width from.
/// Symphonia rejects such files, so reading them here can only turn a
/// failed read into a working one.
#[test]
fn extensible_zero_bits_per_sample_falls_back_to_valid_bits() {
    let fmt = extensible_fmt_body(1, 48_000, 0, 2, 16, SUBFORMAT_PCM);
    let data: Vec<u8> = (-3i16).to_le_bytes().to_vec();
    let bytes = build_wav(&fmt, &data);
    let samples: Vec<f64> = read_all(&bytes);
    assert_eq!(samples, [-3.0 / 32_768.0]);
}

#[test]
fn extensible_with_an_unknown_subformat_guid_is_unsupported() {
    let mut unknown = SUBFORMAT_PCM;
    unknown[0] = 0xaa;
    let fmt = extensible_fmt_body(2, 48_000, 16, 2, 16, unknown);
    open_none(&build_wav(&fmt, &[0, 0, 0, 0]));
}

#[test]
fn extensible_chunk_shorter_than_forty_bytes_is_unsupported() {
    let mut fmt = extensible_fmt_body(1, 44_100, 16, 2, 16, SUBFORMAT_PCM);
    fmt.truncate(39);
    open_none(&build_wav(&fmt, &[0, 0]));
}

/// A streaming writer can leave the data chunk's declared length far
/// beyond what the file actually contains (a common convention is
/// `0xFFFFFFFF`). The available bytes should be used instead of failing
/// or reading past the end of the buffer.
#[test]
fn declared_data_length_is_clamped_to_the_actual_file_size() {
    let mut bytes = build_wav(&pcm_fmt_body(0x0001, 1, 44_100, 16), &[1, 0, 2, 0, 3, 0]);
    // Overwrite the data chunk's length field with a value the file
    // cannot possibly hold.
    let data_len_pos = bytes.len() - 6 - 4;
    bytes[data_len_pos..data_len_pos + 4].copy_from_slice(&u32::MAX.to_le_bytes());

    let samples: Vec<f32> = read_all(&bytes);
    assert_eq!(samples.len(), 3, "only the real data is readable");
}

/// A trailing partial frame from a clamped or truncated length is
/// dropped rather than causing an error or reading out of bounds.
#[test]
fn a_trailing_partial_frame_is_dropped() {
    // Two channels of 16-bit samples is a 4-byte frame; five bytes is
    // one full frame plus one stray byte.
    let bytes = build_wav(&pcm_fmt_body(0x0001, 2, 44_100, 16), &[1, 0, 2, 0, 0xff]);
    let samples: Vec<f32> = read_all(&bytes);
    assert_eq!(
        samples.len(),
        2,
        "one stereo frame, the stray byte is dropped"
    );
}

/// Selecting a frame range must match the corresponding slice of a full
/// decode, including across multiple internal block reads.
#[test]
fn frame_range_selection_matches_a_slice_of_the_full_decode() {
    const CHANNELS: usize = 3;
    const FRAMES: usize = 5_000; // spans several internal read blocks

    let mut samples = Vec::with_capacity(FRAMES * CHANNELS);
    for frame in 0..FRAMES {
        for ch in 0..CHANNELS {
            // A value that uniquely identifies (frame, channel) and is
            // exactly representable in f32.
            samples.push((frame * CHANNELS + ch) as f32 / (FRAMES * CHANNELS) as f32 - 0.5);
        }
    }

    let bytes = encode(&samples, CHANNELS as u16, 48_000, SampleFormat::Float32);

    let full: Vec<f32> = read_all(&bytes);
    assert_eq!(full, samples, "sanity check: full decode matches the input");

    for (start, end) in [
        (0, Some(1)),
        (10, Some(20)),
        (100, Some(4_500)),
        (4_999, Some(FRAMES)),
        (0, None),
        (FRAMES, Some(FRAMES + 100)),
        (FRAMES + 5, None),
    ] {
        let got: Vec<f32> = read_range(&bytes, start, end, 0, CHANNELS);

        let clamped_end = end.unwrap_or(FRAMES).min(FRAMES);
        let clamped_start = start.min(FRAMES);
        let expected = if clamped_start >= clamped_end {
            &[][..]
        } else {
            &samples[clamped_start * CHANNELS..clamped_end * CHANNELS]
        };
        assert_eq!(got, expected, "start={start} end={end:?}");
    }
}

/// Selecting a channel range must match the corresponding channels of
/// every frame in a full decode.
#[test]
fn channel_range_selection_matches_the_full_decode() {
    const CHANNELS: usize = 6;
    const FRAMES: usize = 50;

    let mut samples = Vec::with_capacity(FRAMES * CHANNELS);
    for frame in 0..FRAMES {
        for ch in 0..CHANNELS {
            samples.push((frame * CHANNELS + ch) as f32);
        }
    }

    let bytes = encode(&samples, CHANNELS as u16, 44_100, SampleFormat::Float32);

    for (start, count) in [(0, 6), (0, 1), (1, 2), (5, 1), (2, 4)] {
        let got: Vec<f32> = read_range(&bytes, 0, None, start, count);

        let expected: Vec<f32> = (0..FRAMES)
            .flat_map(|frame| {
                (start..start + count).map(move |ch| (frame * CHANNELS + ch) as f32)
            })
            .collect();
        assert_eq!(got, expected, "start={start} count={count}");
    }
}

#[test]
fn start_frame_beyond_the_file_yields_no_samples() {
    let bytes = build_wav(&pcm_fmt_body(0x0001, 1, 44_100, 16), &2i16.to_le_bytes());
    let samples: Vec<f32> = read_range(&bytes, 100, None, 0, 1);
    assert!(samples.is_empty());
}

#[test]
fn an_empty_data_chunk_yields_no_samples_and_no_error() {
    let bytes = build_wav(&pcm_fmt_body(0x0001, 2, 48_000, 16), &[]);
    let samples: Vec<f32> = read_all(&bytes);
    assert!(samples.is_empty());
}

/// The whole point of the fast path: what a read costs is set by the range
/// asked for and not by the length of the file in front of it. Checking
/// the returned samples cannot tell a decoder that seeks apart from one
/// that walks the whole file, so this counts the bytes that were actually
/// pulled out of the reader.
#[test]
fn reading_a_sub_range_reads_only_that_range() {
    const CHANNELS: usize = 2;
    const FRAMES: usize = 200_000;
    const FRAME_BYTES: usize = CHANNELS * 4;
    const WANTED: usize = 10;

    let samples = vec![0.0f32; FRAMES * CHANNELS];
    let bytes = encode(&samples, CHANNELS as u16, 48_000, SampleFormat::Float32);
    assert!(
        bytes.len() > 1_000_000,
        "the file has to dwarf the range for this to prove anything"
    );

    let mut bytes_read: usize = 0;
    let mut parser = HeaderParser::new();
    loop {
        match parser.request() {
            Request::Read { offset, len } => {
                bytes_read += len;
                parser.feed(&bytes[offset as usize..offset as usize + len]);
            }
            Request::Length => parser.feed_length(bytes.len() as u64),
            Request::Nothing => break,
        }
    }
    let wav = parser.wav().expect("should be accepted by the native decoder");

    // Parsing the header walks chunk headers and the fmt body, and seeks
    // over everything else.
    let header_bytes = bytes_read;
    assert!(header_bytes < 128, "the header cost {header_bytes} bytes");

    // Late in the file, so that a decoder reading from the start would
    // have to pull almost all of it.
    let mut reader = FrameReader::new(wav, FRAMES - WANTED, Some(FRAMES), 0, CHANNELS);
    let mut got = Vec::new();
    while let Some((offset, len)) = reader.next_block() {
        bytes_read += len;
        reader.feed(&bytes[offset as usize..offset as usize + len], &mut got);
    }
    assert_eq!(got.len(), WANTED * CHANNELS);

    assert_eq!(
        bytes_read - header_bytes,
        WANTED * FRAME_BYTES,
        "exactly the requested frames and not one byte more"
    );
}

/// The decoder reads `nChannels` and never the speaker mask, so the channel
/// count is bounded only by what `nBlockAlign` can describe. This is well
/// past the ceiling any reader that maps channels onto named speakers has.
#[test]
fn a_channel_count_far_past_any_speaker_layout_is_read() {
    const CHANNELS: usize = 300;
    const FRAMES: usize = 4;

    let mut data = Vec::new();
    for frame in 0..FRAMES {
        for ch in 0..CHANNELS {
            data.extend_from_slice(&((frame * CHANNELS + ch) as i16).to_le_bytes());
        }
    }
    let fmt = extensible_fmt_body(CHANNELS as u16, 48_000, 16, 2, 16, SUBFORMAT_PCM);
    let bytes = build_wav(&fmt, &data);

    assert_eq!(open(&bytes).num_channels, CHANNELS);

    // A frame range and a channel range out of the far end of such a frame,
    // which is where a stride computed from anything but nChannels breaks.
    let got: Vec<f64> = read_range(&bytes, 1, Some(3), CHANNELS - 3, 3);
    let expected: Vec<f64> = (1..3)
        .flat_map(|frame| {
            (CHANNELS - 3..CHANNELS).map(move |ch| (frame * CHANNELS + ch) as f64 / 32_768.0)
        })
        .collect();
    assert_eq!(got, expected);
}

/// The sign bit of a 24-bit value is bit 23, and fills everything above it.
#[test]
fn sign_extension_of_24_bit_values() {
    assert_eq!(sign_extend_24(0), 0);
    assert_eq!(sign_extend_24(0x7f_ffff), 8_388_607);
    assert_eq!(sign_extend_24(0x80_0000), -8_388_608);
    assert_eq!(sign_extend_24(0xff_ffff), -1);
    assert_eq!(sign_extend_24(0xff_ffef), -17);
}

/// A later fmt chunk replaces an earlier one.
#[test]
fn the_last_fmt_chunk_before_the_data_counts() {
    let first = build_wav(&pcm_fmt_body(0x0001, 2, 44_100, 8), &[]);
    let second = build_wav(&pcm_fmt_body(0x0001, 1, 48_000, 16), &2i16.to_le_bytes());
    // Everything of the first file up to its data chunk, then the second from its fmt
    // chunk on.
    let mut bytes = first[..first.len() - 8].to_vec();
    bytes.extend_from_slice(&second[12..]);

    let wav = open(&bytes);
    assert_eq!(wav.num_channels, 1);
    assert_eq!(wav.sample_rate, 48_000);
    let samples: Vec<f64> = read_all(&bytes);
    assert_eq!(samples, [2.0 / 32_768.0]);
}

/// The end of the file, reported where bytes were asked for, ends the attempt.
#[test]
fn the_parser_gives_up_at_the_end_of_the_file() {
    let mut parser = HeaderParser::new();
    assert_eq!(parser.request(), Request::Read { offset: 0, len: 12 });
    parser.feed_eof();
    assert_eq!(parser.request(), Request::Nothing);
    assert!(parser.wav().is_none());
}

/// Singles of every kind come back as doubles with the same value.
#[test]
fn singles_widen_to_the_same_value() {
    for single in [
        0.0f32,
        -0.0,
        1.0,
        -1.5,
        f32::MIN_POSITIVE,
        f32::MIN_POSITIVE / 2.0,
        1e-45,
        -1e-40,
        f32::MAX,
        f32::INFINITY,
        f32::NEG_INFINITY,
    ] {
        let bytes = build_wav(&pcm_fmt_body(0x0003, 1, 44_100, 32), &single.to_le_bytes());
        let samples: Vec<f64> = read_all(&bytes);
        assert_eq!(samples[0].to_bits(), f64::from(single).to_bits(), "{single}");
    }
    let bytes = build_wav(&pcm_fmt_body(0x0003, 1, 44_100, 32), &f32::NAN.to_le_bytes());
    let samples: Vec<f64> = read_all(&bytes);
    assert!(samples[0].is_nan());
}

/// Every 16-bit value is read as that value over 32768, bit for bit.
#[test]
fn every_sixteen_bit_value_is_normalized_exactly() {
    let data: Vec<u8> = (i16::MIN..=i16::MAX).flat_map(|v| v.to_le_bytes()).collect();
    let bytes = build_wav(&pcm_fmt_body(0x0001, 1, 44_100, 16), &data);
    let samples: Vec<f64> = read_all(&bytes);
    for (sample, value) in samples.iter().zip(i16::MIN..=i16::MAX) {
        assert_eq!(sample.to_bits(), (f64::from(value) / 32_768.0).to_bits(), "{value}");
    }
}
