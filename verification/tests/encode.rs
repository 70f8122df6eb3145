//! The wav encoder.

use audio_file::sample::Sample;
use audio_file::wav::encode::{
    bytes_per_sample, format_tag, needs_fact_chunk, Layout, BLOCK_SAMPLES,
};
use audio_file::wav::{
    SUBFORMAT_IEEE_FLOAT, SUBFORMAT_PCM, WAVE_FORMAT_EXTENSIBLE, WAVE_FORMAT_IEEE_FLOAT,
    WAVE_FORMAT_PCM,
};
use audio_file::writer::{SampleFormat, WriteError};

/// A float that can be written.
trait ToSample {
    fn to_sample(&self) -> Sample;
}

impl ToSample for f32 {
    fn to_sample(&self) -> Sample {
        Sample { wide: f64::from(*self).to_bits(), narrow: self.to_bits() }
    }
}

impl ToSample for f64 {
    fn to_sample(&self) -> Sample {
        Sample { wide: self.to_bits(), narrow: (*self as f32).to_bits() }
    }
}

const ALL_FORMATS: [SampleFormat; 4] = [
    SampleFormat::Int8,
    SampleFormat::Int16,
    SampleFormat::Int32,
    SampleFormat::Float32,
];

const INT_FORMATS: [SampleFormat; 3] =
    [SampleFormat::Int8, SampleFormat::Int16, SampleFormat::Int32];

/// A parsed wav file, so that tests can assert on structure instead of
/// hard-coded byte offsets.
struct Parsed {
    total_len: usize,
    riff_len: u32,
    chunks: Vec<(String, Vec<u8>)>,
}

impl Parsed {
    /// Walks the chunk list, which also checks that every chunk is exactly
    /// as long as it claims and that the file ends on a chunk boundary.
    fn new(bytes: &[u8]) -> Self {
        assert!(bytes.len() >= 12, "file is shorter than a RIFF header");
        assert_eq!(&bytes[0..4], b"RIFF");
        assert_eq!(&bytes[8..12], b"WAVE");

        let mut chunks = Vec::new();
        let mut pos = 12;
        while pos < bytes.len() {
            assert!(pos + 8 <= bytes.len(), "truncated chunk header at {pos}");
            let id = String::from_utf8(bytes[pos..pos + 4].to_vec()).unwrap();
            let len = u32::from_le_bytes(bytes[pos + 4..pos + 8].try_into().unwrap()) as usize;
            assert!(pos + 8 + len <= bytes.len(), "chunk {id} runs past the end");
            chunks.push((id, bytes[pos + 8..pos + 8 + len].to_vec()));
            // Chunk bodies are padded to an even length, while the size
            // field stays odd. Requiring the walk to land exactly on the
            // end of the file makes a missing pad byte a failure here.
            pos += 8 + len + len % 2;
        }
        assert_eq!(pos, bytes.len(), "file does not end on a chunk boundary");

        Parsed {
            total_len: bytes.len(),
            riff_len: u32::from_le_bytes(bytes[4..8].try_into().unwrap()),
            chunks,
        }
    }

    fn ids(&self) -> Vec<&str> {
        self.chunks.iter().map(|(id, _)| id.as_str()).collect()
    }

    fn chunk(&self, id: &str) -> Option<&[u8]> {
        self.chunks
            .iter()
            .find(|(i, _)| i == id)
            .map(|(_, body)| body.as_slice())
    }

    fn fmt(&self) -> &[u8] {
        self.chunk("fmt ").expect("missing fmt chunk")
    }

    fn data(&self) -> &[u8] {
        self.chunk("data").expect("missing data chunk")
    }

    fn i16_samples(&self) -> Vec<i16> {
        self.data()
            .chunks(2)
            .map(|b| i16::from_le_bytes(b.try_into().unwrap()))
            .collect()
    }

    fn i32_samples(&self) -> Vec<i32> {
        self.data()
            .chunks(4)
            .map(|b| i32::from_le_bytes(b.try_into().unwrap()))
            .collect()
    }

    fn f32_samples(&self) -> Vec<f32> {
        self.data()
            .chunks(4)
            .map(|b| f32::from_le_bytes(b.try_into().unwrap()))
            .collect()
    }

    fn fmt_u16(&self, offset: usize) -> u16 {
        u16::from_le_bytes(self.fmt()[offset..offset + 2].try_into().unwrap())
    }

    fn fmt_u32(&self, offset: usize) -> u32 {
        u32::from_le_bytes(self.fmt()[offset..offset + 4].try_into().unwrap())
    }

    fn tag(&self) -> u16 {
        self.fmt_u16(0)
    }
    fn num_channels(&self) -> u16 {
        self.fmt_u16(2)
    }
    fn sample_rate(&self) -> u32 {
        self.fmt_u32(4)
    }
    fn byte_rate(&self) -> u32 {
        self.fmt_u32(8)
    }
    fn block_align(&self) -> u16 {
        self.fmt_u16(12)
    }
    fn bits_per_sample(&self) -> u16 {
        self.fmt_u16(14)
    }
    fn cb_size(&self) -> u16 {
        self.fmt_u16(16)
    }
    fn valid_bits_per_sample(&self) -> u16 {
        self.fmt_u16(18)
    }
    fn channel_mask(&self) -> u32 {
        self.fmt_u32(20)
    }
    fn subformat(&self) -> &[u8] {
        &self.fmt()[24..40]
    }

    /// The `fact` chunk's frame count, if the chunk is present.
    fn fact(&self) -> Option<u32> {
        self.chunk("fact")
            .map(|body| u32::from_le_bytes(body.try_into().expect("fact chunk is 4 bytes")))
    }
}

fn encode<F: ToSample>(
    samples: &[F],
    num_channels: u16,
    sample_rate: u32,
    format: SampleFormat,
) -> Vec<u8> {
    let layout = Layout::new(samples.len(), num_channels, sample_rate, format)
        .expect("layout should be representable");
    let samples: Vec<Sample> = samples.iter().map(|s| s.to_sample()).collect();
    let mut out = Vec::new();
    audio_file::wav::encode::write(&mut out, &layout, &samples);
    out
}

/// Encodes and parses, asserting the invariants that must hold for every
/// file this encoder produces.
fn parse<F: ToSample>(
    samples: &[F],
    num_channels: u16,
    sample_rate: u32,
    format: SampleFormat,
) -> Parsed {
    let parsed = Parsed::new(&encode(samples, num_channels, sample_rate, format));

    assert_eq!(
        parsed.riff_len as usize,
        parsed.total_len - 8,
        "the RIFF size field must cover everything after it"
    );
    assert_eq!(parsed.total_len % 2, 0, "a wav file has an even length");
    assert_eq!(
        parsed.data().len(),
        samples.len() * usize::from(bytes_per_sample(format))
    );

    parsed
}

/// A mono float file must not be tagged
/// `WAVEFORMATEXTENSIBLE`, because its channel mask can only name a
/// physical speaker, and naming one sends the audio to that speaker alone.
#[test]
fn mono_float_is_not_extensible() {
    let parsed = parse(&[0.0f32; 4], 1, 48_000, SampleFormat::Float32);

    assert_eq!(parsed.tag(), WAVE_FORMAT_IEEE_FLOAT);
    assert_eq!(parsed.fmt().len(), 18, "WAVEFORMATEX");
    assert_eq!(parsed.cb_size(), 0);
}

/// The same holds for every mono integer format.
#[test]
fn mono_int_is_not_extensible() {
    for format in INT_FORMATS {
        let parsed = parse(&[0.0f32; 4], 1, 48_000, format);

        assert_eq!(parsed.tag(), WAVE_FORMAT_PCM, "{format:?}");
        assert_eq!(parsed.fmt().len(), 16, "PCMWAVEFORMAT for {format:?}");
    }
}

/// No file that a channel mask cannot describe may carry one.
#[test]
fn no_mono_or_stereo_file_carries_a_channel_mask() {
    for format in ALL_FORMATS {
        for num_channels in 1..=2 {
            let parsed = parse(&[0.0f32; 4], num_channels, 48_000, format);

            assert_ne!(
                parsed.tag(),
                WAVE_FORMAT_EXTENSIBLE,
                "{num_channels} channel {format:?}"
            );
            assert_eq!(parsed.tag(), format_tag(format));
            // Nothing beyond a zero cbSize follows the shared fields.
            assert!(parsed.fmt().len() <= 18);
        }
    }
}

/// Above two channels the speaker assignment has to be spelled out, so the
/// extensible layout is both allowed and required.
#[test]
fn multichannel_uses_extensible() {
    for format in ALL_FORMATS {
        for num_channels in 3..=8u16 {
            let samples = vec![0.0f32; usize::from(num_channels) * 2];
            let parsed = parse(&samples, num_channels, 48_000, format);
            let label = format!("{num_channels} channel {format:?}");

            assert_eq!(parsed.tag(), WAVE_FORMAT_EXTENSIBLE, "{label}");
            assert_eq!(parsed.fmt().len(), 40, "{label}");
            assert_eq!(parsed.cb_size(), 22, "{label}");
            assert_eq!(
                parsed.valid_bits_per_sample(),
                parsed.bits_per_sample(),
                "{label}"
            );
            assert_eq!(parsed.channel_mask(), 0, "{label}");
            assert_eq!(
                parsed.subformat(),
                match format {
                    SampleFormat::Float32 => &SUBFORMAT_IEEE_FLOAT,
                    _ => &SUBFORMAT_PCM,
                },
                "{label}"
            );
        }
    }
}

/// A filled mask would name speakers the caller never chose. For four
/// channels it claims front centre and a subwoofer feed, so the mask stays
/// empty however many channels there are.
#[test]
fn multichannel_channels_are_left_unassigned() {
    for num_channels in [3u16, 4, 6, 8, 18, 19, 64] {
        let samples = vec![0.0f32; usize::from(num_channels)];
        let parsed = parse(&samples, num_channels, 48_000, SampleFormat::Int16);

        assert_eq!(parsed.channel_mask(), 0, "{num_channels} channels");
        assert_eq!(parsed.num_channels(), num_channels);
    }
}

#[test]
fn fmt_chunk_describes_the_stream() {
    // A three channel 8-bit file has an odd nBlockAlign, which is the case
    // most likely to be quietly rounded somewhere.
    let parsed = parse(&[0.0f32; 6], 3, 44_100, SampleFormat::Int8);
    assert_eq!(parsed.num_channels(), 3);
    assert_eq!(parsed.sample_rate(), 44_100);
    assert_eq!(parsed.bits_per_sample(), 8);
    assert_eq!(parsed.block_align(), 3);
    assert_eq!(parsed.byte_rate(), 44_100 * 3);

    let parsed = parse(&[0.0f32; 4], 2, 96_000, SampleFormat::Float32);
    assert_eq!(parsed.num_channels(), 2);
    assert_eq!(parsed.sample_rate(), 96_000);
    assert_eq!(parsed.bits_per_sample(), 32);
    assert_eq!(parsed.block_align(), 8);
    assert_eq!(parsed.byte_rate(), 96_000 * 8);

    let parsed = parse(&[0.0f32; 4], 1, 8_000, SampleFormat::Int16);
    assert_eq!(parsed.block_align(), 2);
    assert_eq!(parsed.byte_rate(), 16_000);
}

/// `parse` checks the RIFF size field on every call, so sweeping the shapes
/// that change the header length is what gives the check its coverage.
#[test]
fn riff_size_holds_across_shapes() {
    for format in ALL_FORMATS {
        for num_channels in [1u16, 2, 3, 6, 17, 18, 19] {
            for num_frames in [0usize, 1, 3, 1000] {
                let samples = vec![0.25f32; usize::from(num_channels) * num_frames];
                let parsed = parse(&samples, num_channels, 48_000, format);
                assert_eq!(
                    parsed.data().len(),
                    samples.len() * usize::from(bytes_per_sample(format))
                );
            }
        }
    }
}

/// An odd data chunk needs a trailing pad byte, while its size field must
/// keep reporting the real, odd length.
#[test]
fn odd_data_chunk_is_padded() {
    let bytes = encode(&[1.0f32, 0.0, -1.0], 1, 48_000, SampleFormat::Int8);
    let parsed = Parsed::new(&bytes);

    assert_eq!(parsed.data().len(), 3, "the size field stays odd");
    assert_eq!(bytes.len() % 2, 0, "the file is padded to an even length");
    assert_eq!(bytes[bytes.len() - 1], 0, "the pad byte is zero");
    // The pad byte counts towards the RIFF size but not the data size.
    assert_eq!(parsed.riff_len as usize, bytes.len() - 8);
}

#[test]
fn even_data_chunk_is_not_padded() {
    let bytes = encode(&[1.0f32, 0.0, -1.0, 0.0], 1, 48_000, SampleFormat::Int8);
    let parsed = Parsed::new(&bytes);

    assert_eq!(parsed.data().len(), 4);
    assert_eq!(parsed.riff_len as usize, bytes.len() - 8);
    // A header, four samples and nothing else.
    assert_eq!(bytes.len(), 44 + 4);
}

/// Only the widths that can produce an odd data chunk are 8-bit, so sweep
/// the frame counts that expose it.
#[test]
fn padding_follows_the_data_length() {
    for num_frames in 0..8usize {
        let samples = vec![0.0f32; num_frames];
        let parsed = parse(&samples, 1, 48_000, SampleFormat::Int8);
        assert_eq!(parsed.data().len(), num_frames);
    }
}

/// Non-PCM formats carry a `fact` chunk with the frame count, and integer
/// PCM does not.
#[test]
fn fact_chunk_only_accompanies_float() {
    let parsed = parse(&[0.0f32; 8], 4, 48_000, SampleFormat::Float32);
    assert_eq!(parsed.fact(), Some(2), "8 samples over 4 channels");

    let parsed = parse(&[0.0f32; 5], 1, 48_000, SampleFormat::Float32);
    assert_eq!(parsed.fact(), Some(5));

    for format in INT_FORMATS {
        let parsed = parse(&[0.0f32; 8], 4, 48_000, format);
        assert_eq!(parsed.fact(), None, "{format:?}");
    }
}

#[test]
fn chunks_appear_in_the_expected_order() {
    let parsed = parse(&[0.0f32; 4], 1, 48_000, SampleFormat::Float32);
    assert_eq!(parsed.ids(), ["fmt ", "fact", "data"]);

    let parsed = parse(&[0.0f32; 4], 1, 48_000, SampleFormat::Int16);
    assert_eq!(parsed.ids(), ["fmt ", "data"]);
}

/// An empty file is still a well formed one.
#[test]
fn empty_input_produces_a_valid_header() {
    for format in ALL_FORMATS {
        for num_channels in [1u16, 2, 4] {
            let parsed = parse::<f32>(&[], num_channels, 48_000, format);

            assert!(parsed.data().is_empty(), "{format:?}");
            assert_eq!(parsed.num_channels(), num_channels);
            if needs_fact_chunk(format) {
                assert_eq!(parsed.fact(), Some(0));
            }
        }
    }
}

/// 8-bit wav is the one width that is unsigned, with silence at 128 rather
/// than 0. Getting this wrong inverts and offsets the audio.
#[test]
fn int8_samples_are_unsigned() {
    let parsed = parse(&[1.0f32, 0.0, -1.0], 1, 48_000, SampleFormat::Int8);
    assert_eq!(parsed.data(), [0xff, 0x80, 0x01]);
}

/// Full scale input must reach full scale output without wrapping to the
/// opposite sign, which is what makes the range deliberately symmetric.
#[test]
fn full_scale_does_not_wrap() {
    let full_scale = [1.0f32, -1.0];

    let parsed = parse(&full_scale, 1, 48_000, SampleFormat::Int16);
    assert_eq!(parsed.i16_samples(), [i16::MAX, -i16::MAX]);

    let parsed = parse(&full_scale, 1, 48_000, SampleFormat::Int32);
    assert_eq!(parsed.i32_samples(), [i32::MAX, -i32::MAX]);

    let parsed = parse(&full_scale, 1, 48_000, SampleFormat::Int8);
    assert_eq!(parsed.data(), [0xff, 0x01]);
}

/// Input beyond full scale clamps rather than wrapping around.
#[test]
fn out_of_range_input_is_clamped() {
    let loud = [2.0f32, -2.0, 1e30, -1e30, f32::INFINITY, f32::NEG_INFINITY];

    let parsed = parse(&loud, 1, 48_000, SampleFormat::Int16);
    let max = i16::MAX;
    assert_eq!(parsed.i16_samples(), [max, -max, max, -max, max, -max]);

    let parsed = parse(&loud, 1, 48_000, SampleFormat::Int8);
    assert_eq!(parsed.data(), [0xff, 0x01, 0xff, 0x01, 0xff, 0x01]);
}

/// A NaN cannot be scaled into an integer, so it lands on silence instead
/// of an arbitrary value.
#[test]
fn nan_becomes_silence_in_integer_formats() {
    let parsed = parse(&[f32::NAN, 0.5], 1, 48_000, SampleFormat::Int16);
    assert_eq!(parsed.i16_samples(), [0, 16384]);

    let parsed = parse(&[f32::NAN], 1, 48_000, SampleFormat::Int8);
    assert_eq!(parsed.data(), [0x80]);

    let parsed = parse(&[f32::NAN], 1, 48_000, SampleFormat::Int32);
    assert_eq!(parsed.i32_samples(), [0]);
}

/// Float output is a passthrough, so it neither clamps nor rounds.
#[test]
fn float_samples_are_bit_exact() {
    let samples = [0.1f32, -0.0, 1.5, -2.5, f32::MIN_POSITIVE];
    let parsed = parse(&samples, 1, 48_000, SampleFormat::Float32);

    let written = parsed.f32_samples();
    assert_eq!(written, samples);
    // Including the sign of a negative zero.
    assert!(written[1].is_sign_negative());
}

/// The integer formats fold NaN and out of range input to something
/// representable, but float output has nothing to fold them to, so they are
/// written verbatim rather than quietly turning into silence.
#[test]
fn non_finite_floats_pass_through() {
    let samples = [f32::NAN, f32::INFINITY, f32::NEG_INFINITY];
    let written = parse(&samples, 1, 48_000, SampleFormat::Float32).f32_samples();

    assert!(written[0].is_nan());
    assert_eq!(written[1], f32::INFINITY);
    assert_eq!(written[2], f32::NEG_INFINITY);

    // The same holds for f64 input, where the conversion to f32 is what
    // could lose them.
    let wide = [f64::NAN, 1e300, -1e300];
    let written = parse(&wide, 1, 48_000, SampleFormat::Float32).f32_samples();

    assert!(written[0].is_nan());
    assert_eq!(written[1], f32::INFINITY, "beyond f32 range");
    assert_eq!(written[2], f32::NEG_INFINITY);
}

/// Scaling rounds to the nearest integer rather than truncating towards
/// zero, which would bias the signal.
#[test]
fn scaling_rounds_to_nearest() {
    // 0.5 * 32767 is 16383.5, which rounds away from zero.
    let parsed = parse(&[0.5f32, -0.5], 1, 48_000, SampleFormat::Int16);
    assert_eq!(parsed.i16_samples(), [16384, -16384]);

    // A value far below one LSB collapses to silence rather than to one.
    let parsed = parse(&[1e-9f32], 1, 48_000, SampleFormat::Int16);
    assert_eq!(parsed.i16_samples(), [0]);
}

/// The encoder is generic over the float type, so f64 input has to travel
/// the same path and keep its extra precision on the way to the scaler.
#[test]
fn f64_input_is_encoded_identically() {
    for format in ALL_FORMATS {
        let wide = parse(&[1.0f64, 0.5, 0.0, -0.5, -1.0], 1, 48_000, format);
        let narrow = parse(&[1.0f32, 0.5, 0.0, -0.5, -1.0], 1, 48_000, format);
        assert_eq!(wide.data(), narrow.data(), "{format:?}");
    }

    // f64 precision beyond f32 survives as far as the integer scaler.
    let parsed = parse(&[1.0f64 / 3.0], 1, 48_000, SampleFormat::Int32);
    assert_eq!(
        parsed.i32_samples(),
        [(f64::from(i32::MAX) / 3.0).round() as i32]
    );
}

/// Interleaving is preserved verbatim, since a swap here would be silent.
#[test]
fn samples_are_written_in_order() {
    let samples: Vec<f32> = (0..12i16).map(|i| f32::from(i) / 100.0).collect();
    let parsed = parse(&samples, 3, 48_000, SampleFormat::Float32);

    assert_eq!(parsed.f32_samples(), samples);
}

/// Inputs longer than the internal scratch buffer are written in blocks, so
/// check that no sample is dropped or repeated at a block boundary.
#[test]
fn input_spanning_several_blocks_is_written_whole() {
    // Deliberately not a multiple of BLOCK_SAMPLES.
    let samples: Vec<f32> = (0..BLOCK_SAMPLES * 2 + 7)
        .map(|i| (i % 1000) as f32 / 1000.0)
        .collect();
    let parsed = parse(&samples, 1, 48_000, SampleFormat::Float32);

    assert_eq!(parsed.f32_samples(), samples);
}

/// A wav file cannot describe more than 4 GiB, and the size fields wrap
/// silently if that is not caught.
#[test]
fn layout_rejects_files_over_four_gib() {
    let too_many = u32::MAX as usize;
    match Layout::new(too_many, 1, 48_000, SampleFormat::Int32) {
        Err(WriteError::FileTooLarge { bytes }) => {
            assert!(bytes > u64::from(u32::MAX));
        }
        other => panic!("{other:?}"),
    }
}

/// Everything the RIFF size field covers apart from the data body, for a
/// mono 8-bit file: "WAVE", the fmt chunk with its header, and the data
/// chunk header. This is the smallest header the encoder can write, so it
/// leaves the most room for samples.
const MONO_PCM_OVERHEAD: usize = 4 + (8 + 16) + 8;

/// The largest representable file must still be accepted, so that the limit
/// is a limit and not an off-by-one.
#[test]
fn layout_accepts_the_largest_representable_file() {
    // Rounded down to an even length, because an odd data chunk spends its
    // last byte on padding instead of a sample.
    let largest = (u32::MAX as usize - MONO_PCM_OVERHEAD) & !1;

    let layout = Layout::new(largest, 1, 48_000, SampleFormat::Int8)
        .expect("the largest file should be representable");
    assert!(!layout.data_pad, "an even length needs no pad byte");
    assert_eq!(layout.data_len as usize, largest);
    assert_eq!(layout.riff_len as usize, MONO_PCM_OVERHEAD + largest);

    assert!(matches!(
        Layout::new(largest + 2, 1, 48_000, SampleFormat::Int8),
        Err(WriteError::FileTooLarge { .. })
    ));
}

/// The pad byte is part of the file, so it has to be counted before the
/// limit is checked. Without it this input lands exactly on the limit and
/// would be accepted, then write one byte too many.
#[test]
fn layout_counts_the_pad_byte_towards_the_limit() {
    let odd = u32::MAX as usize - MONO_PCM_OVERHEAD;
    assert_eq!(odd % 2, 1, "this case needs an odd data length");

    match Layout::new(odd, 1, 48_000, SampleFormat::Int8) {
        // The 8 bytes of "RIFF" and the size field, the limit itself, and
        // the pad byte that overshot it.
        Err(WriteError::FileTooLarge { bytes }) => {
            assert_eq!(bytes, 8 + u64::from(u32::MAX) + 1);
        }
        other => panic!("{other:?}"),
    }
}

/// `nBlockAlign` is 16-bit, so a wide enough frame cannot be described.
#[test]
fn layout_rejects_oversized_frames() {
    match Layout::new(0, u16::MAX, 48_000, SampleFormat::Int32) {
        Err(WriteError::FrameTooLarge { bytes }) => {
            assert_eq!(bytes, u32::from(u16::MAX) * 4);
        }
        other => panic!("{other:?}"),
    }

    // The widest frame that still fits is accepted.
    let layout = Layout::new(0, u16::MAX, 8_000, SampleFormat::Int8).unwrap();
    assert_eq!(layout.block_align, u16::MAX);

    assert!(matches!(
        Layout::new(0, 16_384, 8_000, SampleFormat::Int32),
        Err(WriteError::FrameTooLarge { .. })
    ));
    assert!(Layout::new(0, 16_383, 8_000, SampleFormat::Int32).is_ok());
}

/// `nAvgBytesPerSec` is 32-bit, which a wide frame at a high rate can
/// overflow even when the frame itself fits.
#[test]
fn layout_rejects_excessive_byte_rates() {
    // 65535 channels of 8-bit audio is the widest describable frame, so it
    // needs the lowest sample rate to overflow the byte rate.
    match Layout::new(0, u16::MAX, 65_538, SampleFormat::Int8) {
        Err(WriteError::ByteRateTooHigh { bytes_per_second }) => {
            assert!(bytes_per_second > u64::from(u32::MAX));
        }
        other => panic!("{other:?}"),
    }

    // One rate lower the same shape lands exactly on the limit.
    let layout = Layout::new(0, u16::MAX, 65_537, SampleFormat::Int8).unwrap();
    assert_eq!(layout.byte_rate, u32::MAX);
}

#[test]
fn layout_counts_frames_not_samples() {
    let layout = Layout::new(12, 4, 48_000, SampleFormat::Int16).unwrap();
    assert_eq!(layout.num_frames, 3);
    assert_eq!(layout.data_len, 24);

    let layout = Layout::new(0, 4, 48_000, SampleFormat::Int16).unwrap();
    assert_eq!(layout.num_frames, 0);
}
