//! A minimal wav (RIFF) encoder.
//!
//! This covers interleaved 8, 16 and 32-bit integer PCM plus 32-bit IEEE float.
//! The sample count is known before the first byte goes out, so every chunk size
//! can be computed up front and the encoder never has to seek back over its own
//! output.
//!
//! The choice of `fmt ` chunk layout matters more than it looks.
//! `WAVEFORMATEXTENSIBLE` carries a `dwChannelMask` naming the physical speakers
//! that the channels belong to, and there is no way to say "one channel, no
//! particular speaker" in it. Labelling a mono file `SPEAKER_FRONT_LEFT` makes
//! players route it to the left speaker only, so mono and stereo never use the
//! extensible layout here. Above two channels the layout is unavoidable, and
//! there the mask says the channels are unassigned rather than guessing at
//! speakers the caller never named.

use vstd::prelude::*;

use super::{
    SUBFORMAT_IEEE_FLOAT, SUBFORMAT_PCM, TAG_DATA, TAG_FACT, TAG_FMT, TAG_RIFF, TAG_WAVE,
    WAVE_FORMAT_EXTENSIBLE, WAVE_FORMAT_IEEE_FLOAT, WAVE_FORMAT_PCM,
};
use crate::bytes::{
    lemma_append_twice, push_guid, push_tag, push_u16, push_u32, u16_bytes, u32_bytes,
};
use crate::sample::{quantized, to_int, Sample};
use crate::writer::{SampleFormat, WriteError};

verus! {

/// Samples converted per scratch buffer fill, so that peak memory does not
/// scale with the length of the input.
pub const BLOCK_SAMPLES: usize = 4096;

/// The `dwChannelMask` written for multichannel files.
///
/// Zero means the channels are not assigned to physical speakers, which is the
/// only honest answer available to an encoder that is given a channel count and
/// told nothing about the layout.
pub const CHANNEL_MASK_UNASSIGNED: u32 = 0;

/// Container size of one sample, in bytes.
pub open spec fn sample_width(format: SampleFormat) -> int {
    match format {
        SampleFormat::Int8 => 1,
        SampleFormat::Int16 => 2,
        SampleFormat::Int32 | SampleFormat::Float32 => 4,
    }
}

/// Container size of one sample, in bytes.
pub fn bytes_per_sample(format: SampleFormat) -> (bytes: u16)
    ensures
        bytes == sample_width(format),
{
    match format {
        SampleFormat::Int8 => 1,
        SampleFormat::Int16 => 2,
        SampleFormat::Int32 | SampleFormat::Float32 => 4,
    }
}

/// The format tag of integer PCM for the integer formats, of IEEE float for the
/// float format.
pub open spec fn plain_tag(format: SampleFormat) -> u16 {
    if format == SampleFormat::Float32 {
        WAVE_FORMAT_IEEE_FLOAT
    } else {
        WAVE_FORMAT_PCM
    }
}

/// The `wFormatTag` a format uses when it is not wrapped in a
/// `WAVEFORMATEXTENSIBLE`.
pub fn format_tag(format: SampleFormat) -> (tag: u16)
    ensures
        tag == plain_tag(format),
{
    match format {
        SampleFormat::Int8 | SampleFormat::Int16 | SampleFormat::Int32 => WAVE_FORMAT_PCM,
        SampleFormat::Float32 => WAVE_FORMAT_IEEE_FLOAT,
    }
}

/// Whether a format needs the `fact` chunk, which the wav format requires for
/// everything that is not integer PCM.
pub fn needs_fact_chunk(format: SampleFormat) -> (needed: bool)
    ensures
        needed == (format == SampleFormat::Float32),
{
    matches!(format, SampleFormat::Float32)
}

/// Which `fmt ` chunk layout a file uses.
#[derive(Debug, Clone, Copy, PartialEq, Eq, Structural)]
pub enum Fmt {
    /// 16-byte `PCMWAVEFORMAT`, the most widely understood variant. Integer PCM
    /// with at most two channels.
    Pcm,
    /// 18-byte `WAVEFORMATEX`, a `PCMWAVEFORMAT` plus a zero `cbSize`. Formats
    /// other than integer PCM have to carry `cbSize`, so float files land here
    /// even in mono and stereo.
    Ex,
    /// 40-byte `WAVEFORMATEXTENSIBLE`. Needed above two channels, being the
    /// only variant that can say which speaker each channel belongs to.
    Extensible,
}

/// The layout a file with these channels and samples uses.
pub open spec fn fmt_kind(num_channels: int, format: SampleFormat) -> Fmt {
    if num_channels > 2 {
        Fmt::Extensible
    } else if format == SampleFormat::Float32 {
        Fmt::Ex
    } else {
        Fmt::Pcm
    }
}

/// Length of the `fmt ` chunk body in this layout.
pub open spec fn fmt_body_len(fmt: Fmt) -> int {
    match fmt {
        Fmt::Pcm => 16,
        Fmt::Ex => 18,
        Fmt::Extensible => 40,
    }
}

/// Length of the `fact` chunk with its header, or zero where there is none.
pub open spec fn fact_chunk_len(format: SampleFormat) -> int {
    if format == SampleFormat::Float32 {
        12
    } else {
        0
    }
}

/// Bytes of one frame across all channels.
pub open spec fn frame_width(num_channels: int, format: SampleFormat) -> int {
    num_channels * sample_width(format)
}

/// Bytes of `num_samples` samples, without padding.
pub open spec fn body_len(num_samples: int, format: SampleFormat) -> int {
    num_samples * sample_width(format)
}

/// Everything after the RIFF size field: "WAVE", then the fmt chunk, the
/// optional fact chunk and the data chunk, each with its 8-byte header, and the
/// pad byte that keeps the file word aligned.
pub open spec fn riff_body_len(num_samples: int, num_channels: int, format: SampleFormat) -> int {
    let data = body_len(num_samples, format);
    4 + (8 + fmt_body_len(fmt_kind(num_channels, format))) + fact_chunk_len(format) + (8 + data
        + data % 2)
}

/// The byte layout of a file, resolved before anything is written.
///
/// Every field the header needs is decided here, which keeps the size
/// arithmetic in one place and lets a file that cannot be represented be
/// rejected before the output is touched.
#[derive(Debug)]
pub struct Layout {
    pub format: SampleFormat,
    pub num_channels: u16,
    pub sample_rate: u32,
    pub fmt: Fmt,
    /// Length of the `fmt ` chunk body, excluding the 8-byte chunk header.
    pub fmt_len: u32,
    /// Length of the `data` chunk body, excluding any trailing pad byte.
    pub data_len: u32,
    /// Whether a pad byte follows the `data` body to keep the file word aligned.
    pub data_pad: bool,
    /// The value of the RIFF size field: the length of everything after it.
    pub riff_len: u32,
    pub num_frames: u32,
    /// `nBlockAlign`, the size of one frame across all channels.
    pub block_align: u16,
    /// `nAvgBytesPerSec`.
    pub byte_rate: u32,
}

/// Why the wav format cannot describe such a file, if it cannot.
pub open spec fn layout_refusal(
    num_samples: int,
    num_channels: int,
    sample_rate: int,
    format: SampleFormat,
) -> Option<WriteError> {
    let frame = frame_width(num_channels, format);
    let rate = sample_rate * frame;
    let riff = riff_body_len(num_samples, num_channels, format);
    if frame > u16::MAX {
        Some(WriteError::FrameTooLarge { bytes: frame as u32 })
    } else if rate > u32::MAX {
        Some(WriteError::ByteRateTooHigh { bytes_per_second: rate as u64 })
    } else if 8 + riff > u64::MAX {
        Some(WriteError::FileTooLarge { bytes: u64::MAX })
    } else if riff > u32::MAX {
        Some(WriteError::FileTooLarge { bytes: (8 + riff) as u64 })
    } else {
        None
    }
}

/// The layout of `num_samples` interleaved samples, where there is one.
pub open spec fn layout_of(
    num_samples: int,
    num_channels: int,
    sample_rate: int,
    format: SampleFormat,
) -> Layout {
    let fmt = fmt_kind(num_channels, format);
    let data_len = body_len(num_samples, format);
    Layout {
        format,
        num_channels: num_channels as u16,
        sample_rate: sample_rate as u32,
        fmt,
        fmt_len: fmt_body_len(fmt) as u32,
        data_len: data_len as u32,
        data_pad: data_len % 2 == 1,
        riff_len: riff_body_len(num_samples, num_channels, format) as u32,
        num_frames: (num_samples / num_channels) as u32,
        block_align: frame_width(num_channels, format) as u16,
        byte_rate: (sample_rate * frame_width(num_channels, format)) as u32,
    }
}

impl Layout {
    /// Whether this is the layout of `num_samples` interleaved samples.
    pub open spec fn describes(
        self,
        num_samples: int,
        num_channels: int,
        sample_rate: int,
        format: SampleFormat,
    ) -> bool {
        &&& self.format == format
        &&& self.num_channels == num_channels
        &&& self.sample_rate == sample_rate
        &&& self.fmt == fmt_kind(num_channels, format)
        &&& self.fmt_len == fmt_body_len(self.fmt)
        &&& self.data_len == body_len(num_samples, format)
        &&& self.data_pad == (self.data_len % 2 == 1)
        &&& self.riff_len == riff_body_len(num_samples, num_channels, format)
        &&& self.num_frames == num_samples / num_channels
        &&& self.block_align == frame_width(num_channels, format)
        &&& self.byte_rate == sample_rate * frame_width(num_channels, format)
    }

    /// Resolves the layout for `num_samples` interleaved samples.
    ///
    /// `num_samples` is meant to be a multiple of `num_channels`, which the
    /// caller validates so it can report a more specific error.
    ///
    /// The wav format stores the frame size in 16 bits and the byte rate and
    /// the file size in 32 bits. A file that does not fit is refused with the
    /// figure that is too large, a file size beyond 64 bits with the largest
    /// number there is.
    pub fn new(
        num_samples: usize,
        num_channels: u16,
        sample_rate: u32,
        format: SampleFormat,
    ) -> (result: Result<Self, WriteError>)
        requires
            num_channels > 0,
        ensures
            match layout_refusal(
                num_samples as int,
                num_channels as int,
                sample_rate as int,
                format,
            ) {
                Some(error) => result == Err::<Layout, WriteError>(error),
                None => result matches Ok(layout) && layout == layout_of(
                    num_samples as int,
                    num_channels as int,
                    sample_rate as int,
                    format,
                ) && layout.describes(
                    num_samples as int,
                    num_channels as int,
                    sample_rate as int,
                    format,
                ),
            },
    {
        let bytes_per_sample: u16 = bytes_per_sample(format);

        // nBlockAlign is a 16-bit field, so a wide enough frame cannot be
        // described at all. Reject it rather than writing a wrapped value.
        let block_align: u32 = (num_channels as u32) * (bytes_per_sample as u32);
        if block_align > 0xffff {
            return Err(WriteError::FrameTooLarge { bytes: block_align });
        }
        // Likewise nAvgBytesPerSec is 32-bit.

        assert(sample_rate * block_align <= u32::MAX * 0xffff) by (nonlinear_arith)
            requires
                0 <= sample_rate <= u32::MAX,
                0 <= block_align <= 0xffff,
        ;
        let byte_rate: u64 = (sample_rate as u64) * (block_align as u64);
        if byte_rate > 0xffff_ffff {
            return Err(WriteError::ByteRateTooHigh { bytes_per_second: byte_rate });
        }
        let fmt = if num_channels > 2 {
            Fmt::Extensible
        } else if needs_fact_chunk(format) {
            Fmt::Ex
        } else {
            Fmt::Pcm
        };
        let fmt_len: u32 = match fmt {
            Fmt::Pcm => 16,
            Fmt::Ex => 18,
            Fmt::Extensible => 40,
        };

        assert(num_samples * bytes_per_sample <= usize::MAX * 4) by (nonlinear_arith)
            requires
                0 <= num_samples <= usize::MAX,
                0 <= bytes_per_sample <= 4,
        ;
        let data_len: u128 = (num_samples as u128) * (bytes_per_sample as u128);
        // Chunk bodies are padded to an even length. The size field stays odd.
        let data_pad = data_len % 2 == 1;

        let fact_chunk: u128 = if needs_fact_chunk(format) {
            12
        } else {
            0
        };
        let pad: u128 = if data_pad {
            1
        } else {
            0
        };
        let riff_len: u128 = 4 + (8 + fmt_len as u128) + fact_chunk + (8 + data_len + pad);

        // The RIFF and data size fields are 32-bit, which caps a wav file at
        // 4 GiB. Larger output needs RF64, which this encoder does not write.
        if riff_len > 0xffff_ffff {
            let bytes: u64 = if 8 + riff_len > 0xffff_ffff_ffff_ffff {
                0xffff_ffff_ffff_ffff
            } else {
                (8 + riff_len) as u64
            };
            return Err(WriteError::FileTooLarge { bytes });
        }
        assert(num_samples <= data_len) by (nonlinear_arith)
            requires
                data_len == num_samples * bytes_per_sample,
                1 <= bytes_per_sample,
                0 <= num_samples,
        ;
        let num_frames: usize = num_samples / (num_channels as usize);
        assert(num_frames <= num_samples) by (nonlinear_arith)
            requires
                num_channels > 0,
                num_frames == num_samples / (num_channels as usize),
        ;
        Ok(
            Layout {
                format,
                num_channels,
                sample_rate,
                fmt,
                fmt_len,
                data_len: data_len as u32,
                data_pad,
                riff_len: riff_len as u32,
                num_frames: num_frames as u32,
                block_align: block_align as u16,
                byte_rate: byte_rate as u32,
            },
        )
    }
}

/// The sample width the header states, in bits.
pub open spec fn sample_bits(format: SampleFormat) -> u16 {
    (8 * sample_width(format)) as u16
}

/// The `SubFormat` GUID of the samples.
pub open spec fn subformat(format: SampleFormat) -> Seq<u8> {
    if format == SampleFormat::Float32 {
        SUBFORMAT_IEEE_FLOAT@
    } else {
        SUBFORMAT_PCM@
    }
}

/// The `wFormatTag` of a file.
pub open spec fn header_tag(layout: Layout) -> u16 {
    if layout.fmt == Fmt::Extensible {
        WAVE_FORMAT_EXTENSIBLE
    } else {
        plain_tag(layout.format)
    }
}

/// The fields shared by all three `fmt ` layouts: `WAVEFORMAT` plus
/// `wBitsPerSample`.
pub open spec fn fmt_base(layout: Layout) -> Seq<u8> {
    u16_bytes(header_tag(layout)) + u16_bytes(layout.num_channels) + u32_bytes(layout.sample_rate)
        + u32_bytes(layout.byte_rate) + u16_bytes(layout.block_align) + u16_bytes(
        sample_bits(layout.format),
    )
}

/// What a `fmt ` chunk holds beyond the shared fields.
pub open spec fn fmt_extension(layout: Layout) -> Seq<u8> {
    match layout.fmt {
        Fmt::Pcm => Seq::empty(),
        Fmt::Ex => u16_bytes(0),
        Fmt::Extensible => u16_bytes(22) + u16_bytes(sample_bits(layout.format)) + u32_bytes(
            CHANNEL_MASK_UNASSIGNED,
        ) + subformat(layout.format),
    }
}

/// The `fact` chunk with its header, or nothing where there is none.
pub open spec fn fact_chunk(layout: Layout) -> Seq<u8> {
    if layout.format == SampleFormat::Float32 {
        TAG_FACT@ + u32_bytes(4) + u32_bytes(layout.num_frames)
    } else {
        Seq::empty()
    }
}

/// Everything up to the first sample.
#[verifier::opaque]
pub open spec fn header_bytes(layout: Layout) -> Seq<u8> {
    TAG_RIFF@ + u32_bytes(layout.riff_len) + TAG_WAVE@ + TAG_FMT@ + u32_bytes(layout.fmt_len)
        + fmt_base(layout) + fmt_extension(layout) + fact_chunk(layout) + TAG_DATA@ + u32_bytes(
        layout.data_len,
    )
}

/// `v` as an unsigned 16-bit number with the same bits.
pub open spec fn twos_16(v: int) -> u16 {
    if v < 0 {
        (v + 0x1_0000) as u16
    } else {
        v as u16
    }
}

/// `v` as an unsigned 32-bit number with the same bits.
pub open spec fn twos_32(v: int) -> u32 {
    if v < 0 {
        (v + 0x1_0000_0000) as u32
    } else {
        v as u32
    }
}

/// The bytes one sample is stored in. 8-bit samples are unsigned, with silence
/// at 128; the other integer formats are signed. Float output is a passthrough.
pub open spec fn sample_bytes(sample: Sample, format: SampleFormat) -> Seq<u8> {
    match format {
        SampleFormat::Int8 => seq![(quantized(sample.wide, 0x7f) + 0x80) as u8],
        SampleFormat::Int16 => u16_bytes(twos_16(quantized(sample.wide, 0x7fff))),
        SampleFormat::Int32 => u32_bytes(twos_32(quantized(sample.wide, 0x7fff_ffff))),
        SampleFormat::Float32 => u32_bytes(sample.narrow),
    }
}

/// The body of the data chunk: the samples in order.
pub open spec fn samples_bytes(samples: Seq<Sample>, format: SampleFormat) -> Seq<u8>
    decreases samples.len(),
{
    if samples.len() == 0 {
        Seq::empty()
    } else {
        samples_bytes(samples.drop_last(), format) + sample_bytes(samples.last(), format)
    }
}

/// The byte that keeps the file word aligned, or nothing where it is already.
pub open spec fn pad_bytes(layout: Layout) -> Seq<u8> {
    if layout.data_pad {
        seq![0u8]
    } else {
        Seq::empty()
    }
}

/// A complete wav file.
pub open spec fn file_bytes(layout: Layout, samples: Seq<Sample>) -> Seq<u8> {
    header_bytes(layout) + samples_bytes(samples, layout.format) + pad_bytes(layout)
}

/// Appends the fields shared by all three `fmt ` layouts. For the formats written
/// here the container is always exactly as wide as the samples in it.
fn push_fmt_base(out: &mut Vec<u8>, layout: &Layout)
    ensures
        final(out)@ == old(out)@ + fmt_base(*layout),
{
    let tag: u16 = match layout.fmt {
        Fmt::Pcm | Fmt::Ex => format_tag(layout.format),
        Fmt::Extensible => WAVE_FORMAT_EXTENSIBLE,
    };
    let bits_per_sample: u16 = bytes_per_sample(layout.format) * 8;
    let ghost mut written = u16_bytes(tag);
    push_u16(out, tag);
    push_u16(out, layout.num_channels);
    proof {
        lemma_append_twice(old(out)@, written, u16_bytes(layout.num_channels));
        written = written + u16_bytes(layout.num_channels);
    }
    push_u32(out, layout.sample_rate);
    proof {
        lemma_append_twice(old(out)@, written, u32_bytes(layout.sample_rate));
        written = written + u32_bytes(layout.sample_rate);
    }
    push_u32(out, layout.byte_rate);
    proof {
        lemma_append_twice(old(out)@, written, u32_bytes(layout.byte_rate));
        written = written + u32_bytes(layout.byte_rate);
    }
    push_u16(out, layout.block_align);
    proof {
        lemma_append_twice(old(out)@, written, u16_bytes(layout.block_align));
        written = written + u16_bytes(layout.block_align);
    }
    push_u16(out, bits_per_sample);
    proof {
        lemma_append_twice(old(out)@, written, u16_bytes(bits_per_sample));
    }
}

/// Appends what the `fmt ` chunk holds beyond the shared fields.
fn push_fmt_extension(out: &mut Vec<u8>, layout: &Layout)
    ensures
        final(out)@ == old(out)@ + fmt_extension(*layout),
{
    match layout.fmt {
        Fmt::Pcm => {
            assert(out@ =~= old(out)@ + fmt_extension(*layout));
        },
        // cbSize, with no extension following it.
        Fmt::Ex => push_u16(out, 0),
        Fmt::Extensible => {
            let bits_per_sample: u16 = bytes_per_sample(layout.format) * 8;
            let guid = match layout.format {
                SampleFormat::Int8 | SampleFormat::Int16 | SampleFormat::Int32 => SUBFORMAT_PCM,
                SampleFormat::Float32 => SUBFORMAT_IEEE_FLOAT,
            };
            let ghost mut written = u16_bytes(22);
            // cbSize, the number of bytes after this field.
            push_u16(out, 22);
            // wValidBitsPerSample.
            push_u16(out, bits_per_sample);
            proof {
                lemma_append_twice(old(out)@, written, u16_bytes(bits_per_sample));
                written = written + u16_bytes(bits_per_sample);
            }
            push_u32(out, CHANNEL_MASK_UNASSIGNED);
            proof {
                lemma_append_twice(old(out)@, written, u32_bytes(CHANNEL_MASK_UNASSIGNED));
                written = written + u32_bytes(CHANNEL_MASK_UNASSIGNED);
            }
            push_guid(out, guid);
            proof {
                lemma_append_twice(old(out)@, written, guid@);
            }
        },
    }
}

/// Appends the `fact` chunk, where there is one.
fn push_fact_chunk(out: &mut Vec<u8>, layout: &Layout)
    ensures
        final(out)@ == old(out)@ + fact_chunk(*layout),
{
    if needs_fact_chunk(layout.format) {
        push_tag(out, TAG_FACT);
        push_u32(out, 4);
        // dwSampleLength, counted in frames.
        push_u32(out, layout.num_frames);
        proof {
            lemma_append_twice(old(out)@, TAG_FACT@, u32_bytes(4));
            lemma_append_twice(
                old(out)@,
                TAG_FACT@ + u32_bytes(4),
                u32_bytes(layout.num_frames),
            );
        }
    } else {
        assert(out@ =~= old(out)@ + fact_chunk(*layout));
    }
}

/// Writes everything up to the first sample.
#[verifier::rlimit(40)]
pub fn write_header(out: &mut Vec<u8>, layout: &Layout)
    ensures
        final(out)@ == old(out)@ + header_bytes(*layout),
{
    proof {
        reveal(header_bytes);
    }
    let ghost mut written = TAG_RIFF@;
    push_tag(out, TAG_RIFF);
    push_u32(out, layout.riff_len);
    proof {
        lemma_append_twice(old(out)@, written, u32_bytes(layout.riff_len));
        written = written + u32_bytes(layout.riff_len);
    }
    push_tag(out, TAG_WAVE);
    proof {
        lemma_append_twice(old(out)@, written, TAG_WAVE@);
        written = written + TAG_WAVE@;
    }
    push_tag(out, TAG_FMT);
    proof {
        lemma_append_twice(old(out)@, written, TAG_FMT@);
        written = written + TAG_FMT@;
    }
    push_u32(out, layout.fmt_len);
    proof {
        lemma_append_twice(old(out)@, written, u32_bytes(layout.fmt_len));
        written = written + u32_bytes(layout.fmt_len);
    }
    push_fmt_base(out, layout);
    proof {
        lemma_append_twice(old(out)@, written, fmt_base(*layout));
        written = written + fmt_base(*layout);
    }
    push_fmt_extension(out, layout);
    proof {
        lemma_append_twice(old(out)@, written, fmt_extension(*layout));
        written = written + fmt_extension(*layout);
    }
    push_fact_chunk(out, layout);
    proof {
        lemma_append_twice(old(out)@, written, fact_chunk(*layout));
        written = written + fact_chunk(*layout);
    }
    push_tag(out, TAG_DATA);
    proof {
        lemma_append_twice(old(out)@, written, TAG_DATA@);
        written = written + TAG_DATA@;
    }
    push_u32(out, layout.data_len);
    proof {
        lemma_append_twice(old(out)@, written, u32_bytes(layout.data_len));
    }
}

/// Appends one sample.
pub fn push_sample(block: &mut Vec<u8>, sample: Sample, format: SampleFormat)
    ensures
        final(block)@ == old(block)@ + sample_bytes(sample, format),
{
    match format {
        SampleFormat::Int8 => {
            // 8-bit wav samples are unsigned, with silence at 128.
            let v: i32 = to_int(sample.wide, 0x7f);
            block.push((v + 0x80) as u8);
            assert(block@ == old(block)@ + sample_bytes(sample, format));
        },
        SampleFormat::Int16 => {
            let v: i32 = to_int(sample.wide, 0x7fff);
            let stored: u16 = if v < 0 {
                (v + 0x1_0000) as u16
            } else {
                v as u16
            };
            push_u16(block, stored);
        },
        SampleFormat::Int32 => {
            let v: i64 = to_int(sample.wide, 0x7fff_ffff) as i64;
            let stored: u32 = if v < 0 {
                (v + 0x1_0000_0000) as u32
            } else {
                v as u32
            };
            push_u32(block, stored);
        },
        SampleFormat::Float32 => push_u32(block, sample.narrow),
    }
}

/// Converts and writes the body of the data chunk, in blocks of
/// [`BLOCK_SAMPLES`].
#[verifier::rlimit(40)]
pub fn write_samples(out: &mut Vec<u8>, samples: &[Sample], format: SampleFormat)
    ensures
        final(out)@ == old(out)@ + samples_bytes(samples@, format),
{
    let len: usize = samples.len();
    let mut block: Vec<u8> = Vec::new();
    let mut done: usize = 0;
    assert(samples@.take(0) == Seq::<Sample>::empty());
    assert(out@ == old(out)@ + samples_bytes(samples@.take(0), format));
    while done < len
        invariant
            len == samples@.len(),
            done <= len,
            out@ == old(out)@ + samples_bytes(samples@.take(done as int), format),
        decreases len - done,
    {
        block.clear();
        let ghost start = done;
        let left: usize = len - done;
        let end: usize = if left < BLOCK_SAMPLES {
            len
        } else {
            done + BLOCK_SAMPLES
        };
        let mut i: usize = done;
        assert(block@ =~= Seq::<u8>::empty());
        while i < end
            invariant
                len == samples@.len(),
                start <= i <= end <= len,
                samples_bytes(samples@.take(i as int), format) == samples_bytes(
                    samples@.take(start as int),
                    format,
                ) + block@,
            decreases end - i,
        {
            let ghost before = block@;
            push_sample(&mut block, samples[i], format);
            proof {
                let longer = samples@.take(i + 1);
                assert(longer.drop_last() =~= samples@.take(i as int));
                assert(longer.last() == samples@[i as int]);
                assert(samples_bytes(samples@.take(start as int), format) + before + sample_bytes(
                    samples@[i as int],
                    format,
                ) =~= samples_bytes(samples@.take(start as int), format) + block@);
            }
            i += 1;
        }
        let ghost written = out@;
        let ghost converted = block@;
        out.append(&mut block);
        assert(out@ =~= old(out)@ + (samples_bytes(samples@.take(start as int), format)
            + converted));
        done = end;
    }
    assert(samples@.take(len as int) =~= samples@);
}

/// Writes the byte that keeps the file word aligned, where one is needed.
pub fn write_pad(out: &mut Vec<u8>, layout: &Layout)
    ensures
        final(out)@ == old(out)@ + pad_bytes(*layout),
{
    if layout.data_pad {
        out.push(0);
    }
    assert(out@ =~= old(out)@ + pad_bytes(*layout));
}

/// Writes a complete wav file for `layout`.
///
/// `samples` is interleaved and is meant to be as long as `layout` was resolved
/// for.
pub fn write(out: &mut Vec<u8>, layout: &Layout, samples: &[Sample])
    ensures
        final(out)@ == old(out)@ + file_bytes(*layout, samples@),
{
    write_header(out, layout);
    write_samples(out, samples, layout.format);
    write_pad(out, layout);
    assert(out@ =~= old(out)@ + file_bytes(*layout, samples@));
}

} // verus!
