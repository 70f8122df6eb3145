//! What is written, byte by byte.
//!
//! The laws here say what the bytes of a written file are in terms of what was to be
//! written alone.

use vstd::prelude::*;

use super::encode::{
    fact_chunk, file_bytes, fmt_base, fmt_body_len, fmt_extension, header_tag, layout_of,
    pad_bytes, sample_bits, sample_bytes, sample_width, samples_bytes, subformat, twos_16,
    twos_32, Fmt, Layout,
};
use super::format::lemma_tags;
use super::laws::{
    has_header, header_len, lemma_accepted_input_has_a_layout, lemma_file_has_header,
    lemma_fmt_base_fields, lemma_riff_len, lemma_sample_position,
};
use super::TAG_FACT;
use crate::bytes::{lemma_bytes_add_up, u16_at, u16_bytes, u32_at, u32_bytes};
use crate::sample::{lemma_quantized_in_range, quantized, Sample};
use crate::writer::{refusal, SampleFormat, WriteError};

verus! {

/// What is refused, and why: no channels, no sample rate, samples that make up no whole
/// frames, and then what the fields of a wav file have no room for, with the figure that
/// is too large. Everything else is written.
pub proof fn lemma_refusals(num_samples: int, channels: int, rate: int, format: SampleFormat)
    requires
        0 <= num_samples <= usize::MAX,
        0 <= channels <= 65_535,
        0 <= rate <= 0xffff_ffff,
    ensures
        ({
            let width: int = match format {
                SampleFormat::Int8 => 1,
                SampleFormat::Int16 => 2,
                SampleFormat::Int32 => 4,
                SampleFormat::Float32 => 4,
            };
            let is_float = format == SampleFormat::Float32;
            let fmt: int = if channels > 2 {
                40
            } else if is_float {
                18
            } else {
                16
            };
            let fact: int = if is_float {
                12
            } else {
                0
            };
            let data = num_samples * width;
            let total = 28 + fmt + fact + data + data % 2;
            let answer = refusal(num_samples, channels, rate, format);
            if channels == 0 {
                answer == Some(WriteError::ZeroChannels)
            } else if rate == 0 {
                answer == Some(WriteError::ZeroSampleRate)
            } else if num_samples % channels != 0 {
                answer == Some(
                    WriteError::UnalignedSamples {
                        samples: num_samples as usize,
                        channels: channels as u16,
                    },
                )
            } else if channels * width > 65_535 {
                answer == Some(WriteError::FrameTooLarge { bytes: (channels * width) as u32 })
            } else if rate * (channels * width) > 0xffff_ffff {
                answer == Some(
                    WriteError::ByteRateTooHigh {
                        bytes_per_second: (rate * (channels * width)) as u64,
                    },
                )
            } else if total - 8 > 0xffff_ffff {
                answer == Some(
                    WriteError::FileTooLarge {
                        bytes: if total > 0xffff_ffff_ffff_ffff {
                            0xffff_ffff_ffff_ffff
                        } else {
                            total as u64
                        },
                    },
                )
            } else {
                answer is None
            }
        }),
{
}

/// The header of a written file, byte by byte: the RIFF header with the length of what
/// follows it, the format, the number of frames for floats, and the length of the samples.
/// Up to two channels go into a plain format, and more into an extensible one that names
/// no speakers.
#[verifier::rlimit(100)]
pub proof fn lemma_written_header(
    samples: Seq<Sample>,
    channels: u16,
    rate: u32,
    format: SampleFormat,
)
    requires
        refusal(samples.len() as int, channels as int, rate as int, format) is None,
    ensures
        ({
            let width: int = match format {
                SampleFormat::Int8 => 1,
                SampleFormat::Int16 => 2,
                SampleFormat::Int32 => 4,
                SampleFormat::Float32 => 4,
            };
            let is_float = format == SampleFormat::Float32;
            let fmt: int = if channels > 2 {
                40
            } else if is_float {
                18
            } else {
                16
            };
            let fact: int = if is_float {
                12
            } else {
                0
            };
            let data = samples.len() * width;
            let d = 20 + fmt + fact;
            let file = file_bytes(
                layout_of(samples.len() as int, channels as int, rate as int, format),
                samples,
            );
            &&& file.len() == d + 8 + data + data % 2
            &&& file.subrange(0, 4) == seq![0x52u8, 0x49, 0x46, 0x46]
            &&& file[4] + 0x100 * file[5] + 0x1_0000 * file[6] + 0x100_0000 * file[7] == file.len()
                - 8
            &&& file.subrange(8, 12) == seq![0x57u8, 0x41, 0x56, 0x45]
            &&& file.subrange(12, 16) == seq![0x66u8, 0x6d, 0x74, 0x20]
            &&& file[16] + 0x100 * file[17] + 0x1_0000 * file[18] + 0x100_0000 * file[19] == fmt
            &&& file[20] + 0x100 * file[21] == (if channels > 2 {
                0xfffe
            } else if is_float {
                3int
            } else {
                1
            })
            &&& file[22] + 0x100 * file[23] == channels
            &&& file[24] + 0x100 * file[25] + 0x1_0000 * file[26] + 0x100_0000 * file[27] == rate
            &&& file[28] + 0x100 * file[29] + 0x1_0000 * file[30] + 0x100_0000 * file[31] == rate
                * (channels * width)
            &&& file[32] + 0x100 * file[33] == channels * width
            &&& file[34] + 0x100 * file[35] == 8 * width
            &&& channels <= 2 && is_float ==> file[36] == 0 && file[37] == 0
            &&& channels > 2 ==> {
                &&& file[36] + 0x100 * file[37] == 22
                &&& file[38] + 0x100 * file[39] == 8 * width
                &&& file[40] == 0 && file[41] == 0 && file[42] == 0 && file[43] == 0
                &&& file[44] == (if is_float {
                    3int
                } else {
                    1
                })
                &&& file.subrange(45, 60) == seq![
                    0u8, 0x00, 0x00, 0x00, 0x00, 0x10, 0x00, 0x80, 0x00, 0x00, 0xaa, 0x00, 0x38,
                    0x9b, 0x71,
                ]
            }
            &&& is_float ==> {
                &&& file.subrange(20 + fmt, 24 + fmt) == seq![0x66u8, 0x61, 0x63, 0x74]
                &&& file[24 + fmt] == 4 && file[25 + fmt] == 0 && file[26 + fmt] == 0 && file[27
                    + fmt] == 0
                &&& (file[28 + fmt] + 0x100 * file[29 + fmt] + 0x1_0000 * file[30 + fmt]
                    + 0x100_0000 * file[31 + fmt]) * channels == samples.len()
            }
            &&& file.subrange(d, d + 4) == seq![0x64u8, 0x61, 0x74, 0x61]
            &&& file[d + 4] + 0x100 * file[d + 5] + 0x1_0000 * file[d + 6] + 0x100_0000 * file[d
                + 7] == data
            &&& data % 2 == 1 ==> file[file.len() - 1] == 0
        }),
{
    let n = samples.len() as int;
    let layout = layout_of(n, channels as int, rate as int, format);
    let file = file_bytes(layout, samples);
    lemma_accepted_input_has_a_layout(n, channels, rate, format);
    lemma_file_has_header(layout, samples);
    lemma_riff_len(layout, n);
    lemma_tags();
    lemma_written_fmt(layout, file);
    lemma_written_fact(layout, file);
    reveal(has_header);
    vstd::arithmetic::div_mod::lemma_fundamental_div_mod(n, channels as int);
    let frames = n / channels as int;
    assert(channels * frames == frames * channels) by (nonlinear_arith);
    if layout.data_pad {
        let all = file;
        assert(all[all.len() - 1] == pad_bytes(layout)[0]);
    }
}

proof fn lemma_written_fmt(layout: Layout, file: Seq<u8>)
    requires
        has_header(file, layout),
        layout.fmt_len == fmt_body_len(layout.fmt),
    ensures
        u16_at(file, 20) == header_tag(layout),
        u16_at(file, 22) == layout.num_channels,
        u32_at(file, 24) == layout.sample_rate,
        u32_at(file, 28) == layout.byte_rate,
        u16_at(file, 32) == layout.block_align,
        u16_at(file, 34) == sample_bits(layout.format),
        layout.fmt == Fmt::Ex ==> file[36] == 0 && file[37] == 0,
        layout.fmt == Fmt::Extensible ==> {
            &&& u16_at(file, 36) == 22
            &&& u16_at(file, 38) == sample_bits(layout.format)
            &&& file[40] == 0 && file[41] == 0 && file[42] == 0 && file[43] == 0
            &&& file[44] == subformat(layout.format)[0]
            &&& file.subrange(45, 60) == subformat(layout.format).subrange(1, 16)
        },
{
    reveal(has_header);
    lemma_fmt_base_fields(layout);
    let base = fmt_base(layout);
    assert(forall|i: int| 0 <= i < 16 ==> file.subrange(20, 36)[i] == #[trigger] file[20 + i]);
    assert(u32_at(base, 8) == layout.byte_rate) by {
        let rate = u32_bytes(layout.byte_rate);
        assert(base.subrange(8, 12) =~= rate);
        assert(rate[0] == base[8] && rate[1] == base[9] && rate[2] == base[10] && rate[3]
            == base[11]);
    }
    assert(file[28] == base[8] && file[29] == base[9] && file[30] == base[10] && file[31]
        == base[11]);
    let f = 20 + layout.fmt_len;
    let ext = file.subrange(36, f as int);
    if layout.fmt == Fmt::Ex {
        assert(ext[0] == file[36] && ext[1] == file[37]);
        assert(ext == u16_bytes(0));
    } else if layout.fmt == Fmt::Extensible {
        lemma_written_extension(layout, file);
    }
}

proof fn lemma_written_extension(layout: Layout, file: Seq<u8>)
    requires
        60 <= file.len(),
        layout.fmt == Fmt::Extensible,
        layout.fmt_len == 40,
        file.subrange(36, 60) == fmt_extension(layout),
    ensures
        u16_at(file, 36) == 22,
        u16_at(file, 38) == sample_bits(layout.format),
        file[40] == 0 && file[41] == 0 && file[42] == 0 && file[43] == 0,
        file[44] == subformat(layout.format)[0],
        file.subrange(45, 60) == subformat(layout.format).subrange(1, 16),
{
    let ext = file.subrange(36, 60);
    assert(forall|i: int| 0 <= i < 24 ==> ext[i] == #[trigger] file[36 + i]);
    let size = u16_bytes(22);
    let bits = u16_bytes(sample_bits(layout.format));
    let mask = u32_bytes(0);
    let guid = subformat(layout.format);
    assert(ext == size + bits + mask + guid);
    assert(ext[0] == size[0] && ext[1] == size[1]);
    assert(ext[2] == bits[0] && ext[3] == bits[1]);
    assert(ext[4] == mask[0] && ext[5] == mask[1] && ext[6] == mask[2] && ext[7] == mask[3]);
    assert(ext[8] == guid[0]);
    assert(file.subrange(45, 60) =~= guid.subrange(1, 16)) by {
        assert forall|i: int| 0 <= i < 15 implies file.subrange(45, 60)[i] == guid.subrange(1, 16)[i]
            by {
            assert(ext[9 + i] == guid[1 + i]);
        }
    }
}

proof fn lemma_written_fact(layout: Layout, file: Seq<u8>)
    requires
        has_header(file, layout),
        layout.fmt_len == fmt_body_len(layout.fmt),
    ensures
        layout.format == SampleFormat::Float32 ==> {
            let f = 20 + layout.fmt_len;
            &&& file.subrange(f, f + 4) == TAG_FACT@
            &&& file[f + 4] == 4 && file[f + 5] == 0 && file[f + 6] == 0 && file[f + 7] == 0
            &&& u32_at(file, f + 8) == layout.num_frames
        },
{
    reveal(has_header);
    if layout.format == SampleFormat::Float32 {
        let f = 20 + layout.fmt_len;
        let chunk = file.subrange(f as int, f + 12);
        assert(chunk == fact_chunk(layout));
        let size = u32_bytes(4);
        let frames = u32_bytes(layout.num_frames);
        assert(chunk == TAG_FACT@ + size + frames);
        assert(forall|i: int| 0 <= i < 12 ==> chunk[i] == #[trigger] file[f + i]);
        assert(file.subrange(f as int, f + 4) =~= TAG_FACT@);
        assert(chunk[4] == size[0] && chunk[5] == size[1] && chunk[6] == size[2] && chunk[7]
            == size[3]);
        assert(chunk[8] == frames[0] && chunk[9] == frames[1] && chunk[10] == frames[2]
            && chunk[11] == frames[3]);
    }
}

/// The samples of a written file, byte by byte, in the order they were given: what
/// [`quantized`] makes of a sample in two's complement, least significant byte first, for
/// 8 bits offset by 128, or the single as it is.
#[verifier::rlimit(40)]
pub proof fn lemma_written_samples(
    samples: Seq<Sample>,
    channels: u16,
    rate: u32,
    format: SampleFormat,
    index: int,
)
    requires
        refusal(samples.len() as int, channels as int, rate as int, format) is None,
        0 <= index < samples.len(),
    ensures
        ({
            let is_float = format == SampleFormat::Float32;
            let fmt: int = if channels > 2 {
                40
            } else if is_float {
                18
            } else {
                16
            };
            let start = 28 + fmt + (if is_float {
                12int
            } else {
                0
            });
            let file = file_bytes(
                layout_of(samples.len() as int, channels as int, rate as int, format),
                samples,
            );
            let sample = samples[index];
            match format {
                SampleFormat::Int8 => file[start + index] == quantized(sample.wide, 127) + 128,
                SampleFormat::Int16 => {
                    let at = start + 2 * index;
                    (file[at] + 0x100 * file[at + 1] - quantized(sample.wide, 32_767)) % 0x1_0000
                        == 0
                },
                SampleFormat::Int32 => {
                    let at = start + 4 * index;
                    (file[at] + 0x100 * file[at + 1] + 0x1_0000 * file[at + 2] + 0x100_0000 * file[
                    at + 3] - quantized(sample.wide, 2_147_483_647)) % 0x1_0000_0000 == 0
                },
                SampleFormat::Float32 => {
                    let at = start + 4 * index;
                    file[at] + 0x100 * file[at + 1] + 0x1_0000 * file[at + 2] + 0x100_0000 * file[at
                        + 3] == sample.narrow
                },
            }
        }),
{
    let n = samples.len() as int;
    let layout = layout_of(n, channels as int, rate as int, format);
    let file = file_bytes(layout, samples);
    let sample = samples[index];
    lemma_accepted_input_has_a_layout(n, channels, rate, format);
    lemma_file_has_header(layout, samples);
    lemma_sample_position(samples, format, index);
    let width = sample_width(format);
    let start = header_len(layout);
    let bytes = sample_bytes(sample, format);
    lemma_bytes_of_sample(sample, format);
    lemma_window(
        file,
        samples_bytes(samples, format),
        bytes,
        start,
        layout.data_len as int,
        index * width,
    );
    let at = start + index * width;
    assert(bytes[0] == file[at + 0]);
    if width > 1 {
        assert(bytes[1] == file[at + 1]);
    }
    if width > 2 {
        assert(bytes[2] == file[at + 2]);
        assert(bytes[3] == file[at + 3]);
    }
}

proof fn lemma_window(
    file: Seq<u8>,
    body: Seq<u8>,
    bytes: Seq<u8>,
    start: int,
    len: int,
    offset: int,
)
    requires
        0 <= start,
        0 <= len,
        start + len <= file.len(),
        file.subrange(start, start + len) == body,
        0 <= offset,
        offset + bytes.len() <= body.len(),
        body.subrange(offset, offset + bytes.len()) == bytes,
    ensures
        forall|i: int| 0 <= i < bytes.len() ==> bytes[i] == #[trigger] file[start + offset + i],
{
    assert forall|i: int| 0 <= i < bytes.len() implies bytes[i] == #[trigger] file[start + offset
        + i] by {
        assert(body.subrange(offset, offset + bytes.len())[i] == body[offset + i]);
        assert(file.subrange(start, start + len)[offset + i] == file[start + (offset + i)]);
    }
}

proof fn lemma_bytes_of_sample(sample: Sample, format: SampleFormat)
    ensures
        ({
            let bytes = sample_bytes(sample, format);
            &&& bytes.len() == sample_width(format)
            &&& match format {
                SampleFormat::Int8 => bytes[0] == quantized(sample.wide, 127) + 128,
                SampleFormat::Int16 => (bytes[0] + 0x100 * bytes[1] - quantized(
                    sample.wide,
                    32_767,
                )) % 0x1_0000 == 0,
                SampleFormat::Int32 => (bytes[0] + 0x100 * bytes[1] + 0x1_0000 * bytes[2]
                    + 0x100_0000 * bytes[3] - quantized(sample.wide, 2_147_483_647))
                    % 0x1_0000_0000 == 0,
                SampleFormat::Float32 => bytes[0] + 0x100 * bytes[1] + 0x1_0000 * bytes[2]
                    + 0x100_0000 * bytes[3] == sample.narrow,
            }
        }),
{
    match format {
        SampleFormat::Int8 => {
            lemma_quantized_in_range(sample.wide, 0x7f);
        },
        SampleFormat::Int16 => {
            let v = quantized(sample.wide, 0x7fff);
            lemma_quantized_in_range(sample.wide, 0x7fff);
            lemma_bytes_add_up(twos_16(v), 0);
            lemma_twos_complement(v);
        },
        SampleFormat::Int32 => {
            let v = quantized(sample.wide, 0x7fff_ffff);
            lemma_quantized_in_range(sample.wide, 0x7fff_ffff);
            lemma_bytes_add_up(0, twos_32(v));
            lemma_twos_complement(v);
        },
        SampleFormat::Float32 => {
            lemma_bytes_add_up(0, sample.narrow);
        },
    }
}

proof fn lemma_twos_complement(v: int)
    ensures
        -0x8000 <= v < 0x8000 ==> (twos_16(v) - v) % 0x1_0000 == 0,
        -0x8000_0000 <= v < 0x8000_0000 ==> (twos_32(v) - v) % 0x1_0000_0000 == 0,
{
}

/// The layout of a file that is written: every field is what the header says, and the
/// samples make up whole frames.
pub proof fn lemma_layouts(num_samples: usize, channels: u16, rate: u32, format: SampleFormat)
    requires
        refusal(num_samples as int, channels as int, rate as int, format) is None,
    ensures
        ({
            let layout = layout_of(num_samples as int, channels as int, rate as int, format);
            let width: int = match format {
                SampleFormat::Int8 => 1,
                SampleFormat::Int16 => 2,
                SampleFormat::Int32 => 4,
                SampleFormat::Float32 => 4,
            };
            let is_float = format == SampleFormat::Float32;
            &&& layout.format == format
            &&& layout.num_channels == channels
            &&& layout.sample_rate == rate
            &&& layout.fmt == (if channels > 2 {
                Fmt::Extensible
            } else if is_float {
                Fmt::Ex
            } else {
                Fmt::Pcm
            })
            &&& layout.fmt_len == (if channels > 2 {
                40int
            } else if is_float {
                18
            } else {
                16
            })
            &&& layout.data_len == num_samples * width
            &&& layout.data_pad <==> (num_samples * width) % 2 == 1
            &&& layout.num_frames * channels == num_samples
            &&& layout.block_align == channels * width
            &&& layout.byte_rate == rate * (channels * width)
            &&& layout.riff_len == 20 + layout.fmt_len + (if is_float {
                12int
            } else {
                0
            }) + layout.data_len + layout.data_len % 2
        }),
{
    let n = num_samples as int;
    lemma_accepted_input_has_a_layout(n, channels, rate, format);
    vstd::arithmetic::div_mod::lemma_fundamental_div_mod(n, channels as int);
    let frames = n / channels as int;
    assert(channels * frames == frames * channels) by (nonlinear_arith);
}

} // verus!
