//! What holds between the encoder and the decoder.

use vstd::arithmetic::power2::{lemma2_to64, lemma2_to64_rest, pow2};
use vstd::prelude::*;

use super::decode::{
    clamped, clamped_end, decoded_sample, fmt_chunk, fmt_info, frame_channels, frames_of,
    int_value, lemma_fmt_chunk_wf, next_chunk, opened, parse_chunks, parse_header, sample_at,
    selected_frames, supported, Coding, FmtInfo, FrameReader, OpenWav,
};
use super::encode::{
    body_len, fact_chunk, fact_chunk_len, file_bytes, fmt_base, fmt_body_len, fmt_extension,
    header_bytes, header_tag, layout_of, layout_refusal, pad_bytes, plain_tag, sample_bits,
    sample_bytes, sample_width, samples_bytes, subformat, twos_16, twos_32, Fmt, Layout,
};
use super::{
    SUBFORMAT_IEEE_FLOAT, SUBFORMAT_PCM, TAG_DATA, TAG_FACT, TAG_FMT, TAG_RIFF, TAG_WAVE,
    WAVE_FORMAT_EXTENSIBLE,
};
use crate::bytes::{
    lemma_u16_round_trip, lemma_u32_round_trip, u16_at, u16_bytes, u32_at, u32_bytes,
};
use crate::sample::{
    is_nan, is_negative, is_within_scale, lemma_dyadic_value, lemma_quantized_in_range,
    lemma_scaling_back_is_close, quantized, ratio, scale, signed_significand, significand,
    widened, Sample,
};
use crate::select::{lemma_frame_in_range, lemma_pick_all_channels, pick};
use crate::writer::SampleFormat;

verus! {

/// The fields of the shared part of the `fmt ` chunk, by position.
pub proof fn lemma_fmt_base_fields(layout: Layout)
    ensures
        fmt_base(layout).len() == 16,
        u16_at(fmt_base(layout), 0) == header_tag(layout),
        u16_at(fmt_base(layout), 2) == layout.num_channels,
        u32_at(fmt_base(layout), 4) == layout.sample_rate,
        u16_at(fmt_base(layout), 12) == layout.block_align,
        u16_at(fmt_base(layout), 14) == sample_bits(layout.format),
{
    let tag = u16_bytes(header_tag(layout));
    let channels = u16_bytes(layout.num_channels);
    let rate = u32_bytes(layout.sample_rate);
    let byte_rate = u32_bytes(layout.byte_rate);
    let align = u16_bytes(layout.block_align);
    let bits = u16_bytes(sample_bits(layout.format));
    lemma_fields_by_position(tag, channels, rate, byte_rate, align, bits);
    lemma_u16_round_trip(header_tag(layout));
    lemma_u16_round_trip(layout.num_channels);
    lemma_u32_round_trip(layout.sample_rate);
    lemma_u16_round_trip(layout.block_align);
    lemma_u16_round_trip(sample_bits(layout.format));
}

proof fn lemma_fields_by_position(
    a: Seq<u8>,
    b: Seq<u8>,
    c: Seq<u8>,
    d: Seq<u8>,
    e: Seq<u8>,
    f: Seq<u8>,
)
    requires
        a.len() == 2,
        b.len() == 2,
        c.len() == 4,
        d.len() == 4,
        e.len() == 2,
        f.len() == 2,
    ensures
        ({
            let all = a + b + c + d + e + f;
            &&& all.len() == 16
            &&& u16_at(all, 0) == u16_at(a, 0)
            &&& u16_at(all, 2) == u16_at(b, 0)
            &&& u32_at(all, 4) == u32_at(c, 0)
            &&& u16_at(all, 12) == u16_at(e, 0)
            &&& u16_at(all, 14) == u16_at(f, 0)
        }),
{
}

/// The fields of the extension of the `fmt ` chunk, by position.
pub proof fn lemma_fmt_extension_fields(layout: Layout)
    requires
        layout.fmt_len == fmt_body_len(layout.fmt),
    ensures
        fmt_extension(layout).len() == layout.fmt_len - 16,
        layout.fmt == Fmt::Extensible ==> {
            &&& u16_at(fmt_extension(layout), 2) == sample_bits(layout.format)
            &&& u32_at(fmt_extension(layout), 4) == 0
            &&& fmt_extension(layout).subrange(8, 24) == subformat(layout.format)
        },
{
    if layout.fmt == Fmt::Extensible {
        let ext = fmt_extension(layout);
        let size = u16_bytes(22);
        let bits = u16_bytes(sample_bits(layout.format));
        let mask = u32_bytes(0);
        let guid = subformat(layout.format);
        assert(ext == size + bits + mask + guid);
        assert(ext[2] == bits[0] && ext[3] == bits[1]);
        assert(ext[4] == mask[0] && ext[5] == mask[1] && ext[6] == mask[2] && ext[7] == mask[3]);
        assert(ext.subrange(8, 24) =~= guid);
    }
}

/// Length of the header of a file.
pub open spec fn header_len(layout: Layout) -> int {
    28 + layout.fmt_len + fact_chunk_len(layout.format)
}

/// Whether `file` begins with the header of `layout`, by the places of its pieces.
#[verifier::opaque]
pub open spec fn has_header(file: Seq<u8>, layout: Layout) -> bool {
    let f = 20 + layout.fmt_len;
    let d = f + fact_chunk_len(layout.format);
    &&& file.len() >= header_len(layout)
    &&& file.subrange(0, 4) == TAG_RIFF@
    &&& file.subrange(8, 12) == TAG_WAVE@
    &&& file.subrange(12, 16) == TAG_FMT@
    &&& u32_at(file, 4) == layout.riff_len
    &&& u32_at(file, 16) == layout.fmt_len
    &&& file.subrange(20, 36) == fmt_base(layout)
    &&& file.subrange(36, f as int) == fmt_extension(layout)
    &&& file.subrange(f as int, d) == fact_chunk(layout)
    &&& file.subrange(d, d + 4) == TAG_DATA@
    &&& u32_at(file, d + 4) == layout.data_len
}

#[verifier::rlimit(40)]
proof fn lemma_has_header(layout: Layout, rest: Seq<u8>)
    requires
        layout.fmt_len == fmt_body_len(layout.fmt),
    ensures
        header_bytes(layout).len() == header_len(layout),
        has_header(header_bytes(layout) + rest, layout),
{
    lemma_fmt_base_fields(layout);
    lemma_fmt_extension_fields(layout);
    reveal(header_bytes);
    let file = header_bytes(layout) + rest;
    let size = u32_bytes(layout.riff_len);
    let fmt_size = u32_bytes(layout.fmt_len);
    let data_size = u32_bytes(layout.data_len);
    let s1 = TAG_RIFF@ + size;
    let s2 = s1 + TAG_WAVE@;
    let s3 = s2 + TAG_FMT@;
    let s4 = s3 + fmt_size;
    let s5 = s4 + fmt_base(layout);
    let s6 = s5 + fmt_extension(layout);
    let s7 = s6 + fact_chunk(layout);
    let s8 = s7 + TAG_DATA@;
    let s9 = s8 + data_size;
    assert(header_bytes(layout) == s9);
    assert(fact_chunk(layout).len() == fact_chunk_len(layout.format));
    assert(s4.len() == 20 && s5.len() == 36);
    let d = 20 + layout.fmt_len + fact_chunk_len(layout.format);
    assert(s6.len() == 20 + layout.fmt_len && s7.len() == d);
    assert(file.subrange(0, 4) =~= TAG_RIFF@);
    assert(file.subrange(4, 8) =~= size);
    assert(file.subrange(8, 12) =~= TAG_WAVE@);
    assert(file.subrange(12, 16) =~= TAG_FMT@);
    assert(file.subrange(16, 20) =~= fmt_size);
    assert(file.subrange(20, 36) =~= fmt_base(layout));
    assert(file.subrange(36, s6.len() as int) =~= fmt_extension(layout));
    assert(file.subrange(s6.len() as int, d) =~= fact_chunk(layout));
    assert(file.subrange(d, d + 4) =~= TAG_DATA@);
    assert(file.subrange(d + 4, d + 8) =~= data_size);
    lemma_u32_at_subrange(file, 4, layout.riff_len);
    lemma_u32_at_subrange(file, 16, layout.fmt_len);
    lemma_u32_at_subrange(file, d + 4, layout.data_len);
    reveal(has_header);
}

/// A stored 32-bit value, found by its position.
proof fn lemma_u32_at_subrange(file: Seq<u8>, at: int, v: u32)
    requires
        0 <= at,
        at + 4 <= file.len(),
        file.subrange(at, at + 4) == u32_bytes(v),
    ensures
        u32_at(file, at) == v,
{
    let w = file.subrange(at, at + 4);
    assert(w[0] == file[at] && w[1] == file[at + 1] && w[2] == file[at + 2] && w[3] == file[at
        + 3]);
}

/// What the decoder makes of the `fmt ` chunk of a written file.
pub open spec fn written_fmt(layout: Layout) -> FmtInfo {
    FmtInfo {
        coding: written_coding(layout.format),
        bits_per_sample: sample_bits(layout.format),
        container_bytes: sample_width(layout.format) as u16,
        num_channels: layout.num_channels,
        sample_rate: layout.sample_rate,
    }
}

/// The coding a written format reads back as.
pub open spec fn written_coding(format: SampleFormat) -> Coding {
    if format == SampleFormat::Float32 {
        Coding::Float
    } else {
        Coding::Int
    }
}

/// The chunk tags differ, so that no chunk is taken for another.
proof fn lemma_tags_differ()
    ensures
        TAG_FACT@ != TAG_FMT@,
        TAG_FACT@ != TAG_DATA@,
        TAG_DATA@ != TAG_FMT@,
        SUBFORMAT_PCM@ != SUBFORMAT_IEEE_FLOAT@,
{
    assert(TAG_FACT@[1] == 0x61 && TAG_FMT@[1] == 0x6d);
    assert(TAG_FACT@[0] == 0x66 && TAG_FMT@[0] == 0x66 && TAG_DATA@[0] == 0x64);
    assert(SUBFORMAT_PCM@[0] == 1 && SUBFORMAT_IEEE_FLOAT@[0] == 3);
}

#[verifier::rlimit(40)]
proof fn lemma_written_fmt_chunk(file: Seq<u8>, layout: Layout, num_samples: int)
    requires
        has_header(file, layout),
        layout.num_channels > 0,
        layout.sample_rate > 0,
        layout.describes(
            num_samples,
            layout.num_channels as int,
            layout.sample_rate as int,
            layout.format,
        ),
    ensures
        fmt_chunk(file, 20, layout.fmt_len as int) == Some(written_fmt(layout)),
{
    reveal(has_header);
    lemma_fmt_base_fields(layout);
    lemma_fmt_extension_fields(layout);
    lemma_tags_differ();
    let base = fmt_base(layout);
    assert(forall|i: int| 0 <= i < 16 ==> file.subrange(20, 36)[i] == #[trigger] file[20 + i]);
    assert(u16_at(file, 20) == u16_at(base, 0));
    assert(u16_at(file, 22) == u16_at(base, 2));
    assert(u32_at(file, 24) == u32_at(base, 4));
    assert(u16_at(file, 32) == u16_at(base, 12));
    assert(u16_at(file, 34) == u16_at(base, 14));
    if layout.fmt == Fmt::Extensible {
        let ext = file.subrange(36, 60);
        assert(forall|i: int| 0 <= i < 24 ==> ext[i] == #[trigger] file[36 + i]);
        assert(file.subrange(44, 60) =~= ext.subrange(8, 24));
    }
    let width = sample_width(layout.format);
    let channels = layout.num_channels as int;
    assert((channels * width) / channels == width && (channels * width) % channels == 0 && channels
        * width > 0) by (nonlinear_arith)
        requires
            channels > 0,
            width > 0,
    ;
    assert(fmt_info(
        written_coding(layout.format),
        sample_bits(layout.format),
        layout.block_align,
        layout.num_channels,
        layout.sample_rate,
    ) == Some(written_fmt(layout)));
}

/// What a written file reads back as.
pub open spec fn written_wav(layout: Layout) -> OpenWav {
    OpenWav {
        num_channels: layout.num_channels as usize,
        sample_rate: layout.sample_rate,
        coding: written_coding(layout.format),
        bits_per_sample: sample_bits(layout.format),
        container_bytes: sample_width(layout.format) as u16,
        block_align: layout.block_align as u64,
        data_start: header_len(layout) as u64,
        num_frames: layout.num_frames as u64,
    }
}

#[verifier::rlimit(40)]
proof fn lemma_header_opens(file: Seq<u8>, layout: Layout, num_samples: int)
    requires
        has_header(file, layout),
        layout.num_channels > 0,
        layout.sample_rate > 0,
        num_samples >= 0,
        num_samples % (layout.num_channels as int) == 0,
        layout.describes(
            num_samples,
            layout.num_channels as int,
            layout.sample_rate as int,
            layout.format,
        ),
        file.len() >= header_len(layout) + layout.data_len,
    ensures
        parse_header(file) == Some(written_wav(layout)),
{
    reveal(has_header);
    lemma_written_fmt_chunk(file, layout, num_samples);
    lemma_tags_differ();
    let fmt = written_fmt(layout);
    let f = 20 + layout.fmt_len;
    let d = f + fact_chunk_len(layout.format);
    // The fmt chunk, then the fact chunk where there is one, then the data.
    assert(parse_header(file) == parse_chunks(file, 12, None));
    assert(next_chunk(20, layout.fmt_len as int) == f);
    assert(parse_chunks(file, 12, None) == parse_chunks(file, f, Some(fmt)));
    if layout.format == SampleFormat::Float32 {
        let fact = file.subrange(f, d);
        assert(file.subrange(f, f + 4) =~= fact.subrange(0, 4));
        assert(fact.subrange(0, 4) =~= TAG_FACT@);
        assert(file.subrange(f + 4, f + 8) =~= fact.subrange(4, 8));
        assert(fact.subrange(4, 8) =~= u32_bytes(4));
        lemma_u32_at_subrange(file, f + 4, 4);
        assert(parse_chunks(file, f, Some(fmt)) == parse_chunks(file, d, Some(fmt)));
    }
    assert(parse_chunks(file, d, Some(fmt)) == Some(
        opened(fmt, d + 8, layout.data_len as int, file.len() as int),
    ));
    let n = num_samples;
    let channels = layout.num_channels as int;
    let width = sample_width(layout.format);
    vstd::arithmetic::div_mod::lemma_fundamental_div_mod(n, channels);
    assert((n * width) / (width * channels) == n / channels) by (nonlinear_arith)
        requires
            n == channels * (n / channels),
            channels > 0,
            width > 0,
    ;
    assert(width * channels == channels * width) by (nonlinear_arith);
}

/// A written file reads back with the channels, the rate and the frames it was
/// written with.
///
/// `layout` is what [`Layout::new`] resolves for these samples.
pub proof fn lemma_written_file_opens(layout: Layout, samples: Seq<Sample>)
    requires
        layout.num_channels > 0,
        layout.sample_rate > 0,
        samples.len() as int % (layout.num_channels as int) == 0,
        layout.describes(
            samples.len() as int,
            layout.num_channels as int,
            layout.sample_rate as int,
            layout.format,
        ),
    ensures
        parse_header(file_bytes(layout, samples)) == Some(written_wav(layout)),
{
    lemma_file_has_header(layout, samples);
    lemma_header_opens(file_bytes(layout, samples), layout, samples.len() as int);
}

pub proof fn lemma_file_has_header(layout: Layout, samples: Seq<Sample>)
    requires
        layout.describes(
            samples.len() as int,
            layout.num_channels as int,
            layout.sample_rate as int,
            layout.format,
        ),
    ensures
        has_header(file_bytes(layout, samples), layout),
        file_bytes(layout, samples).len() == header_len(layout) + layout.data_len + pad_bytes(
            layout,
        ).len(),
        file_bytes(layout, samples).subrange(
            header_len(layout),
            header_len(layout) + layout.data_len,
        ) == samples_bytes(samples, layout.format),
{
    let header = header_bytes(layout);
    let body = samples_bytes(samples, layout.format);
    let pad = pad_bytes(layout);
    lemma_has_header(layout, body + pad);
    lemma_samples_len(samples, layout.format);
    lemma_three_pieces(header, body, pad);
}

proof fn lemma_three_pieces(a: Seq<u8>, b: Seq<u8>, c: Seq<u8>)
    ensures
        a + b + c == a + (b + c),
        (a + b + c).len() == a.len() + b.len() + c.len(),
        (a + b + c).subrange(a.len() as int, (a.len() + b.len()) as int) == b,
{
    assert(a + b + c =~= a + (b + c));
    assert((a + b + c).subrange(a.len() as int, (a.len() + b.len()) as int) =~= b);
}

/// Writing samples in pieces writes the same bytes as writing them at once, wherever
/// the pieces are cut.
pub proof fn lemma_pieces_are_written_as_a_whole(
    first: Seq<Sample>,
    second: Seq<Sample>,
    format: SampleFormat,
)
    ensures
        samples_bytes(first, format) + samples_bytes(second, format) == samples_bytes(
            first + second,
            format,
        ),
    decreases second.len(),
{
    let left = samples_bytes(first, format);
    if second.len() == 0 {
        assert(first + second =~= first);
        assert(left + Seq::<u8>::empty() =~= left);
    } else {
        lemma_pieces_are_written_as_a_whole(first, second.drop_last(), format);
        assert((first + second).drop_last() =~= first + second.drop_last());
        let shorter = samples_bytes(second.drop_last(), format);
        let last = sample_bytes(second.last(), format);
        assert(left + (shorter + last) =~= left + shorter + last);
    }
}

/// The samples take up as many bytes as the header says.
pub proof fn lemma_samples_len(samples: Seq<Sample>, format: SampleFormat)
    ensures
        samples_bytes(samples, format).len() == body_len(samples.len() as int, format),
    decreases samples.len(),
{
    if samples.len() > 0 {
        lemma_samples_len(samples.drop_last(), format);
        let width = sample_width(format);
        let n = samples.len() as int;
        assert((n - 1) * width + width == n * width) by (nonlinear_arith);
    }
}

proof fn lemma_riff_size_field(file: Seq<u8>, layout: Layout)
    requires
        has_header(file, layout),
    ensures
        u32_at(file, 4) == layout.riff_len,
{
    reveal(has_header);
}

pub proof fn lemma_riff_len(layout: Layout, num_samples: int)
    requires
        layout.describes(
            num_samples,
            layout.num_channels as int,
            layout.sample_rate as int,
            layout.format,
        ),
    ensures
        header_len(layout) + layout.data_len + pad_bytes(layout).len() == 8 + layout.riff_len,
        layout.riff_len % 2 == 0,
{
    let data = layout.data_len as int;
    let fmt = fmt_body_len(layout.fmt);
    let fact = fact_chunk_len(layout.format);
    let pad = pad_bytes(layout).len() as int;
    assert(data == body_len(num_samples, layout.format));
    assert(layout.riff_len == 20 + fmt + fact + data + data % 2);
    assert(pad == data % 2);
    assert(fmt % 2 == 0 && fact % 2 == 0);
}

/// The RIFF size field covers everything after it, and the file has an even
/// length.
pub proof fn lemma_file_length(layout: Layout, samples: Seq<Sample>)
    requires
        layout.describes(
            samples.len() as int,
            layout.num_channels as int,
            layout.sample_rate as int,
            layout.format,
        ),
    ensures
        file_bytes(layout, samples).len() == 8 + layout.riff_len,
        file_bytes(layout, samples).len() % 2 == 0,
        u32_at(file_bytes(layout, samples), 4) == layout.riff_len,
{
    lemma_file_has_header(layout, samples);
    lemma_riff_size_field(file_bytes(layout, samples), layout);
    lemma_riff_len(layout, samples.len() as int);
}

/// What a sample written in `format` reads back as: an integer format gives the
/// quantized sample over the full scale of its width, the float format the single
/// it stored.
pub open spec fn read_back(sample: Sample, format: SampleFormat) -> u64 {
    match format {
        SampleFormat::Int8 => ratio(quantized(sample.wide, 0x7f), 7),
        SampleFormat::Int16 => ratio(quantized(sample.wide, 0x7fff), 15),
        SampleFormat::Int32 => ratio(quantized(sample.wide, 0x7fff_ffff), 31),
        SampleFormat::Float32 => widened(sample.narrow),
    }
}

/// Decoding the bytes of a written sample undoes writing it, up to quantization.
#[verifier::rlimit(40)]
pub proof fn lemma_sample_reads_back(sample: Sample, format: SampleFormat)
    ensures
        decoded_sample(sample_bytes(sample, format), written_coding(format), sample_bits(format))
            == read_back(sample, format),
{
    lemma_quantized_in_range(sample.wide, 0x7f);
    lemma_quantized_in_range(sample.wide, 0x7fff);
    lemma_quantized_in_range(sample.wide, 0x7fff_ffff);
    let bytes = sample_bytes(sample, format);
    match format {
        SampleFormat::Int8 => {},
        SampleFormat::Int16 => {
            let v = quantized(sample.wide, 0x7fff);
            assert(u16_at(bytes, 0) == twos_16(v));
            assert(int_value(bytes, 16) == v);
        },
        SampleFormat::Int32 => {
            let v = quantized(sample.wide, 0x7fff_ffff);
            assert(u32_at(bytes, 0) == twos_32(v));
            assert(int_value(bytes, 32) == v);
        },
        SampleFormat::Float32 => {
            assert(u32_at(bytes, 0) == sample.narrow);
        },
    }
}

/// The bytes of one sample in the body of the data chunk.
pub proof fn lemma_sample_position(samples: Seq<Sample>, format: SampleFormat, index: int)
    requires
        0 <= index < samples.len(),
    ensures
        0 <= index * sample_width(format),
        index * sample_width(format) + sample_width(format) <= samples_bytes(
            samples,
            format,
        ).len(),
        samples_bytes(samples, format).subrange(
            index * sample_width(format),
            index * sample_width(format) + sample_width(format),
        ) == sample_bytes(samples[index], format),
    decreases samples.len(),
{
    let width = sample_width(format);
    let shorter = samples.drop_last();
    let n = samples.len() as int;
    lemma_samples_len(samples, format);
    lemma_samples_len(shorter, format);
    assert(0 <= index * width && index * width + width <= n * width && (n - 1) * width == n * width
        - width) by (nonlinear_arith)
        requires
            0 <= index < n,
            0 < width,
    ;
    let body = samples_bytes(samples, format);
    if index == n - 1 {
        assert(body.subrange(index * width, index * width + width) =~= sample_bytes(
            samples[index],
            format,
        ));
    } else {
        lemma_sample_position(shorter, format, index);
        assert(body.subrange(index * width, index * width + width) =~= samples_bytes(
            shorter,
            format,
        ).subrange(index * width, index * width + width));
    }
}

/// Everything that is read out of a written file, sample by sample.
pub open spec fn read_back_all(samples: Seq<Sample>, format: SampleFormat) -> Seq<u64> {
    Seq::new(samples.len(), |i: int| read_back(samples[i], format))
}

#[verifier::rlimit(40)]
proof fn lemma_written_sample_at(
    file: Seq<u8>,
    layout: Layout,
    samples: Seq<Sample>,
    frame: int,
    channel: int,
)
    requires
        layout.num_channels > 0,
        layout.describes(
            samples.len() as int,
            layout.num_channels as int,
            layout.sample_rate as int,
            layout.format,
        ),
        file.len() >= header_len(layout) + layout.data_len,
        file.subrange(header_len(layout), header_len(layout) + layout.data_len) == samples_bytes(
            samples,
            layout.format,
        ),
        0 <= frame,
        0 <= channel < layout.num_channels,
        frame * layout.num_channels + channel < samples.len(),
    ensures
        sample_at(file, header_len(layout), written_wav(layout), frame, channel) == read_back(
            samples[frame * layout.num_channels + channel],
            layout.format,
        ),
{
    let wav = written_wav(layout);
    let channels = layout.num_channels as int;
    let width = sample_width(layout.format);
    let index = frame * channels + channel;
    let base = header_len(layout);
    assert(0 <= frame * channels) by (nonlinear_arith)
        requires
            0 <= frame,
            0 < channels,
    ;
    lemma_sample_position(samples, layout.format, index);
    lemma_samples_len(samples, layout.format);
    lemma_sample_reads_back(samples[index], layout.format);
    assert(frame * (channels * width) + channel * width == index * width) by (nonlinear_arith)
        requires
            index == frame * channels + channel,
    ;
    let at = base + frame * wav.block_align + channel * wav.container_bytes;
    assert(at == base + index * width);
    let body = samples_bytes(samples, layout.format);
    assert(file.subrange(at, at + width) =~= body.subrange(index * width, index * width + width));
}

proof fn lemma_written_frames(
    file: Seq<u8>,
    layout: Layout,
    samples: Seq<Sample>,
    start: int,
    end: int,
    channel_start: int,
    channel_count: int,
)
    requires
        layout.num_channels > 0,
        layout.describes(
            samples.len() as int,
            layout.num_channels as int,
            layout.sample_rate as int,
            layout.format,
        ),
        file.len() >= header_len(layout) + layout.data_len,
        file.subrange(header_len(layout), header_len(layout) + layout.data_len) == samples_bytes(
            samples,
            layout.format,
        ),
        0 <= start,
        end * layout.num_channels <= samples.len(),
        0 <= channel_start,
        0 <= channel_count,
        channel_start + channel_count <= layout.num_channels,
    ensures
        selected_frames(
            file,
            header_len(layout),
            written_wav(layout),
            start,
            end,
            channel_start,
            channel_count,
        ) == pick(
            read_back_all(samples, layout.format),
            layout.num_channels as int,
            channel_start,
            channel_count,
            start,
            end,
        ),
    decreases end - start,
{
    if start < end {
        let channels = layout.num_channels as int;
        let frame = end - 1;
        lemma_frame_in_range(channels, frame, end);
        assert(frame * channels <= end * channels);
        lemma_written_frames(file, layout, samples, start, frame, channel_start, channel_count);
        let all = read_back_all(samples, layout.format);
        let there = frame_channels(
            file,
            header_len(layout),
            written_wav(layout),
            frame,
            channel_start,
            channel_count,
        );
        let here = all.subrange(
            frame * channels + channel_start,
            frame * channels + channel_start + channel_count,
        );
        assert forall|c: int| 0 <= c < channel_count implies there[c] == here[c] by {
            lemma_written_sample_at(file, layout, samples, frame, channel_start + c);
        }
        assert(there =~= here);
    }
}

/// Any selection of frames and channels out of a written file is the same
/// selection out of the samples that were written, each of them read back.
pub proof fn lemma_written_selection_reads_back(
    layout: Layout,
    samples: Seq<Sample>,
    start: int,
    end: Option<usize>,
    channel_start: int,
    channel_count: int,
)
    requires
        layout.num_channels > 0,
        layout.sample_rate > 0,
        samples.len() as int % (layout.num_channels as int) == 0,
        layout.describes(
            samples.len() as int,
            layout.num_channels as int,
            layout.sample_rate as int,
            layout.format,
        ),
        0 <= start,
        0 <= channel_start,
        0 <= channel_count,
        channel_start + channel_count <= layout.num_channels,
    ensures
        frames_of(
            file_bytes(layout, samples),
            written_wav(layout),
            start,
            end,
            channel_start,
            channel_count,
        ) == pick(
            read_back_all(samples, layout.format),
            layout.num_channels as int,
            channel_start,
            channel_count,
            clamped(written_wav(layout), start),
            clamped_end(written_wav(layout), end),
        ),
{
    let wav = written_wav(layout);
    let n = samples.len() as int;
    let channels = layout.num_channels as int;
    let last = clamped_end(wav, end);
    vstd::arithmetic::div_mod::lemma_fundamental_div_mod(n, channels);
    assert(last * channels <= n) by (nonlinear_arith)
        requires
            last <= n / channels,
            n == channels * (n / channels),
            channels > 0,
    ;
    lemma_file_has_header(layout, samples);
    lemma_written_frames(
        file_bytes(layout, samples),
        layout,
        samples,
        clamped(wav, start),
        last,
        channel_start,
        channel_count,
    );
}

/// Writing samples and reading the whole file gives back every sample, in order:
/// the quantized one for an integer format, the very same for the float format.
pub proof fn lemma_written_samples_read_back(layout: Layout, samples: Seq<Sample>)
    requires
        layout.num_channels > 0,
        layout.sample_rate > 0,
        samples.len() as int % (layout.num_channels as int) == 0,
        layout.describes(
            samples.len() as int,
            layout.num_channels as int,
            layout.sample_rate as int,
            layout.format,
        ),
    ensures
        frames_of(
            file_bytes(layout, samples),
            written_wav(layout),
            0,
            None,
            0,
            layout.num_channels as int,
        ) == read_back_all(samples, layout.format),
{
    let n = samples.len() as int;
    let channels = layout.num_channels as int;
    let all = read_back_all(samples, layout.format);
    lemma_written_selection_reads_back(layout, samples, 0, None, 0, channels);
    vstd::arithmetic::div_mod::lemma_fundamental_div_mod(n, channels);
    let frames = layout.num_frames as int;
    assert(frames * channels == n && 0 * channels == 0) by (nonlinear_arith)
        requires
            n == channels * frames,
    ;
    lemma_pick_all_channels(all, channels, 0, frames);
    assert(all.subrange(0, n) =~= all);
}

proof fn lemma_full_read_len(data: Seq<u8>, base: int, wav: OpenWav, frames: int, count: int)
    requires
        0 <= frames,
        0 <= count,
    ensures
        selected_frames(data, base, wav, 0, frames, 0, count).len() == frames * count,
    decreases frames,
{
    if frames > 0 {
        lemma_full_read_len(data, base, wav, frames - 1, count);
        assert((frames - 1) * count + count == frames * count) by (nonlinear_arith);
    } else {
        assert(0 * count == 0) by (nonlinear_arith);
    }
}

proof fn lemma_full_read_index(
    data: Seq<u8>,
    base: int,
    wav: OpenWav,
    frames: int,
    count: int,
    frame: int,
    channel: int,
)
    requires
        0 <= channel < count,
        0 <= frame < frames,
    ensures
        0 <= frame * count + channel < selected_frames(data, base, wav, 0, frames, 0, count).len(),
        selected_frames(data, base, wav, 0, frames, 0, count)[frame * count + channel]
            == sample_at(data, base, wav, frame, channel),
    decreases frames,
{
    lemma_full_read_len(data, base, wav, frames, count);
    lemma_full_read_len(data, base, wav, frames - 1, count);
    lemma_frame_in_range(count, frame, frames);
    let whole = selected_frames(data, base, wav, 0, frames, 0, count);
    if frame == frames - 1 {
        assert(whole[frame * count + channel] == frame_channels(data, base, wav, frame, 0, count)[
        channel]);
    } else {
        lemma_frame_in_range(count, frame, frames - 1);
        lemma_full_read_index(data, base, wav, frames - 1, count, frame, channel);
    }
}

/// A range of frames and channels is the corresponding part of a full decode.
pub proof fn lemma_selection_is_part_of_the_full_decode(
    data: Seq<u8>,
    base: int,
    wav: OpenWav,
    frames: int,
    start: int,
    end: int,
    channel_start: int,
    channel_count: int,
)
    requires
        0 <= start,
        end <= frames,
        0 <= channel_start,
        0 <= channel_count,
        channel_start + channel_count <= wav.num_channels,
    ensures
        selected_frames(data, base, wav, start, end, channel_start, channel_count) == pick(
            selected_frames(data, base, wav, 0, frames, 0, wav.num_channels as int),
            wav.num_channels as int,
            channel_start,
            channel_count,
            start,
            end,
        ),
    decreases end - start,
{
    if start < end {
        let channels = wav.num_channels as int;
        let frame = end - 1;
        lemma_selection_is_part_of_the_full_decode(
            data,
            base,
            wav,
            frames,
            start,
            frame,
            channel_start,
            channel_count,
        );
        let full = selected_frames(data, base, wav, 0, frames, 0, channels);
        lemma_full_read_len(data, base, wav, frames, channels);
        lemma_frame_in_range(channels, frame, frames);
        let there = frame_channels(data, base, wav, frame, channel_start, channel_count);
        let here = full.subrange(
            frame * channels + channel_start,
            frame * channels + channel_start + channel_count,
        );
        assert forall|c: int| 0 <= c < channel_count implies there[c] == here[c] by {
            lemma_full_read_index(data, base, wav, frames, channels, frame, channel_start + c);
        }
        assert(there =~= here);
    }
}

/// A range of frames yields exactly the frames from the start, inclusive, up to
/// the stop, exclusive, as far as the file has them. A start beyond the end of the
/// file yields no samples.
pub proof fn lemma_selection_length(
    file: Seq<u8>,
    wav: OpenWav,
    start: int,
    end: Option<usize>,
    channel_start: int,
    channel_count: int,
)
    requires
        0 <= start,
        0 <= channel_count,
    ensures
        clamped(wav, start) <= clamped_end(wav, end) ==> frames_of(
            file,
            wav,
            start,
            end,
            channel_start,
            channel_count,
        ).len() == (clamped_end(wav, end) - clamped(wav, start)) * channel_count,
        clamped(wav, start) >= clamped_end(wav, end) || start >= wav.num_frames ==> frames_of(
            file,
            wav,
            start,
            end,
            channel_start,
            channel_count,
        ).len() == 0,
        end matches Some(stop) ==> (start <= stop ==> frames_of(
            file,
            wav,
            start,
            end,
            channel_start,
            channel_count,
        ).len() <= (stop - start) * channel_count),
{
    let first = clamped(wav, start);
    let last = clamped_end(wav, end);
    if first <= last {
        lemma_selected_len(
            file,
            wav.data_start as int,
            wav,
            first,
            last,
            channel_start,
            channel_count,
        );
    }
    if let Some(stop) = end {
        if start <= stop {
            assert((last - first) * channel_count <= (stop - start) * channel_count)
                by (nonlinear_arith)
                requires
                    last - first <= stop - start,
                    0 <= channel_count,
            ;
        }
    }
}

proof fn lemma_selected_len(
    data: Seq<u8>,
    base: int,
    wav: OpenWav,
    start: int,
    end: int,
    channel_start: int,
    channel_count: int,
)
    requires
        start <= end,
        0 <= channel_count,
    ensures
        selected_frames(data, base, wav, start, end, channel_start, channel_count).len() == (end
            - start) * channel_count,
    decreases end - start,
{
    if start < end {
        lemma_selected_len(data, base, wav, start, end - 1, channel_start, channel_count);
        assert((end - 1 - start) * channel_count + channel_count == (end - start) * channel_count)
            by (nonlinear_arith);
    } else {
        assert(0 * channel_count == 0) by (nonlinear_arith);
    }
}

/// The samples of a selection are those of its frames and channels, in order.
pub proof fn lemma_selected_sample(
    data: Seq<u8>,
    base: int,
    wav: OpenWav,
    start: int,
    end: int,
    channel_start: int,
    channel_count: int,
    frame: int,
    channel: int,
)
    requires
        start <= frame < end,
        0 <= channel < channel_count,
    ensures
        selected_frames(data, base, wav, start, end, channel_start, channel_count)[(frame - start)
            * channel_count + channel] == sample_at(
            data,
            base,
            wav,
            frame,
            channel_start + channel,
        ),
    decreases end - start,
{
    let shorter = selected_frames(data, base, wav, start, end - 1, channel_start, channel_count);
    lemma_selected_len(data, base, wav, start, end - 1, channel_start, channel_count);
    if frame < end - 1 {
        lemma_frame_in_range(channel_count, frame - start, end - 1 - start);
        lemma_selected_sample(
            data,
            base,
            wav,
            start,
            end - 1,
            channel_start,
            channel_count,
            frame,
            channel,
        );
    }
}

proof fn lemma_header_tag(file: Seq<u8>, layout: Layout, num_samples: int)
    requires
        has_header(file, layout),
        layout.describes(
            num_samples,
            layout.num_channels as int,
            layout.sample_rate as int,
            layout.format,
        ),
    ensures
        u16_at(file, 20) == header_tag(layout),
        u32_at(file, 16) == layout.fmt_len,
        layout.num_channels > 2 ==> u32_at(file, 40) == 0,
{
    reveal(has_header);
    lemma_fmt_base_fields(layout);
    lemma_fmt_extension_fields(layout);
    let base = file.subrange(20, 36);
    assert(base[0] == file[20] && base[1] == file[21]);
    if layout.num_channels > 2 {
        let ext = file.subrange(36, 60);
        assert(ext[4] == file[40] && ext[5] == file[41] && ext[6] == file[42] && ext[7]
            == file[43]);
    }
}

/// No mono or stereo file carries a channel mask, so none of them is routed to a
/// single speaker: the format tag is the plain one, and at most a zero `cbSize`
/// follows the shared fields. Above two channels the layout is extensible, and its
/// mask leaves the channels unassigned.
pub proof fn lemma_channels_are_never_assigned_to_speakers(layout: Layout, samples: Seq<Sample>)
    requires
        layout.describes(
            samples.len() as int,
            layout.num_channels as int,
            layout.sample_rate as int,
            layout.format,
        ),
    ensures
        layout.num_channels <= 2 ==> {
            &&& u16_at(file_bytes(layout, samples), 20) == plain_tag(layout.format)
            &&& u16_at(file_bytes(layout, samples), 20) != WAVE_FORMAT_EXTENSIBLE
            &&& u32_at(file_bytes(layout, samples), 16) <= 18
        },
        layout.num_channels > 2 ==> {
            &&& u16_at(file_bytes(layout, samples), 20) == WAVE_FORMAT_EXTENSIBLE
            &&& u32_at(file_bytes(layout, samples), 16) == 40
            &&& u32_at(file_bytes(layout, samples), 40) == 0
        },
{
    lemma_file_has_header(layout, samples);
    lemma_header_tag(file_bytes(layout, samples), layout, samples.len() as int);
}

/// The blocks of a read lie one right after the other, from the first requested
/// frame to the last, so exactly the requested frames are read.
pub proof fn lemma_blocks_are_consecutive(reader: FrameReader, next: FrameReader)
    requires
        reader.wf(),
        reader.frame < reader.end,
        next == (FrameReader { frame: (reader.frame + reader.block_frames()) as u64, ..reader }),
    ensures
        reader.wav.data_start <= reader.block_offset(),
        next.block_offset() == reader.block_offset() + reader.block_frames()
            * reader.wav.block_align,
        next.block_offset() <= reader.wav.data_start + reader.end * reader.wav.block_align,
        next.frame == reader.end ==> next.block_offset() == reader.wav.data_start + reader.end
            * reader.wav.block_align,
{
    reader.lemma_block();
}

/// Input that is not refused has a layout.
pub proof fn lemma_accepted_input_has_a_layout(
    num_samples: int,
    num_channels: u16,
    sample_rate: u32,
    format: SampleFormat,
)
    requires
        num_samples >= 0,
        num_channels > 0,
        layout_refusal(num_samples, num_channels as int, sample_rate as int, format) is None,
    ensures
        layout_of(num_samples, num_channels as int, sample_rate as int, format).describes(
            num_samples,
            num_channels as int,
            sample_rate as int,
            format,
        ),
{
    let channels = num_channels as int;
    let width = sample_width(format);
    assert(0 <= num_samples / channels <= num_samples <= num_samples * width) by (nonlinear_arith)
        requires
            num_samples >= 0,
            channels > 0,
            width >= 1,
    ;
    assert(0 <= channels * width && 0 <= sample_rate * (channels * width)) by (nonlinear_arith)
        requires
            channels > 0,
            width >= 1,
            sample_rate >= 0,
    ;
}

/// What is left of an opened file that is cut off after `len` bytes.
pub open spec fn cut_off(wav: OpenWav, len: int) -> Option<OpenWav> {
    if len < wav.data_start {
        None
    } else {
        let left = (len - wav.data_start) / wav.block_align as int;
        Some(
            OpenWav {
                num_frames: if left < wav.num_frames {
                    left as u64
                } else {
                    wav.num_frames
                },
                ..wav
            },
        )
    }
}

/// A file cut off before its samples begin is declined, and one cut off after that
/// opens with the whole frames that are left. Neither is read out of bounds.
pub proof fn lemma_truncated_files(file: Seq<u8>, len: int)
    requires
        0 <= len <= file.len() <= u64::MAX,
    ensures
        parse_header(file) matches Some(wav) ==> parse_header(file.take(len)) == cut_off(wav, len),
{
    let short = file.take(len);
    if parse_header(file) is Some {
        lemma_truncated_chunks(file, len, 12, None);
        if len >= 12 {
            assert(short.subrange(0, 4) =~= file.subrange(0, 4));
            assert(short.subrange(8, 12) =~= file.subrange(8, 12));
        }
    }
}

proof fn lemma_truncated_fmt_chunk(file: Seq<u8>, len: int, at: int, chunk_len: int)
    requires
        0 <= at,
        0 <= len <= file.len(),
    ensures
        fmt_chunk(file.take(len), at, chunk_len) is None || fmt_chunk(
            file.take(len),
            at,
            chunk_len,
        ) == fmt_chunk(file, at, chunk_len),
        at + 40 <= len || (at + 16 <= len && chunk_len < 40) ==> fmt_chunk(
            file.take(len),
            at,
            chunk_len,
        ) == fmt_chunk(file, at, chunk_len),
{
    let short = file.take(len);
    if at + 16 <= len {
        assert(forall|i: int| 0 <= i < len ==> short[i] == file[i]);
        if at + 40 <= len {
            assert(short.subrange(at + 24, at + 40) =~= file.subrange(at + 24, at + 40));
        }
    }
}

#[verifier::rlimit(40)]
proof fn lemma_truncated_chunks(file: Seq<u8>, len: int, pos: int, fmt: Option<FmtInfo>)
    requires
        0 <= len <= file.len() <= u64::MAX,
        0 <= pos,
        fmt matches Some(info) ==> info.wf(),
    ensures
        parse_chunks(file, pos, fmt) matches Some(wav) ==> {
            &&& wav.data_start >= pos + 8
            &&& parse_chunks(file.take(len), pos, fmt) == cut_off(wav, len)
        },
    decreases
            (if pos > file.len() {
                0
            } else {
                file.len() - pos + 1
            }),
{
    let short = file.take(len);
    if pos + 8 <= file.len() {
        let id = file.subrange(pos, pos + 4);
        let size = u32_at(file, pos + 4);
        let next = next_chunk(pos + 8, size);
        if pos + 8 <= len {
            assert(short.subrange(pos, pos + 4) =~= id);
            assert(u32_at(short, pos + 4) == size);
        }
        if id == TAG_FMT@ {
            if let Some(info) = fmt_chunk(file, pos + 8, size) {
                lemma_fmt_chunk_wf(file, pos + 8, size);
                lemma_truncated_chunks(file, len, next, Some(info));
                lemma_truncated_fmt_chunk(file, len, pos + 8, size);
                if let Some(wav) = parse_chunks(file, next, Some(info)) {
                    // Whatever is cut off within the chunk, the next one is gone too.
                    if len < next + 8 {
                        assert(parse_chunks(short, next, Some(info)) is None);
                    }
                }
            }
        } else if id == TAG_DATA@ {
            if let Some(info) = fmt {
                lemma_cut_off_data(info, pos + 8, size, file.len() as int, len);
            }
        } else {
            lemma_truncated_chunks(file, len, next, fmt);
        }
    }
}

proof fn lemma_cut_off_data(fmt: FmtInfo, start: int, size: int, file_len: int, len: int)
    requires
        fmt.wf(),
        0 <= size <= u32::MAX,
        0 <= start <= file_len <= u64::MAX,
        0 <= len <= file_len,
    ensures
        start <= len ==> Some(opened(fmt, start, size, len)) == cut_off(
            opened(fmt, start, size, file_len),
            len,
        ),
        opened(fmt, start, size, file_len).data_start == start,
{
    let block = fmt.container_bytes * fmt.num_channels;
    assert(0 < block) by (nonlinear_arith)
        requires
            block == fmt.container_bytes * fmt.num_channels,
            0 < fmt.container_bytes,
            0 < fmt.num_channels,
    ;
    if start <= len {
        let whole = if size < file_len - start {
            size
        } else {
            file_len - start
        };
        let left = len - start;
        let less = if whole < left {
            whole
        } else {
            left
        };
        assert(0 <= whole / block <= whole && 0 <= left / block <= left) by (nonlinear_arith)
            requires
                0 < block,
                0 <= whole,
                0 <= left,
        ;
        assert(less / block == if left / block < whole / block {
            left / block
        } else {
            whole / block
        }) by (nonlinear_arith)
            requires
                0 < block,
                0 <= whole,
                0 <= left,
                less == if whole < left {
                    whole
                } else {
                    left
                },
        ;
    }
}

/// An integer sample is normalized to `[-1, 1]`: it is read as its value over the full
/// scale of its width, which no value exceeds.
pub proof fn lemma_integer_samples_are_normalized(bytes: Seq<u8>, bits: u16)
    requires
        bytes.len() <= u16::MAX,
        supported(Coding::Int, bits, bytes.len() as u16),
    ensures
        ({
            let value = int_value(bytes, bits);
            let magnitude = if value < 0 {
                -value
            } else {
                value
            };
            let sample = decoded_sample(bytes, Coding::Int, bits);
            let full_scale = pow2((bits - 1) as nat);
            &&& magnitude <= full_scale
            &&& value < full_scale
            &&& is_negative(sample) == (value < 0)
            &&& scale(sample) >= 0
            &&& significand(sample) * full_scale == magnitude * pow2(scale(sample) as nat)
        }),
{
    lemma2_to64();
    lemma2_to64_rest();
    let value = int_value(bytes, bits);
    let magnitude = if value < 0 {
        -value
    } else {
        value
    };
    lemma_dyadic_value(value < 0, magnitude as nat, bits - 1);
}

/// What an integer format reads back differs from a written sample in `[-1, 1]` by less
/// than two steps of its scale, `2 / 2^(bits - 1)`: with `x` for the sample and `y` for
/// what is read back, `|y - x| * 2^(bits - 1) < 2`, written here without fractions.
pub proof fn lemma_what_is_read_back_is_close(sample: Sample, format: SampleFormat)
    requires
        format != SampleFormat::Float32,
        is_within_scale(sample.wide),
    ensures
        ({
            let back = read_back(sample, format);
            let d = pow2(scale(sample.wide) as nat) as int;
            let e = pow2(scale(back) as nat) as int;
            let difference = signed_significand(back) * d - signed_significand(sample.wide) * e;
            let full_scale = pow2((sample_bits(format) - 1) as nat);
            &&& 0 <= scale(sample.wide)
            &&& 0 <= scale(back)
            &&& !is_nan(back)
            &&& -2 * (d * e) < difference * full_scale < 2 * (d * e)
        }),
{
    lemma2_to64();
    lemma_scaling_back_is_close(sample.wide, (sample_bits(format) - 1) as nat);
}

} // verus!
