//! What a wav file means, byte by byte.
//!
//! The laws here say what the decoder makes of a file in terms of the bytes of it alone:
//! which bytes make up the fields, how the samples are stored, and what other bytes of the
//! file change.

use vstd::arithmetic::power2::pow2;
use vstd::prelude::*;

use super::chunks::{
    is_boundary, lemma_chunks_behind, lemma_unknown_chunks_are_skipped,
};
use super::decode::{
    decoded_sample, fmt_chunk, int_value, lemma_fmt_chunk_wf, next_chunk, opened,
    parse_chunks, parse_header, supported, Coding, FmtInfo, FrameReader,
    OpenWav,
};
use super::{SUBFORMAT_IEEE_FLOAT, SUBFORMAT_PCM, TAG_DATA, TAG_FACT, TAG_FMT, TAG_RIFF, TAG_WAVE};
use crate::bytes::{u16_at, u32_at};
use crate::sample::{
    is_nan, is_negative, lemma_dyadic_value, lemma_singles_keep_their_value, scale, significand,
    value,
};

verus! {

/// The tags and identifiers of the format, in bytes.
pub proof fn lemma_tags()
    ensures
        TAG_FACT@ == seq![0x66u8, 0x61, 0x63, 0x74],
        TAG_RIFF@ == seq![0x52u8, 0x49, 0x46, 0x46],
        TAG_WAVE@ == seq![0x57u8, 0x41, 0x56, 0x45],
        TAG_FMT@ == seq![0x66u8, 0x6d, 0x74, 0x20],
        TAG_DATA@ == seq![0x64u8, 0x61, 0x74, 0x61],
        TAG_DATA@ != TAG_FMT@,
        SUBFORMAT_PCM@ == seq![
            0x01u8, 0x00, 0x00, 0x00, 0x00, 0x00, 0x10, 0x00, 0x80, 0x00, 0x00, 0xaa, 0x00, 0x38,
            0x9b, 0x71,
        ],
        SUBFORMAT_IEEE_FLOAT@ == seq![
            0x03u8, 0x00, 0x00, 0x00, 0x00, 0x00, 0x10, 0x00, 0x80, 0x00, 0x00, 0xaa, 0x00, 0x38,
            0x9b, 0x71,
        ],
        SUBFORMAT_PCM@ != SUBFORMAT_IEEE_FLOAT@,
{
    assert(TAG_FACT@ =~= seq![0x66u8, 0x61, 0x63, 0x74]);
    assert(TAG_RIFF@ =~= seq![0x52u8, 0x49, 0x46, 0x46]);
    assert(TAG_WAVE@ =~= seq![0x57u8, 0x41, 0x56, 0x45]);
    assert(TAG_FMT@ =~= seq![0x66u8, 0x6d, 0x74, 0x20]);
    assert(TAG_DATA@ =~= seq![0x64u8, 0x61, 0x74, 0x61]);
    assert(TAG_DATA@[0] == 0x64 && TAG_FMT@[0] == 0x66);
    assert(SUBFORMAT_PCM@ =~= seq![
        0x01u8, 0x00, 0x00, 0x00, 0x00, 0x00, 0x10, 0x00, 0x80, 0x00, 0x00, 0xaa, 0x00, 0x38, 0x9b,
        0x71,
    ]);
    assert(SUBFORMAT_IEEE_FLOAT@ =~= seq![
        0x03u8, 0x00, 0x00, 0x00, 0x00, 0x00, 0x10, 0x00, 0x80, 0x00, 0x00, 0xaa, 0x00, 0x38, 0x9b,
        0x71,
    ]);
    assert(SUBFORMAT_PCM@[0] == 1 && SUBFORMAT_IEEE_FLOAT@[0] == 3);
}

/// A file that opens is a RIFF file of the kind WAVE, and its samples are in a data chunk:
/// the frames lie within the length that chunk declares and within the file, and there are
/// as many of them as fit both. That holds for every width of the samples. They are of one
/// of the widths that can be read, and a frame holds one sample of each channel.
pub proof fn lemma_frames_lie_within_the_data_chunk(file: Seq<u8>, wav: OpenWav)
    requires
        parse_header(file) == Some(wav),
        file.len() <= u64::MAX,
    ensures
        file.subrange(0, 4) == seq![0x52u8, 0x49, 0x46, 0x46],
        file.subrange(8, 12) == seq![0x57u8, 0x41, 0x56, 0x45],
        20 <= wav.data_start <= file.len(),
        file.subrange(wav.data_start - 8, wav.data_start - 4) == seq![0x64u8, 0x61, 0x74, 0x61],
        ({
            let at = wav.data_start - 4;
            let declared = file[at] + 0x100 * file[at + 1] + 0x1_0000 * file[at + 2] + 0x100_0000
                * file[at + 3];
            let here = file.len() - wav.data_start;
            let whole = wav.num_frames * wav.block_align;
            &&& 0 <= whole <= declared
            &&& whole <= here
            &&& declared < whole + wav.block_align || here < whole + wav.block_align
        }),
        0 < wav.num_channels <= 65_535,
        0 < wav.sample_rate,
        wav.block_align == wav.container_bytes * wav.num_channels,
        match wav.coding {
            Coding::Int => {
                ||| wav.bits_per_sample == 8 && wav.container_bytes == 1
                ||| wav.bits_per_sample == 16 && wav.container_bytes == 2
                ||| wav.bits_per_sample == 24 && wav.container_bytes == 3
                ||| wav.bits_per_sample == 24 && wav.container_bytes == 4
                ||| wav.bits_per_sample == 32 && wav.container_bytes == 4
            },
            Coding::Float => {
                ||| wav.bits_per_sample == 32 && wav.container_bytes == 4
                ||| wav.bits_per_sample == 64 && wav.container_bytes == 8
            },
        },
{
    lemma_tags();
    lemma_data_chunk(file, 12, None);
}

proof fn lemma_data_chunk(file: Seq<u8>, pos: int, fmt: Option<FmtInfo>)
    requires
        12 <= pos,
        file.len() <= u64::MAX,
        fmt matches Some(info) ==> info.wf(),
        parse_chunks(file, pos, fmt) is Some,
    ensures
        ({
            let wav = parse_chunks(file, pos, fmt)->0;
            let at = wav.data_start - 4;
            let declared = u32_at(file, at);
            let here = file.len() - wav.data_start;
            let whole = wav.num_frames * wav.block_align;
            &&& pos + 8 <= wav.data_start <= file.len()
            &&& file.subrange(wav.data_start - 8, wav.data_start - 4) == TAG_DATA@
            &&& 0 <= whole <= declared
            &&& whole <= here
            &&& declared < whole + wav.block_align || here < whole + wav.block_align
            &&& 0 < wav.num_channels <= 65_535
            &&& 0 < wav.sample_rate
            &&& wav.block_align == wav.container_bytes * wav.num_channels
            &&& supported(wav.coding, wav.bits_per_sample, wav.container_bytes)
        }),
    decreases
            (if pos > file.len() {
                0
            } else {
                file.len() - pos + 1
            }),
{
    let id = file.subrange(pos, pos + 4);
    let len = u32_at(file, pos + 4);
    let next = next_chunk(pos + 8, len);
    if id == TAG_FMT@ {
        lemma_fmt_chunk_wf(file, pos + 8, len);
        lemma_data_chunk(file, next, fmt_chunk(file, pos + 8, len));
    } else if id == TAG_DATA@ {
        let info = fmt->0;
        let block = info.container_bytes * info.num_channels;
        assert(0 < block) by (nonlinear_arith)
            requires
                block == info.container_bytes * info.num_channels,
                0 < info.container_bytes,
                0 < info.num_channels,
        ;
        let here = file.len() - (pos + 8);
        let least = if len < here {
            len
        } else {
            here
        };
        let frames = least / block;
        assert(0 <= frames <= least && 0 <= frames * block <= least < frames * block + block)
            by (nonlinear_arith)
            requires
                frames == least / block,
                0 <= least,
                0 < block,
        ;
    } else {
        lemma_data_chunk(file, next, fmt);
    }
}

/// Once the data chunk is complete, bytes that follow it change nothing.
pub proof fn lemma_bytes_behind_the_samples_change_nothing(
    file: Seq<u8>,
    wav: OpenWav,
    extra: Seq<u8>,
)
    requires
        parse_header(file) == Some(wav),
        file.len() + extra.len() <= u64::MAX,
        ({
            let at = wav.data_start - 4;
            wav.data_start + file[at] + 0x100 * file[at + 1] + 0x1_0000 * file[at + 2] + 0x100_0000
                * file[at + 3] <= file.len()
        }),
    ensures
        parse_header(file + extra) == Some(wav),
{
    let longer = file + extra;
    assert(longer.subrange(0, 4) =~= file.subrange(0, 4));
    assert(longer.subrange(8, 12) =~= file.subrange(8, 12));
    lemma_chunks_of_a_longer_file(file, longer, 12, None);
}

proof fn lemma_chunks_of_a_longer_file(
    file: Seq<u8>,
    longer: Seq<u8>,
    pos: int,
    fmt: Option<FmtInfo>,
)
    requires
        12 <= pos,
        file.len() <= longer.len() <= u64::MAX,
        forall|i: int| 0 <= i < file.len() ==> longer[i] == #[trigger] file[i],
        fmt matches Some(info) ==> info.wf(),
        parse_chunks(file, pos, fmt) matches Some(wav) && wav.data_start + u32_at(
            file,
            wav.data_start - 4,
        ) <= file.len(),
    ensures
        parse_chunks(longer, pos, fmt) == parse_chunks(file, pos, fmt),
    decreases
            (if pos > file.len() {
                0
            } else {
                file.len() - pos + 1
            }),
{
    let id = file.subrange(pos, pos + 4);
    let len = u32_at(file, pos + 4);
    let next = next_chunk(pos + 8, len);
    assert(longer.subrange(pos, pos + 4) =~= id);
    assert(u32_at(longer, pos + 4) == len);
    if id == TAG_FMT@ {
        lemma_fmt_chunk_wf(file, pos + 8, len);
        let info = fmt_chunk(file, pos + 8, len);
        if pos + 48 <= file.len() {
            assert(longer.subrange(pos + 32, pos + 48) =~= file.subrange(pos + 32, pos + 48));
        }
        assert(fmt_chunk(longer, pos + 8, len) == info);
        lemma_chunks_of_a_longer_file(file, longer, next, info);
    } else if id == TAG_DATA@ {
        lemma_data_chunk(file, pos, fmt);
    } else {
        lemma_chunks_of_a_longer_file(file, longer, next, fmt);
    }
}

/// What a `fmt ` chunk says, by its bytes.
proof fn lemma_fmt_fields(file: Seq<u8>, at: int, len: int)
    requires
        0 <= at,
        16 <= len,
        at + len <= file.len(),
    ensures
        ({
            let tag = file[at] + 0x100 * file[at + 1];
            let channels = file[at + 2] + 0x100 * file[at + 3];
            let rate = file[at + 4] + 0x100 * file[at + 5] + 0x1_0000 * file[at + 6] + 0x100_0000
                * file[at + 7];
            let align = file[at + 12] + 0x100 * file[at + 13];
            let stated = file[at + 14] + 0x100 * file[at + 15];
            let extended = tag == 0xfffe && 40 <= len;
            let bits = if extended && stated == 0 {
                file[at + 18] + 0x100 * file[at + 19]
            } else {
                stated
            };
            let is_int = tag == 1 || (extended && file.subrange(at + 24, at + 40)
                == SUBFORMAT_PCM@);
            let is_float = tag == 3 || (extended && file.subrange(at + 24, at + 40)
                == SUBFORMAT_IEEE_FLOAT@);
            let width = if bits == 8 && is_int && align == channels {
                1int
            } else if bits == 16 && is_int && align == 2 * channels {
                2
            } else if bits == 24 && is_int && align == 3 * channels {
                3
            } else if bits == 24 && is_int && align == 4 * channels {
                4
            } else if bits == 32 && (is_int || is_float) && align == 4 * channels {
                4
            } else if bits == 64 && is_float && align == 8 * channels {
                8
            } else {
                0
            };
            if channels > 0 && rate > 0 && width > 0 {
                fmt_chunk(file, at, len) == Some(
                    FmtInfo {
                        coding: if is_float {
                            Coding::Float
                        } else {
                            Coding::Int
                        },
                        bits_per_sample: bits as u16,
                        container_bytes: width as u16,
                        num_channels: channels as u16,
                        sample_rate: rate as u32,
                    },
                )
            } else {
                fmt_chunk(file, at, len) is None
            }
        }),
{
    lemma_tags();
    let channels = u16_at(file, at + 2);
    let align = u16_at(file, at + 12);
    if channels > 0 {
        vstd::arithmetic::div_mod::lemma_fundamental_div_mod(align, channels);
        let k = align / channels;
        let r = align % channels;
        lemma_multiple(align, channels, 1);
        lemma_multiple(align, channels, 2);
        lemma_multiple(align, channels, 3);
        lemma_multiple(align, channels, 4);
        lemma_multiple(align, channels, 8);
    }
}

proof fn lemma_multiple(align: int, channels: int, k: int)
    requires
        0 < channels,
        0 <= align,
        0 < k,
    ensures
        align == k * channels <==> (align % channels == 0 && align / channels == k),
{
    vstd::arithmetic::div_mod::lemma_fundamental_div_mod(align, channels);
    if align == k * channels {
        vstd::arithmetic::div_mod::lemma_fundamental_div_mod_converse(align, channels, k, 0);
    }
    assert(channels * k == k * channels) by (nonlinear_arith);
}

/// What a file says whose `fmt ` chunk is followed by its data chunk, by its bytes. The
/// format tag and, for an extensible chunk, the GUID name the coding; the width of a
/// sample in its frame follows from the block alignment. The file opens exactly where the
/// samples are of a width that can be read, and the samples begin right behind the header
/// of the data chunk, as many frames as fit both its declared length and the file.
#[verifier::rlimit(100)]
pub proof fn lemma_a_file_says_what_its_bytes_say(file: Seq<u8>, len: int)
    requires
        file.len() <= u64::MAX,
        16 <= len,
        28 + len + len % 2 <= file.len(),
        file.subrange(0, 4) == seq![0x52u8, 0x49, 0x46, 0x46],
        file.subrange(8, 12) == seq![0x57u8, 0x41, 0x56, 0x45],
        file.subrange(12, 16) == seq![0x66u8, 0x6d, 0x74, 0x20],
        len == file[16] + 0x100 * file[17] + 0x1_0000 * file[18] + 0x100_0000 * file[19],
        file.subrange(20 + len + len % 2, 24 + len + len % 2) == seq![0x64u8, 0x61, 0x74, 0x61],
    ensures
        ({
            let tag = file[20] + 0x100 * file[21];
            let channels = file[22] + 0x100 * file[23];
            let rate = file[24] + 0x100 * file[25] + 0x1_0000 * file[26] + 0x100_0000 * file[27];
            let align = file[32] + 0x100 * file[33];
            let stated = file[34] + 0x100 * file[35];
            let extended = tag == 0xfffe && 40 <= len;
            let bits = if extended && stated == 0 {
                file[38] + 0x100 * file[39]
            } else {
                stated
            };
            let is_int = tag == 1 || (extended && file.subrange(44, 60) == seq![
                0x01u8, 0x00, 0x00, 0x00, 0x00, 0x00, 0x10, 0x00, 0x80, 0x00, 0x00, 0xaa, 0x00,
                0x38, 0x9b, 0x71,
            ]);
            let is_float = tag == 3 || (extended && file.subrange(44, 60) == seq![
                0x03u8, 0x00, 0x00, 0x00, 0x00, 0x00, 0x10, 0x00, 0x80, 0x00, 0x00, 0xaa, 0x00,
                0x38, 0x9b, 0x71,
            ]);
            let readable = {
                ||| is_int && bits == 8 && align == channels
                ||| is_int && bits == 16 && align == 2 * channels
                ||| is_int && bits == 24 && align == 3 * channels
                ||| is_int && bits == 24 && align == 4 * channels
                ||| (is_int || is_float) && bits == 32 && align == 4 * channels
                ||| is_float && bits == 64 && align == 8 * channels
            };
            let start = 28 + len + len % 2;
            let at = start - 4;
            let declared = file[at] + 0x100 * file[at + 1] + 0x1_0000 * file[at + 2] + 0x100_0000
                * file[at + 3];
            let here = file.len() - start;
            &&& parse_header(file) is Some <==> readable && channels > 0 && rate > 0
            &&& parse_header(file) matches Some(wav) ==> {
                &&& wav.num_channels == channels
                &&& wav.sample_rate == rate
                &&& wav.block_align == align
                &&& wav.bits_per_sample == bits
                &&& wav.coding == Coding::Float <==> is_float
                &&& wav.container_bytes * channels == align
                &&& wav.data_start == start
                &&& wav.num_frames * align <= declared
                &&& wav.num_frames * align <= here
                &&& declared < wav.num_frames * align + align || here < wav.num_frames * align
                    + align
            }
        }),
{
    lemma_tags();
    lemma_fmt_fields(file, 20, len);
    assert(u32_at(file, 16) == len);
    let next = next_chunk(20, len);
    assert(next == 20 + len + len % 2);
    let info = fmt_chunk(file, 20, len);
    assert(parse_header(file) == parse_chunks(file, 12, None));
    assert(parse_chunks(file, 12, None) == match info {
        None => None,
        Some(found) => parse_chunks(file, next, Some(found)),
    });
    if info is Some {
        lemma_fmt_chunk_wf(file, 20, len);
        assert(file.subrange(next, next + 4) == TAG_DATA@);
        assert(parse_chunks(file, next, info) == Some(
            opened(info->0, next + 8, u32_at(file, next + 4), file.len() as int),
        ));
        lemma_data_chunk(file, next, info);
        let found = info->0;
        let channels = found.num_channels as int;
        let width = found.container_bytes as int;
        assert(width * channels == u16_at(file, 32));
    }
}

/// A file whose samples come before any format is declined.
pub proof fn lemma_samples_without_a_format_are_declined(file: Seq<u8>)
    requires
        16 <= file.len(),
        file.subrange(12, 16) == seq![0x64u8, 0x61, 0x74, 0x61],
    ensures
        parse_header(file) is None,
{
    lemma_tags();
}

/// Where a file has several formats before its samples, the last one counts: one more in
/// front of the others moves the samples back by its length and changes nothing else, and
/// only has the file declined where it would be declined on its own.
pub proof fn lemma_the_last_format_counts(file: Seq<u8>, wav: OpenWav, chunk: Seq<u8>)
    requires
        parse_header(file) == Some(wav),
        file.len() + chunk.len() <= u64::MAX,
        8 <= chunk.len(),
        chunk.subrange(0, 4) == seq![0x66u8, 0x6d, 0x74, 0x20],
        ({
            let len = chunk[4] + 0x100 * chunk[5] + 0x1_0000 * chunk[6] + 0x100_0000 * chunk[7];
            chunk.len() == 8 + len + len % 2
        }),
    ensures
        ({
            let alone = file.take(12) + chunk + seq![0x64u8, 0x61, 0x74, 0x61, 0, 0, 0, 0];
            let both = file.take(12) + chunk + file.skip(12);
            &&& parse_header(alone) is None ==> parse_header(both) is None
            &&& parse_header(alone) is Some ==> (parse_header(both) matches Some(other) && {
                &&& other.data_start == wav.data_start + chunk.len()
                &&& other == OpenWav { data_start: other.data_start, ..wav }
            })
        }),
{
    let alone = file.take(12) + chunk + seq![0x64u8, 0x61, 0x74, 0x61, 0, 0, 0, 0];
    let both = file.take(12) + chunk + file.skip(12);
    let by = chunk.len() as int;
    let len = u32_at(chunk, 4);
    lemma_tags();
    assert(both.subrange(0, 4) =~= file.subrange(0, 4));
    assert(both.subrange(8, 12) =~= file.subrange(8, 12));
    assert(alone.subrange(0, 4) =~= file.subrange(0, 4));
    assert(alone.subrange(8, 12) =~= file.subrange(8, 12));
    assert(both.subrange(12, 16) =~= chunk.subrange(0, 4));
    assert(alone.subrange(12, 16) =~= chunk.subrange(0, 4));
    assert(u32_at(both, 16) == len && u32_at(alone, 16) == len);
    assert(next_chunk(20, len) == 12 + by);
    assert(alone.subrange(12 + by, 16 + by) =~= seq![0x64u8, 0x61, 0x74, 0x61]);
    if len >= 16 {
        lemma_fmt_fields(both, 20, len);
        lemma_fmt_fields(alone, 20, len);
        lemma_same_bytes(alone, both, 12 + by);
        if len >= 40 {
            assert(alone.subrange(44, 60) =~= both.subrange(44, 60));
        }
    }
    let info = fmt_chunk(both, 20, len);
    assert(info == fmt_chunk(alone, 20, len));
    assert(parse_header(alone) == parse_chunks(alone, 12, None));
    assert(parse_chunks(alone, 12, None) == match info {
        None => None,
        Some(found) => parse_chunks(alone, 12 + by, Some(found)),
    });
    assert(info is Some ==> parse_chunks(alone, 12 + by, info) is Some);
    assert(parse_header(both) == parse_chunks(both, 12, None));
    if info is Some {
        assert(parse_header(both) == parse_chunks(both, 12 + by, info));
        lemma_an_earlier_format_does_not_count(file, 12, None, info);
        lemma_chunks_behind(file, both, 12, by, 12, info);
        lemma_data_chunk(file, 12, None);
    }
}

proof fn lemma_same_bytes(a: Seq<u8>, b: Seq<u8>, until: int)
    requires
        0 <= until <= a.len(),
        until <= b.len(),
        a.take(until) =~= b.take(until),
    ensures
        forall|i: int| 0 <= i < until ==> #[trigger] a[i] == b[i],
{
    assert forall|i: int| 0 <= i < until implies #[trigger] a[i] == b[i] by {
        assert(a.take(until)[i] == b.take(until)[i]);
    }
}

proof fn lemma_an_earlier_format_does_not_count(
    file: Seq<u8>,
    pos: int,
    fmt: Option<FmtInfo>,
    other: Option<FmtInfo>,
)
    requires
        parse_chunks(file, pos, fmt) is Some,
        fmt is None,
    ensures
        parse_chunks(file, pos, other) == parse_chunks(file, pos, fmt),
    decreases
            (if pos > file.len() {
                0
            } else {
                file.len() - pos + 1
            }),
{
    let id = file.subrange(pos, pos + 4);
    let next = next_chunk(pos + 8, u32_at(file, pos + 4));
    if id != TAG_FMT@ && id != TAG_DATA@ {
        lemma_an_earlier_format_does_not_count(file, next, fmt, other);
    }
}

/// A chunk of an unknown kind in front of all others moves the samples back by its length,
/// padded to an even one, and changes nothing else.
pub proof fn lemma_leading_chunks_are_skipped(file: Seq<u8>, chunk: Seq<u8>)
    requires
        12 <= file.len(),
        file.len() + chunk.len() <= u64::MAX,
        8 <= chunk.len(),
        chunk.subrange(0, 4) != seq![0x66u8, 0x6d, 0x74, 0x20],
        chunk.subrange(0, 4) != seq![0x64u8, 0x61, 0x74, 0x61],
        ({
            let len = chunk[4] + 0x100 * chunk[5] + 0x1_0000 * chunk[6] + 0x100_0000 * chunk[7];
            chunk.len() == 8 + len + len % 2
        }),
    ensures
        match (parse_header(file), parse_header(file.take(12) + chunk + file.skip(12))) {
            (None, None) => true,
            (Some(wav), Some(other)) => {
                &&& other.data_start == wav.data_start + chunk.len()
                &&& other == OpenWav { data_start: other.data_start, ..wav }
            },
            _ => false,
        },
{
    lemma_tags();
    lemma_unknown_chunks_are_skipped(file, 12, chunk);
}

/// A chunk of an unknown kind between the format and the samples moves the samples back by
/// its length, padded to an even one, and changes nothing else. It can be put in wherever
/// the samples themselves could begin.
pub proof fn lemma_chunks_before_the_samples_are_skipped(file: Seq<u8>, at: int, chunk: Seq<u8>)
    requires
        12 <= at <= file.len(),
        parse_header(file.take(at) + seq![0x64u8, 0x61, 0x74, 0x61, 0, 0, 0, 0]) matches Some(cut)
            && cut.data_start == at + 8,
        file.len() + chunk.len() + 8 <= u64::MAX,
        8 <= chunk.len(),
        chunk.subrange(0, 4) != seq![0x66u8, 0x6d, 0x74, 0x20],
        chunk.subrange(0, 4) != seq![0x64u8, 0x61, 0x74, 0x61],
        ({
            let len = chunk[4] + 0x100 * chunk[5] + 0x1_0000 * chunk[6] + 0x100_0000 * chunk[7];
            chunk.len() == 8 + len + len % 2
        }),
    ensures
        match (parse_header(file), parse_header(file.take(at) + chunk + file.skip(at))) {
            (None, None) => true,
            (Some(wav), Some(other)) => {
                &&& other.data_start == wav.data_start + chunk.len()
                &&& other == OpenWav { data_start: other.data_start, ..wav }
            },
            _ => false,
        },
{
    lemma_tags();
    let cut = file.take(at) + seq![0x64u8, 0x61, 0x74, 0x61, 0, 0, 0, 0];
    lemma_same_bytes(cut, file, at);
    lemma_data_chunk(cut, 12, None);
    lemma_walk_ends_there(file, cut, 12, at, None);
    lemma_unknown_chunks_are_skipped(file, at, chunk);
}

proof fn lemma_walk_ends_there(
    file: Seq<u8>,
    cut: Seq<u8>,
    pos: int,
    at: int,
    fmt: Option<FmtInfo>,
)
    requires
        12 <= pos,
        0 <= at <= file.len(),
        cut.len() == at + 8,
        cut.len() <= u64::MAX,
        forall|i: int| 0 <= i < at ==> #[trigger] cut[i] == file[i],
        fmt matches Some(info) ==> info.wf(),
        parse_chunks(cut, pos, fmt) matches Some(wav) && wav.data_start == at + 8,
    ensures
        is_boundary(file, pos, at),
    decreases
            (if pos > cut.len() {
                0
            } else {
                cut.len() - pos + 1
            }),
{
    lemma_data_chunk(cut, pos, fmt);
    if pos < at {
        let id = cut.subrange(pos, pos + 4);
        let len = u32_at(cut, pos + 4);
        let next = next_chunk(pos + 8, len);
        if id == TAG_FMT@ {
            lemma_fmt_chunk_wf(cut, pos + 8, len);
            lemma_walk_ends_there(file, cut, next, at, fmt_chunk(cut, pos + 8, len));
            lemma_data_chunk(cut, next, fmt_chunk(cut, pos + 8, len));
        } else if id != TAG_DATA@ {
            lemma_walk_ends_there(file, cut, next, at, fmt);
            lemma_data_chunk(cut, next, fmt);
        }
        assert(next <= at);
        assert(file.subrange(pos, pos + 4) =~= id);
        assert(u32_at(file, pos + 4) == len);
    }
}

/// An integer sample is its bytes, read as a number in two's complement, over the full
/// scale of its width: `value` is the one number on the scale that agrees with the bytes
/// up to a multiple of `2^bits`. Of a container wider than the sample the first bytes
/// count. Samples of 8 bits are the exception: they are offset by 128.
pub proof fn lemma_integer_samples_are_their_bytes(bytes: Seq<u8>, bits: u16, value: int)
    requires
        ({
            ||| bits == 8 && bytes.len() == 1 && value == bytes[0] - 128
            ||| bits == 16 && bytes.len() == 2 && -0x8000 <= value < 0x8000 && (bytes[0] + 0x100
                * bytes[1] - value) % 0x1_0000 == 0
            ||| bits == 24 && 3 <= bytes.len() <= 4 && -0x80_0000 <= value < 0x80_0000 && (bytes[0]
                + 0x100 * bytes[1] + 0x1_0000 * bytes[2] - value) % 0x100_0000 == 0
            ||| bits == 32 && bytes.len() == 4 && -0x8000_0000 <= value < 0x8000_0000 && (bytes[0]
                + 0x100 * bytes[1] + 0x1_0000 * bytes[2] + 0x100_0000 * bytes[3] - value)
                % 0x1_0000_0000 == 0
        }),
    ensures
        ({
            let sample = decoded_sample(bytes, Coding::Int, bits);
            let magnitude = if value < 0 {
                -value
            } else {
                value
            };
            &&& is_negative(sample) == (value < 0)
            &&& 0 <= scale(sample)
            &&& significand(sample) * pow2((bits - 1) as nat) == magnitude * pow2(
                scale(sample) as nat,
            )
        }),
{
    assert(int_value(bytes, bits) == value);
    let magnitude = if value < 0 {
        -value
    } else {
        value
    };
    lemma_dyadic_value(value < 0, magnitude as nat, bits - 1);
}

/// A double is read as it is stored, least significant byte first.
pub proof fn lemma_doubles_are_their_bytes(bytes: Seq<u8>, value: u64)
    requires
        bytes.len() == 8,
        value == bytes[0] + 0x100 * (bytes[1] + 0x100 * (bytes[2] + 0x100 * (bytes[3] + 0x100 * (
        bytes[4] + 0x100 * (bytes[5] + 0x100 * (bytes[6] + 0x100 * bytes[7])))))),
    ensures
        decoded_sample(bytes, Coding::Float, 64) == value,
{
}

/// A single is read as it is stored, least significant byte first, and keeps its value: see
/// [`crate::sample::lemma_singles_keep_their_value`].
pub proof fn lemma_singles_are_their_bytes(bytes: Seq<u8>, narrow: u32)
    requires
        bytes.len() == 4,
        narrow == bytes[0] + 0x100 * bytes[1] + 0x1_0000 * bytes[2] + 0x100_0000 * bytes[3],
    ensures
        ({
            let sample = decoded_sample(bytes, Coding::Float, 32);
            let exp = (narrow / 0x80_0000) % 0x100;
            let frac = narrow % 0x80_0000;
            let magnitude = if exp == 0 {
                frac * pow2(925)
            } else {
                (0x80_0000 + frac) * pow2((924 + exp) as nat)
            };
            &&& is_negative(sample) == (narrow / 0x8000_0000 == 1)
            &&& is_nan(sample) == (exp == 0xff && frac > 0)
            &&& exp < 0xff ==> value(sample) == (if narrow / 0x8000_0000 == 1 {
                -magnitude
            } else {
                magnitude as int
            })
            &&& exp == 0xff && frac == 0 ==> sample == (narrow / 0x8000_0000)
                * 0x8000_0000_0000_0000 + 0x7ff0_0000_0000_0000
        }),
{
    lemma_singles_keep_their_value(narrow);
}

/// A format of fewer bytes than the fields that every format has is declined.
pub proof fn lemma_short_formats_are_declined(file: Seq<u8>)
    requires
        20 <= file.len(),
        file.subrange(12, 16) == seq![0x66u8, 0x6d, 0x74, 0x20],
        file[16] + 0x100 * file[17] + 0x1_0000 * file[18] + 0x100_0000 * file[19] < 16,
    ensures
        parse_header(file) is None,
{
    lemma_tags();
}

/// The bytes that are read next begin with the next frame and hold whole frames that were
/// asked for, at least one of them and not more than 64 KiB unless a single frame is
/// larger.
pub proof fn lemma_blocks_hold_the_next_frames(reader: FrameReader)
    requires
        reader.wf(),
        reader.frame < reader.end,
    ensures
        reader.block_offset() == reader.wav.data_start + reader.frame * reader.wav.block_align,
        1 <= reader.block_frames(),
        reader.frame + reader.block_frames() <= reader.end,
        reader.block_frames() == 1 || reader.block_frames() * reader.wav.block_align <= 65_536,
        reader.frame + reader.block_frames() == reader.end || (reader.block_frames() + 1)
            * reader.wav.block_align > 65_536,
{
    reader.lemma_block();
    let block = reader.wav.block_align as int;
    let whole = 65_536int / block;
    assert(whole * block <= 65_536 < (whole + 1) * block) by (nonlinear_arith)
        requires
            whole == 65_536int / block,
            0 < block,
    ;
    let n = reader.block_frames();
    if n == 1 {
        assert((whole + 1) * block <= (n + 1) * block || whole > 1) by (nonlinear_arith)
            requires
                0 < block,
                n == 1,
        ;
    }
    assert(n <= whole ==> n * block <= whole * block) by (nonlinear_arith)
        requires
            0 < block,
    ;
}

} // verus!
