//! A minimal wav (RIFF) decoder.
//!
//! PCM audio in a wav file is a flat byte array: frame `n` of channel `c` starts
//! at `data_start + n * block_align + c * container_bytes`. That is the whole
//! format. There are no packet timestamps, no decoder warm-up and no seek landing
//! to verify, so a frame range and a channel range are just that formula, unlike
//! the general path which has to recover both from a codec's bitstream.
//!
//! This only covers what it can decode without ambiguity: 8/16/24/32-bit integer
//! PCM (including 24-bit samples stored in a 4-byte container, which is
//! nonstandard but common) and 32/64-bit IEEE float. Anything else - ADPCM,
//! A-law/mu-law, an unrecognised format tag, or a file that is not RIFF/WAVE at
//! all - is reported as `None` so the caller can fall back to the general decoder
//! instead of failing the read outright.
//!
//! Two fields of an extensible `fmt ` chunk are deliberately not trusted the way
//! a reader might expect:
//!
//! - `dwChannelMask` is ignored entirely. A reader reports a channel count and
//!   never a speaker layout, so the mask has nothing to contribute.
//! - `wValidBitsPerSample` does not change how bytes are read. It states how many
//!   bits carry signal, and those bits are left-justified within the container, so
//!   a 32-bit container holding 24 valid bits is read as a 32-bit sample and
//!   normalizes correctly on its own. It is consulted only when `wBitsPerSample`
//!   is zero and there is nothing else to go on.
//!
//! The decoder does no reading itself: [`HeaderParser`] and [`FrameReader`] name
//! the bytes they need next and are handed those bytes, so that what a read costs
//! is set by the range asked for and not by the length of the file around it.

use vstd::prelude::*;

use super::{
    SUBFORMAT_IEEE_FLOAT, SUBFORMAT_PCM, TAG_DATA, TAG_FMT, TAG_RIFF, TAG_WAVE,
    WAVE_FORMAT_EXTENSIBLE, WAVE_FORMAT_IEEE_FLOAT, WAVE_FORMAT_PCM,
};
use crate::bytes::{guid_at, load_u16, load_u32, load_u64, tag_at, u16_at, u32_at, u64_at};
use crate::reader::prealloc_len;
use crate::sample::{ratio, ratio_bits, widen, widened};

verus! {

/// Whether the container holds integer or floating point samples.
#[derive(Debug, Clone, Copy, PartialEq, Eq, Structural)]
pub enum Coding {
    Int,
    Float,
}

/// The fields of the `fmt ` chunk this decoder needs, resolved against whichever
/// of the three `fmt ` layouts the file used.
#[derive(Debug, Clone, Copy, PartialEq, Eq, Structural)]
pub struct FmtInfo {
    pub coding: Coding,
    /// Bits that are meaningful within the container, e.g. 24 for a sample stored
    /// in a 4-byte container.
    pub bits_per_sample: u16,
    /// Bytes occupied by one sample, which can exceed `bits_per_sample / 8`.
    pub container_bytes: u16,
    pub num_channels: u16,
    pub sample_rate: u32,
}

/// A wav file whose header has been parsed and is ready to have frames read from
/// it.
#[derive(Debug, Clone, Copy, PartialEq, Eq, Structural)]
pub struct OpenWav {
    pub num_channels: usize,
    pub sample_rate: u32,
    pub coding: Coding,
    pub bits_per_sample: u16,
    pub container_bytes: u16,
    /// `container_bytes * num_channels`, the byte stride of one frame.
    pub block_align: u64,
    /// Byte offset of the first sample in `data`.
    pub data_start: u64,
    pub num_frames: u64,
}

/// The sample widths that can be decoded: bits and bytes of the container.
pub open spec fn supported(coding: Coding, bits: u16, container: u16) -> bool {
    match coding {
        Coding::Int => (bits == 8 && container == 1) || (bits == 16 && container == 2) || (bits
            == 24 && container == 3) || (bits == 24 && container == 4) || (bits == 32 && container
            == 4),
        Coding::Float => (bits == 32 && container == 4) || (bits == 64 && container == 8),
    }
}

impl FmtInfo {
    /// Whether the fields describe samples that can be decoded.
    pub open spec fn wf(self) -> bool {
        &&& supported(self.coding, self.bits_per_sample, self.container_bytes)
        &&& self.num_channels > 0
        &&& self.sample_rate > 0
        &&& self.container_bytes * self.num_channels <= u16::MAX
    }
}

impl OpenWav {
    /// Whether the fields describe frames that can be read.
    pub open spec fn wf(self) -> bool {
        &&& supported(self.coding, self.bits_per_sample, self.container_bytes)
        &&& 0 < self.num_channels <= u16::MAX
        &&& self.sample_rate > 0
        &&& self.block_align == self.container_bytes * self.num_channels
        &&& self.block_align <= u16::MAX
        &&& self.fits(u64::MAX as int)
    }

    /// Whether every frame lies within a file of `file_len` bytes.
    pub open spec fn fits(self, file_len: int) -> bool {
        self.data_start + self.num_frames * self.block_align <= file_len
    }
}

/// What a resolved `fmt ` chunk describes, if it can be decoded. The container
/// width follows from `nBlockAlign`, which is what actually determines the byte
/// stride.
pub open spec fn fmt_info(
    coding: Coding,
    bits_per_sample: u16,
    block_align: u16,
    num_channels: u16,
    sample_rate: u32,
) -> Option<FmtInfo> {
    if num_channels == 0 || sample_rate == 0 || block_align == 0 || block_align % num_channels
        != 0 {
        None
    } else if !supported(coding, bits_per_sample, block_align / num_channels) {
        None
    } else {
        Some(
            FmtInfo {
                coding,
                bits_per_sample,
                container_bytes: block_align / num_channels,
                num_channels,
                sample_rate,
            },
        )
    }
}

/// The coding a `SubFormat` GUID stands for.
pub open spec fn guid_coding(guid: Seq<u8>) -> Option<Coding> {
    if guid == SUBFORMAT_PCM@ {
        Some(Coding::Int)
    } else if guid == SUBFORMAT_IEEE_FLOAT@ {
        Some(Coding::Float)
    } else {
        None
    }
}

/// What the `fmt ` chunk whose `len` bytes of body start at `at` describes.
/// `None` for a format tag or bit depth that is not handled, and for a chunk the
/// file ends within.
pub open spec fn fmt_chunk(file: Seq<u8>, at: int, len: int) -> Option<FmtInfo> {
    if len < 16 || at + 16 > file.len() {
        None
    } else {
        let tag = u16_at(file, at);
        let num_channels = u16_at(file, at + 2) as u16;
        let sample_rate = u32_at(file, at + 4) as u32;
        let block_align = u16_at(file, at + 12) as u16;
        let bits = u16_at(file, at + 14) as u16;
        if tag == WAVE_FORMAT_PCM {
            fmt_info(Coding::Int, bits, block_align, num_channels, sample_rate)
        } else if tag == WAVE_FORMAT_IEEE_FLOAT {
            fmt_info(Coding::Float, bits, block_align, num_channels, sample_rate)
        } else if tag == WAVE_FORMAT_EXTENSIBLE && len >= 40 && at + 40 <= file.len() {
            let valid_bits = u16_at(file, at + 18) as u16;
            match guid_coding(file.subrange(at + 24, at + 40)) {
                None => None,
                Some(coding) => fmt_info(
                    coding,
                    if bits == 0 {
                        valid_bits
                    } else {
                        bits
                    },
                    block_align,
                    num_channels,
                    sample_rate,
                ),
            }
        } else {
            None
        }
    }
}

/// The frames of a data chunk of `len` declared bytes at `start`, in a file of
/// `file_len` bytes. A streaming writer can leave the size field wrong, so the
/// file length bounds it, and a trailing partial frame is dropped.
pub open spec fn opened(fmt: FmtInfo, start: int, len: int, file_len: int) -> OpenWav {
    let available = if file_len > start {
        file_len - start
    } else {
        0
    };
    let data_len = if len < available {
        len
    } else {
        available
    };
    let block_align = fmt.container_bytes * fmt.num_channels;
    OpenWav {
        num_channels: fmt.num_channels as usize,
        sample_rate: fmt.sample_rate,
        coding: fmt.coding,
        bits_per_sample: fmt.bits_per_sample,
        container_bytes: fmt.container_bytes,
        block_align: block_align as u64,
        data_start: start as u64,
        num_frames: (data_len / block_align) as u64,
    }
}

/// Where the chunk after one with `len` bytes of body at `at` starts. Chunk
/// bodies are padded to an even length.
pub open spec fn next_chunk(at: int, len: int) -> int {
    at + len + len % 2
}

/// The outcome of walking the chunks from `pos` on, after `fmt` was found.
pub open spec fn parse_chunks(file: Seq<u8>, pos: int, fmt: Option<FmtInfo>) -> Option<OpenWav>
    decreases
            (if pos > file.len() {
                0
            } else {
                file.len() - pos + 1
            }),
{
    if pos < 0 || pos + 8 > file.len() {
        None
    } else {
        let id = file.subrange(pos, pos + 4);
        let len = u32_at(file, pos + 4);
        if id == TAG_FMT@ {
            match fmt_chunk(file, pos + 8, len) {
                None => None,
                Some(info) => parse_chunks(file, next_chunk(pos + 8, len), Some(info)),
            }
        } else if id == TAG_DATA@ {
            match fmt {
                None => None,
                Some(info) => Some(opened(info, pos + 8, len, file.len() as int)),
            }
        } else {
            parse_chunks(file, next_chunk(pos + 8, len), fmt)
        }
    }
}

/// What the decoder makes of a file: the frames it can read, or `None` for a
/// file that is not RIFF/WAVE, an unsupported sample encoding, or a header that
/// ends unexpectedly.
pub open spec fn parse_header(file: Seq<u8>) -> Option<OpenWav> {
    if file.len() < 12 || file.subrange(0, 4) != TAG_RIFF@ || file.subrange(8, 12) != TAG_WAVE@ {
        None
    } else {
        parse_chunks(file, 12, None)
    }
}

/// Validates a resolved `fmt ` chunk and derives the container width from
/// `nBlockAlign`, which is what actually determines the byte stride, since
/// `nBlockAlign` can describe a container wider than `bits_per_sample` implies
/// (24-bit samples in a 4-byte container).
pub fn build_fmt_info(
    coding: Coding,
    bits_per_sample: u16,
    block_align: u16,
    num_channels: u16,
    sample_rate: u32,
) -> (info: Option<FmtInfo>)
    ensures
        info == fmt_info(coding, bits_per_sample, block_align, num_channels, sample_rate),
        info matches Some(i) ==> i.wf(),
{
    // A zero sample rate cannot describe a timeline, and it divides by zero as
    // soon as a frame position or a resampling ratio is derived from it.
    if num_channels == 0 || sample_rate == 0 || block_align == 0 || block_align % num_channels
        != 0 {
        return None;
    }
    let container_bytes: u16 = block_align / num_channels;
    proof {
        lemma_container(block_align as int, num_channels as int);
    }

    let supported = match coding {
        Coding::Int => (bits_per_sample == 8 && container_bytes == 1) || (bits_per_sample == 16
            && container_bytes == 2) || (bits_per_sample == 24 && container_bytes == 3) || (
        bits_per_sample == 24 && container_bytes == 4) || (bits_per_sample == 32
            && container_bytes == 4),
        Coding::Float => (bits_per_sample == 32 && container_bytes == 4) || (bits_per_sample == 64
            && container_bytes == 8),
    };
    if !supported {
        return None;
    }
    Some(FmtInfo { coding, bits_per_sample, container_bytes, num_channels, sample_rate })
}

proof fn lemma_container(block_align: int, num_channels: int)
    requires
        num_channels > 0,
        block_align % num_channels == 0,
    ensures
        (block_align / num_channels) * num_channels == block_align,
{
    vstd::arithmetic::div_mod::lemma_fundamental_div_mod(block_align, num_channels);
    assert((block_align / num_channels) * num_channels == num_channels * (block_align
        / num_channels)) by (nonlinear_arith);
}

/// Reads a `fmt ` chunk and resolves it to the fields this decoder needs.
///
/// `body` holds the chunk from its first byte on, as much as is needed or there
/// is: 16 bytes, and 40 for an extensible chunk. `chunk_len` is the declared
/// length.
pub fn read_fmt_chunk(body: &[u8], chunk_len: u32) -> (info: Option<FmtInfo>)
    ensures
        info == fmt_chunk(body@, 0, chunk_len as int),
        info matches Some(i) ==> i.wf(),
{
    // A minimum chunk length of 16 is assumed for every `fmt ` layout: the
    // 14-byte `WAVEFORMAT` plus `wBitsPerSample`.
    if chunk_len < 16 || body.len() < 16 {
        return None;
    }
    let format_tag: u16 = load_u16(body, 0);
    let num_channels: u16 = load_u16(body, 2);
    let sample_rate: u32 = load_u32(body, 4);
    // nAvgBytesPerSec at 8 is redundant with block_align and sample_rate and is
    // not needed to decode the data.
    let block_align: u16 = load_u16(body, 12);
    let bits_per_sample: u16 = load_u16(body, 14);

    if format_tag == WAVE_FORMAT_PCM {
        return build_fmt_info(
            Coding::Int,
            bits_per_sample,
            block_align,
            num_channels,
            sample_rate,
        );
    }
    if format_tag == WAVE_FORMAT_IEEE_FLOAT {
        return build_fmt_info(
            Coding::Float,
            bits_per_sample,
            block_align,
            num_channels,
            sample_rate,
        );
    }
    // ADPCM, A-law/mu-law and anything else are not decoded here, and the
    // extension takes a chunk of at least 40 bytes.

    if format_tag != WAVE_FORMAT_EXTENSIBLE || chunk_len < 40 || body.len() < 40 {
        return None;
    }
    // cbSize(2) + wValidBitsPerSample(2) + dwChannelMask(4) + SubFormat(16).

    let valid_bits_per_sample: u16 = load_u16(body, 18);
    let coding = if guid_at(body, 24, SUBFORMAT_PCM) {
        Coding::Int
    } else if guid_at(body, 24, SUBFORMAT_IEEE_FLOAT) {
        Coding::Float
    } else {
        return None;
    };
    // `wBitsPerSample` is what decides how the bytes are read. A zero there is the
    // one case where the valid-bits count is the only figure left.
    let bits: u16 = if bits_per_sample == 0 {
        valid_bits_per_sample
    } else {
        bits_per_sample
    };
    build_fmt_info(coding, bits, block_align, num_channels, sample_rate)
}

/// What [`HeaderParser`] needs next.
#[derive(Debug, Clone, Copy, PartialEq, Eq, Structural)]
pub enum Request {
    /// The `len` bytes at `offset`.
    Read { offset: u64, len: usize },
    /// The length of the file.
    Length,
    /// Nothing, the outcome is known.
    Nothing,
}

/// How far [`HeaderParser`] has come.
#[allow(inconsistent_fields)]
#[derive(Debug)]
pub enum Stage {
    /// Waiting for the RIFF header.
    Riff,
    /// Waiting for the chunk header at `pos`.
    Chunk { pos: u64, fmt: Option<FmtInfo> },
    /// Waiting for the shared fields of the `fmt ` chunk at `at`.
    FmtBase { at: u64, len: u32 },
    /// Waiting for the extension of the `fmt ` chunk at `at`.
    FmtExtension { at: u64, len: u32, base: Vec<u8> },
    /// Waiting for the file length, with the samples at `at`.
    Data { at: u64, len: u32, fmt: FmtInfo },
    /// The outcome is known.
    Done { wav: Option<OpenWav> },
}

/// Walks the chunks of a file until the samples are found, or a reason to give up
/// is found first.
///
/// The parser asks for what it needs with [`HeaderParser::request`], and is handed
/// it with one of the `feed` methods.
#[derive(Debug)]
pub struct HeaderParser {
    pub stage: Stage,
}

/// The outcome after a `fmt ` chunk with `len` bytes of body at `at`.
pub open spec fn after_fmt(file: Seq<u8>, at: int, len: int, info: Option<FmtInfo>) -> Option<
    OpenWav,
> {
    match info {
        None => None,
        Some(info) => parse_chunks(file, next_chunk(at, len), Some(info)),
    }
}

/// A `fmt ` chunk reads the same through a window onto its first bytes: the
/// shared fields are all that matter, except for an extensible chunk.
proof fn lemma_fmt_window(file: Seq<u8>, at: int, len: int)
    requires
        0 <= at,
        at + 16 <= file.len(),
    ensures
        u16_at(file, at) == u16_at(file.subrange(at, at + 16), 0),
        u16_at(file, at) != WAVE_FORMAT_EXTENSIBLE || len < 40 ==> fmt_chunk(file, at, len)
            == fmt_chunk(file.subrange(at, at + 16), 0, len),
        at + 40 <= file.len() ==> fmt_chunk(file, at, len) == fmt_chunk(
            file.subrange(at, at + 40),
            0,
            len,
        ),
{
    let base = file.subrange(at, at + 16);
    assert(forall|i: int| 0 <= i < 16 ==> base[i] == #[trigger] file[at + i]);
    if at + 40 <= file.len() {
        let whole = file.subrange(at, at + 40);
        assert(whole.subrange(24, 40) =~= file.subrange(at + 24, at + 40));
        assert(forall|i: int| 0 <= i < 40 ==> whole[i] == #[trigger] file[at + i]);
    }
}

/// Where the chunk after this one starts, unless that is further than a file can
/// reach.
fn after_chunk(at: u64, len: u32) -> (pos: Option<u64>)
    ensures
        match pos {
            Some(p) => p == next_chunk(at as int, len as int),
            None => next_chunk(at as int, len as int) > u64::MAX,
        },
{
    let skip: u64 = len as u64 + (len % 2) as u64;
    at.checked_add(skip)
}

/// Resolves the data chunk against the length of the file.
fn open_data(fmt: &FmtInfo, start: u64, len: u32, file_len: u64) -> (wav: OpenWav)
    requires
        fmt.wf(),
    ensures
        wav == opened(*fmt, start as int, len as int, file_len as int),
        wav.wf(),
{
    // A streaming writer can leave the data or RIFF size field wrong, for example
    // 0xFFFFFFFF when the final length was never patched in. The actual file
    // length is the only figure that cannot lie.
    let available: u64 = file_len.saturating_sub(start);
    let data_len: u64 = if (len as u64) < available {
        len as u64
    } else {
        available
    };
    let block_align: u64 = (fmt.container_bytes as u64) * (fmt.num_channels as u64);
    assert(0 < fmt.container_bytes * fmt.num_channels) by (nonlinear_arith)
        requires
            0 < fmt.container_bytes,
            0 < fmt.num_channels,
    ;
    assert(0 <= data_len as int / block_align as int <= data_len && (data_len as int
        / block_align as int) * block_align <= data_len) by (nonlinear_arith)
        requires
            0 < block_align,
            0 <= data_len,
    ;
    OpenWav {
        num_channels: fmt.num_channels as usize,
        sample_rate: fmt.sample_rate,
        coding: fmt.coding,
        bits_per_sample: fmt.bits_per_sample,
        container_bytes: fmt.container_bytes,
        block_align,
        data_start: start,
        // A trailing partial frame is dropped rather than treated as an error:
        // one incomplete frame is not a reason to refuse the rest of the file.
        num_frames: data_len / block_align,
    }
}

impl HeaderParser {
    /// Whether the parser is in a state it can reach.
    pub open spec fn wf(self) -> bool {
        match self.stage {
            Stage::Riff => true,
            Stage::Chunk { pos, fmt } => fmt matches Some(info) ==> info.wf(),
            Stage::FmtBase { at, len } => 16 <= len && at + 16 <= u64::MAX,
            Stage::FmtExtension { at, len, base } => {
                &&& 40 <= len
                &&& at + 16 <= u64::MAX
                &&& base@.len() == 16
                &&& u16_at(base@, 0) == WAVE_FORMAT_EXTENSIBLE
            },
            Stage::Data { at, len, fmt } => fmt.wf(),
            Stage::Done { wav } => wav matches Some(w) ==> w.wf(),
        }
    }

    /// Whether `file` can be the file that is being parsed.
    pub open spec fn agrees(self, file: Seq<u8>) -> bool {
        &&& file.len() <= u64::MAX
        &&& self.stage matches Stage::FmtExtension { at, len, base } ==> {
            &&& at + 16 <= file.len()
            &&& base@ == file.subrange(at as int, at + 16)
        }
    }

    /// The outcome for `file` from here on.
    pub open spec fn outcome(self, file: Seq<u8>) -> Option<OpenWav> {
        match self.stage {
            Stage::Riff => parse_header(file),
            Stage::Chunk { pos, fmt } => parse_chunks(file, pos as int, fmt),
            Stage::FmtBase { at, len } => after_fmt(
                file,
                at as int,
                len as int,
                fmt_chunk(file, at as int, len as int),
            ),
            Stage::FmtExtension { at, len, base } => after_fmt(
                file,
                at as int,
                len as int,
                fmt_chunk(file, at as int, len as int),
            ),
            Stage::Data { at, len, fmt } => Some(
                opened(fmt, at as int, len as int, file.len() as int),
            ),
            Stage::Done { wav } => wav,
        }
    }

    /// How far into the file the parser is, in units that grow with every step.
    pub open spec fn progress(self) -> int {
        match self.stage {
            Stage::Riff => 0,
            Stage::Chunk { pos, fmt } => 2 * pos,
            Stage::FmtBase { at, len } => 2 * at,
            Stage::FmtExtension { at, len, base } => 2 * at + 1,
            Stage::Data { at, len, fmt } => 2 * at,
            Stage::Done { wav } => 0,
        }
    }

    /// What the parser needs next.
    pub open spec fn needs(self) -> Request {
        match self.stage {
            Stage::Riff => Request::Read { offset: 0, len: 12 },
            Stage::Chunk { pos, fmt } => Request::Read { offset: pos, len: 8 },
            Stage::FmtBase { at, len } => Request::Read { offset: at, len: 16 },
            Stage::FmtExtension { at, len, base } => Request::Read {
                offset: (at + 16) as u64,
                len: 24,
            },
            Stage::Data { at, len, fmt } => Request::Length,
            Stage::Done { wav } => Request::Nothing,
        }
    }

    /// A parser at the beginning of a file.
    pub fn new() -> (parser: Self)
        ensures
            parser.wf(),
            parser.progress() == 0,
            parser.stage is Riff,
            forall|file: Seq<u8>| #[trigger] parser.outcome(file) == parse_header(file),
            forall|file: Seq<u8>|
                file.len() <= u64::MAX ==> #[trigger] parser.agrees(file),
    {
        HeaderParser { stage: Stage::Riff }
    }

    /// What the parser needs next.
    pub fn request(&self) -> (request: Request)
        requires
            self.wf(),
        ensures
            request == self.needs(),
    {
        match &self.stage {
            Stage::Riff => Request::Read { offset: 0, len: 12 },
            Stage::Chunk { pos, fmt: _ } => Request::Read { offset: *pos, len: 8 },
            Stage::FmtBase { at, len: _ } => Request::Read { offset: *at, len: 16 },
            Stage::FmtExtension { at, len: _, base: _ } => Request::Read {
                offset: *at + 16,
                len: 24,
            },
            Stage::Data { at: _, len: _, fmt: _ } => Request::Length,
            Stage::Done { wav: _ } => Request::Nothing,
        }
    }

    /// What the file turned out to be, once nothing more is needed.
    pub fn wav(&self) -> (wav: Option<OpenWav>)
        requires
            self.wf(),
            self.needs() is Nothing,
        ensures
            forall|file: Seq<u8>| #[trigger] self.outcome(file) == wav,
            wav matches Some(w) ==> w.wf(),
    {
        match &self.stage {
            Stage::Done { wav } => *wav,
            _ => None,
        }
    }

    /// Hands the parser the bytes it asked for.
    ///
    /// For every file that has these bytes at the requested place the outcome
    /// stays what it was.
    pub fn feed(&mut self, bytes: &[u8])
        requires
            old(self).wf(),
            old(self).needs() matches Request::Read { offset, len } && len == bytes@.len(),
        ensures
            final(self).wf(),
            final(self).stage is Done || final(self).progress() > old(self).progress(),
            old(self).needs() matches Request::Read { offset, len } ==> forall|file: Seq<u8>|
                old(self).agrees(file) && offset + len <= file.len() && file.subrange(
                    offset as int,
                    offset + len,
                ) == bytes@ ==> final(self).agrees(file) && #[trigger] final(self).outcome(file)
                    == old(self).outcome(file),
    {
        let next = match &self.stage {
            Stage::Riff => riff_stage(bytes),
            Stage::Chunk { pos, fmt } => chunk_stage(*pos, fmt, bytes),
            Stage::FmtBase { at, len } => fmt_base_stage(*at, *len, bytes),
            Stage::FmtExtension { at, len, base } => fmt_extension_stage(*at, *len, base, bytes),
            // Neither stage asks for bytes.
            Stage::Data { at: _, len: _, fmt: _ } => Stage::Done { wav: None },
            Stage::Done { wav: _ } => Stage::Done { wav: None },
        };
        self.stage = next;
    }

    /// Tells the parser that the file ends before the bytes it asked for.
    ///
    /// A header truncated mid-parse is not different, as far as this decoder is
    /// concerned, from one that was never valid.
    pub fn feed_eof(&mut self)
        requires
            old(self).wf(),
            old(self).needs() is Read,
        ensures
            final(self).wf(),
            final(self).stage == (Stage::Done { wav: None }),
            old(self).needs() matches Request::Read { offset, len } ==> forall|file: Seq<u8>|
                old(self).agrees(file) && file.len() < offset + len ==> final(self).agrees(file)
                    && #[trigger] final(self).outcome(file) == old(self).outcome(file),
    {
        self.stage = Stage::Done { wav: None };
        proof {
            let before = *old(self);
            assert forall|file: Seq<u8>|
                (before.needs() matches Request::Read { offset, len } && before.agrees(file)
                    && file.len() < offset + len) implies #[trigger] self.outcome(file)
                == before.outcome(file) by {
                if let Stage::FmtExtension { at, len, base } = before.stage {
                    lemma_fmt_window(file, at as int, len as int);
                }
            }
        }
    }

    /// Tells the parser how long the file is.
    pub fn feed_length(&mut self, file_len: u64)
        requires
            old(self).wf(),
            old(self).needs() is Length,
        ensures
            final(self).wf(),
            final(self).stage is Done,
            forall|file: Seq<u8>|
                old(self).agrees(file) && file.len() == file_len ==> final(self).agrees(file)
                    && #[trigger] final(self).outcome(file) == old(self).outcome(file),
    {
        let next = match &self.stage {
            Stage::Data { at, len, fmt } => Stage::Done {
                wav: Some(open_data(fmt, *at, *len, file_len)),
            },
            // No other stage asks for the length.
            _ => Stage::Done { wav: None },
        };
        self.stage = next;
    }
}

/// The stage after the RIFF header was read.
fn riff_stage(bytes: &[u8]) -> (stage: Stage)
    requires
        bytes@.len() == 12,
    ensures
        ({
            let after = HeaderParser { stage };
            &&& after.wf()
            &&& stage is Done || after.progress() > 0
            &&& forall|file: Seq<u8>|
                12 <= file.len() <= u64::MAX && file.subrange(0, 12) == bytes@ ==> after.agrees(
                    file,
                ) && #[trigger] after.outcome(file) == parse_header(file)
        }),
{
    let stage = if tag_at(bytes, 0, TAG_RIFF) && tag_at(bytes, 8, TAG_WAVE) {
        Stage::Chunk { pos: 12, fmt: None }
    } else {
        Stage::Done { wav: None }
    };
    proof {
        let after = HeaderParser { stage };
        assert forall|file: Seq<u8>|
            12 <= file.len() <= u64::MAX && file.subrange(0, 12) == bytes@ implies after.agrees(
            file,
        ) && #[trigger] after.outcome(file) == parse_header(file) by {
            assert(file.subrange(0, 4) =~= bytes@.subrange(0, 4));
            assert(file.subrange(8, 12) =~= bytes@.subrange(8, 12));
        }
    }
    stage
}

/// The stage after the shared fields of the `fmt ` chunk at `at` were read.
fn fmt_base_stage(at: u64, len: u32, bytes: &[u8]) -> (stage: Stage)
    requires
        16 <= len,
        at + 16 <= u64::MAX,
        bytes@.len() == 16,
    ensures
        ({
            let after = HeaderParser { stage };
            &&& after.wf()
            &&& stage is Done || after.progress() > 2 * at
            &&& forall|file: Seq<u8>|
                at + 16 <= file.len() <= u64::MAX && file.subrange(at as int, at + 16) == bytes@
                    ==> after.agrees(file) && #[trigger] after.outcome(file) == after_fmt(
                    file,
                    at as int,
                    len as int,
                    fmt_chunk(file, at as int, len as int),
                )
        }),
{
    let stage = if load_u16(bytes, 0) == WAVE_FORMAT_EXTENSIBLE && len >= 40 {
        let mut base: Vec<u8> = Vec::new();
        base.extend_from_slice(bytes);
        assert(base@ =~= bytes@);
        Stage::FmtExtension { at, len, base }
    } else {
        fmt_stage(at, len, bytes)
    };
    proof {
        let after = HeaderParser { stage };
        assert forall|file: Seq<u8>|
            at + 16 <= file.len() <= u64::MAX && file.subrange(at as int, at + 16)
                == bytes@ implies after.agrees(file) && #[trigger] after.outcome(file)
            == after_fmt(
            file,
            at as int,
            len as int,
            fmt_chunk(file, at as int, len as int),
        ) by {
            lemma_fmt_window(file, at as int, len as int);
        }
    }
    stage
}

/// The stage after the extension of the `fmt ` chunk at `at` was read.
fn fmt_extension_stage(at: u64, len: u32, base: &Vec<u8>, bytes: &[u8]) -> (stage: Stage)
    requires
        40 <= len,
        base@.len() == 16,
        bytes@.len() == 24,
    ensures
        ({
            let after = HeaderParser { stage };
            &&& after.wf()
            &&& stage is Done || after.progress() > 2 * at + 1
            &&& forall|file: Seq<u8>|
                at + 40 <= file.len() <= u64::MAX && file.subrange(at as int, at + 16) == base@
                    && file.subrange(at + 16, at + 40) == bytes@ ==> after.agrees(file)
                    && #[trigger] after.outcome(file) == after_fmt(
                    file,
                    at as int,
                    len as int,
                    fmt_chunk(file, at as int, len as int),
                )
        }),
{
    let mut body: Vec<u8> = Vec::new();
    body.extend_from_slice(base.as_slice());
    body.extend_from_slice(bytes);
    assert(body@ =~= base@ + bytes@);
    let stage = fmt_stage(at, len, body.as_slice());
    proof {
        let after = HeaderParser { stage };
        assert forall|file: Seq<u8>|
            at + 40 <= file.len() <= u64::MAX && file.subrange(at as int, at + 16) == base@
                && file.subrange(at + 16, at + 40) == bytes@ implies after.agrees(file)
            && #[trigger] after.outcome(file) == after_fmt(
            file,
            at as int,
            len as int,
            fmt_chunk(file, at as int, len as int),
        ) by {
            lemma_fmt_window(file, at as int, len as int);
            assert(file.subrange(at as int, at + 40) =~= base@ + bytes@);
        }
    }
    stage
}

/// The stage after the header of the chunk at `pos` was read.
#[verifier::rlimit(40)]
fn chunk_stage(pos: u64, fmt: &Option<FmtInfo>, bytes: &[u8]) -> (stage: Stage)
    requires
        *fmt matches Some(info) ==> info.wf(),
        bytes@.len() == 8,
    ensures
        ({
            let after = HeaderParser { stage };
            &&& after.wf()
            &&& stage is Done || after.progress() > 2 * pos
            &&& forall|file: Seq<u8>|
                file.len() <= u64::MAX && pos + 8 <= file.len() && file.subrange(
                    pos as int,
                    pos + 8,
                ) == bytes@ ==> after.agrees(file) && #[trigger] after.outcome(file)
                    == parse_chunks(file, pos as int, *fmt)
        }),
{
    let len: u32 = load_u32(bytes, 4);
    let stage = match pos.checked_add(8) {
        None => Stage::Done { wav: None },
        Some(at) => {
            if tag_at(bytes, 0, TAG_FMT) {
                // The shared fields take 16 bytes.
                if len < 16 || at > 0xffff_ffff_ffff_ffff - 16 {
                    Stage::Done { wav: None }
                } else {
                    Stage::FmtBase { at, len }
                }
            } else if tag_at(bytes, 0, TAG_DATA) {
                // The fmt chunk must precede the data chunk; a file that gets this
                // backwards is not one we can make sense of here.
                match fmt {
                    None => Stage::Done { wav: None },
                    Some(info) => Stage::Data { at, len, fmt: *info },
                }
            } else {
                // Any other chunk, including "fact", is skipped: for PCM and IEEE
                // float the frame count is fully determined by the data chunk.
                match after_chunk(at, len) {
                    None => Stage::Done { wav: None },
                    Some(next) => Stage::Chunk { pos: next, fmt: *fmt },
                }
            }
        },
    };
    proof {
        let after = HeaderParser { stage };
        assert forall|file: Seq<u8>|
            file.len() <= u64::MAX && pos + 8 <= file.len() && file.subrange(pos as int, pos + 8)
                == bytes@ implies after.agrees(file) && #[trigger] after.outcome(file)
            == parse_chunks(file, pos as int, *fmt) by {
            assert(file.subrange(pos as int, pos + 4) =~= bytes@.subrange(0, 4));
            assert(forall|i: int| 0 <= i < 8 ==> bytes@[i] == #[trigger] file[pos + i]);
            assert(u32_at(file, pos + 4) == u32_at(bytes@, 4));
            reveal_with_fuel(parse_chunks, 2);
        }
    }
    stage
}

/// The stage after as much of the `fmt ` chunk at `at` was read as it takes.
fn fmt_stage(at: u64, len: u32, body: &[u8]) -> (stage: Stage)
    requires
        16 <= len,
    ensures
        ({
            let after = HeaderParser { stage };
            &&& after.wf()
            &&& stage is Done || (stage is Chunk && after.progress() >= 2 * (at + 16))
            &&& forall|file: Seq<u8>|
                file.len() <= u64::MAX && fmt_chunk(file, at as int, len as int) == fmt_chunk(
                    body@,
                    0,
                    len as int,
                ) ==> after.agrees(file) && #[trigger] after.outcome(file) == after_fmt(
                    file,
                    at as int,
                    len as int,
                    fmt_chunk(file, at as int, len as int),
                )
        }),
{
    match read_fmt_chunk(body, len) {
        // An unsupported or malformed fmt chunk ends the attempt outright.
        None => Stage::Done { wav: None },
        Some(info) => match after_chunk(at, len) {
            None => Stage::Done { wav: None },
            Some(pos) => Stage::Chunk { pos, fmt: Some(info) },
        },
    }
}

/// What [`parse_header`] finds can be read, and lies within the file.
pub proof fn lemma_parsed_wav_fits(file: Seq<u8>)
    requires
        file.len() <= u64::MAX,
    ensures
        parse_header(file) matches Some(wav) ==> wav.wf() && wav.fits(file.len() as int),
{
    lemma_parsed_chunks_fit(file, 12, None);
}

proof fn lemma_parsed_chunks_fit(file: Seq<u8>, pos: int, fmt: Option<FmtInfo>)
    requires
        file.len() <= u64::MAX,
        fmt matches Some(info) ==> info.wf(),
    ensures
        parse_chunks(file, pos, fmt) matches Some(wav) ==> wav.wf() && wav.fits(
            file.len() as int,
        ),
    decreases
            (if pos > file.len() {
                0
            } else {
                file.len() - pos + 1
            }),
{
    if 0 <= pos && pos + 8 <= file.len() {
        let len = u32_at(file, pos + 4);
        let id = file.subrange(pos, pos + 4);
        if id == TAG_FMT@ {
            lemma_fmt_chunk_wf(file, pos + 8, len);
            if let Some(info) = fmt_chunk(file, pos + 8, len) {
                lemma_parsed_chunks_fit(file, next_chunk(pos + 8, len), Some(info));
            }
        } else if id == TAG_DATA@ {
            if let Some(info) = fmt {
                lemma_opened_fits(info, pos + 8, len, file.len() as int);
            }
        } else {
            lemma_parsed_chunks_fit(file, next_chunk(pos + 8, len), fmt);
        }
    }
}

/// A `fmt ` chunk that is accepted describes samples that can be decoded.
pub proof fn lemma_fmt_chunk_wf(file: Seq<u8>, at: int, len: int)
    ensures
        fmt_chunk(file, at, len) matches Some(info) ==> info.wf(),
{
    if len >= 16 && at + 16 <= file.len() {
        let num_channels = u16_at(file, at + 2) as u16;
        let block_align = u16_at(file, at + 12) as u16;
        if num_channels != 0 && block_align % num_channels == 0 {
            lemma_container(block_align as int, num_channels as int);
        }
    }
}

proof fn lemma_opened_fits(fmt: FmtInfo, start: int, len: int, file_len: int)
    requires
        fmt.wf(),
        0 <= len <= u32::MAX,
        0 <= start <= file_len <= u64::MAX,
    ensures
        opened(fmt, start, len, file_len).wf(),
        opened(fmt, start, len, file_len).fits(file_len),
{
    let block = fmt.container_bytes * fmt.num_channels;
    let available = file_len - start;
    let data_len = if len < available {
        len
    } else {
        available
    };
    assert(0 < block) by (nonlinear_arith)
        requires
            block == fmt.container_bytes * fmt.num_channels,
            0 < fmt.container_bytes,
            0 < fmt.num_channels,
    ;
    assert(0 <= data_len / block <= data_len && (data_len / block) * block <= data_len)
        by (nonlinear_arith)
        requires
            0 < block,
            0 <= data_len,
    ;
}

/// Attempts to open a file held in memory as a wav file this decoder can read
/// frames from.
///
/// Returns `None` for anything this decoder does not handle: a file that is not
/// RIFF/WAVE, an unsupported sample encoding, or a header that ends unexpectedly.
pub fn open_wav(file: &[u8]) -> (wav: Option<OpenWav>)
    ensures
        wav == parse_header(file@),
        wav matches Some(w) ==> w.wf() && w.fits(file@.len() as int),
{
    let file_len: usize = file.len();
    let mut parser = HeaderParser::new();
    proof {
        lemma_parsed_wav_fits(file@);
    }
    loop
        invariant
            file_len == file@.len(),
            parser.wf(),
            parser.agrees(file@),
            parser.outcome(file@) == parse_header(file@),
            parse_header(file@) matches Some(w) ==> w.wf() && w.fits(file@.len() as int),
        decreases
            (if parser.stage is Done {
                0
            } else if parser.progress() > 2 * file_len {
                1
            } else {
                2 * file_len - parser.progress() + 2
            }),
    {
        match parser.request() {
            Request::Read { offset, len } => {
                if offset <= file_len as u64 && len <= file_len - offset as usize {
                    let at: usize = offset as usize;
                    let bytes = vstd::slice::slice_subrange(file, at, at + len);
                    parser.feed(bytes);
                    assert(parser.outcome(file@) == parse_header(file@));
                } else {
                    parser.feed_eof();
                    assert(parser.outcome(file@) == parse_header(file@));
                }
            },
            Request::Length => {
                parser.feed_length(file_len as u64);
                assert(parser.outcome(file@) == parse_header(file@));
            },
            Request::Nothing => {
                let wav = parser.wav();
                assert(parser.outcome(file@) == wav);
                return wav;
            },
        }
    }
}

/// The integer an integer sample of this width holds. 8-bit PCM is the one width
/// that is unsigned, with silence at 128. A 24-bit sample occupies the low three
/// bytes of its container.
pub open spec fn int_value(bytes: Seq<u8>, bits: u16) -> int {
    if bits == 8 {
        bytes[0] - 0x80
    } else if bits == 16 {
        signed(u16_at(bytes, 0), 0x1_0000)
    } else if bits == 24 {
        signed(bytes[0] + 0x100 * bytes[1] + 0x1_0000 * bytes[2], 0x100_0000)
    } else {
        signed(u32_at(bytes, 0), 0x1_0000_0000)
    }
}

/// The two's complement reading of `raw` on a scale of `modulus` values.
pub open spec fn signed(raw: int, modulus: int) -> int {
    if 2 * raw >= modulus {
        raw - modulus
    } else {
        raw
    }
}

/// The normalized sample stored in `bytes`, as the bit pattern of a double: an
/// integer of `bits` bits over `2^(bits - 1)`, or the float itself.
pub open spec fn decoded_sample(bytes: Seq<u8>, coding: Coding, bits: u16) -> u64 {
    match coding {
        Coding::Int => ratio(int_value(bytes, bits), bits - 1),
        Coding::Float => if bits == 32 {
            widened(u32_at(bytes, 0) as u32)
        } else {
            u64_at(bytes, 0) as u64
        },
    }
}

/// The sample of `channel` in `frame`, where frame 0 starts at `base`.
pub open spec fn sample_at(
    data: Seq<u8>,
    base: int,
    wav: OpenWav,
    frame: int,
    channel: int,
) -> u64 {
    let at = base + frame * wav.block_align + channel * wav.container_bytes;
    decoded_sample(
        data.subrange(at, at + wav.container_bytes),
        wav.coding,
        wav.bits_per_sample,
    )
}

/// Channels `[channel_start, channel_start + channel_count)` of one frame.
pub open spec fn frame_channels(
    data: Seq<u8>,
    base: int,
    wav: OpenWav,
    frame: int,
    channel_start: int,
    channel_count: int,
) -> Seq<u64> {
    Seq::new(
        channel_count as nat,
        |c: int| sample_at(data, base, wav, frame, channel_start + c),
    )
}

/// Frames `[start, end)`, keeping only the selected channels of each.
pub open spec fn selected_frames(
    data: Seq<u8>,
    base: int,
    wav: OpenWav,
    start: int,
    end: int,
    channel_start: int,
    channel_count: int,
) -> Seq<u64>
    decreases end - start,
{
    if end <= start {
        Seq::empty()
    } else {
        selected_frames(data, base, wav, start, end - 1, channel_start, channel_count)
            + frame_channels(data, base, wav, end - 1, channel_start, channel_count)
    }
}

/// `frame`, or the end of the file where that comes first.
pub open spec fn clamped(wav: OpenWav, frame: int) -> int {
    if frame < wav.num_frames {
        frame
    } else {
        wav.num_frames as int
    }
}

/// The frame a read stops before: the requested one or the end of the file.
pub open spec fn clamped_end(wav: OpenWav, end: Option<usize>) -> int {
    match end {
        Some(end) => clamped(wav, end as int),
        None => wav.num_frames as int,
    }
}

/// What a read of `[start, end)` yields. A range that runs past the end of the
/// file yields fewer frames.
pub open spec fn frames_of(
    file: Seq<u8>,
    wav: OpenWav,
    start: int,
    end: Option<usize>,
    channel_start: int,
    channel_count: int,
) -> Seq<u64> {
    selected_frames(
        file,
        wav.data_start as int,
        wav,
        clamped(wav, start),
        clamped_end(wav, end),
        channel_start,
        channel_count,
    )
}

/// Sign-extends a 24-bit value held in the low bits of a `u32`.
pub fn sign_extend_24(raw: u32) -> (value: i32)
    ensures
        raw < 0x100_0000 ==> value == signed(raw as int, 0x100_0000),
        raw % 0x100_0000 >= 0x80_0000 ==> value == raw % 0x100_0000 - 0x100_0000,
        raw % 0x100_0000 < 0x80_0000 ==> value == signed(raw as int, 0x1_0000_0000),
{
    let low: u32 = raw % 0x100_0000;
    if low >= 0x80_0000 {
        low as i32 - 0x100_0000
    } else if raw < 0x8000_0000 {
        raw as i32
    } else {
        (raw as i64 - 0x1_0000_0000) as i32
    }
}

/// Converts one sample's raw bytes to a normalized double.
///
/// `bytes` is as long as the container resolved by [`build_fmt_info`], so every
/// combination reachable here was already validated when the `fmt ` chunk was
/// parsed.
pub fn decode_sample(bytes: &[u8], coding: Coding, bits_per_sample: u16) -> (sample: u64)
    requires
        bytes@.len() <= u16::MAX,
        supported(coding, bits_per_sample, bytes@.len() as u16),
    ensures
        sample == decoded_sample(bytes@, coding, bits_per_sample),
{
    match coding {
        Coding::Int => {
            let value: i32 = if bits_per_sample == 8 {
                // 8-bit PCM is the one width that is unsigned, with silence at
                // 128 rather than 0.
                bytes[0] as i32 - 0x80
            } else if bits_per_sample == 16 {
                let raw: i32 = load_u16(bytes, 0) as i32;
                if raw >= 0x8000 {
                    raw - 0x1_0000
                } else {
                    raw
                }
            } else if bits_per_sample == 24 {
                // The 24-bit sample occupies the low 3 bytes, also of a 4-byte
                // container; the top byte is not part of the value.
                let raw: u32 = bytes[0] as u32 + 0x100 * (bytes[1] as u32) + 0x1_0000 * (
                bytes[2] as u32);
                sign_extend_24(raw)
            } else {
                let raw: i64 = load_u32(bytes, 0) as i64;
                if raw >= 0x8000_0000 {
                    (raw - 0x1_0000_0000) as i32
                } else {
                    raw as i32
                }
            };
            ratio_bits(value, bits_per_sample as u32 - 1)
        },
        Coding::Float => if bits_per_sample == 32 {
            widen(load_u32(bytes, 0))
        } else {
            load_u64(bytes, 0)
        },
    }
}

/// Where a sample lies within its frame.
proof fn lemma_sample_in_frame(wav: OpenWav, channel: int)
    requires
        wav.wf(),
        0 <= channel < wav.num_channels,
    ensures
        0 <= channel * wav.container_bytes,
        channel * wav.container_bytes + wav.container_bytes <= wav.block_align,
{
    assert(0 <= channel * wav.container_bytes && channel * wav.container_bytes
        + wav.container_bytes <= wav.container_bytes * wav.num_channels) by (nonlinear_arith)
        requires
            0 <= channel < wav.num_channels,
            0 <= wav.container_bytes,
    ;
}

/// Frames read the same through a window onto the bytes they lie in.
#[verifier::rlimit(40)]
proof fn lemma_frames_window(
    file: Seq<u8>,
    base: int,
    wav: OpenWav,
    start: int,
    end: int,
    stop: int,
    channel_start: int,
    channel_count: int,
)
    requires
        wav.wf(),
        0 <= base,
        0 <= start <= end <= stop,
        base + stop * wav.block_align <= file.len(),
        0 <= channel_start,
        0 <= channel_count,
        channel_start + channel_count <= wav.num_channels,
    ensures
        0 <= base + start * wav.block_align <= base + stop * wav.block_align,
        selected_frames(file, base, wav, start, end, channel_start, channel_count)
            == selected_frames(
            file.subrange(base + start * wav.block_align, base + stop * wav.block_align),
            0,
            wav,
            0,
            end - start,
            channel_start,
            channel_count,
        ),
    decreases end - start,
{
    let block = wav.block_align as int;
    assert(0 <= start * block <= stop * block) by (nonlinear_arith)
        requires
            0 <= start <= stop,
            0 <= block,
    ;
    let window = file.subrange(base + start * block, base + stop * block);
    if start < end {
        lemma_frames_window(file, base, wav, start, end - 1, stop, channel_start, channel_count);
        let frame = end - 1;
        let there = frame_channels(file, base, wav, frame, channel_start, channel_count);
        let here = frame_channels(window, 0, wav, frame - start, channel_start, channel_count);
        assert forall|c: int| 0 <= c < channel_count implies there[c] == here[c] by {
            lemma_sample_in_frame(wav, channel_start + c);
            let at = frame * block + (channel_start + c) * wav.container_bytes;
            assert((frame - start) * block == frame * block - start * block && (frame - start)
                * block + block <= stop * block - start * block && 0 <= (frame - start) * block)
                by (nonlinear_arith)
                requires
                    start <= frame,
                    frame + 1 <= stop,
                    0 <= block,
            ;
            assert(file.subrange(base + at, base + at + wav.container_bytes)
                =~= window.subrange(
                at - start * block,
                at - start * block + wav.container_bytes,
            ));
        }
        assert(there =~= here);
    }
}

/// Bytes read per scratch buffer fill, bounded in bytes rather than frames so
/// that a file with many channels does not scale the buffer past a fixed budget.
pub const BLOCK_BYTES: u64 = 64 * 1024;

/// Reads a range of frames block by block, keeping only the selected channels.
#[derive(Debug, Clone, Copy, PartialEq, Eq, Structural)]
pub struct FrameReader {
    pub wav: OpenWav,
    /// The next frame to read.
    pub frame: u64,
    /// The frame to stop before.
    pub end: u64,
    pub channel_start: usize,
    pub channel_count: usize,
}

impl FrameReader {
    /// Whether the frames and the channels exist.
    pub open spec fn wf(self) -> bool {
        &&& self.wav.wf()
        &&& self.end <= self.wav.num_frames
        &&& self.channel_start + self.channel_count <= self.wav.num_channels
    }

    /// How many frames the next block holds.
    pub open spec fn block_frames(self) -> int {
        let whole = BLOCK_BYTES as int / self.wav.block_align as int;
        let most = if whole < 1 {
            1
        } else {
            whole
        };
        let left = if self.frame < self.end {
            self.end - self.frame
        } else {
            0
        };
        if most < left {
            most
        } else {
            left
        }
    }

    /// Where the next block starts.
    pub open spec fn block_offset(self) -> int {
        self.wav.data_start + self.frame * self.wav.block_align
    }

    /// The samples of the frames `[start, end)` of `file` that this reader keeps.
    pub open spec fn kept(self, file: Seq<u8>, start: int, end: int) -> Seq<u64> {
        selected_frames(
            file,
            self.wav.data_start as int,
            self.wav,
            start,
            end,
            self.channel_start as int,
            self.channel_count as int,
        )
    }

    /// A reader of `[start_frame, end_frame)`, which are clamped to the length of
    /// the file.
    pub fn new(
        wav: OpenWav,
        start_frame: usize,
        end_frame: Option<usize>,
        channel_start: usize,
        channel_count: usize,
    ) -> (reader: Self)
        requires
            wav.wf(),
            channel_start + channel_count <= wav.num_channels,
        ensures
            reader.wf(),
            reader.wav == wav,
            reader.frame == clamped(wav, start_frame as int),
            reader.end == clamped_end(wav, end_frame),
            reader.channel_start == channel_start,
            reader.channel_count == channel_count,
    {
        let total: u64 = wav.num_frames;
        let frame: u64 = if (start_frame as u64) < total {
            start_frame as u64
        } else {
            total
        };
        let end: u64 = match end_frame {
            Some(end) => if (end as u64) < total {
                end as u64
            } else {
                total
            },
            None => total,
        };
        FrameReader { wav, frame, end, channel_start, channel_count }
    }

    /// The next block is not empty, is of bounded size, and lies within the frames
    /// that are read.
    pub proof fn lemma_block(self)
        requires
            self.wf(),
            self.frame < self.end,
        ensures
            0 < self.wav.block_align,
            0 < self.block_frames() <= self.end - self.frame,
            self.block_frames() * self.wav.block_align <= BLOCK_BYTES + u16::MAX,
            0 <= self.frame * self.wav.block_align <= self.end * self.wav.block_align
                <= self.wav.num_frames * self.wav.block_align,
            (self.frame + self.block_frames()) * self.wav.block_align <= self.end
                * self.wav.block_align,
            self.block_offset() + self.block_frames() * self.wav.block_align
                == self.wav.data_start + (self.frame + self.block_frames()) * self.wav.block_align,
    {
        let block = self.wav.block_align as int;
        let n = self.block_frames();
        assert(0 < block) by (nonlinear_arith)
            requires
                block == self.wav.container_bytes * self.wav.num_channels,
                0 < self.wav.container_bytes,
                0 < self.wav.num_channels,
        ;
        let whole = BLOCK_BYTES as int / block;
        assert(0 <= whole && whole * block <= BLOCK_BYTES) by (nonlinear_arith)
            requires
                0 < block,
                whole == BLOCK_BYTES as int / block,
        ;
        assert(n * block <= BLOCK_BYTES + u16::MAX) by (nonlinear_arith)
            requires
                0 < block <= u16::MAX,
                n <= whole || n <= 1,
                whole * block <= BLOCK_BYTES,
        ;
        assert(0 <= self.frame * block <= self.end * block <= self.wav.num_frames * block && (
        self.frame + n) * block <= self.end * block && (self.frame + n) * block == self.frame
            * block + n * block) by (nonlinear_arith)
            requires
                0 < block,
                0 <= self.frame,
                0 <= n,
                self.frame + n <= self.end,
                self.end <= self.wav.num_frames,
        ;
    }

    /// A file that holds the frames is at least as long as there are frames.
    proof fn lemma_frame_count(self, file_len: int)
        requires
            self.wf(),
            self.wav.fits(file_len),
        ensures
            self.end <= file_len,
    {
        let block = self.wav.block_align as int;
        assert(self.end <= self.wav.num_frames * block) by (nonlinear_arith)
            requires
                0 <= self.end <= self.wav.num_frames,
                block == self.wav.container_bytes * self.wav.num_channels,
                0 < self.wav.container_bytes,
                0 < self.wav.num_channels,
        ;
    }

    /// Where the next block lies in the file, as its offset and its length in
    /// bytes. `None` once every frame was read.
    pub fn next_block(&self) -> (block: Option<(u64, usize)>)
        requires
            self.wf(),
        ensures
            match block {
                None => self.frame >= self.end,
                Some((offset, len)) => {
                    &&& self.frame < self.end
                    &&& offset == self.block_offset()
                    &&& len == self.block_frames() * self.wav.block_align
                    &&& len > 0
                    &&& offset + len <= self.wav.data_start + self.end * self.wav.block_align
                },
            },
    {
        if self.frame >= self.end {
            return None;
        }
        let frames: u64 = self.frames_in_block();
        proof {
            self.lemma_block();
            assert(0 < self.block_frames() * self.wav.block_align) by (nonlinear_arith)
                requires
                    0 < self.block_frames(),
                    0 < self.wav.block_align,
            ;
        }
        let offset: u64 = self.wav.data_start + self.frame * self.wav.block_align;
        let len: u64 = frames * self.wav.block_align;
        Some((offset, len as usize))
    }

    /// How many frames the next block holds.
    fn frames_in_block(&self) -> (frames: u64)
        requires
            self.wf(),
            self.frame < self.end,
        ensures
            frames == self.block_frames(),
    {
        proof {
            self.lemma_block();
        }
        let whole: u64 = BLOCK_BYTES / self.wav.block_align;
        let most: u64 = if whole < 1 {
            1
        } else {
            whole
        };
        let left: u64 = self.end - self.frame;
        if most < left {
            most
        } else {
            left
        }
    }

    /// Appends the selected channels of the frames in `bytes`, which is the next
    /// block, and moves on to the block after it.
    pub fn feed(&mut self, bytes: &[u8], samples: &mut Vec<u64>)
        requires
            old(self).wf(),
            old(self).frame < old(self).end,
            bytes@.len() == old(self).block_frames() * old(self).wav.block_align,
        ensures
            final(self).wf(),
            *final(self) == (FrameReader {
                frame: (old(self).frame + old(self).block_frames()) as u64,
                ..*old(self)
            }),
            final(self).frame > old(self).frame,
            final(samples)@ == old(samples)@ + selected_frames(
                bytes@,
                0,
                old(self).wav,
                0,
                old(self).block_frames(),
                old(self).channel_start as int,
                old(self).channel_count as int,
            ),
            forall|file: Seq<u8>|
                old(self).wav.fits(file.len() as int) && file.subrange(
                    old(self).block_offset(),
                    old(self).block_offset() + bytes@.len(),
                ) == bytes@ ==> final(samples)@ == old(samples)@ + #[trigger] old(self).kept(
                    file,
                    old(self).frame as int,
                    old(self).frame + old(self).block_frames(),
                ),
    {
        let frames: u64 = self.frames_in_block();
        let wav = self.wav;
        let channel_start: usize = self.channel_start;
        let channel_count: usize = self.channel_count;
        let ghost before = samples@;
        let ghost start = self.frame as int;
        proof {
            self.lemma_block();
        }
        let mut frame: u64 = 0;
        assert(samples@ =~= before + selected_frames(
            bytes@,
            0,
            wav,
            0,
            0,
            channel_start as int,
            channel_count as int,
        ));
        while frame < frames
            invariant
                wav.wf(),
                channel_start + channel_count <= wav.num_channels,
                frame <= frames,
                bytes@.len() == frames * wav.block_align,
                samples@ == before + selected_frames(
                    bytes@,
                    0,
                    wav,
                    0,
                    frame as int,
                    channel_start as int,
                    channel_count as int,
                ),
            decreases frames - frame,
        {
            assert((frame + 1) * wav.block_align <= frames * wav.block_align) by (nonlinear_arith)
                requires
                    frame + 1 <= frames,
                    0 <= wav.block_align,
            ;
            append_frame(bytes, &wav, frame, channel_start, channel_count, samples);
            proof {
                let so_far = selected_frames(
                    bytes@,
                    0,
                    wav,
                    0,
                    frame as int,
                    channel_start as int,
                    channel_count as int,
                );
                let added = frame_channels(
                    bytes@,
                    0,
                    wav,
                    frame as int,
                    channel_start as int,
                    channel_count as int,
                );
                assert(before + so_far + added =~= before + (so_far + added));
            }
            frame += 1;
        }
        self.frame = self.frame + frames;
        proof {
            let reader = *old(self);
            assert forall|file: Seq<u8>|
                wav.fits(file.len() as int) && file.subrange(
                    reader.block_offset(),
                    reader.block_offset() + bytes@.len(),
                ) == bytes@ implies samples@ == before + #[trigger] reader.kept(
                file,
                start,
                start + frames,
            ) by {
                lemma_frames_window(
                    file,
                    wav.data_start as int,
                    wav,
                    start,
                    start + frames,
                    start + frames,
                    channel_start as int,
                    channel_count as int,
                );
            }
        }
    }
}

/// Appends the selected channels of one frame of a buffer.
fn append_frame(
    bytes: &[u8],
    wav: &OpenWav,
    frame: u64,
    channel_start: usize,
    channel_count: usize,
    samples: &mut Vec<u64>,
)
    requires
        wav.wf(),
        channel_start + channel_count <= wav.num_channels,
        (frame + 1) * wav.block_align <= bytes@.len(),
    ensures
        final(samples)@ == old(samples)@ + frame_channels(
            bytes@,
            0,
            *wav,
            frame as int,
            channel_start as int,
            channel_count as int,
        ),
{
    let len: usize = bytes.len();
    let container: usize = wav.container_bytes as usize;
    assert(0 <= frame * wav.block_align && frame * wav.block_align + wav.block_align <= len)
        by (nonlinear_arith)
        requires
            (frame + 1) * wav.block_align <= len,
            0 <= frame,
            0 <= wav.block_align,
    ;
    let frame_at: usize = (frame * wav.block_align) as usize;
    let ghost before = samples@;
    let ghost wanted = frame_channels(
        bytes@,
        0,
        *wav,
        frame as int,
        channel_start as int,
        channel_count as int,
    );
    let mut c: usize = 0;
    while c < channel_count
        invariant
            wav.wf(),
            channel_start + channel_count <= wav.num_channels,
            c <= channel_count,
            len == bytes@.len(),
            container == wav.container_bytes,
            frame_at == frame * wav.block_align,
            frame_at + wav.block_align <= len,
            samples@ == before + wanted.take(c as int),
            wanted == frame_channels(
                bytes@,
                0,
                *wav,
                frame as int,
                channel_start as int,
                channel_count as int,
            ),
        decreases channel_count - c,
    {
        proof {
            lemma_sample_in_frame(*wav, channel_start + c);
        }
        let at: usize = frame_at + (channel_start + c) * container;
        let bytes_of_sample = vstd::slice::slice_subrange(bytes, at, at + container);
        samples.push(decode_sample(bytes_of_sample, wav.coding, wav.bits_per_sample));
        c += 1;
        assert(samples@ =~= before + wanted.take(c as int));
    }
    assert(wanted.take(channel_count as int) =~= wanted);
    assert(before + wanted.take(0) =~= before);
}

/// Reads `[start_frame, end_frame)` of a file held in memory, keeping only
/// channels `[channel_start, channel_start + channel_count)` of each frame.
///
/// The caller has validated the channel range; the frame range is clamped to the
/// length of the file, so that a range that runs past the end yields fewer frames
/// rather than an error.
#[verifier::rlimit(40)]
pub fn read_frames(
    file: &[u8],
    wav: OpenWav,
    start_frame: usize,
    end_frame: Option<usize>,
    channel_start: usize,
    channel_count: usize,
) -> (samples: Vec<u64>)
    requires
        wav.wf(),
        wav.fits(file@.len() as int),
        channel_start + channel_count <= wav.num_channels,
    ensures
        samples@ == frames_of(
            file@,
            wav,
            start_frame as int,
            end_frame,
            channel_start as int,
            channel_count as int,
        ),
{
    let file_len: usize = file.len();
    let mut reader = FrameReader::new(wav, start_frame, end_frame, channel_start, channel_count);
    let ghost first = reader;
    // The frames lie within a file that is held in memory, so their number is no
    // larger than a length can be.
    let frames: u64 = reader.end.saturating_sub(reader.frame);
    proof {
        first.lemma_frame_count(file_len as int);
    }
    let mut samples: Vec<u64> = Vec::with_capacity(prealloc_len(frames as usize, channel_count));
    assert(samples@ =~= first.kept(file@, first.frame as int, first.frame as int));
    loop
        invariant
            file_len == file@.len(),
            reader.wf(),
            wav.fits(file_len as int),
            reader.wav == wav,
            first.wav == wav,
            reader.end == first.end,
            first.channel_start == channel_start,
            first.channel_count == channel_count,
            reader.channel_start == channel_start,
            reader.channel_count == channel_count,
            first.frame <= reader.frame,
            reader.frame <= reader.end || reader.frame == first.frame,
            samples@ == first.kept(file@, first.frame as int, reader.frame as int),
        ensures
            samples@ == first.kept(file@, first.frame as int, first.end as int),
        decreases
            (if reader.frame < reader.end {
                reader.end - reader.frame
            } else {
                0
            }),
    {
        match reader.next_block() {
            None => {
                break;
            },
            Some((offset, len)) => {
                let ghost before = reader;
                let ghost so_far = samples@;
                proof {
                    before.lemma_block();
                }
                assert(offset + len <= file_len);
                let at: usize = offset as usize;
                let bytes = vstd::slice::slice_subrange(file, at, at + len);
                reader.feed(bytes, &mut samples);
                proof {
                    lemma_frames_concat(
                        file@,
                        wav.data_start as int,
                        wav,
                        first.frame as int,
                        before.frame as int,
                        reader.frame as int,
                        channel_start as int,
                        channel_count as int,
                    );
                    assert(before.kept(file@, before.frame as int, reader.frame as int)
                        == before.kept(
                        file@,
                        before.frame as int,
                        before.frame + before.block_frames(),
                    ));
                }
            },
        }
    }
    samples
}

/// Two ranges of frames one after the other are the range they make up together.
pub proof fn lemma_frames_concat(
    data: Seq<u8>,
    base: int,
    wav: OpenWav,
    start: int,
    middle: int,
    end: int,
    channel_start: int,
    channel_count: int,
)
    requires
        start <= middle <= end,
    ensures
        selected_frames(data, base, wav, start, middle, channel_start, channel_count)
            + selected_frames(data, base, wav, middle, end, channel_start, channel_count)
            == selected_frames(data, base, wav, start, end, channel_start, channel_count),
    decreases end - middle,
{
    let left = selected_frames(data, base, wav, start, middle, channel_start, channel_count);
    let right = selected_frames(data, base, wav, middle, end, channel_start, channel_count);
    if middle == end {
        assert(left + right =~= left);
    } else {
        lemma_frames_concat(
            data,
            base,
            wav,
            start,
            middle,
            end - 1,
            channel_start,
            channel_count,
        );
        let shorter = selected_frames(
            data,
            base,
            wav,
            middle,
            end - 1,
            channel_start,
            channel_count,
        );
        let last = frame_channels(data, base, wav, end - 1, channel_start, channel_count);
        assert(left + (shorter + last) =~= left + shorter + last);
    }
}

} // verus!
