//! What chunks the decoder does not know mean to it: nothing.

use vstd::prelude::*;

use super::decode::{fmt_chunk, next_chunk, parse_chunks, parse_header, FmtInfo, OpenWav};
use super::{TAG_DATA, TAG_FMT};
use crate::bytes::u32_at;

verus! {

/// Whether the bytes are one whole chunk, padded to an even length, that is neither the
/// format nor the samples.
pub open spec fn is_unknown_chunk(chunk: Seq<u8>) -> bool {
    &&& chunk.len() >= 8
    &&& chunk.len() == next_chunk(8, u32_at(chunk, 4))
    &&& chunk.subrange(0, 4) != TAG_FMT@
    &&& chunk.subrange(0, 4) != TAG_DATA@
}

/// Whether a chunk can start at `at`: the chunks from `pos` on end there, and none of
/// them holds the samples.
pub open spec fn is_boundary(file: Seq<u8>, pos: int, at: int) -> bool
    decreases
            (if pos < at {
                at - pos
            } else {
                0
            }),
{
    pos == at || {
        &&& 0 <= pos < at
        &&& pos + 8 <= file.len()
        &&& file.subrange(pos, pos + 4) != TAG_DATA@
        &&& is_boundary(file, next_chunk(pos + 8, u32_at(file, pos + 4)), at)
    }
}

/// The file with a chunk put in at `at`.
pub open spec fn with_chunk(file: Seq<u8>, at: int, chunk: Seq<u8>) -> Seq<u8> {
    file.take(at) + chunk + file.skip(at)
}

/// The same samples, `by` bytes further into the file.
pub open spec fn moved(opened: Option<OpenWav>, by: int) -> Option<OpenWav> {
    match opened {
        Some(wav) => Some(OpenWav { data_start: (wav.data_start + by) as u64, ..wav }),
        None => None,
    }
}

proof fn lemma_moved_fmt_chunk(
    file: Seq<u8>,
    other: Seq<u8>,
    at: int,
    by: int,
    len: int,
)
    requires
        0 <= at,
        0 <= by,
        at + 16 <= file.len() <==> at + by + 16 <= other.len(),
        len >= 40 ==> (at + 40 <= file.len() <==> at + by + 40 <= other.len()),
        forall|i: int|
            at <= i < at + 40 && i < at + len && i < file.len() && i + by < other.len()
                ==> #[trigger] file[i] == other[i + by],
    ensures
        fmt_chunk(other, at + by, len) == fmt_chunk(file, at, len),
{
    if len >= 16 && at + 16 <= file.len() {
        assert forall|i: int| at <= i < at + 16 implies #[trigger] file[i] == other[i + by] by {}
        assert(forall|k: int|
            0 <= k < 16 ==> #[trigger] file[at + k] == other[at + by + k]) by {
            assert forall|k: int| 0 <= k < 16 implies #[trigger] file[at + k] == other[at + by
                + k] by {
                assert(file[at + k] == other[(at + k) + by]);
            }
        }
        if len >= 40 && at + 40 <= file.len() {
            assert(file[at + 18] == other[(at + 18) + by]);
            assert(file[at + 19] == other[(at + 19) + by]);
            assert(other.subrange(at + by + 24, at + by + 40) =~= file.subrange(at + 24, at + 40))
                by {
                assert forall|k: int| 0 <= k < 16 implies #[trigger] file[at + 24 + k] == other[at
                    + by + 24 + k] by {
                    assert(file[at + 24 + k] == other[(at + 24 + k) + by]);
                }
            }
        }
    }
}

/// Behind the chunk that was put in, everything is found as before, further back.
pub proof fn lemma_chunks_behind(
    file: Seq<u8>,
    other: Seq<u8>,
    at: int,
    by: int,
    pos: int,
    fmt: Option<FmtInfo>,
)
    requires
        0 <= by,
        0 <= at <= pos,
        other.len() == file.len() + by <= u64::MAX,
        forall|i: int| at <= i < file.len() ==> #[trigger] file[i] == other[i + by],
    ensures
        parse_chunks(other, pos + by, fmt) == moved(parse_chunks(file, pos, fmt), by),
    decreases
            (if pos > file.len() {
                0
            } else {
                file.len() - pos + 1
            }),
{
    if pos + 8 <= file.len() {
        assert(other.subrange(pos + by, pos + by + 4) =~= file.subrange(pos, pos + 4)) by {
            assert forall|k: int| 0 <= k < 4 implies #[trigger] file[pos + k] == other[pos + by
                + k] by {
                assert(file[pos + k] == other[(pos + k) + by]);
            }
        }
        assert(u32_at(other, pos + by + 4) == u32_at(file, pos + 4)) by {
            assert(file[pos + 4] == other[(pos + 4) + by]);
            assert(file[pos + 5] == other[(pos + 5) + by]);
            assert(file[pos + 6] == other[(pos + 6) + by]);
            assert(file[pos + 7] == other[(pos + 7) + by]);
        }
        let id = file.subrange(pos, pos + 4);
        let len = u32_at(file, pos + 4);
        let next = next_chunk(pos + 8, len);
        if id == TAG_FMT@ {
            lemma_moved_fmt_chunk(file, other, pos + 8, by, len);
            if let Some(info) = fmt_chunk(file, pos + 8, len) {
                lemma_chunks_behind(file, other, at, by, next, Some(info));
            }
        } else if id != TAG_DATA@ {
            lemma_chunks_behind(file, other, at, by, next, fmt);
        }
    }
}

proof fn lemma_chunks_before(
    file: Seq<u8>,
    other: Seq<u8>,
    at: int,
    by: int,
    pos: int,
    fmt: Option<FmtInfo>,
)
    requires
        0 <= pos,
        0 <= at <= file.len(),
        8 <= by,
        is_boundary(file, pos, at),
        other.len() == file.len() + by <= u64::MAX,
        forall|i: int| 0 <= i < at ==> #[trigger] file[i] == other[i + 0],
        forall|i: int| at <= i < file.len() ==> #[trigger] file[i] == other[i + by],
        is_unknown_chunk(other.subrange(at, at + by)),
    ensures
        parse_chunks(other, pos, fmt) == moved(parse_chunks(file, pos, fmt), by),
    decreases at - pos,
{
    if pos == at {
        let chunk = other.subrange(at, at + by);
        assert(other.subrange(at, at + 4) =~= chunk.subrange(0, 4));
        assert(u32_at(other, at + 4) == u32_at(chunk, 4));
        lemma_chunks_behind(file, other, at, by, at, fmt);
    } else {
        let id = file.subrange(pos, pos + 4);
        let len = u32_at(file, pos + 4);
        let next = next_chunk(pos + 8, len);
        lemma_boundary_is_not_behind(file, next, at);
        assert(other.subrange(pos, pos + 4) =~= id) by {
            assert forall|k: int| 0 <= k < 4 implies #[trigger] file[pos + k] == other[pos + k] by {
                assert(file[pos + k] == other[(pos + k) + 0]);
            }
        }
        assert(u32_at(other, pos + 4) == len) by {
            assert(file[pos + 4] == other[(pos + 4) + 0]);
            assert(file[pos + 5] == other[(pos + 5) + 0]);
            assert(file[pos + 6] == other[(pos + 6) + 0]);
            assert(file[pos + 7] == other[(pos + 7) + 0]);
        }
        if id == TAG_FMT@ {
            if len >= 16 {
                lemma_moved_fmt_chunk(file, other, pos + 8, 0, len);
            }
            if let Some(info) = fmt_chunk(file, pos + 8, len) {
                lemma_chunks_before(file, other, at, by, next, Some(info));
            }
        } else {
            lemma_chunks_before(file, other, at, by, next, fmt);
        }
    }
}

proof fn lemma_boundary_is_not_behind(file: Seq<u8>, pos: int, at: int)
    requires
        is_boundary(file, pos, at),
    ensures
        pos <= at,
{
}

/// A chunk of an unknown kind, put in anywhere before the samples, moves the samples
/// back by its length and changes nothing else: the file opens with the same frames,
/// or is declined, as before.
pub proof fn lemma_unknown_chunks_are_skipped(file: Seq<u8>, at: int, chunk: Seq<u8>)
    requires
        at <= file.len(),
        is_boundary(file, 12, at),
        is_unknown_chunk(chunk),
        file.len() + chunk.len() <= u64::MAX,
    ensures
        parse_header(with_chunk(file, at, chunk)) == moved(
            parse_header(file),
            chunk.len() as int,
        ),
        parse_header(file) matches Some(wav) ==> at + 8 <= wav.data_start <= file.len()
            && with_chunk(file, at, chunk).skip(wav.data_start + chunk.len()) == file.skip(
            wav.data_start as int,
        ),
{
    let other = with_chunk(file, at, chunk);
    lemma_boundary_is_not_behind(file, 12, at);
    assert(other.subrange(0, 4) =~= file.subrange(0, 4));
    assert(other.subrange(8, 12) =~= file.subrange(8, 12));
    if parse_header(file) is Some {
        lemma_samples_lie_behind(file, 12, at, None);
        let start = parse_header(file)->0.data_start as int;
        assert(other.skip(start + chunk.len()) =~= file.skip(start));
    }
    assert(other.subrange(at, at + chunk.len()) =~= chunk);
    lemma_chunks_before(file, other, at, chunk.len() as int, 12, None);
}

proof fn lemma_samples_lie_behind(file: Seq<u8>, pos: int, at: int, fmt: Option<FmtInfo>)
    requires
        0 <= pos,
        file.len() <= u64::MAX,
        is_boundary(file, pos, at),
        parse_chunks(file, pos, fmt) is Some,
    ensures
        at + 8 <= parse_chunks(file, pos, fmt)->0.data_start <= file.len(),
    decreases
            (if pos > file.len() {
                0
            } else {
                file.len() - pos + 1
            }),
{
    let id = file.subrange(pos, pos + 4);
    let len = u32_at(file, pos + 4);
    let next = next_chunk(pos + 8, len);
    if id == TAG_FMT@ {
        let target = if pos == at {
            next
        } else {
            at
        };
        lemma_samples_lie_behind(file, next, target, fmt_chunk(file, pos + 8, len));
    } else if id != TAG_DATA@ {
        let target = if pos == at {
            next
        } else {
            at
        };
        lemma_samples_lie_behind(file, next, target, fmt);
    }
}

} // verus!
