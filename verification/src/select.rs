//! Frames and channels of interleaved samples.

use vstd::prelude::*;

verus! {

/// Channels `[start, start + count)` of frames `[first, last)`, out of interleaved
/// samples with `total` channels per frame.
pub open spec fn pick<T>(
    interleaved: Seq<T>,
    total: int,
    start: int,
    count: int,
    first: int,
    last: int,
) -> Seq<T>
    decreases last - first,
{
    if last <= first {
        Seq::empty()
    } else {
        pick(interleaved, total, start, count, first, last - 1) + interleaved.subrange(
            (last - 1) * total + start,
            (last - 1) * total + start + count,
        )
    }
}

/// A frame lies within the samples.
pub proof fn lemma_frame_in_range(total: int, frame: int, last: int)
    requires
        0 <= total,
        0 <= frame < last,
    ensures
        0 <= frame * total,
        frame * total + total <= last * total,
{
    assert(0 <= frame * total && frame * total + total <= last * total) by (nonlinear_arith)
        requires
            0 <= total,
            0 <= frame < last,
    ;
}

/// A selection holds the selected channels of every selected frame, and nothing
/// else.
pub proof fn lemma_pick_len<T>(
    interleaved: Seq<T>,
    total: int,
    start: int,
    count: int,
    first: int,
    last: int,
)
    requires
        0 <= start,
        0 <= count,
        start + count <= total,
        0 <= first <= last,
        last * total <= interleaved.len(),
    ensures
        pick(interleaved, total, start, count, first, last).len() == (last - first) * count,
    decreases last - first,
{
    if first < last {
        lemma_frame_in_range(total, last - 1, last);
        lemma_pick_len(interleaved, total, start, count, first, last - 1);
        assert((last - first) * count == (last - 1 - first) * count + count) by (nonlinear_arith);
    } else {
        assert(0 * count == 0) by (nonlinear_arith);
    }
}

/// The sample of every selected channel of every selected frame, by position.
pub proof fn lemma_pick_index<T>(
    interleaved: Seq<T>,
    total: int,
    start: int,
    count: int,
    first: int,
    last: int,
    frame: int,
    channel: int,
)
    requires
        0 <= start,
        0 <= channel < count,
        start + count <= total,
        0 <= first <= frame < last,
        last * total <= interleaved.len(),
    ensures
        0 <= (frame - first) * count + channel < pick(
            interleaved,
            total,
            start,
            count,
            first,
            last,
        ).len(),
        pick(interleaved, total, start, count, first, last)[(frame - first) * count + channel]
            == interleaved[frame * total + start + channel],
    decreases last - first,
{
    lemma_frame_in_range(total, last - 1, last);
    lemma_pick_len(interleaved, total, start, count, first, last - 1);
    lemma_pick_len(interleaved, total, start, count, first, last);
    let shorter = pick(interleaved, total, start, count, first, last - 1);
    let whole = pick(interleaved, total, start, count, first, last);
    let at = (frame - first) * count + channel;
    assert(0 <= (frame - first) * count && (frame - first) * count + count <= (last - first)
        * count) by (nonlinear_arith)
        requires
            0 < count,
            first <= frame < last,
    ;
    if frame == last - 1 {
        assert(whole[at] == interleaved.subrange(
            (last - 1) * total + start,
            (last - 1) * total + start + count,
        )[channel]);
    } else {
        lemma_pick_index(interleaved, total, start, count, first, last - 1, frame, channel);
        assert(whole[at] == shorter[at]);
    }
}

/// Selecting all channels is taking the frames as they are.
pub proof fn lemma_pick_all_channels<T>(interleaved: Seq<T>, total: int, first: int, last: int)
    requires
        0 <= total,
        0 <= first <= last,
        last * total <= interleaved.len(),
    ensures
        0 <= first * total <= last * total,
        pick(interleaved, total, 0, total, first, last) == interleaved.subrange(
            first * total,
            last * total,
        ),
    decreases last - first,
{
    assert(0 <= first * total <= last * total) by (nonlinear_arith)
        requires
            0 <= total,
            0 <= first <= last,
    ;
    if first < last {
        lemma_frame_in_range(total, last - 1, last);
        assert(last * total == (last - 1) * total + total) by (nonlinear_arith);
        lemma_pick_all_channels(interleaved, total, first, last - 1);
        assert(interleaved.subrange(first * total, last * total) =~= interleaved.subrange(
            first * total,
            (last - 1) * total,
        ) + interleaved.subrange((last - 1) * total + 0, (last - 1) * total + 0 + total));
    } else {
        assert(interleaved.subrange(first * total, last * total) =~= Seq::<T>::empty());
    }
}

} // verus!
