//! Little-endian integers in byte sequences.

use vstd::prelude::*;

verus! {

/// The 16-bit value stored at `at`, least significant byte first.
pub open spec fn u16_at(s: Seq<u8>, at: int) -> int {
    s[at] + 0x100 * s[at + 1]
}

/// The 32-bit value stored at `at`, least significant byte first.
pub open spec fn u32_at(s: Seq<u8>, at: int) -> int {
    s[at] + 0x100 * s[at + 1] + 0x1_0000 * s[at + 2] + 0x100_0000 * s[at + 3]
}

/// The 64-bit value stored at `at`, least significant byte first.
pub open spec fn u64_at(s: Seq<u8>, at: int) -> int {
    u32_at(s, at) + 0x1_0000_0000 * u32_at(s, at + 4)
}

/// The two bytes of `v`, least significant first.
pub open spec fn u16_bytes(v: u16) -> Seq<u8> {
    seq![(v % 0x100) as u8, (v / 0x100) as u8]
}

/// The four bytes of `v`, least significant first.
pub open spec fn u32_bytes(v: u32) -> Seq<u8> {
    seq![
        (v % 0x100) as u8,
        (v / 0x100 % 0x100) as u8,
        (v / 0x1_0000 % 0x100) as u8,
        (v / 0x100_0000) as u8,
    ]
}

/// Storing a 16-bit value and loading it back gives the same value.
pub proof fn lemma_u16_round_trip(v: u16)
    ensures
        u16_bytes(v).len() == 2,
        u16_at(u16_bytes(v), 0) == v,
{
}

/// Storing a 32-bit value and loading it back gives the same value.
pub proof fn lemma_u32_round_trip(v: u32)
    ensures
        u32_bytes(v).len() == 4,
        u32_at(u32_bytes(v), 0) == v,
{
}

/// Appending two pieces one after the other appends their concatenation.
pub proof fn lemma_append_twice(base: Seq<u8>, first: Seq<u8>, second: Seq<u8>)
    ensures
        base + first + second == base + (first + second),
{
    assert(base + first + second =~= base + (first + second));
}

/// Loads the 16-bit value at `at`.
pub fn load_u16(s: &[u8], at: usize) -> (v: u16)
    requires
        at + 2 <= s@.len(),
    ensures
        v == u16_at(s@, at as int),
{
    s[at] as u16 + 0x100 * (s[at + 1] as u16)
}

/// Loads the 32-bit value at `at`.
pub fn load_u32(s: &[u8], at: usize) -> (v: u32)
    requires
        at + 4 <= s@.len(),
    ensures
        v == u32_at(s@, at as int),
{
    s[at] as u32 + 0x100 * (s[at + 1] as u32) + 0x1_0000 * (s[at + 2] as u32) + 0x100_0000 * (
    s[at + 3] as u32)
}

/// Loads the 64-bit value at `at`.
pub fn load_u64(s: &[u8], at: usize) -> (v: u64)
    requires
        at + 8 <= s@.len(),
    ensures
        v == u64_at(s@, at as int),
{
    let len: usize = s.len();
    assert(at + 8 <= len);
    load_u32(s, at) as u64 + 0x1_0000_0000 * (load_u32(s, at + 4) as u64)
}

/// Appends the two bytes of `v`.
pub fn push_u16(out: &mut Vec<u8>, v: u16)
    ensures
        final(out)@ == old(out)@ + u16_bytes(v),
{
    out.push((v % 0x100) as u8);
    out.push((v / 0x100) as u8);
    assert(out@ =~= old(out)@ + u16_bytes(v));
}

/// Appends the four bytes of `v`.
pub fn push_u32(out: &mut Vec<u8>, v: u32)
    ensures
        final(out)@ == old(out)@ + u32_bytes(v),
{
    out.push((v % 0x100) as u8);
    out.push((v / 0x100 % 0x100) as u8);
    out.push((v / 0x1_0000 % 0x100) as u8);
    out.push((v / 0x100_0000) as u8);
    assert(out@ =~= old(out)@ + u32_bytes(v));
}

/// Whether the bytes of `s` from `at` on begin with `tag`.
pub fn tag_at(s: &[u8], at: usize, tag: [u8; 4]) -> (b: bool)
    requires
        at + 4 <= s@.len(),
    ensures
        b == (s@.subrange(at as int, at + 4) == tag@),
{
    let b = s[at] == tag[0] && s[at + 1] == tag[1] && s[at + 2] == tag[2] && s[at + 3] == tag[3];
    proof {
        let w = s@.subrange(at as int, at + 4);
        if b {
            assert(w =~= tag@);
        } else {
            assert(w[0] == s@[at as int] && w[1] == s@[at + 1] && w[2] == s@[at + 2] && w[3]
                == s@[at + 3]);
        }
    }
    b
}

/// Appends the four bytes of `tag`.
pub fn push_tag(out: &mut Vec<u8>, tag: [u8; 4])
    ensures
        final(out)@ == old(out)@ + tag@,
{
    out.push(tag[0]);
    out.push(tag[1]);
    out.push(tag[2]);
    out.push(tag[3]);
    assert(out@ =~= old(out)@ + tag@);
}

/// Appends the sixteen bytes of `guid`.
pub fn push_guid(out: &mut Vec<u8>, guid: [u8; 16])
    ensures
        final(out)@ == old(out)@ + guid@,
{
    let mut i: usize = 0;
    while i < 16
        invariant
            i <= 16,
            out@ == old(out)@ + guid@.take(i as int),
        decreases 16 - i,
    {
        out.push(guid[i]);
        i += 1;
        assert(out@ =~= old(out)@ + guid@.take(i as int));
    }
    assert(guid@.take(16) =~= guid@);
}

/// Whether the bytes of `s` from `at` on begin with `guid`.
pub fn guid_at(s: &[u8], at: usize, guid: [u8; 16]) -> (b: bool)
    requires
        at + 16 <= s@.len(),
    ensures
        b == (s@.subrange(at as int, at + 16) == guid@),
{
    let len: usize = s.len();
    let mut i: usize = 0;
    let ghost window = s@.subrange(at as int, at + 16);
    while i < 16
        invariant
            i <= 16,
            at + 16 <= s@.len(),
            len == s@.len(),
            window == s@.subrange(at as int, at + 16),
            forall|j: int| 0 <= j < i ==> #[trigger] window[j] == guid@[j],
        decreases 16 - i,
    {
        if s[at + i] != guid[i] {
            assert(window[i as int] != guid@[i as int]);
            return false;
        }
        i += 1;
    }
    assert(window =~= guid@);
    true
}

/// Numbers are stored least significant byte first: dividing by 256 moves from one byte to
/// the next.
pub proof fn lemma_the_least_significant_byte_comes_first(s: Seq<u8>, at: int)
    requires
        0 <= at,
        at + 8 <= s.len(),
    ensures
        u16_at(s, at) % 0x100 == s[at],
        u16_at(s, at) / 0x100 == s[at + 1],
        u32_at(s, at) % 0x1_0000 == u16_at(s, at),
        u32_at(s, at) / 0x1_0000 == u16_at(s, at + 2),
        u64_at(s, at) % 0x1_0000_0000 == u32_at(s, at),
        u64_at(s, at) / 0x1_0000_0000 == u32_at(s, at + 4),
{
}

/// The bytes of a number, least significant first, add up to it.
pub proof fn lemma_bytes_add_up(narrow: u16, wide: u32)
    ensures
        u16_bytes(narrow).len() == 2,
        u16_bytes(narrow)[0] + 0x100 * u16_bytes(narrow)[1] == narrow,
        u32_bytes(wide).len() == 4,
        u32_bytes(wide)[0] + 0x100 * u32_bytes(wide)[1] + 0x1_0000 * u32_bytes(wide)[2]
            + 0x100_0000 * u32_bytes(wide)[3] == wide,
{
}

} // verus!
