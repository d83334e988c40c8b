//! Little-endian field encoding shared by every wire payload.
use vstd::bytes::{
    spec_u16_from_le_bytes, spec_u16_to_le_bytes, spec_u32_from_le_bytes, spec_u32_to_le_bytes,
    spec_u64_from_le_bytes, spec_u64_to_le_bytes,
};
use vstd::prelude::*;

verus! {

/// Appends the two little-endian bytes of `x`.
pub fn push_u16(buf: &mut Vec<u8>, x: u16)
    ensures
        final(buf)@ == old(buf)@ + spec_u16_to_le_bytes(x),
{
    let mut bytes = vstd::bytes::u16_to_le_bytes(x);
    buf.append(&mut bytes);
}

/// Appends the four little-endian bytes of `x`.
pub fn push_u32(buf: &mut Vec<u8>, x: u32)
    ensures
        final(buf)@ == old(buf)@ + spec_u32_to_le_bytes(x),
{
    let mut bytes = vstd::bytes::u32_to_le_bytes(x);
    buf.append(&mut bytes);
}

/// Appends the eight little-endian bytes of `x`.
pub fn push_u64(buf: &mut Vec<u8>, x: u64)
    ensures
        final(buf)@ == old(buf)@ + spec_u64_to_le_bytes(x),
{
    let mut bytes = vstd::bytes::u64_to_le_bytes(x);
    buf.append(&mut bytes);
}

/// Reads a little-endian `u16` at byte offset `at`.
pub fn read_u16(data: &[u8], at: usize) -> (r: u16)
    requires
        at + 2 <= data@.len(),
    ensures
        r == spec_u16_from_le_bytes(data@.subrange(at as int, at + 2)),
{
    let _n: usize = data.len();
    vstd::bytes::u16_from_le_bytes(vstd::slice::slice_subrange(data, at, at + 2))
}

/// Reads a little-endian `u32` at byte offset `at`.
pub fn read_u32(data: &[u8], at: usize) -> (r: u32)
    requires
        at + 4 <= data@.len(),
    ensures
        r == spec_u32_from_le_bytes(data@.subrange(at as int, at + 4)),
{
    let _n: usize = data.len();
    vstd::bytes::u32_from_le_bytes(vstd::slice::slice_subrange(data, at, at + 4))
}

/// Reads a little-endian `u64` at byte offset `at`.
pub fn read_u64(data: &[u8], at: usize) -> (r: u64)
    requires
        at + 8 <= data@.len(),
    ensures
        r == spec_u64_from_le_bytes(data@.subrange(at as int, at + 8)),
{
    let _n: usize = data.len();
    vstd::bytes::u64_from_le_bytes(vstd::slice::slice_subrange(data, at, at + 8))
}

/// Encoding then decoding any fixed-width field gives it back, and every
/// encoding has the field's width.
pub proof fn lemma_le_roundtrips()
    ensures
        forall|x: u16|
            {
                &&& #[trigger] spec_u16_to_le_bytes(x).len() == 2
                &&& spec_u16_from_le_bytes(spec_u16_to_le_bytes(x)) == x
            },
        forall|x: u32|
            {
                &&& #[trigger] spec_u32_to_le_bytes(x).len() == 4
                &&& spec_u32_from_le_bytes(spec_u32_to_le_bytes(x)) == x
            },
        forall|x: u64|
            {
                &&& #[trigger] spec_u64_to_le_bytes(x).len() == 8
                &&& spec_u64_from_le_bytes(spec_u64_to_le_bytes(x)) == x
            },
{
    vstd::bytes::lemma_auto_spec_u16_to_from_le_bytes();
    vstd::bytes::lemma_auto_spec_u32_to_from_le_bytes();
    vstd::bytes::lemma_auto_spec_u64_to_from_le_bytes();
}

/// Appends `n` zero bytes of padding until the buffer holds `target` bytes.
pub fn pad_to(buf: &mut Vec<u8>, target: usize)
    ensures
        old(buf)@.len() >= target ==> final(buf)@ == old(buf)@,
        old(buf)@.len() < target ==> final(buf)@ == old(buf)@ + Seq::new(
            (target - old(buf)@.len()) as nat,
            |i: int| 0u8,
        ),
{
    let ghost start = buf@;
    while buf.len() < target
        invariant
            start.len() <= buf@.len(),
            start.len() < target ==> buf@.len() <= target,
            start.len() >= target ==> buf@.len() == start.len(),
            buf@ == start + Seq::new((buf@.len() - start.len()) as nat, |i: int| 0u8),
        decreases target - buf@.len(),
    {
        buf.push(0u8);
        assert(buf@ =~= start + Seq::new((buf@.len() - start.len()) as nat, |i: int| 0u8));
    }
    assert(buf@ =~= start + Seq::new((buf@.len() - start.len()) as nat, |i: int| 0u8));
    proof {
        if start.len() >= target {
            assert(buf@ =~= start);
        }
    }
}

} // verus!
