//! Byte strings: big-endian integers, appending, comparing.
use vstd::prelude::*;

verus! {

/// The two bytes of `value`, most significant first.
pub open spec fn be16(value: u16) -> Seq<u8> {
    seq![(value / 256) as u8, (value % 256) as u8]
}

/// The three low bytes of `value`, most significant first.
pub open spec fn be24(value: int) -> Seq<u8> {
    seq![(value / 65536 % 256) as u8, (value / 256 % 256) as u8, (value % 256) as u8]
}

/// The four bytes of `value`, most significant first.
pub open spec fn be32(value: u32) -> Seq<u8> {
    seq![
        (value / 16777216) as u8,
        (value / 65536 % 256) as u8,
        (value / 256 % 256) as u8,
        (value % 256) as u8,
    ]
}

/// The number that two big-endian bytes at `at` stand for.
pub open spec fn read16(bytes: Seq<u8>, at: int) -> int {
    bytes[at] * 256 + bytes[at + 1]
}

/// The number that three big-endian bytes at `at` stand for.
pub open spec fn read24(bytes: Seq<u8>, at: int) -> int {
    bytes[at] * 65536 + bytes[at + 1] * 256 + bytes[at + 2]
}

/// Append `more` to `out`.
pub fn push_bytes(out: &mut Vec<u8>, more: &[u8])
    ensures
        final(out)@ == old(out)@ + more@,
{
    out.extend_from_slice(more);
    assert(out@ =~= old(out)@ + more@);
}

/// Append the two bytes of `value`.
pub fn push_u16(out: &mut Vec<u8>, value: u16)
    ensures
        final(out)@ == old(out)@ + be16(value),
{
    out.push((value / 256) as u8);
    out.push((value % 256) as u8);
    assert(out@ =~= old(out)@ + be16(value));
}

/// Append the three low bytes of `value`.
pub fn push_u24(out: &mut Vec<u8>, value: usize)
    ensures
        final(out)@ == old(out)@ + be24(value as int),
{
    out.push((value / 65536 % 256) as u8);
    out.push((value / 256 % 256) as u8);
    out.push((value % 256) as u8);
    assert(out@ =~= old(out)@ + be24(value as int));
}

/// Append the four bytes of `value`.
pub fn push_u32(out: &mut Vec<u8>, value: u32)
    ensures
        final(out)@ == old(out)@ + be32(value),
{
    out.push((value / 16777216) as u8);
    out.push((value / 65536 % 256) as u8);
    out.push((value / 256 % 256) as u8);
    out.push((value % 256) as u8);
    assert(out@ =~= old(out)@ + be32(value));
}

/// The big-endian 16-bit integer at `at`.
pub fn get_u16(bytes: &[u8], at: usize) -> (value: u16)
    requires
        at + 2 <= bytes@.len(),
    ensures
        value == read16(bytes@, at as int),
{
    bytes[at] as u16 * 256 + bytes[at + 1] as u16
}

/// The big-endian 24-bit integer at `at`.
pub fn get_u24(bytes: &[u8], at: usize) -> (value: usize)
    requires
        at + 3 <= bytes@.len(),
    ensures
        value == read24(bytes@, at as int),
{
    bytes[at] as usize * 65536 + bytes[at + 1] as usize * 256 + bytes[at + 2] as usize
}

/// The bytes of `bytes` from `from` up to `to`.
pub fn copy_range(bytes: &[u8], from: usize, to: usize) -> (copy: Vec<u8>)
    requires
        from <= to <= bytes@.len(),
    ensures
        copy@ == bytes@.subrange(from as int, to as int),
{
    let mut copy: Vec<u8> = Vec::with_capacity(to - from);
    push_bytes(&mut copy, vstd::slice::slice_subrange(bytes, from, to));
    assert(copy@ =~= bytes@.subrange(from as int, to as int));
    copy
}

/// An owned copy of `bytes`.
pub fn to_vec(bytes: &[u8]) -> (copy: Vec<u8>)
    ensures
        copy@ == bytes@,
{
    vstd::slice::slice_to_vec(bytes)
}

/// The bytes as an array.
pub fn copy_array<const N: usize>(bytes: &[u8]) -> (array: [u8; N])
    requires
        bytes@.len() == N,
    ensures
        array@ == bytes@,
{
    let mut array: [u8; N] = [0u8; N];
    for i in 0..N
        invariant
            bytes@.len() == N,
            array@.len() == N,
            forall|j: int| 0 <= j < i ==> array@[j] == bytes@[j],
    {
        array[i] = bytes[i];
    }
    assert(array@ =~= bytes@);
    array
}

/// Whether the two byte strings are the same.
pub fn bytes_equal(left: &[u8], right: &[u8]) -> (equal: bool)
    ensures
        equal == (left@ == right@),
{
    if left.len() != right.len() {
        return false;
    }
    for i in 0..left.len()
        invariant
            left@.len() == right@.len(),
            left@.subrange(0, i as int) == right@.subrange(0, i as int),
    {
        if left[i] != right[i] {
            return false;
        }
        proof {
            assert(left@.subrange(0, i + 1) =~= left@.subrange(0, i as int).push(left@[i as int]));
            assert(right@.subrange(0, i + 1) =~= right@.subrange(0, i as int).push(right@[i as int]));
        }
    }
    assert(left@ =~= left@.subrange(0, left@.len() as int));
    assert(right@ =~= right@.subrange(0, right@.len() as int));
    true
}

/// Remove and return the first `count` bytes of `buffer`.
pub fn split_front(buffer: &mut Vec<u8>, count: usize) -> (front: Vec<u8>)
    requires
        count <= old(buffer)@.len(),
    ensures
        front@ == old(buffer)@.subrange(0, count as int),
        final(buffer)@ == old(buffer)@.subrange(count as int, old(buffer)@.len() as int),
{
    let front = copy_range(buffer.as_slice(), 0, count);
    let rest = copy_range(buffer.as_slice(), count, buffer.len());
    *buffer = rest;
    front
}

/// The three bytes of a 24-bit value read back are that value.
pub proof fn lemma_read_be24(value: int)
    requires
        0 <= value < 16777216,
    ensures
        read24(be24(value), 0) == value,
        be24(value).len() == 3,
{
}

} // verus!
