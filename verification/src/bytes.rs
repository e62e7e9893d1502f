//! Big-endian integers as they stand in the archive.

use vstd::prelude::*;

verus! {

/// The eight bytes of `value`, most significant first.
pub open spec fn be64(value: u64) -> Seq<u8> {
    seq![
        (value >> 56) as u8,
        ((value >> 48) & 0xff) as u8,
        ((value >> 40) & 0xff) as u8,
        ((value >> 32) & 0xff) as u8,
        ((value >> 24) & 0xff) as u8,
        ((value >> 16) & 0xff) as u8,
        ((value >> 8) & 0xff) as u8,
        (value & 0xff) as u8,
    ]
}

/// The integer whose big-endian bytes are the first eight of `bytes`.
pub open spec fn from_be64(bytes: Seq<u8>) -> u64 {
    (bytes[0] as u64) << 56 | (bytes[1] as u64) << 48 | (bytes[2] as u64) << 40 | (bytes[3] as u64)
        << 32 | (bytes[4] as u64) << 24 | (bytes[5] as u64) << 16 | (bytes[6] as u64) << 8 | (
    bytes[7] as u64)
}

/// Decoding the bytes of an integer gives the integer back.
pub proof fn lemma_be64_round_trip(value: u64)
    ensures
        be64(value).len() == 8,
        from_be64(be64(value)) == value,
{
    let b0 = (value >> 56) as u8;
    let b1 = ((value >> 48) & 0xff) as u8;
    let b2 = ((value >> 40) & 0xff) as u8;
    let b3 = ((value >> 32) & 0xff) as u8;
    let b4 = ((value >> 24) & 0xff) as u8;
    let b5 = ((value >> 16) & 0xff) as u8;
    let b6 = ((value >> 8) & 0xff) as u8;
    let b7 = (value & 0xff) as u8;
    assert((((value >> 56) as u8) as u64) << 56 | ((((value >> 48) & 0xff) as u8) as u64) << 48 | (
    (((value >> 40) & 0xff) as u8) as u64) << 40 | ((((value >> 32) & 0xff) as u8) as u64) << 32 | (
    (((value >> 24) & 0xff) as u8) as u64) << 24 | ((((value >> 16) & 0xff) as u8) as u64) << 16 | (
    (((value >> 8) & 0xff) as u8) as u64) << 8 | (((value & 0xff) as u8) as u64) == value)
        by (bit_vector);
}

/// Encoding the integer that eight bytes stand for gives the bytes back.
pub proof fn lemma_from_be64_round_trip(bytes: Seq<u8>)
    requires
        bytes.len() == 8,
    ensures
        be64(from_be64(bytes)) == bytes,
{
    let b0 = bytes[0];
    let b1 = bytes[1];
    let b2 = bytes[2];
    let b3 = bytes[3];
    let b4 = bytes[4];
    let b5 = bytes[5];
    let b6 = bytes[6];
    let b7 = bytes[7];
    let value = (b0 as u64) << 56 | (b1 as u64) << 48 | (b2 as u64) << 40 | (b3 as u64) << 32 | (
    b4 as u64) << 24 | (b5 as u64) << 16 | (b6 as u64) << 8 | (b7 as u64);
    assert(value == (b0 as u64) << 56 | (b1 as u64) << 48 | (b2 as u64) << 40 | (b3 as u64) << 32
        | (b4 as u64) << 24 | (b5 as u64) << 16 | (b6 as u64) << 8 | (b7 as u64) ==> (value >> 56)
        as u8 == b0 && ((value >> 48) & 0xff) as u8 == b1 && ((value >> 40) & 0xff) as u8 == b2 && (
    (value >> 32) & 0xff) as u8 == b3 && ((value >> 24) & 0xff) as u8 == b4 && ((value >> 16)
        & 0xff) as u8 == b5 && ((value >> 8) & 0xff) as u8 == b6 && (value & 0xff) as u8 == b7)
        by (bit_vector);
    assert(be64(from_be64(bytes)) =~= bytes);
}

/// Append the eight big-endian bytes of `value` to `out`.
pub fn push_be64(out: &mut Vec<u8>, value: u64)
    ensures
        final(out)@ == old(out)@ + be64(value),
{
    assert(value >> 56 <= 0xff) by (bit_vector);
    out.push((value >> 56) as u8);
    out.push(((value >> 48) & 0xff) as u8);
    out.push(((value >> 40) & 0xff) as u8);
    out.push(((value >> 32) & 0xff) as u8);
    out.push(((value >> 24) & 0xff) as u8);
    out.push(((value >> 16) & 0xff) as u8);
    out.push(((value >> 8) & 0xff) as u8);
    out.push((value & 0xff) as u8);
    assert(out@ =~= old(out)@ + be64(value));
}

/// Read the big-endian integer that stands at `at` in `bytes`.
pub fn read_be64(bytes: &[u8], at: usize) -> (value: u64)
    requires
        at + 8 <= bytes@.len(),
    ensures
        value == from_be64(bytes@.subrange(at as int, at + 8)),
{
    let ghost window = bytes@.subrange(at as int, at + 8);
    assert(window[0] == bytes@[at + 0]);
    assert(window[1] == bytes@[at + 1]);
    assert(window[2] == bytes@[at + 2]);
    assert(window[3] == bytes@[at + 3]);
    assert(window[4] == bytes@[at + 4]);
    assert(window[5] == bytes@[at + 5]);
    assert(window[6] == bytes@[at + 6]);
    assert(window[7] == bytes@[at + 7]);
    (bytes[at] as u64) << 56 | (bytes[at + 1] as u64) << 48 | (bytes[at + 2] as u64) << 40 | (
    bytes[at + 3] as u64) << 32 | (bytes[at + 4] as u64) << 24 | (bytes[at + 5] as u64) << 16 | (
    bytes[at + 6] as u64) << 8 | (bytes[at + 7] as u64)
}

} // verus!
