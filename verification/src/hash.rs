//! Chunk identity: a 256-bit BLAKE2b digest of the chunk's plaintext.

use vstd::prelude::*;
use blake2::digest::{Input, VariableOutput};
use blake2::VarBlake2b;

verus! {

/// The size in bytes of the digest that identifies a chunk.
pub const CHUNK_HASH_SIZE: usize = 32;

/// A 256-bit digest that identifies a chunk.
pub type ChunkHash = [u8; 32];

/// The BLAKE2b digest of `data` with an output of 32 bytes and no key.
pub uninterp spec fn blake2b_256(data: Seq<u8>) -> Seq<u8>;

/// Runs `VarBlake2b` of the `blake2` crate over `data` with an output size of
/// 32 bytes. The digest is a function of the bytes alone; nothing else is
/// claimed of it here.
#[verifier::external_body]
fn blake2b_digest(data: &[u8]) -> (checksum: ChunkHash)
    ensures
        checksum@ == blake2b_256(data@),
{
    let mut hasher = VarBlake2b::new(CHUNK_HASH_SIZE).unwrap();
    hasher.input(data);
    let mut checksum = [0u8; CHUNK_HASH_SIZE];
    hasher.variable_result(|result| checksum.copy_from_slice(result));
    checksum
}

/// Compute the digest that identifies a chunk holding `data`.
pub fn chunk_hash(data: &[u8]) -> (checksum: ChunkHash)
    ensures
        checksum@ == blake2b_256(data@),
{
    blake2b_digest(data)
}

/// Whether two digests are the same, byte for byte.
pub fn hash_eq(a: &ChunkHash, b: &ChunkHash) -> (same: bool)
    ensures
        same == (a@ == b@),
{
    let mut i: usize = 0;
    while i < 32
        invariant
            i <= 32,
            forall|j: int| 0 <= j < i ==> a@[j] == b@[j],
        decreases 32 - i,
    {
        if a[i] != b[i] {
            return false;
        }
        i += 1;
    }
    assert(a@ =~= b@);
    true
}

} // verus!
