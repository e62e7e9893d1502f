//! The per-chunk pipeline between plaintext and stored bytes.
//!
//! A chunk is compressed before it is stored, where the repository asks for
//! that, and decompressed when it is read. Compression is the `miniz_oxide`
//! crate's; nothing is taken on trust of it but that it gives the same
//! output for the same input. What was compressed is decompressed again
//! before it is stored, and a chunk that does not come back as it was, or
//! that compression does not make smaller, is stored as it is.

use vstd::prelude::*;
use vstd::slice::{slice_subrange, slice_to_vec};
use miniz_oxide::deflate::compress_to_vec;
use miniz_oxide::inflate::decompress_to_vec_with_limit;

verus! {

/// How a repository compresses its chunks.
#[derive(Debug, Clone, Copy, PartialEq, Eq, Structural, Hash)]
pub enum Compression {
    /// Chunks are stored as they are.
    Uncompressed,
    /// Chunks are compressed with the DEFLATE algorithm.
    Deflate {
        /// The compression level, from 0 (fastest) to 10 (smallest); higher
        /// levels count as 10.
        level: u8,
    },
}

/// How a repository encrypts its chunks.
#[derive(Debug, Clone, Copy, PartialEq, Eq, Structural, Hash)]
pub enum Encryption {
    /// Chunks are stored in the clear.
    Unencrypted,
}

/// The pipeline a repository was created with.
#[derive(Debug, Clone, Copy, PartialEq, Eq, Structural, Hash)]
pub struct Codec {
    pub compression: Compression,
    pub encryption: Encryption,
}

/// The first byte of a stored chunk that was not compressed.
pub const STORED_RAW: u8 = 0;

/// The first byte of a stored chunk that was compressed.
pub const STORED_DEFLATED: u8 = 1;

/// What `miniz_oxide::deflate::compress_to_vec` makes of `data` at `level`.
pub uninterp spec fn deflated(data: Seq<u8>, level: u8) -> Seq<u8>;

/// What `miniz_oxide::inflate::decompress_to_vec_with_limit` makes of
/// `stored` when it may give no more than `limit` bytes: the decompressed
/// data, or `None` where it reports an error.
pub uninterp spec fn inflated(stored: Seq<u8>, limit: nat) -> Option<Seq<u8>>;

/// Compresses `data` with `compress_to_vec` of the `miniz_oxide` crate. The
/// output is a function of the data and the level; nothing else is claimed
/// of it.
#[verifier::external_body]
fn deflate_bytes(data: &[u8], level: u8) -> (stored: Vec<u8>)
    ensures
        stored@ == deflated(data@, level),
{
    compress_to_vec(data, level)
}

/// Decompresses `stored` with `decompress_to_vec_with_limit` of the
/// `miniz_oxide` crate, which gives the data or an error. The outcome is a
/// function of the input and the limit; nothing else is claimed of it.
#[verifier::external_body]
fn inflate_bytes(stored: &[u8], limit: usize) -> (data: Option<Vec<u8>>)
    ensures
        match data {
            Some(bytes) => inflated(stored@, limit as nat) == Some(bytes@),
            None => inflated(stored@, limit as nat) is None,
        },
{
    match decompress_to_vec_with_limit(stored, limit) {
        Ok(bytes) => Some(bytes),
        Err(_) => None,
    }
}

impl Codec {
    /// The bytes that are stored for a chunk with the plaintext `plain`.
    pub open spec fn encoded(self, plain: Seq<u8>) -> Seq<u8> {
        match self.compression {
            Compression::Uncompressed => plain,
            Compression::Deflate { level } => {
                let packed = deflated(plain, level);
                if packed.len() < plain.len() && inflated(packed, plain.len()) == Some(plain) {
                    seq![1u8] + packed
                } else {
                    seq![0u8] + plain
                }
            },
        }
    }

    /// The plaintext of `size` bytes that `stored` decodes to, or `None`
    /// where `stored` is not the encoding of anything.
    pub open spec fn decoded(self, stored: Seq<u8>, size: nat) -> Option<Seq<u8>> {
        match self.compression {
            Compression::Uncompressed => Some(stored),
            Compression::Deflate { level } => if stored.len() == 0 {
                None
            } else if stored[0] == 0 {
                Some(stored.skip(1))
            } else if stored[0] == 1 {
                inflated(stored.skip(1), size)
            } else {
                None
            },
        }
    }

    /// What was encoded decodes to what it was.
    pub proof fn lemma_round_trip(self, plain: Seq<u8>)
        ensures
            self.decoded(self.encoded(plain), plain.len()) == Some(plain),
    {
        match self.compression {
            Compression::Uncompressed => {},
            Compression::Deflate { level } => {
                let packed = deflated(plain, level);
                assert((seq![1u8] + packed).skip(1) =~= packed);
                assert((seq![0u8] + plain).skip(1) =~= plain);
            },
        }
    }

    /// Encode `plain` for storage.
    pub fn encode(&self, plain: &[u8]) -> (stored: Vec<u8>)
        ensures
            stored@ == self.encoded(plain@),
            self.decoded(stored@, plain@.len()) == Some(plain@),
    {
        proof {
            self.lemma_round_trip(plain@);
        }
        match self.compression {
            Compression::Uncompressed => slice_to_vec(plain),
            Compression::Deflate { level } => {
                let packed = deflate_bytes(plain, level);
                let comes_back = packed.len() < plain.len() && match inflate_bytes(
                    packed.as_slice(),
                    plain.len(),
                ) {
                    Some(back) => crate::header::bytes_eq(back.as_slice(), plain),
                    None => false,
                };
                let mut stored: Vec<u8> = Vec::new();
                if comes_back {
                    stored.push(STORED_DEFLATED);
                    stored.extend_from_slice(packed.as_slice());
                    assert(stored@ =~= seq![1u8] + packed@);
                } else {
                    stored.push(STORED_RAW);
                    stored.extend_from_slice(plain);
                    assert(stored@ =~= seq![0u8] + plain@);
                }
                stored
            },
        }
    }

    /// Decode what was read from storage for a chunk of `size` bytes.
    pub fn decode(&self, stored: Vec<u8>, size: usize) -> (plain: Option<Vec<u8>>)
        ensures
            match plain {
                Some(bytes) => self.decoded(stored@, size as nat) == Some(bytes@),
                None => self.decoded(stored@, size as nat) is None,
            },
    {
        match self.compression {
            Compression::Uncompressed => Some(stored),
            Compression::Deflate { level } => {
                if stored.len() == 0 {
                    return None;
                }
                let rest = slice_subrange(stored.as_slice(), 1, stored.len());
                assert(rest@ =~= stored@.skip(1));
                if stored[0] == STORED_RAW {
                    Some(slice_to_vec(rest))
                } else if stored[0] == STORED_DEFLATED {
                    inflate_bytes(rest, size)
                } else {
                    None
                }
            },
        }
    }
}

} // verus!
