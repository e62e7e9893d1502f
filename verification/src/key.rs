//! Keys: what an object is stored under.

use vstd::prelude::*;
use crate::bytes::{be64, push_be64};

verus! {

/// A type which can be used as a key in a repository.
///
/// The repository stores objects under byte strings; a key is any value
/// that gives a byte string to stand for it. Two keys that give the same
/// bytes name the same object.
pub trait Key {
    /// The bytes that stand for this key. A key type that is written without
    /// proofs leaves this as it is.
    closed spec fn bytes(&self) -> Seq<u8> {
        Seq::empty()
    }

    /// The bytes that stand for this key.
    fn to_bytes(&self) -> (bytes: Vec<u8>)
        ensures
            bytes@ == self.bytes(),
    ;
}

impl Key for Vec<u8> {
    open spec fn bytes(&self) -> Seq<u8> {
        self@
    }

    fn to_bytes(&self) -> (bytes: Vec<u8>) {
        self.clone()
    }
}

impl Key for u64 {
    open spec fn bytes(&self) -> Seq<u8> {
        be64(*self)
    }

    fn to_bytes(&self) -> (bytes: Vec<u8>) {
        let mut bytes: Vec<u8> = Vec::new();
        push_be64(&mut bytes, *self);
        assert(bytes@ =~= be64(*self));
        bytes
    }
}

/// Distinct numbers are distinct keys.
pub proof fn lemma_number_keys_differ(a: u64, b: u64)
    requires
        a.bytes() == b.bytes(),
    ensures
        a == b,
{
    crate::bytes::lemma_be64_round_trip(a);
    crate::bytes::lemma_be64_round_trip(b);
}

} // verus!
