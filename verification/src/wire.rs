//! The building blocks of the header's encoding: integers, byte strings and
//! lists, each with a parser that undoes its encoder.

use vstd::prelude::*;
use vstd::slice::{slice_subrange, slice_to_vec};
use crate::bytes::{be64, from_be64, lemma_be64_round_trip, read_be64};

verus! {

/// Read an integer of eight bytes off the front of `s`.
pub open spec fn parse_u64(s: Seq<u8>) -> Option<(u64, Seq<u8>)> {
    if s.len() >= 8 {
        Some((from_be64(s.take(8)), s.skip(8)))
    } else {
        None
    }
}

/// Read `count` bytes off the front of `s`.
pub open spec fn parse_fixed(s: Seq<u8>, count: nat) -> Option<(Seq<u8>, Seq<u8>)> {
    if s.len() >= count {
        Some((s.take(count as int), s.skip(count as int)))
    } else {
        None
    }
}

/// A byte string behind its length.
pub open spec fn ser_bytes(bytes: Seq<u8>) -> Seq<u8> {
    be64(bytes.len() as u64) + bytes
}

/// Read a byte string behind its length off the front of `s`.
pub open spec fn parse_bytes(s: Seq<u8>) -> Option<(Seq<u8>, Seq<u8>)> {
    match parse_u64(s) {
        Some((count, rest)) => parse_fixed(rest, count as nat),
        None => None,
    }
}

/// The encodings of `items`, one behind the other.
pub open spec fn ser_list<T>(items: Seq<T>, ser: spec_fn(T) -> Seq<u8>) -> Seq<u8>
    decreases items.len(),
{
    if items.len() == 0 {
        Seq::empty()
    } else {
        ser(items[0]) + ser_list(items.skip(1), ser)
    }
}

/// Read `count` items off the front of `s`.
pub open spec fn parse_list<T>(
    s: Seq<u8>,
    count: nat,
    parse: spec_fn(Seq<u8>) -> Option<(T, Seq<u8>)>,
) -> Option<(Seq<T>, Seq<u8>)>
    decreases count,
{
    if count == 0 {
        Some((Seq::empty(), s))
    } else {
        match parse(s) {
            Some((item, rest)) => match parse_list(rest, (count - 1) as nat, parse) {
                Some((items, left)) => Some((seq![item] + items, left)),
                None => None,
            },
            None => None,
        }
    }
}

/// A list that was read has as many items as were asked for.
pub proof fn lemma_parse_list_len<T>(
    s: Seq<u8>,
    count: nat,
    parse: spec_fn(Seq<u8>) -> Option<(T, Seq<u8>)>,
)
    ensures
        match parse_list(s, count, parse) {
            Some((items, rest)) => items.len() == count,
            None => true,
        },
    decreases count,
{
    if count > 0 {
        match parse(s) {
            Some((item, rest)) => {
                lemma_parse_list_len(rest, (count - 1) as nat, parse);
            },
            None => {},
        }
    }
}

/// An integer is read back as it was written.
pub proof fn lemma_u64_round_trip(value: u64, rest: Seq<u8>)
    ensures
        parse_u64(be64(value) + rest) == Some((value, rest)),
{
    lemma_be64_round_trip(value);
    assert((be64(value) + rest).take(8) =~= be64(value));
    assert((be64(value) + rest).skip(8) =~= rest);
}

/// Bytes of a known number are read back as they were written.
pub proof fn lemma_fixed_round_trip(bytes: Seq<u8>, rest: Seq<u8>)
    ensures
        parse_fixed(bytes + rest, bytes.len()) == Some((bytes, rest)),
{
    assert((bytes + rest).take(bytes.len() as int) =~= bytes);
    assert((bytes + rest).skip(bytes.len() as int) =~= rest);
}

/// A byte string is read back as it was written.
pub proof fn lemma_bytes_round_trip(bytes: Seq<u8>, rest: Seq<u8>)
    requires
        bytes.len() <= u64::MAX,
    ensures
        parse_bytes(ser_bytes(bytes) + rest) == Some((bytes, rest)),
{
    lemma_u64_round_trip(bytes.len() as u64, bytes + rest);
    assert(ser_bytes(bytes) + rest =~= be64(bytes.len() as u64) + (bytes + rest));
    lemma_fixed_round_trip(bytes, rest);
}

/// A list is read back as it was written, where each of its items is.
pub proof fn lemma_list_round_trip<T>(
    items: Seq<T>,
    ser: spec_fn(T) -> Seq<u8>,
    parse: spec_fn(Seq<u8>) -> Option<(T, Seq<u8>)>,
    rest: Seq<u8>,
)
    requires
        forall|i: int, r: Seq<u8>|
            0 <= i < items.len() ==> #[trigger] parse(ser(items[i]) + r) == Some((items[i], r)),
    ensures
        parse_list(ser_list(items, ser) + rest, items.len(), parse) == Some((items, rest)),
    decreases items.len(),
{
    if items.len() == 0 {
        assert(ser_list(items, ser) + rest =~= rest);
        assert(items =~= Seq::<T>::empty());
    } else {
        let tail = items.skip(1);
        assert forall|i: int, r: Seq<u8>| 0 <= i < tail.len() implies #[trigger] parse(
            ser(tail[i]) + r,
        ) == Some((tail[i], r)) by {
            assert(tail[i] == items[i + 1]);
        }
        lemma_list_round_trip(tail, ser, parse, rest);
        let behind = ser_list(tail, ser) + rest;
        assert(ser_list(items, ser) + rest =~= ser(items[0]) + behind);
        assert(parse(ser(items[0]) + behind) == Some((items[0], behind)));
        assert(seq![items[0]] + tail =~= items);
    }
}

/// The encoding of a list with one more item at its end.
pub proof fn lemma_ser_list_push<T>(items: Seq<T>, item: T, ser: spec_fn(T) -> Seq<u8>)
    ensures
        ser_list(items.push(item), ser) == ser_list(items, ser) + ser(item),
    decreases items.len(),
{
    if items.len() == 0 {
        assert(items.push(item).skip(1) =~= Seq::<T>::empty());
        assert(items.push(item)[0] == item);
        assert(ser_list(items.push(item).skip(1), ser) =~= Seq::<u8>::empty());
        assert(ser_list(items.push(item), ser) =~= ser(item) + Seq::<u8>::empty());
        assert(ser_list(items, ser) + ser(item) =~= ser(item));
        assert(ser(item) + Seq::<u8>::empty() =~= ser(item));
    } else {
        lemma_ser_list_push(items.skip(1), item, ser);
        assert(items.push(item).skip(1) =~= items.skip(1).push(item));
        assert(ser_list(items.push(item), ser) =~= ser_list(items, ser) + ser(item));
    }
}

/// A list of integers takes eight bytes for each.
pub proof fn lemma_words_len(words: Seq<u64>, ser: spec_fn(u64) -> Seq<u8>)
    requires
        forall|word: u64| #[trigger] ser(word).len() == 8,
    ensures
        ser_list(words, ser).len() == 8 * words.len(),
    decreases words.len(),
{
    if words.len() > 0 {
        lemma_words_len(words.skip(1), ser);
    }
}

/// Reading a list item by item: what was read so far, and what reading the
/// rest will add to it.
pub open spec fn list_progress<T>(
    read: Seq<T>,
    left: Seq<u8>,
    remaining: nat,
    parse: spec_fn(Seq<u8>) -> Option<(T, Seq<u8>)>,
) -> Option<(Seq<T>, Seq<u8>)> {
    match parse_list(left, remaining, parse) {
        Some((items, rest)) => Some((read + items, rest)),
        None => None,
    }
}

/// Reading one more item leaves the outcome of reading the list as it was.
pub proof fn lemma_list_step<T>(
    read: Seq<T>,
    left: Seq<u8>,
    remaining: nat,
    parse: spec_fn(Seq<u8>) -> Option<(T, Seq<u8>)>,
)
    requires
        remaining > 0,
    ensures
        list_progress(read, left, remaining, parse) == match parse(left) {
            Some((item, rest)) => list_progress(
                read.push(item),
                rest,
                (remaining - 1) as nat,
                parse,
            ),
            None => None,
        },
{
    match parse(left) {
        Some((item, rest)) => {
            match parse_list(rest, (remaining - 1) as nat, parse) {
                Some((items, last)) => {
                    assert(read + (seq![item] + items) =~= read.push(item) + items);
                },
                None => {},
            }
        },
        None => {},
    }
}

/// A place in a byte string from which values are read.
pub struct Reader<'a> {
    pub bytes: &'a [u8],
    pub at: usize,
}

impl<'a> Reader<'a> {
    /// The bytes that have not been read.
    pub open spec fn rest(&self) -> Seq<u8> {
        self.bytes@.skip(self.at as int)
    }

    /// The invariant of a reader: its place lies in the byte string.
    pub open spec fn wf(&self) -> bool {
        self.at <= self.bytes@.len()
    }

    /// A reader at the start of `bytes`.
    pub fn new(bytes: &'a [u8]) -> (reader: Reader<'a>)
        ensures
            reader.wf(),
            reader.rest() == bytes@,
            reader.bytes == bytes,
    {
        let reader = Reader { bytes, at: 0 };
        assert(reader.rest() =~= bytes@);
        reader
    }

    /// The number of bytes that have not been read.
    pub fn remaining(&self) -> (count: usize)
        requires
            self.wf(),
        ensures
            count == self.rest().len(),
    {
        self.bytes.len() - self.at
    }

    /// Read an integer of eight bytes.
    pub fn take_u64(&mut self) -> (value: Option<u64>)
        requires
            old(self).wf(),
        ensures
            final(self).wf(),
            final(self).bytes == old(self).bytes,
            match parse_u64(old(self).rest()) {
                Some((parsed, rest)) => value == Some(parsed) && final(self).rest() == rest,
                None => value is None && final(self).rest() == old(self).rest(),
            },
    {
        if self.bytes.len() - self.at < 8 {
            return None;
        }
        let value = read_be64(self.bytes, self.at);
        proof {
            assert(self.rest().take(8) =~= self.bytes@.subrange(self.at as int, self.at + 8));
            assert(self.rest().skip(8) =~= self.bytes@.skip(self.at + 8));
        }
        self.at = self.at + 8;
        Some(value)
    }

    /// Read `count` bytes.
    pub fn take_fixed(&mut self, count: usize) -> (value: Option<Vec<u8>>)
        requires
            old(self).wf(),
        ensures
            final(self).wf(),
            final(self).bytes == old(self).bytes,
            match parse_fixed(old(self).rest(), count as nat) {
                Some((parsed, rest)) => value is Some && value->0@ == parsed && final(self).rest()
                    == rest,
                None => value is None && final(self).rest() == old(self).rest(),
            },
    {
        if self.bytes.len() - self.at < count {
            return None;
        }
        let value = slice_to_vec(slice_subrange(self.bytes, self.at, self.at + count));
        proof {
            assert(self.rest().take(count as int) =~= self.bytes@.subrange(
                self.at as int,
                self.at + count,
            ));
            assert(self.rest().skip(count as int) =~= self.bytes@.skip(self.at + count));
        }
        self.at = self.at + count;
        Some(value)
    }

    /// Read a byte string behind its length.
    pub fn take_bytes(&mut self) -> (value: Option<Vec<u8>>)
        requires
            old(self).wf(),
        ensures
            final(self).wf(),
            final(self).bytes == old(self).bytes,
            match parse_bytes(old(self).rest()) {
                Some((parsed, rest)) => value is Some && value->0@ == parsed && final(self).rest()
                    == rest,
                None => value is None,
            },
    {
        let count = match self.take_u64() {
            Some(count) => count,
            None => {
                return None;
            },
        };
        if count > usize::MAX as u64 {
            proof {
                let total = self.bytes.len();
                assert(self.rest().len() <= total);
            }
            return None;
        }
        self.take_fixed(count as usize)
    }
}

/// Append a byte string behind its length to `out`.
pub fn push_bytes(out: &mut Vec<u8>, bytes: &[u8])
    ensures
        final(out)@ == old(out)@ + ser_bytes(bytes@),
{
    crate::bytes::push_be64(out, bytes.len() as u64);
    let ghost before = out@;
    out.extend_from_slice(bytes);
    assert(out@ =~= old(out)@ + ser_bytes(bytes@));
}

} // verus!
