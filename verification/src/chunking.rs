//! Content-defined chunking of an incrementally written byte stream.
//!
//! Boundaries are found by the rolling hash of the `cdchunking` crate; a
//! chunk that has grown to its largest size ends without one. Where the
//! rolling hash finds its boundaries is that crate's business; what this
//! module proves is that the chunks it hands out are cut at the first
//! boundary each time, are never empty and never too large, and put together
//! give back exactly the bytes that were written.

use vstd::prelude::*;
use vstd::slice::{slice_subrange, slice_to_vec};
use cdchunking::{ChunkerImpl, ZPAQ};

verus! {

/// The smallest number of boundary bits the rolling hash accepts.
pub const MIN_CHUNKER_BITS: usize = 1;

/// The largest number of boundary bits the rolling hash accepts.
pub const MAX_CHUNKER_BITS: usize = 32;

/// Whether the rolling hash of the `cdchunking` crate's `ZPAQ`, started afresh
/// with `bits` boundary bits, reports a boundary as it consumes the last byte
/// of `consumed`.
pub uninterp spec fn zpaq_hit(bits: nat, consumed: Seq<u8>) -> bool;

/// The largest size of a chunk in bytes. A chunk that has grown to this size
/// ends, whatever the rolling hash says.
pub const MAX_CHUNK_SIZE: usize = 0x400_0000;

/// Whether a chunk that holds `consumed` ends with its last byte: the rolling
/// hash reports a boundary there, or the chunk has its largest size.
pub open spec fn closes(bits: nat, consumed: Seq<u8>) -> bool {
    zpaq_hit(bits, consumed) || consumed.len() >= MAX_CHUNK_SIZE
}

/// Whether the first boundary in `data` lies at index `at`.
pub open spec fn is_first_boundary(bits: nat, data: Seq<u8>, at: int) -> bool {
    &&& 0 <= at < data.len()
    &&& closes(bits, data.take(at + 1))
    &&& forall|j: int| 0 <= j < at ==> !#[trigger] closes(bits, data.take(j + 1))
}

/// Whether `data` holds no boundary at all.
pub open spec fn has_no_boundary(bits: nat, data: Seq<u8>) -> bool {
    forall|j: int| 0 <= j < data.len() ==> !#[trigger] closes(bits, data.take(j + 1))
}

/// The index of the first boundary in `data`, if there is one.
pub open spec fn first_boundary(bits: nat, data: Seq<u8>) -> Option<int> {
    if exists|at: int| is_first_boundary(bits, data, at) {
        Some(choose|at: int| is_first_boundary(bits, data, at))
    } else {
        None
    }
}

/// The chunks of `data` that end at a boundary, in order.
pub open spec fn complete_chunks(bits: nat, data: Seq<u8>) -> Seq<Seq<u8>>
    decreases data.len(),
{
    match first_boundary(bits, data) {
        Some(at) => if 0 <= at < data.len() {
            seq![data.take(at + 1)] + complete_chunks(bits, data.skip(at + 1))
        } else {
            Seq::empty()
        },
        None => Seq::empty(),
    }
}

/// The bytes of `data` behind its last boundary.
pub open spec fn remainder(bits: nat, data: Seq<u8>) -> Seq<u8>
    decreases data.len(),
{
    match first_boundary(bits, data) {
        Some(at) => if 0 <= at < data.len() {
            remainder(bits, data.skip(at + 1))
        } else {
            data
        },
        None => data,
    }
}

/// The chunk that the end of a stream makes of the bytes `pending` that no
/// boundary closed: none where there are no such bytes.
pub open spec fn last_chunk(pending: Seq<u8>) -> Seq<Seq<u8>> {
    if pending.len() > 0 {
        seq![pending]
    } else {
        Seq::empty()
    }
}

/// The bytes of `chunks` put end to end.
pub open spec fn concat(chunks: Seq<Seq<u8>>) -> Seq<u8>
    decreases chunks.len(),
{
    if chunks.len() == 0 {
        Seq::empty()
    } else {
        concat(chunks.drop_last()) + chunks.last()
    }
}

/// Feeds `data` to a fresh `ZPAQ::new(bits)` through `find_boundary`, which
/// consumes byte after byte and stops at the first byte on which the rolling
/// hash reports a boundary. The result is the index of that byte, or `None`
/// when no byte of `data` ends a chunk.
#[verifier::external_body]
fn zpaq_find_boundary(bits: usize, data: &[u8]) -> (boundary: Option<usize>)
    requires
        1 <= bits <= 32,
    ensures
        match boundary {
            Some(at) => at < data@.len() && zpaq_hit(bits as nat, data@.take(at + 1)),
            None => true,
        },
        forall|j: int|
            0 <= j < (match boundary {
                Some(at) => at as int,
                None => data@.len() as int,
            }) ==> !#[trigger] zpaq_hit(bits as nat, data@.take(j + 1)),
{
    ZPAQ::new(bits).find_boundary(data)
}

/// There is at most one first boundary.
pub proof fn lemma_first_boundary_unique(bits: nat, data: Seq<u8>, at: int)
    requires
        is_first_boundary(bits, data, at),
    ensures
        first_boundary(bits, data) == Some(at),
{
    let other = choose|at: int| is_first_boundary(bits, data, at);
    assert(is_first_boundary(bits, data, other));
    if other < at {
        assert(!closes(bits, data.take(other + 1)));
    }
    if at < other {
        assert(!closes(bits, data.take(at + 1)));
    }
}

/// Data without a boundary has no first boundary, no complete chunk, and is
/// its own remainder.
pub proof fn lemma_no_boundary(bits: nat, data: Seq<u8>)
    requires
        has_no_boundary(bits, data),
    ensures
        first_boundary(bits, data) is None,
        complete_chunks(bits, data) == Seq::<Seq<u8>>::empty(),
        remainder(bits, data) == data,
{
    if exists|at: int| is_first_boundary(bits, data, at) {
        let at = choose|at: int| is_first_boundary(bits, data, at);
        assert(!closes(bits, data.take(at + 1)));
    }
}

/// The remainder of any data holds no boundary.
pub proof fn lemma_remainder_has_no_boundary(bits: nat, data: Seq<u8>)
    ensures
        has_no_boundary(bits, remainder(bits, data)),
    decreases data.len(),
{
    match first_boundary(bits, data) {
        Some(at) => {
            if 0 <= at < data.len() {
                lemma_remainder_has_no_boundary(bits, data.skip(at + 1));
            } else {
                assert(is_first_boundary(bits, data, at));
            }
        },
        None => {
            assert forall|j: int| 0 <= j < data.len() implies !#[trigger] closes(
                bits,
                data.take(j + 1),
            ) by {
                lemma_first_hit_exists(bits, data, j);
            }
        },
    }
}

/// If some prefix of `data` ends on a hit, then `data` has a first boundary.
proof fn lemma_first_hit_exists(bits: nat, data: Seq<u8>, j: int)
    requires
        0 <= j < data.len(),
        first_boundary(bits, data) is None,
    ensures
        !closes(bits, data.take(j + 1)),
    decreases j,
{
    if closes(bits, data.take(j + 1)) {
        if forall|k: int| 0 <= k < j ==> !#[trigger] closes(bits, data.take(k + 1)) {
            assert(is_first_boundary(bits, data, j));
        } else {
            let k = choose|k: int| 0 <= k < j && #[trigger] closes(bits, data.take(k + 1));
            lemma_first_hit_exists(bits, data, k);
        }
    }
}

/// Complete chunks are never empty, and with the remainder they make up the
/// data they were cut from.
pub proof fn lemma_chunks_make_up_data(bits: nat, data: Seq<u8>)
    ensures
        concat(complete_chunks(bits, data)) + remainder(bits, data) == data,
        forall|i: int|
            0 <= i < complete_chunks(bits, data).len() ==> (#[trigger] complete_chunks(
                bits,
                data,
            )[i]).len() > 0,
    decreases data.len(),
{
    match first_boundary(bits, data) {
        Some(at) => {
            if 0 <= at < data.len() {
                let head = data.take(at + 1);
                let tail = data.skip(at + 1);
                lemma_chunks_make_up_data(bits, tail);
                lemma_concat_prepend(head, complete_chunks(bits, tail));
                assert(head + (concat(complete_chunks(bits, tail)) + remainder(bits, tail))
                    =~= data);
                assert(concat(complete_chunks(bits, data)) + remainder(bits, data) =~= data);
                assert forall|i: int| 0 <= i < complete_chunks(bits, data).len() implies (
                #[trigger] complete_chunks(bits, data)[i]).len() > 0 by {
                    if i > 0 {
                        assert(complete_chunks(bits, data)[i] == complete_chunks(bits, tail)[i
                            - 1]);
                    }
                }
            } else {
                assert(concat(Seq::<Seq<u8>>::empty()) + data =~= data);
            }
        },
        None => {
            assert(concat(Seq::<Seq<u8>>::empty()) + data =~= data);
        },
    }
}

/// No chunk is larger than the largest size, and what is left over is
/// smaller.
pub proof fn lemma_chunks_are_bounded(bits: nat, data: Seq<u8>)
    ensures
        remainder(bits, data).len() < MAX_CHUNK_SIZE,
        forall|i: int|
            0 <= i < complete_chunks(bits, data).len() ==> (#[trigger] complete_chunks(
                bits,
                data,
            )[i]).len() <= MAX_CHUNK_SIZE,
    decreases data.len(),
{
    match first_boundary(bits, data) {
        Some(at) => {
            assert(is_first_boundary(bits, data, at));
            let tail = data.skip(at + 1);
            lemma_chunks_are_bounded(bits, tail);
            if at >= MAX_CHUNK_SIZE {
                assert(closes(bits, data.take(MAX_CHUNK_SIZE as int)));
                assert(!closes(bits, data.take((MAX_CHUNK_SIZE - 1) + 1)));
            }
            assert forall|i: int| 0 <= i < complete_chunks(bits, data).len() implies (
            #[trigger] complete_chunks(bits, data)[i]).len() <= MAX_CHUNK_SIZE by {
                if i > 0 {
                    assert(complete_chunks(bits, data)[i] == complete_chunks(bits, tail)[i - 1]);
                }
            }
        },
        None => {
            if data.len() >= MAX_CHUNK_SIZE {
                lemma_first_hit_exists(bits, data, MAX_CHUNK_SIZE - 1);
                assert(closes(bits, data.take((MAX_CHUNK_SIZE - 1) + 1)));
            }
        },
    }
}

/// Putting a chunk in front of a list puts its bytes in front of the list's.
pub proof fn lemma_concat_prepend(head: Seq<u8>, rest: Seq<Seq<u8>>)
    ensures
        concat(seq![head] + rest) == head + concat(rest),
    decreases rest.len(),
{
    let all = seq![head] + rest;
    if rest.len() == 0 {
        assert(all.drop_last() =~= Seq::<Seq<u8>>::empty());
        assert(concat(all.drop_last()) =~= Seq::<u8>::empty());
        assert(all.last() == head);
        assert(concat(all) =~= head + concat(rest));
    } else {
        assert(all.drop_last() =~= seq![head] + rest.drop_last());
        lemma_concat_prepend(head, rest.drop_last());
        assert(all.last() == rest.last());
        assert(concat(all) =~= head + concat(rest));
    }
}

/// The bytes of two lists put end to end are the bytes of the joined list.
pub proof fn lemma_concat_append(first: Seq<Seq<u8>>, second: Seq<Seq<u8>>)
    ensures
        concat(first + second) == concat(first) + concat(second),
    decreases second.len(),
{
    if second.len() == 0 {
        assert(first + second =~= first);
        assert(concat(first) + concat(second) =~= concat(first));
    } else {
        assert((first + second).drop_last() =~= first + second.drop_last());
        lemma_concat_append(first, second.drop_last());
        assert((first + second).last() == second.last());
        assert(concat(first + second) =~= concat(first) + concat(second));
    }
}

/// The first `i + 1` of `chunks` are as long together as the first `i` and the
/// one after them, and no longer than all of them.
pub proof fn lemma_concat_step(chunks: Seq<Seq<u8>>, i: int)
    requires
        0 <= i < chunks.len(),
    ensures
        concat(chunks.take(i + 1)).len() == concat(chunks.take(i)).len() + chunks[i].len(),
        concat(chunks.take(i + 1)).len() <= concat(chunks).len(),
{
    assert(chunks.take(i + 1).drop_last() =~= chunks.take(i));
    assert(chunks.take(i + 1).last() == chunks[i]);
    assert(chunks =~= chunks.take(i + 1) + chunks.skip(i + 1));
    lemma_concat_append(chunks.take(i + 1), chunks.skip(i + 1));
}

/// Cutting a stream does not depend on how it arrived: the chunks of `head`
/// followed by `tail` are the chunks of `head`, then the chunks of what `head`
/// left over followed by `tail`.
pub proof fn lemma_chunking_is_incremental(bits: nat, head: Seq<u8>, tail: Seq<u8>)
    ensures
        complete_chunks(bits, head + tail) == complete_chunks(bits, head) + complete_chunks(
            bits,
            remainder(bits, head) + tail,
        ),
        remainder(bits, head + tail) == remainder(bits, remainder(bits, head) + tail),
    decreases head.len(),
{
    match first_boundary(bits, head) {
        Some(at) => {
            if 0 <= at < head.len() {
                let whole = head + tail;
                assert(is_first_boundary(bits, head, at));
                assert forall|j: int| 0 <= j <= at implies #[trigger] whole.take(j + 1)
                    == head.take(j + 1) by {
                    assert(whole.take(j + 1) =~= head.take(j + 1));
                }
                assert(is_first_boundary(bits, whole, at));
                lemma_first_boundary_unique(bits, whole, at);
                assert(whole.skip(at + 1) =~= head.skip(at + 1) + tail);
                lemma_chunking_is_incremental(bits, head.skip(at + 1), tail);
                assert(complete_chunks(bits, whole) =~= complete_chunks(bits, head)
                    + complete_chunks(bits, remainder(bits, head) + tail));
            } else {
                assert(is_first_boundary(bits, head, at));
            }
        },
        None => {
            assert(complete_chunks(bits, head) + complete_chunks(bits, head + tail)
                =~= complete_chunks(bits, head + tail));
        },
    }
}

/// A chunker that takes a byte stream piece by piece and hands out each chunk
/// as soon as its boundary has been written.
#[derive(Debug)]
pub struct IncrementalChunker {
    /// The number of bits that define a boundary: chunks are about two to the
    /// power of `bits` bytes long.
    bits: usize,
    /// The bytes written behind the last boundary.
    buffer: Vec<u8>,
    /// The complete chunks that have not been taken yet.
    chunks: Vec<Vec<u8>>,
}

impl IncrementalChunker {
    /// The number of boundary bits this chunker was made with.
    pub closed spec fn bits(&self) -> nat {
        self.bits as nat
    }

    /// The bytes written behind the last boundary.
    pub closed spec fn pending(&self) -> Seq<u8> {
        self.buffer@
    }

    /// The complete chunks that have not been taken yet, oldest first.
    pub closed spec fn ready(&self) -> Seq<Seq<u8>> {
        Seq::new(self.chunks@.len(), |i: int| self.chunks@[i]@)
    }

    /// The invariant of a chunker: its parameter is one the rolling hash
    /// accepts, the pending bytes hold no boundary, and no ready chunk is
    /// empty or larger than the largest size.
    pub closed spec fn wf(&self) -> bool {
        &&& 1 <= self.bits <= 32
        &&& has_no_boundary(self.bits as nat, self.buffer@)
        &&& forall|i: int|
            0 <= i < self.chunks@.len() ==> 0 < (#[trigger] self.chunks@[i])@.len()
                <= MAX_CHUNK_SIZE
    }

    /// The pending bytes of a chunker hold no boundary.
    pub proof fn lemma_pending_is_open(&self)
        requires
            self.wf(),
        ensures
            has_no_boundary(self.bits(), self.pending()),
    {
    }

    /// Create a chunker that cuts chunks of about two to the power of `bits`
    /// bytes.
    pub fn new(bits: usize) -> (chunker: IncrementalChunker)
        requires
            1 <= bits <= 32,
        ensures
            chunker.wf(),
            chunker.bits() == bits,
            chunker.pending() == Seq::<u8>::empty(),
            chunker.ready() == Seq::<Seq<u8>>::empty(),
    {
        let chunker = IncrementalChunker { bits, buffer: Vec::new(), chunks: Vec::new() };
        assert(chunker.ready() =~= Seq::<Seq<u8>>::empty());
        chunker
    }

    /// Write `data` behind what was written before. Every chunk that `data`
    /// completes becomes ready; the bytes behind the last boundary stay
    /// pending.
    pub fn write(&mut self, data: &[u8])
        requires
            old(self).wf(),
        ensures
            final(self).wf(),
            final(self).bits() == old(self).bits(),
            final(self).ready() == old(self).ready() + complete_chunks(
                old(self).bits(),
                old(self).pending() + data@,
            ),
            final(self).pending() == remainder(old(self).bits(), old(self).pending() + data@),
    {
        self.buffer.extend_from_slice(data);
        let ghost stream = self.buffer@;
        assert(stream =~= old(self).pending() + data@);
        let ghost bits = self.bits as nat;
        let total: usize = self.buffer.len();
        let mut start: usize = 0;
        proof {
            assert(stream.skip(0) =~= stream);
            assert(Seq::new(0nat, |i: int| self.chunks@[old(self).chunks@.len() + i]@)
                + complete_chunks(bits, stream) =~= complete_chunks(bits, stream));
        }
        loop
            invariant_except_break
                complete_chunks(bits, stream) == Seq::new(
                    (self.chunks@.len() - old(self).chunks@.len()) as nat,
                    |i: int| self.chunks@[old(self).chunks@.len() + i]@,
                ) + complete_chunks(bits, stream.skip(start as int)),
                remainder(bits, stream) == remainder(bits, stream.skip(start as int)),
            invariant
                self.buffer@ == stream,
                total == stream.len(),
                start <= total,
                bits == self.bits,
                self.bits == old(self).bits,
                1 <= self.bits <= 32,
                self.chunks@.len() >= old(self).chunks@.len(),
                forall|i: int|
                    0 <= i < old(self).chunks@.len() ==> self.chunks@[i] == old(self).chunks@[i],
                forall|i: int|
                    0 <= i < self.chunks@.len() ==> 0 < (#[trigger] self.chunks@[i])@.len()
                        <= MAX_CHUNK_SIZE,
            ensures
                complete_chunks(bits, stream) == Seq::new(
                    (self.chunks@.len() - old(self).chunks@.len()) as nat,
                    |i: int| self.chunks@[old(self).chunks@.len() + i]@,
                ),
                remainder(bits, stream) == stream.skip(start as int),
                has_no_boundary(bits, stream.skip(start as int)),
            decreases total - start,
        {
            let rest = slice_subrange(self.buffer.as_slice(), start, total);
            assert(rest@ =~= stream.skip(start as int));
            let window = if total - start > MAX_CHUNK_SIZE {
                slice_subrange(rest, 0, MAX_CHUNK_SIZE)
            } else {
                rest
            };
            proof {
                assert forall|j: int| 0 <= j < window@.len() implies #[trigger] window@.take(j + 1)
                    == rest@.take(j + 1) by {
                    assert(window@.take(j + 1) =~= rest@.take(j + 1));
                }
            }
            let found = match zpaq_find_boundary(self.bits, window) {
                Some(at) => Some(at),
                None => if total - start >= MAX_CHUNK_SIZE {
                    Some(MAX_CHUNK_SIZE - 1)
                } else {
                    None
                },
            };
            match found {
                Some(at) => {
                    let chunk = slice_to_vec(slice_subrange(rest, 0, at + 1));
                    proof {
                        assert forall|j: int| 0 <= j < at implies !#[trigger] closes(
                            bits,
                            rest@.take(j + 1),
                        ) by {
                            assert(window@.take(j + 1) == rest@.take(j + 1));
                        }
                        assert(window@.take(at + 1) == rest@.take(at + 1));
                        assert(is_first_boundary(bits, rest@, at as int));
                        lemma_first_boundary_unique(bits, rest@, at as int);
                        assert(chunk@ == rest@.take(at + 1));
                        assert(rest@.skip(at + 1) =~= stream.skip(start + at + 1));
                    }
                    let ghost before = self.chunks@;
                    self.chunks.push(chunk);
                    proof {
                        let base = old(self).chunks@.len() as int;
                        let taken = Seq::new(
                            (before.len() - base) as nat,
                            |i: int| before[base + i]@,
                        );
                        let taken_now = Seq::new(
                            (self.chunks@.len() - base) as nat,
                            |i: int| self.chunks@[base + i]@,
                        );
                        assert(taken_now =~= taken + seq![chunk@]);
                        assert(taken + (seq![chunk@] + complete_chunks(
                            bits,
                            rest@.skip(at + 1),
                        )) =~= taken_now + complete_chunks(bits, rest@.skip(at + 1)));
                    }
                    start = start + at + 1;
                },
                None => {
                    proof {
                        assert forall|j: int| 0 <= j < rest@.len() implies !#[trigger] closes(
                            bits,
                            rest@.take(j + 1),
                        ) by {
                            assert(window@.take(j + 1) == rest@.take(j + 1));
                        }
                        assert(has_no_boundary(bits, rest@));
                        lemma_no_boundary(bits, rest@);
                        let base = old(self).chunks@.len() as int;
                        let taken = Seq::new(
                            (self.chunks@.len() - base) as nat,
                            |i: int| self.chunks@[base + i]@,
                        );
                        assert(taken + Seq::<Seq<u8>>::empty() =~= taken);
                    }
                    break ;
                },
            }
        }
        let kept = self.buffer.split_off(start);
        self.buffer = kept;
        proof {
            assert(self.buffer@ =~= stream.skip(start as int));
            let base = old(self).chunks@.len() as int;
            let taken = Seq::new(
                (self.chunks@.len() - base) as nat,
                |i: int| self.chunks@[base + i]@,
            );
            assert(self.ready() =~= old(self).ready() + taken);
        }
    }

    /// End the stream: the pending bytes, if there are any, become the last
    /// ready chunk.
    pub fn flush(&mut self)
        requires
            old(self).wf(),
        ensures
            final(self).wf(),
            final(self).bits() == old(self).bits(),
            final(self).pending() == Seq::<u8>::empty(),
            final(self).ready() == if old(self).pending().len() == 0 {
                old(self).ready()
            } else {
                old(self).ready().push(old(self).pending())
            },
    {
        proof {
            if self.buffer@.len() >= MAX_CHUNK_SIZE {
                assert(closes(
                    self.bits as nat,
                    self.buffer@.take((MAX_CHUNK_SIZE - 1) + 1),
                ));
            }
        }
        if self.buffer.len() > 0 {
            let chunk = self.buffer.split_off(0);
            assert(chunk@ =~= old(self).pending());
            self.chunks.push(chunk);
            assert(self.ready() =~= old(self).ready().push(old(self).pending()));
            assert(self.buffer@ =~= Seq::<u8>::empty());
        } else {
            assert(self.buffer@ =~= Seq::<u8>::empty());
        }
    }

    /// Take the chunks that are ready, oldest first.
    pub fn chunks(&mut self) -> (taken: Vec<Vec<u8>>)
        requires
            old(self).wf(),
        ensures
            final(self).wf(),
            final(self).bits() == old(self).bits(),
            final(self).pending() == old(self).pending(),
            final(self).ready() == Seq::<Seq<u8>>::empty(),
            taken@.len() == old(self).ready().len(),
            forall|i: int| 0 <= i < taken@.len() ==> (#[trigger] taken@[i])@
                == old(self).ready()[i],
            forall|i: int|
                0 <= i < taken@.len() ==> 0 < (#[trigger] taken@[i])@.len() <= MAX_CHUNK_SIZE,
    {
        let taken = self.chunks.split_off(0);
        assert(self.ready() =~= Seq::<Seq<u8>>::empty());
        taken
    }
}

} // verus!
