//! Chunk descriptors, the handle that lists an object's chunks, and the
//! arithmetic that finds the chunk under a position.

use vstd::prelude::*;
use crate::hash::ChunkHash;

verus! {

/// A chunk of data generated by the chunking algorithm.
#[derive(Debug, PartialEq, Eq, Hash, Clone, Copy)]
pub struct Chunk {
    /// The size of the chunk's plaintext in bytes.
    pub size: usize,
    /// The digest of the chunk's plaintext.
    pub hash: ChunkHash,
}

/// The number of bytes that `chunks` describe.
pub open spec fn total_size(chunks: Seq<Chunk>) -> nat
    decreases chunks.len(),
{
    if chunks.len() == 0 {
        0
    } else {
        total_size(chunks.drop_last()) + chunks.last().size as nat
    }
}

/// The offset in the object at which the chunk with index `index` starts.
pub open spec fn chunk_start(chunks: Seq<Chunk>, index: int) -> nat {
    total_size(chunks.take(index))
}

/// How often a chunk with digest `hash` occurs in `chunks`.
pub open spec fn occurrences(chunks: Seq<Chunk>, hash: Seq<u8>) -> nat
    decreases chunks.len(),
{
    if chunks.len() == 0 {
        0
    } else {
        occurrences(chunks.drop_last(), hash) + if chunks.last().hash@ == hash {
            1nat
        } else {
            0nat
        }
    }
}

/// The sizes of two lists put end to end add up.
pub proof fn lemma_total_size_concat(first: Seq<Chunk>, second: Seq<Chunk>)
    ensures
        total_size(first + second) == total_size(first) + total_size(second),
    decreases second.len(),
{
    if second.len() == 0 {
        assert(first + second =~= first);
    } else {
        assert((first + second).drop_last() =~= first + second.drop_last());
        lemma_total_size_concat(first, second.drop_last());
    }
}

/// Chunk starts grow with the index, by the size of each chunk passed.
pub proof fn lemma_chunk_start_step(chunks: Seq<Chunk>, index: int)
    requires
        0 <= index < chunks.len(),
    ensures
        chunk_start(chunks, index + 1) == chunk_start(chunks, index) + chunks[index].size,
        chunk_start(chunks, index + 1) <= total_size(chunks),
{
    assert(chunks.take(index + 1).drop_last() =~= chunks.take(index));
    assert(chunks =~= chunks.take(index + 1) + chunks.skip(index + 1));
    lemma_total_size_concat(chunks.take(index + 1), chunks.skip(index + 1));
}

/// Chunk starts do not fall as the index grows.
pub proof fn lemma_chunk_start_monotone(chunks: Seq<Chunk>, low: int, high: int)
    requires
        0 <= low <= high <= chunks.len(),
    ensures
        chunk_start(chunks, low) <= chunk_start(chunks, high),
        chunk_start(chunks, high) <= total_size(chunks),
        chunk_start(chunks, chunks.len() as int) == total_size(chunks),
        chunk_start(chunks, 0) == 0,
    decreases high - low,
{
    assert(chunks.take(chunks.len() as int) =~= chunks);
    assert(chunks.take(0) =~= Seq::<Chunk>::empty());
    assert(chunks =~= chunks.take(high) + chunks.skip(high));
    lemma_total_size_concat(chunks.take(high), chunks.skip(high));
    if low < high {
        lemma_chunk_start_step(chunks, high - 1);
        lemma_chunk_start_monotone(chunks, low, high - 1);
    }
}

/// The chunk under a later position does not come before the chunk under an
/// earlier one.
pub proof fn lemma_locates_monotone(
    chunks: Seq<Chunk>,
    first: ChunkLocation,
    second: ChunkLocation,
)
    requires
        first.locates(chunks, first.position as nat),
        second.locates(chunks, second.position as nat),
        first.position <= second.position,
    ensures
        first.index <= second.index,
{
    if second.index < first.index {
        lemma_chunk_start_step(chunks, second.index as int);
        lemma_chunk_start_monotone(chunks, second.index + 1, first.index as int);
    }
}

/// Whether a read of up to `size` bytes at `position` gives `count` bytes:
/// as many as are asked for, or as the chunk that holds the byte at
/// `position` has from there on, whichever is fewer.
pub open spec fn reads(chunks: Seq<Chunk>, position: nat, size: nat, count: nat) -> bool {
    exists|index: int|
        {
            &&& 0 <= index < chunks.len()
            &&& #[trigger] chunk_start(chunks, index) <= position < chunk_start(chunks, index)
                + chunks[index].size
            &&& count == if size < chunk_start(chunks, index) + chunks[index].size - position {
                size as int
            } else {
                chunk_start(chunks, index) + chunks[index].size - position
            }
        }
}

/// The location of `position` in `chunks`, where there is one.
pub open spec fn location_of(chunks: Seq<Chunk>, position: nat) -> ChunkLocation {
    choose|location: ChunkLocation| location.locates(chunks, position)
}

/// A position has no more than one location.
pub proof fn lemma_location_unique(chunks: Seq<Chunk>, location: ChunkLocation)
    requires
        location.locates(chunks, location.position as nat),
    ensures
        location_of(chunks, location.position as nat) == location,
{
    let other = location_of(chunks, location.position as nat);
    assert(other.locates(chunks, location.position as nat));
    lemma_locates_monotone(chunks, location, other);
    lemma_locates_monotone(chunks, other, location);
}

/// The size of the chunks behind an index is what is left of the total.
pub proof fn lemma_total_size_split(chunks: Seq<Chunk>, index: int)
    requires
        0 <= index <= chunks.len(),
    ensures
        total_size(chunks) == chunk_start(chunks, index) + total_size(chunks.skip(index)),
{
    assert(chunks =~= chunks.take(index) + chunks.skip(index));
    lemma_total_size_concat(chunks.take(index), chunks.skip(index));
}

/// The occurrences in two lists put end to end add up.
pub proof fn lemma_occurrences_concat(first: Seq<Chunk>, second: Seq<Chunk>, hash: Seq<u8>)
    ensures
        occurrences(first + second, hash) == occurrences(first, hash) + occurrences(second, hash),
    decreases second.len(),
{
    if second.len() == 0 {
        assert(first + second =~= first);
    } else {
        assert((first + second).drop_last() =~= first + second.drop_last());
        lemma_occurrences_concat(first, second.drop_last(), hash);
    }
}

/// Taking a chunk out of a list takes one occurrence of its digest away.
pub proof fn lemma_occurrences_remove(chunks: Seq<Chunk>, at: int, hash: Seq<u8>)
    requires
        0 <= at < chunks.len(),
    ensures
        occurrences(chunks, hash) == occurrences(chunks.remove(at), hash) + if chunks[at].hash@
            == hash {
            1nat
        } else {
            0nat
        },
{
    let front = chunks.take(at);
    let one = seq![chunks[at]];
    let back = chunks.skip(at + 1);
    assert(chunks =~= front + one + back);
    assert(chunks.remove(at) =~= front + back);
    lemma_occurrences_concat(front, one, hash);
    lemma_occurrences_concat(front + one, back, hash);
    lemma_occurrences_concat(front, back, hash);
    assert(one.drop_last() =~= Seq::<Chunk>::empty());
    assert(occurrences(one.drop_last(), hash) == 0);
    assert(one.last() == chunks[at]);
    assert(occurrences(one, hash) == if chunks[at].hash@ == hash {
        1nat
    } else {
        0nat
    });
}

/// A chunk that occurs in a list is counted at least once.
pub proof fn lemma_occurs(chunks: Seq<Chunk>, index: int)
    requires
        0 <= index < chunks.len(),
    ensures
        occurrences(chunks, chunks[index].hash@) >= 1,
    decreases chunks.len(),
{
    if index < chunks.len() - 1 {
        lemma_occurs(chunks.drop_last(), index);
    }
}

/// A digest that is counted occurs at some index.
pub proof fn lemma_occurrence_index(chunks: Seq<Chunk>, hash: Seq<u8>) -> (index: int)
    requires
        occurrences(chunks, hash) >= 1,
    ensures
        0 <= index < chunks.len(),
        chunks[index].hash@ == hash,
    decreases chunks.len(),
{
    if chunks.last().hash@ == hash {
        chunks.len() - 1
    } else {
        lemma_occurrence_index(chunks.drop_last(), hash)
    }
}

/// The location of a chunk in a stream of bytes.
#[derive(Debug, Clone, Copy)]
pub struct ChunkLocation {
    /// The chunk itself.
    pub chunk: Chunk,
    /// The offset of the start of the chunk from the beginning of the object.
    pub start: u64,
    /// The offset of the end of the chunk from the beginning of the object.
    pub end: u64,
    /// The offset of the seek position from the beginning of the object.
    pub position: u64,
    /// The index of the chunk in the list of chunks.
    pub index: usize,
}

impl ChunkLocation {
    /// Whether this is the location of `position` in `chunks`: the chunk at
    /// `index` spans `start` to `end` and holds `position`; where the position
    /// sits on the border of two chunks, it is the lower one.
    pub open spec fn locates(&self, chunks: Seq<Chunk>, position: nat) -> bool {
        &&& 0 <= self.index < chunks.len()
        &&& self.chunk == chunks[self.index as int]
        &&& self.start == chunk_start(chunks, self.index as int)
        &&& self.end == self.start + self.chunk.size
        &&& self.position == position
        &&& self.start <= position <= self.end
        &&& self.index == 0 || self.start < position
    }

    /// The offset of the seek position from the beginning of the chunk.
    pub fn relative_position(&self) -> (offset: usize)
        requires
            self.start <= self.position <= self.end,
            self.end == self.start + self.chunk.size,
        ensures
            offset == self.position - self.start,
            offset <= self.chunk.size,
    {
        (self.position - self.start) as usize
    }
}

/// A handle for accessing data in a repository: the chunks that make up an
/// object, in the order of its bytes.
#[derive(Debug, PartialEq, Eq, Clone)]
pub struct ObjectHandle {
    /// The size of the object in bytes.
    pub size: u64,
    /// The chunks which make up the object.
    pub chunks: Vec<Chunk>,
}

impl Default for ObjectHandle {
    fn default() -> (handle: ObjectHandle)
        ensures
            handle.wf(),
            handle.size == 0,
            handle.chunks@ == Seq::<Chunk>::empty(),
    {
        ObjectHandle { size: 0, chunks: Vec::new() }
    }
}

impl ObjectHandle {
    /// The invariant of a handle: its size is the sum of its chunks' sizes,
    /// and no chunk is empty.
    pub open spec fn wf(&self) -> bool {
        &&& self.size == total_size(self.chunks@)
        &&& forall|i: int| 0 <= i < self.chunks@.len() ==> (#[trigger] self.chunks@[i]).size > 0
    }

    /// A copy of this handle.
    pub fn duplicate(&self) -> (copy: ObjectHandle)
        ensures
            copy.size == self.size,
            copy.chunks@ == self.chunks@,
    {
        let mut chunks: Vec<Chunk> = Vec::new();
        let mut i: usize = 0;
        while i < self.chunks.len()
            invariant
                i <= self.chunks@.len(),
                chunks@ == self.chunks@.take(i as int),
            decreases self.chunks@.len() - i,
        {
            chunks.push(self.chunks[i]);
            assert(chunks@ =~= self.chunks@.take(i + 1));
            i += 1;
        }
        assert(chunks@ =~= self.chunks@);
        ObjectHandle { size: self.size, chunks }
    }

    /// Find the chunk that holds `position`. There is one unless the object is
    /// empty or `position` lies behind its end.
    pub fn locate(&self, position: u64) -> (found: Option<ChunkLocation>)
        requires
            self.wf(),
        ensures
            found is Some <==> self.chunks@.len() > 0 && position <= self.size,
            found is Some ==> found->0.locates(self.chunks@, position as nat),
    {
        if position > self.size {
            return None;
        }
        let mut chunk_start: u64 = 0;
        let mut index: usize = 0;
        while index < self.chunks.len()
            invariant
                self.wf(),
                index <= self.chunks@.len(),
                position <= self.size,
                chunk_start == crate::handle::chunk_start(self.chunks@, index as int),
                chunk_start <= self.size,
                index == 0 || chunk_start < position,
            decreases self.chunks@.len() - index,
        {
            let chunk = self.chunks[index];
            proof {
                lemma_chunk_start_step(self.chunks@, index as int);
            }
            let chunk_end: u64 = chunk_start + chunk.size as u64;
            if position <= chunk_end {
                return Some(
                    ChunkLocation { chunk, start: chunk_start, end: chunk_end, position, index },
                );
            }
            chunk_start = chunk_end;
            index += 1;
        }
        proof {
            assert(self.chunks@.take(self.chunks@.len() as int) =~= self.chunks@);
            if self.chunks@.len() == 0 {
            } else {
                assert(chunk_start == self.size);
            }
        }
        None
    }

    /// Find the chunk that holds the byte at `position`, and the offset of
    /// that byte in the chunk.
    pub fn chunk_under(&self, position: u64) -> (found: (usize, usize))
        requires
            self.wf(),
            position < self.size,
        ensures
            found.0 < self.chunks@.len(),
            found.1 < self.chunks@[found.0 as int].size,
            position == chunk_start(self.chunks@, found.0 as int) + found.1,
    {
        let located = self.locate(position);
        proof {
            if self.chunks@.len() == 0 {
                assert(total_size(self.chunks@) == 0);
            }
        }
        let location = located.unwrap();
        let offset = location.relative_position();
        proof {
            lemma_chunk_start_step(self.chunks@, location.index as int);
        }
        if offset == location.chunk.size {
            proof {
                if location.index + 1 == self.chunks@.len() {
                    assert(self.chunks@.take(location.index + 1) =~= self.chunks@);
                    assert(false);
                }
                lemma_chunk_start_step(self.chunks@, location.index + 1);
            }
            let count = self.chunks.len();
            assert(location.index + 1 < count);
            (location.index + 1, 0)
        } else {
            (location.index, offset)
        }
    }
}

} // verus!
