//! Checking a header that was read from a store: whatever the bytes decoded
//! to, nothing is done with it before it is known to be well-formed.

use vstd::prelude::*;
use crate::handle::{
    lemma_chunk_start_step, lemma_occurrence_index, lemma_occurs, occurrences, total_size, Chunk,
    ObjectHandle,
};
use crate::hash::{hash_eq, ChunkHash};
use crate::header::{
    bytes_eq, chunk_at, distinct_hashes, distinct_keys, has_chunk, lemma_chunk_at,
    lemma_references_cover, refcount_of, references, references_counted, sizes_agree, ChunkRef,
    Header, ObjectEntry,
};

verus! {

/// A digest that is referred to is referred to by some object.
pub proof fn lemma_reference_witness(objects: Seq<ObjectEntry>, hash: Seq<u8>) -> (k: int)
    requires
        references(objects, hash) >= 1,
    ensures
        0 <= k < objects.len(),
        occurrences(objects[k].handle.chunks@, hash) >= 1,
    decreases objects.len(),
{
    if occurrences(objects.last().handle.chunks@, hash) >= 1 {
        objects.len() - 1
    } else {
        lemma_reference_witness(objects.drop_last(), hash)
    }
}

/// The references of the first `k` objects and one more.
pub proof fn lemma_references_step(objects: Seq<ObjectEntry>, k: int, hash: Seq<u8>)
    requires
        0 <= k < objects.len(),
    ensures
        references(objects.take(k + 1), hash) == references(objects.take(k), hash) + occurrences(
            objects[k].handle.chunks@,
            hash,
        ),
{
    assert(objects.take(k + 1).drop_last() =~= objects.take(k));
}

/// The occurrences among the first `j` chunks and one more.
pub proof fn lemma_occurrences_step(chunks: Seq<Chunk>, j: int, hash: Seq<u8>)
    requires
        0 <= j < chunks.len(),
    ensures
        occurrences(chunks.take(j + 1), hash) == occurrences(chunks.take(j), hash)
            + if chunks[j].hash@
            == hash {
            1nat
        } else {
            0nat
        },
{
    assert(chunks.take(j + 1).drop_last() =~= chunks.take(j));
}

impl ObjectHandle {
    /// Whether the handle is well-formed.
    pub fn check(&self) -> (valid: bool)
        ensures
            valid == self.wf(),
    {
        let mut sum: u64 = 0;
        let mut j: usize = 0;
        while j < self.chunks.len()
            invariant
                j <= self.chunks@.len(),
                sum == total_size(self.chunks@.take(j as int)),
                forall|i: int| 0 <= i < j ==> (#[trigger] self.chunks@[i]).size > 0,
            decreases self.chunks@.len() - j,
        {
            let size = self.chunks[j].size as u64;
            proof {
                lemma_chunk_start_step(self.chunks@, j as int);
            }
            if size == 0 {
                return false;
            }
            if size > u64::MAX - sum {
                proof {
                    crate::handle::lemma_chunk_start_monotone(
                        self.chunks@,
                        j + 1,
                        self.chunks@.len() as int,
                    );
                }
                return false;
            }
            sum = sum + size;
            j += 1;
        }
        proof {
            assert(self.chunks@.take(self.chunks@.len() as int) =~= self.chunks@);
        }
        sum == self.size
    }
}

impl Header {
    /// Whether no key occurs twice.
    fn keys_distinct(&self) -> (valid: bool)
        ensures
            valid == distinct_keys(self.objects@),
    {
        let mut j: usize = 0;
        while j < self.objects.len()
            invariant
                j <= self.objects@.len(),
                forall|a: int, b: int| 0 <= a < b < j
                    ==> self.objects@[a].key@ != self.objects@[b].key@,
            decreases self.objects@.len() - j,
        {
            let mut i: usize = 0;
            while i < j
                invariant
                    i <= j < self.objects@.len(),
                    forall|a: int| 0 <= a < i
                        ==> self.objects@[a].key@ != self.objects@[j as int].key@,
                decreases j - i,
            {
                if bytes_eq(self.objects[i].key.as_slice(), self.objects[j].key.as_slice()) {
                    return false;
                }
                i += 1;
            }
            j += 1;
        }
        true
    }

    /// Whether no digest occurs twice in the table.
    fn hashes_distinct(&self) -> (valid: bool)
        ensures
            valid == distinct_hashes(self.chunks@),
    {
        let mut j: usize = 0;
        while j < self.chunks.len()
            invariant
                j <= self.chunks@.len(),
                forall|a: int, b: int| 0 <= a < b < j
                    ==> self.chunks@[a].hash@ != self.chunks@[b].hash@,
            decreases self.chunks@.len() - j,
        {
            let mut i: usize = 0;
            while i < j
                invariant
                    i <= j < self.chunks@.len(),
                    forall|a: int| 0 <= a < i
                        ==> self.chunks@[a].hash@ != self.chunks@[j as int].hash@,
                decreases j - i,
            {
                if hash_eq(&self.chunks[i].hash, &self.chunks[j].hash) {
                    return false;
                }
                i += 1;
            }
            j += 1;
        }
        true
    }

    /// Whether every entry of the table has a reference.
    fn refcounts_positive(&self) -> (valid: bool)
        ensures
            valid == forall|i: int|
                0 <= i < self.chunks@.len() ==> (#[trigger] self.chunks@[i]).refcount >= 1,
    {
        let mut i: usize = 0;
        while i < self.chunks.len()
            invariant
                i <= self.chunks@.len(),
                forall|k: int| 0 <= k < i ==> (#[trigger] self.chunks@[k]).refcount >= 1,
            decreases self.chunks@.len() - i,
        {
            if self.chunks[i].refcount == 0 {
                return false;
            }
            i += 1;
        }
        true
    }

    /// Whether the handle at index `k` is well-formed and names only chunks
    /// that the table knows, with the sizes that the table records.
    #[verifier::rlimit(50)]
    fn object_valid(&self, k: usize) -> (valid: bool)
        requires
            k < self.objects@.len(),
            distinct_hashes(self.chunks@),
        ensures
            valid == {
                &&& self.objects@[k as int].handle.wf()
                &&& sizes_agree(self.chunks@, self.objects@[k as int].handle.chunks@)
                &&& forall|j: int|
                    0 <= j < self.objects@[k as int].handle.chunks@.len() ==> has_chunk(
                        self.chunks@,
                        (#[trigger] self.objects@[k as int].handle.chunks@[j]).hash@,
                    )
            },
    {
        let handle = &self.objects[k].handle;
        if !handle.check() {
            return false;
        }
        let ghost chunks = handle.chunks@;
        let ghost table = self.chunks@;
        let mut j: usize = 0;
        while j < handle.chunks.len()
            invariant
                j <= chunks.len(),
                k < self.objects@.len(),
                *handle == self.objects@[k as int].handle,
                chunks == handle.chunks@,
                table == self.chunks@,
                distinct_hashes(table),
                forall|c: int| 0 <= c < j ==> has_chunk(table, (#[trigger] chunks[c]).hash@),
                forall|c: int, i: int|
                    0 <= c < j && #[trigger] chunk_at(table, chunks[c].hash@, i) ==> table[i].size
                        == chunks[c].size,
            decreases chunks.len() - j,
        {
            let chunk = handle.chunks[j];
            assert(self.objects@[k as int].handle.chunks@[j as int] == chunk);
            match self.find_chunk(&chunk.hash) {
                None => {
                    assert(!has_chunk(
                        self.chunks@,
                        self.objects@[k as int].handle.chunks@[j as int].hash@,
                    ));
                    return false;
                },
                Some(i) => {
                    proof {
                        lemma_chunk_at(table, i as int);
                    }
                    if self.chunks[i].size != chunk.size {
                        assert(chunk_at(
                            self.chunks@,
                            self.objects@[k as int].handle.chunks@[j as int].hash@,
                            i as int,
                        ));
                        assert(!sizes_agree(
                            self.chunks@,
                            self.objects@[k as int].handle.chunks@,
                        ));
                        return false;
                    }
                    proof {
                        assert forall|c: int, l: int|
                            0 <= c < j + 1 && #[trigger] chunk_at(table, chunks[c].hash@, l)
                            implies table[l].size == chunks[c].size by {
                            if c == j {
                                lemma_chunk_at(table, l);
                            }
                        }
                    }
                },
            }
            j += 1;
        }
        true
    }

    /// Whether the objects refer to the digest `hash` at most `limit` times.
    #[verifier::rlimit(50)]
    fn references_within(&self, hash: &ChunkHash, limit: u64) -> (within: bool)
        ensures
            within == (references(self.objects@, hash@) <= limit),
    {
        let mut count: u64 = 0;
        let mut k: usize = 0;
        let ghost objects = self.objects@;
        while k < self.objects.len()
            invariant
                k <= objects.len(),
                objects == self.objects@,
                count == references(objects.take(k as int), hash@),
                count <= limit,
            decreases objects.len() - k,
        {
            let chunks = &self.objects[k].handle.chunks;
            let mut j: usize = 0;
            let ghost base = count;
            proof {
                lemma_references_step(objects, k as int, hash@);
            }
            while j < chunks.len()
                invariant
                    j <= chunks@.len(),
                    k < objects.len(),
                    objects == self.objects@,
                    chunks@ == objects[k as int].handle.chunks@,
                    count == base + occurrences(chunks@.take(j as int), hash@),
                    count <= limit,
                    base == references(objects.take(k as int), hash@),
                    references(objects.take(k + 1), hash@) == base + occurrences(chunks@, hash@),
                decreases chunks@.len() - j,
            {
                proof {
                    lemma_occurrences_step(chunks@, j as int, hash@);
                }
                if hash_eq(&chunks[j].hash, hash) {
                    if count == limit {
                        proof {
                            let rest = chunks@.skip(j + 1);
                            assert(chunks@ =~= chunks@.take(j + 1) + rest);
                            crate::handle::lemma_occurrences_concat(
                                chunks@.take(j + 1),
                                rest,
                                hash@,
                            );
                            Self::lemma_references_grow(objects, k + 1, hash@);
                        }
                        return false;
                    }
                    count = count + 1;
                }
                j += 1;
            }
            proof {
                assert(chunks@.take(chunks@.len() as int) =~= chunks@);
            }
            k += 1;
        }
        proof {
            assert(objects.take(objects.len() as int) =~= objects);
        }
        true
    }

    /// The first objects refer to a digest no more often than all of them.
    proof fn lemma_references_grow(objects: Seq<ObjectEntry>, k: int, hash: Seq<u8>)
        requires
            0 <= k <= objects.len(),
        ensures
            references(objects.take(k), hash) <= references(objects, hash),
        decreases objects.len() - k,
    {
        if k < objects.len() {
            lemma_references_step(objects, k, hash);
            Self::lemma_references_grow(objects, k + 1, hash);
        } else {
            assert(objects.take(k) =~= objects);
        }
    }

    /// Whether the header is well-formed.
    #[verifier::rlimit(50)]
    pub fn validate(&self) -> (valid: bool)
        ensures
            valid == self.wf(),
    {
        if self.metadata.chunker_bits < 1 || self.metadata.chunker_bits > 32 {
            return false;
        }
        if !self.keys_distinct() || !self.hashes_distinct() || !self.refcounts_positive() {
            return false;
        }
        let ghost objects = self.objects@;
        let ghost table = self.chunks@;
        let mut k: usize = 0;
        while k < self.objects.len()
            invariant
                k <= objects.len(),
                objects == self.objects@,
                table == self.chunks@,
                distinct_hashes(table),
                forall|i: int|
                    0 <= i < k ==> {
                        &&& (#[trigger] objects[i]).handle.wf()
                        &&& sizes_agree(table, objects[i].handle.chunks@)
                        &&& forall|j: int|
                            0 <= j < objects[i].handle.chunks@.len() ==> has_chunk(
                                table,
                                (#[trigger] objects[i].handle.chunks@[j]).hash@,
                            )
                    },
            decreases objects.len() - k,
        {
            if !self.object_valid(k) {
                proof {
                    if self.wf() {
                        assert(self.wf_with(Seq::<Chunk>::empty()));
                        assert(references_counted(self.objects@, self.chunks@, Seq::<Chunk>::empty()));
                        assert(objects[k as int].handle.wf());
                        assert(sizes_agree(table, objects[k as int].handle.chunks@));
                        crate::header::lemma_referenced_is_known(objects, table, Seq::<Chunk>::empty());
                    }
                }
                return false;
            }
            k += 1;
        }
        let mut i: usize = 0;
        while i < self.chunks.len()
            invariant
                i <= table.len(),
                objects == self.objects@,
                table == self.chunks@,
                distinct_hashes(table),
                forall|l: int|
                    0 <= l < i ==> references(objects, (#[trigger] table[l]).hash@)
                        <= table[l].refcount,
            decreases table.len() - i,
        {
            if !self.references_within(&self.chunks[i].hash, self.chunks[i].refcount) {
                proof {
                    lemma_chunk_at(table, i as int);
                    if self.wf() {
                        assert(references(objects, table[i as int].hash@) + occurrences(
                            Seq::<Chunk>::empty(),
                            table[i as int].hash@,
                        ) <= refcount_of(table, table[i as int].hash@));
                    }
                }
                return false;
            }
            i += 1;
        }
        proof {
            assert forall|hash: Seq<u8>|
                references(objects, hash) + occurrences(Seq::<Chunk>::empty(), hash)
                    <= #[trigger] refcount_of(
                    table,
                    hash,
                ) by {
                if has_chunk(table, hash) {
                    let l = crate::header::chunk_index(table, hash);
                    assert(chunk_at(table, hash, l));
                    lemma_chunk_at(table, l);
                } else {
                    if references(objects, hash) >= 1 {
                        let w = lemma_reference_witness(objects, hash);
                        let j = lemma_occurrence_index(objects[w].handle.chunks@, hash);
                        assert(has_chunk(table, objects[w].handle.chunks@[j].hash@));
                    }
                }
            }
            assert(sizes_agree(table, Seq::<Chunk>::empty()));
        }
        true
    }
}

} // verus!
