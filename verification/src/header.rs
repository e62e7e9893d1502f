//! The header of a repository: which chunks make up the object under each
//! key, and where each chunk is stored.

use vstd::prelude::*;
use crate::archive::{all_below, same_below, stored_bytes, lemma_stored_bytes_unchanged};
use crate::block::BlockAddress;
use crate::codec::Codec;
use crate::handle::{occurrences, Chunk, ObjectHandle};
use crate::hash::{blake2b_256, hash_eq, ChunkHash};
use crate::metadata::RepositoryMetadata;
use crate::store::BlockId;

verus! {

/// Where a chunk is stored and how many references are held to it.
#[derive(Debug)]
pub struct ChunkRef {
    /// The digest of the chunk's plaintext.
    pub hash: ChunkHash,
    /// The size of the chunk's plaintext in bytes.
    pub size: usize,
    /// The size of the chunk as it is stored.
    pub stored_size: u64,
    /// The blocks that hold the stored chunk, in order.
    pub blocks: Vec<BlockAddress>,
    /// The number of references that chunk lists hold to the chunk.
    pub refcount: u64,
}

/// The object stored under a key.
#[derive(Debug)]
pub struct ObjectEntry {
    /// The key, as bytes.
    pub key: Vec<u8>,
    /// The chunks that make up the object.
    pub handle: ObjectHandle,
}

/// The state of a repository that a commit publishes.
#[derive(Debug)]
pub struct Header {
    /// The objects in the repository, one for each key.
    pub objects: Vec<ObjectEntry>,
    /// The chunks in the repository, one for each digest.
    pub chunks: Vec<ChunkRef>,
    /// What the repository recorded about itself when it was created.
    pub metadata: RepositoryMetadata,
}

/// What a [`ChunkRef`] holds.
pub struct ChunkRefView {
    pub hash: Seq<u8>,
    pub size: nat,
    pub stored_size: nat,
    pub blocks: Seq<BlockAddress>,
    pub refcount: nat,
}

impl View for ChunkRef {
    type V = ChunkRefView;

    open spec fn view(&self) -> ChunkRefView {
        ChunkRefView {
            hash: self.hash@,
            size: self.size as nat,
            stored_size: self.stored_size as nat,
            blocks: self.blocks@,
            refcount: self.refcount as nat,
        }
    }
}

/// What an [`ObjectEntry`] holds.
pub struct ObjectView {
    pub key: Seq<u8>,
    pub size: nat,
    pub chunks: Seq<Chunk>,
}

impl View for ObjectEntry {
    type V = ObjectView;

    open spec fn view(&self) -> ObjectView {
        ObjectView { key: self.key@, size: self.handle.size as nat, chunks: self.handle.chunks@ }
    }
}

/// What a [`Header`] holds.
pub struct HeaderView {
    pub objects: Seq<ObjectView>,
    pub chunks: Seq<ChunkRefView>,
    pub metadata: crate::metadata::MetadataView,
}

impl View for Header {
    type V = HeaderView;

    open spec fn view(&self) -> HeaderView {
        HeaderView {
            objects: Seq::new(self.objects@.len(), |i: int| self.objects@[i]@),
            chunks: Seq::new(self.chunks@.len(), |i: int| self.chunks@[i]@),
            metadata: self.metadata@,
        }
    }
}

/// Whether two tables hold the same.
pub open spec fn same_table(a: Seq<ChunkRef>, b: Seq<ChunkRef>) -> bool {
    a.len() == b.len() && forall|i: int| 0 <= i < a.len() ==> (#[trigger] a[i])@ == b[i]@
}

/// Whether two lists of objects hold the same.
pub open spec fn same_objects(a: Seq<ObjectEntry>, b: Seq<ObjectEntry>) -> bool {
    a.len() == b.len() && forall|i: int| 0 <= i < a.len() ==> (#[trigger] a[i])@ == b[i]@
}

/// Tables that hold the same have the same chunks at the same indices.
#[verifier::rlimit(50)]
pub proof fn lemma_same_table(a: Seq<ChunkRef>, b: Seq<ChunkRef>)
    requires
        same_table(a, b),
        distinct_hashes(a),
    ensures
        distinct_hashes(b),
        forall|hash: Seq<u8>, i: int| chunk_at(a, hash, i) == #[trigger] chunk_at(b, hash, i),
        forall|hash: Seq<u8>| has_chunk(a, hash) == #[trigger] has_chunk(b, hash),
        forall|hash: Seq<u8>|
            has_chunk(a, hash) ==> chunk_index(a, hash) == #[trigger] chunk_index(b, hash),
        forall|hash: Seq<u8>| refcount_of(a, hash) == #[trigger] refcount_of(b, hash),
        forall|bound: int| table_below(a, bound) == #[trigger] table_below(b, bound),
        forall|blocks: Map<BlockId, Seq<u8>>, codec: Codec|
            table_sound(blocks, codec, a) == #[trigger] table_sound(blocks, codec, b),
        forall|blocks: Map<BlockId, Seq<u8>>, codec: Codec, hash: Seq<u8>|
            chunk_data(blocks, codec, a, hash) == #[trigger] chunk_data(blocks, codec, b, hash),
        forall|chunks: Seq<Chunk>| sizes_agree(a, chunks) == #[trigger] sizes_agree(b, chunks),
{
    assert forall|i: int, j: int| 0 <= i < j < b.len() implies b[i].hash@ != b[j].hash@ by {
        assert(a[i]@ == b[i]@);
        assert(a[j]@ == b[j]@);
        assert(a[i].hash@ != a[j].hash@);
    }
    assert forall|hash: Seq<u8>, i: int| chunk_at(a, hash, i)
        == #[trigger] chunk_at(b, hash, i) by {
        if 0 <= i < a.len() {
            assert(a[i]@ == b[i]@);
        }
    }
    assert forall|hash: Seq<u8>| has_chunk(a, hash) == #[trigger] has_chunk(b, hash) by {
        if has_chunk(a, hash) {
            let i = choose|i: int| chunk_at(a, hash, i);
            assert(chunk_at(b, hash, i));
        }
        if has_chunk(b, hash) {
            let i = choose|i: int| chunk_at(b, hash, i);
            assert(chunk_at(a, hash, i));
        }
    }
    assert forall|hash: Seq<u8>| has_chunk(a, hash) implies chunk_index(a, hash)
        == #[trigger] chunk_index(b, hash) by {
        let i = chunk_index(a, hash);
        assert(chunk_at(a, hash, i));
        assert(chunk_at(b, hash, i));
        lemma_chunk_at(b, i);
    }
    assert forall|hash: Seq<u8>| refcount_of(a, hash) == #[trigger] refcount_of(b, hash) by {
        if has_chunk(a, hash) {
            let i = chunk_index(a, hash);
            assert(chunk_at(a, hash, i));
            assert(a[i]@ == b[i]@);
        }
    }
    assert forall|bound: int| table_below(a, bound) == #[trigger] table_below(b, bound) by {
        if table_below(a, bound) {
            assert forall|i: int| 0 <= i < b.len() implies all_below(
                (#[trigger] b[i]).blocks@,
                bound,
            ) by {
                assert(a[i]@ == b[i]@);
                assert(all_below(a[i].blocks@, bound));
            }
        }
        if table_below(b, bound) {
            assert forall|i: int| 0 <= i < a.len() implies all_below(
                (#[trigger] a[i]).blocks@,
                bound,
            ) by {
                assert(a[i]@ == b[i]@);
                assert(all_below(b[i].blocks@, bound));
            }
        }
    }
    assert forall|blocks: Map<BlockId, Seq<u8>>, codec: Codec|
        table_sound(blocks, codec, a) == #[trigger] table_sound(blocks, codec, b) by {
        if table_sound(blocks, codec, a) {
            assert forall|i: int| 0 <= i < b.len() implies entry_sound(
                blocks,
                codec,
                #[trigger] b[i],
            ) by {
                assert(a[i]@ == b[i]@);
                assert(entry_sound(blocks, codec, a[i]));
            }
        }
        if table_sound(blocks, codec, b) {
            assert forall|i: int| 0 <= i < a.len() implies entry_sound(
                blocks,
                codec,
                #[trigger] a[i],
            ) by {
                assert(a[i]@ == b[i]@);
                assert(entry_sound(blocks, codec, b[i]));
            }
        }
    }
    assert forall|blocks: Map<BlockId, Seq<u8>>, codec: Codec, hash: Seq<u8>|
        chunk_data(blocks, codec, a, hash) == #[trigger] chunk_data(blocks, codec, b, hash) by {
        if has_chunk(a, hash) {
            let i = chunk_index(a, hash);
            assert(chunk_at(a, hash, i));
            assert(a[i]@ == b[i]@);
        }
    }
    assert forall|chunks: Seq<Chunk>| sizes_agree(a, chunks) == #[trigger] sizes_agree(
        b,
        chunks,
    ) by {
        if sizes_agree(a, chunks) {
            assert forall|j: int, i: int|
                0 <= j < chunks.len()
                    && #[trigger] chunk_at(b, chunks[j].hash@, i) implies b[i].size
                == chunks[j].size by {
                assert(chunk_at(a, chunks[j].hash@, i));
                assert(a[i]@ == b[i]@);
            }
        }
        if sizes_agree(b, chunks) {
            assert forall|j: int, i: int|
                0 <= j < chunks.len()
                    && #[trigger] chunk_at(a, chunks[j].hash@, i) implies a[i].size
                == chunks[j].size by {
                assert(chunk_at(b, chunks[j].hash@, i));
                assert(a[i]@ == b[i]@);
            }
        }
    }
}

/// Objects that hold the same refer to the same chunks.
pub proof fn lemma_same_references(a: Seq<ObjectEntry>, b: Seq<ObjectEntry>, hash: Seq<u8>)
    requires
        same_objects(a, b),
    ensures
        references(a, hash) == references(b, hash),
    decreases a.len(),
{
    if a.len() > 0 {
        assert(same_objects(a.drop_last(), b.drop_last())) by {
            assert forall|i: int| 0
                <= i < a.drop_last().len() implies (#[trigger] a.drop_last()[i])@
                == b.drop_last()[i]@ by {
                assert(a[i]@ == b[i]@);
            }
        }
        lemma_same_references(a.drop_last(), b.drop_last(), hash);
        assert(a[a.len() - 1]@ == b[a.len() - 1]@);
    }
}

/// Whether `table` has the chunk with digest `hash` at index `i`.
pub open spec fn chunk_at(table: Seq<ChunkRef>, hash: Seq<u8>, i: int) -> bool {
    0 <= i < table.len() && table[i].hash@ == hash
}

/// Whether `table` has a chunk with digest `hash`.
pub open spec fn has_chunk(table: Seq<ChunkRef>, hash: Seq<u8>) -> bool {
    exists|i: int| chunk_at(table, hash, i)
}

/// The index in `table` of the chunk with digest `hash`.
pub open spec fn chunk_index(table: Seq<ChunkRef>, hash: Seq<u8>) -> int {
    choose|i: int| chunk_at(table, hash, i)
}

/// The number of references that `table` records for the digest `hash`.
pub open spec fn refcount_of(table: Seq<ChunkRef>, hash: Seq<u8>) -> nat {
    if has_chunk(table, hash) {
        table[chunk_index(table, hash)].refcount as nat
    } else {
        0
    }
}

/// Whether no digest occurs twice in `table`.
pub open spec fn distinct_hashes(table: Seq<ChunkRef>) -> bool {
    forall|i: int, j: int| 0 <= i < j < table.len() ==> table[i].hash@ != table[j].hash@
}

/// Whether `objects` has the key `key` at index `i`.
pub open spec fn object_at(objects: Seq<ObjectEntry>, key: Seq<u8>, i: int) -> bool {
    0 <= i < objects.len() && objects[i].key@ == key
}

/// Whether `objects` has an object under `key`.
pub open spec fn has_object(objects: Seq<ObjectEntry>, key: Seq<u8>) -> bool {
    exists|i: int| object_at(objects, key, i)
}

/// The index in `objects` of the object under `key`.
pub open spec fn object_index(objects: Seq<ObjectEntry>, key: Seq<u8>) -> int {
    choose|i: int| object_at(objects, key, i)
}

/// Whether no key occurs twice in `objects`.
pub open spec fn distinct_keys(objects: Seq<ObjectEntry>) -> bool {
    forall|i: int, j: int| 0 <= i < j < objects.len() ==> objects[i].key@ != objects[j].key@
}

/// How many times the chunk lists of `objects` name the digest `hash`.
pub open spec fn references(objects: Seq<ObjectEntry>, hash: Seq<u8>) -> nat
    decreases objects.len(),
{
    if objects.len() == 0 {
        0
    } else {
        references(objects.drop_last(), hash) + occurrences(objects.last().handle.chunks@, hash)
    }
}

/// Whether every chunk of `chunks` that `table` knows has the size that
/// `table` records for it.
pub open spec fn sizes_agree(table: Seq<ChunkRef>, chunks: Seq<Chunk>) -> bool {
    forall|j: int, i: int|
        0 <= j < chunks.len() && #[trigger] chunk_at(table, chunks[j].hash@, i) ==> table[i].size
            == chunks[j].size
}

/// Whether `table` records at least as many references to each digest as
/// `objects` and `extra` hold together.
pub open spec fn references_counted(
    objects: Seq<ObjectEntry>,
    table: Seq<ChunkRef>,
    extra: Seq<Chunk>,
) -> bool {
    forall|hash: Seq<u8>|
        references(objects, hash) + occurrences(extra, hash) <= #[trigger] refcount_of(table, hash)
}

/// The plaintext of the chunk that `entry` describes, as far as `blocks`
/// hold it: its blocks put end to end and decoded.
pub open spec fn payload(blocks: Map<BlockId, Seq<u8>>, codec: Codec, entry: ChunkRef) -> Option<
    Seq<u8>,
> {
    match stored_bytes(blocks, entry.blocks@) {
        Some(stored) => if stored.len() == entry.stored_size {
            codec.decoded(stored, entry.size as nat)
        } else {
            None
        },
        None => None,
    }
}

/// Whether `blocks` hold the chunk that `entry` describes: a plaintext of the
/// recorded size and with the recorded digest.
pub open spec fn entry_sound(blocks: Map<BlockId, Seq<u8>>, codec: Codec, entry: ChunkRef) -> bool {
    match payload(blocks, codec, entry) {
        Some(plain) => plain.len() == entry.size && blake2b_256(plain) == entry.hash@,
        None => false,
    }
}

/// Whether `blocks` hold every chunk of `table`.
pub open spec fn table_sound(blocks: Map<BlockId, Seq<u8>>, codec: Codec, table: Seq<ChunkRef>) -> bool {
    forall|i: int| 0 <= i < table.len() ==> entry_sound(blocks, codec, #[trigger] table[i])
}

/// The plaintext of the chunk with digest `hash`; empty where the chunk is
/// unknown or cannot be read.
pub open spec fn chunk_data(
    blocks: Map<BlockId, Seq<u8>>,
    codec: Codec,
    table: Seq<ChunkRef>,
    hash: Seq<u8>,
) -> Seq<u8> {
    if has_chunk(table, hash) {
        match payload(blocks, codec, table[chunk_index(table, hash)]) {
            Some(plain) => plain,
            None => Seq::empty(),
        }
    } else {
        Seq::empty()
    }
}

/// The bytes of an object made up of `chunks`.
pub open spec fn object_data(
    blocks: Map<BlockId, Seq<u8>>,
    codec: Codec,
    table: Seq<ChunkRef>,
    chunks: Seq<Chunk>,
) -> Seq<u8>
    decreases chunks.len(),
{
    if chunks.len() == 0 {
        Seq::empty()
    } else {
        object_data(blocks, codec, table, chunks.drop_last()) + chunk_data(
            blocks,
            codec,
            table,
            chunks.last().hash@,
        )
    }
}

/// Whether every block of every chunk in `table` has an index below `bound`.
pub open spec fn table_below(table: Seq<ChunkRef>, bound: int) -> bool {
    forall|i: int| 0 <= i < table.len() ==> all_below((#[trigger] table[i]).blocks@, bound)
}

/// In a table without repeated digests, the chunk at an index is the chunk
/// that its digest leads to.
pub proof fn lemma_chunk_at(table: Seq<ChunkRef>, i: int)
    requires
        distinct_hashes(table),
        0 <= i < table.len(),
    ensures
        has_chunk(table, table[i].hash@),
        chunk_index(table, table[i].hash@) == i,
        refcount_of(table, table[i].hash@) == table[i].refcount,
{
    let hash = table[i].hash@;
    assert(chunk_at(table, hash, i));
    let c = chunk_index(table, hash);
    assert(chunk_at(table, hash, c));
    if c < i {
        assert(table[c].hash@ != table[i].hash@);
    }
    if i < c {
        assert(table[i].hash@ != table[c].hash@);
    }
}

/// Among objects without repeated keys, the object at an index is the object
/// that its key leads to.
pub proof fn lemma_object_at(objects: Seq<ObjectEntry>, i: int)
    requires
        distinct_keys(objects),
        0 <= i < objects.len(),
    ensures
        has_object(objects, objects[i].key@),
        object_index(objects, objects[i].key@) == i,
{
    let key = objects[i].key@;
    assert(object_at(objects, key, i));
    let c = object_index(objects, key);
    assert(object_at(objects, key, c));
    if c < i {
        assert(objects[c].key@ != objects[i].key@);
    }
    if i < c {
        assert(objects[i].key@ != objects[c].key@);
    }
}

/// What an unchanged chunk decodes to does not depend on blocks above it.
pub proof fn lemma_payload_unchanged(
    before: Map<BlockId, Seq<u8>>,
    after: Map<BlockId, Seq<u8>>,
    codec: Codec,
    entry: ChunkRef,
    bound: int,
)
    requires
        same_below(before, after, bound),
        all_below(entry.blocks@, bound),
    ensures
        payload(after, codec, entry) == payload(before, codec, entry),
{
    lemma_stored_bytes_unchanged(before, after, entry.blocks@, bound);
}

/// The bytes of two chunk lists put end to end are the bytes of the joined
/// list.
pub proof fn lemma_object_data_concat(
    blocks: Map<BlockId, Seq<u8>>,
    codec: Codec,
    table: Seq<ChunkRef>,
    first: Seq<Chunk>,
    second: Seq<Chunk>,
)
    ensures
        object_data(blocks, codec, table, first + second) == object_data(
            blocks,
            codec,
            table,
            first,
        ) + object_data(blocks, codec, table, second),
    decreases second.len(),
{
    if second.len() == 0 {
        assert(first + second =~= first);
        assert(object_data(blocks, codec, table, first) + Seq::<u8>::empty() =~= object_data(
            blocks,
            codec,
            table,
            first,
        ));
    } else {
        assert((first + second).drop_last() =~= first + second.drop_last());
        lemma_object_data_concat(blocks, codec, table, first, second.drop_last());
        assert(object_data(blocks, codec, table, first + second) =~= object_data(
            blocks,
            codec,
            table,
            first,
        ) + object_data(blocks, codec, table, second));
    }
}

/// The objects together refer to a digest at least as often as any one of
/// them does.
pub proof fn lemma_references_cover(objects: Seq<ObjectEntry>, k: int, hash: Seq<u8>)
    requires
        0 <= k < objects.len(),
    ensures
        references(objects, hash) >= occurrences(objects[k].handle.chunks@, hash),
    decreases objects.len(),
{
    if k < objects.len() - 1 {
        lemma_references_cover(objects.drop_last(), k, hash);
    }
}

/// Whether `after` is `before` with the handle of the object at index `k`
/// replaced.
pub open spec fn handle_replaced(before: Seq<ObjectEntry>, after: Seq<ObjectEntry>, k: int) -> bool {
    &&& 0 <= k < before.len()
    &&& after.len() == before.len()
    &&& forall|i: int| 0 <= i < before.len() && i != k ==> after[i] == before[i]
    &&& after[k].key == before[k].key
}

/// Replacing the handle of one object changes the references by what the
/// old handle held and the new one holds.
pub proof fn lemma_handle_replaced(
    before: Seq<ObjectEntry>,
    after: Seq<ObjectEntry>,
    k: int,
    hash: Seq<u8>,
)
    requires
        handle_replaced(before, after, k),
    ensures
        references(after, hash) + occurrences(before[k].handle.chunks@, hash) == references(
            before,
            hash,
        ) + occurrences(after[k].handle.chunks@, hash),
    decreases before.len(),
{
    let last = before.len() - 1;
    if k == last {
        assert(after.drop_last() =~= before.drop_last());
    } else {
        assert(handle_replaced(before.drop_last(), after.drop_last(), k));
        lemma_handle_replaced(before.drop_last(), after.drop_last(), k, hash);
        assert(after.last() == before.last());
    }
}

/// Taking out an object without chunks changes no reference.
pub proof fn lemma_empty_object_removed(objects: Seq<ObjectEntry>, k: int, hash: Seq<u8>)
    requires
        0 <= k < objects.len(),
        objects[k].handle.chunks@.len() == 0,
    ensures
        references(objects.remove(k), hash) == references(objects, hash),
    decreases objects.len(),
{
    let last = objects.len() - 1;
    if k == last {
        assert(objects.remove(k) =~= objects.drop_last());
    } else {
        assert(objects.remove(k).drop_last() =~= objects.drop_last().remove(k));
        assert(objects.remove(k).last() == objects.last());
        lemma_empty_object_removed(objects.drop_last(), k, hash);
    }
}

/// A digest that the table does not know is referred to by nothing.
pub proof fn lemma_unknown_is_unreferenced(
    objects: Seq<ObjectEntry>,
    table: Seq<ChunkRef>,
    extra: Seq<Chunk>,
    hash: Seq<u8>,
)
    requires
        references_counted(objects, table, extra),
        !has_chunk(table, hash),
    ensures
        forall|j: int| 0 <= j < extra.len() ==> (#[trigger] extra[j]).hash@ != hash,
        forall|k: int, j: int|
            0 <= k < objects.len() && 0 <= j < objects[k].handle.chunks@.len()
                ==> #[trigger] objects[k].handle.chunks@[j].hash@ != hash,
{
    assert(refcount_of(table, hash) == 0);
    assert forall|j: int| 0 <= j < extra.len() implies (#[trigger] extra[j]).hash@ != hash by {
        if extra[j].hash@ == hash {
            crate::handle::lemma_occurs(extra, j);
        }
    }
    assert forall|k: int, j: int|
        0 <= k < objects.len() && 0 <= j < objects[k].handle.chunks@.len()
        implies #[trigger] objects[k].handle.chunks@[j].hash@ != hash by {
        if objects[k].handle.chunks@[j].hash@ == hash {
            crate::handle::lemma_occurs(objects[k].handle.chunks@, j);
            lemma_references_cover(objects, k, hash);
        }
    }
}

/// Every chunk that an object or `extra` names is known to the table.
pub proof fn lemma_referenced_is_known(
    objects: Seq<ObjectEntry>,
    table: Seq<ChunkRef>,
    extra: Seq<Chunk>,
)
    requires
        references_counted(objects, table, extra),
    ensures
        forall|j: int| 0 <= j < extra.len() ==> has_chunk(table, (#[trigger] extra[j]).hash@),
        forall|k: int, j: int|
            0 <= k < objects.len() && 0 <= j < objects[k].handle.chunks@.len() ==> has_chunk(
                table,
                #[trigger] objects[k].handle.chunks@[j].hash@,
            ),
{
    assert forall|j: int| 0 <= j < extra.len() implies has_chunk(
        table,
        (#[trigger] extra[j]).hash@,
    ) by {
        if !has_chunk(table, extra[j].hash@) {
            lemma_unknown_is_unreferenced(objects, table, extra, extra[j].hash@);
        }
    }
    assert forall|k: int, j: int|
        0 <= k < objects.len() && 0 <= j < objects[k].handle.chunks@.len() implies has_chunk(
        table,
        #[trigger] objects[k].handle.chunks@[j].hash@,
    ) by {
        let hash = objects[k].handle.chunks@[j].hash@;
        if !has_chunk(table, hash) {
            lemma_unknown_is_unreferenced(objects, table, extra, hash);
        }
    }
}

/// Whether the store holds each chunk of `chunks` under its digest: `table`
/// knows it, and its plaintext has the size and the digest that the chunk
/// names.
pub open spec fn chunks_readable(
    blocks: Map<BlockId, Seq<u8>>,
    codec: Codec,
    table: Seq<ChunkRef>,
    chunks: Seq<Chunk>,
) -> bool {
    forall|j: int|
        0 <= j < chunks.len() ==> {
            &&& has_chunk(table, (#[trigger] chunks[j]).hash@)
            &&& chunk_data(blocks, codec, table, chunks[j].hash@).len() == chunks[j].size
            &&& blake2b_256(chunk_data(blocks, codec, table, chunks[j].hash@)) == chunks[j].hash@
        }
}

/// Chunks that are referenced from a sound table can be read.
pub proof fn lemma_referenced_is_readable(
    blocks: Map<BlockId, Seq<u8>>,
    codec: Codec,
    table: Seq<ChunkRef>,
    chunks: Seq<Chunk>,
)
    requires
        distinct_hashes(table),
        table_sound(blocks, codec, table),
        sizes_agree(table, chunks),
        forall|j: int| 0 <= j < chunks.len() ==> has_chunk(table, (#[trigger] chunks[j]).hash@),
    ensures
        chunks_readable(blocks, codec, table, chunks),
{
    assert forall|j: int| 0 <= j < chunks.len() implies {
        &&& has_chunk(table, (#[trigger] chunks[j]).hash@)
        &&& chunk_data(blocks, codec, table, chunks[j].hash@).len() == chunks[j].size
        &&& blake2b_256(chunk_data(blocks, codec, table, chunks[j].hash@)) == chunks[j].hash@
    } by {
        let hash = chunks[j].hash@;
        let i = chunk_index(table, hash);
        assert(chunk_at(table, hash, i));
        assert(entry_sound(blocks, codec, table[i]));
    }
}

/// The bytes of readable chunks are as many as the chunks' sizes add up to.
pub proof fn lemma_object_data_len(
    blocks: Map<BlockId, Seq<u8>>,
    codec: Codec,
    table: Seq<ChunkRef>,
    chunks: Seq<Chunk>,
)
    requires
        chunks_readable(blocks, codec, table, chunks),
    ensures
        object_data(blocks, codec, table, chunks).len() == crate::handle::total_size(chunks),
    decreases chunks.len(),
{
    if chunks.len() > 0 {
        assert forall|j: int| 0 <= j < chunks.drop_last().len() implies {
            &&& has_chunk(table, (#[trigger] chunks.drop_last()[j]).hash@)
            &&& chunk_data(blocks, codec, table, chunks.drop_last()[j].hash@).len()
                == chunks.drop_last()[j].size
            &&& blake2b_256(chunk_data(blocks, codec, table, chunks.drop_last()[j].hash@))
                == chunks.drop_last()[j].hash@
        } by {
            assert(chunks.drop_last()[j] == chunks[j]);
        }
        lemma_object_data_len(blocks, codec, table, chunks.drop_last());
        assert(chunks.last() == chunks[chunks.len() - 1]);
    }
}

/// The bytes of an object are those of the chunks before an index, then the
/// chunk at the index, then the chunks behind it.
pub proof fn lemma_object_data_split(
    blocks: Map<BlockId, Seq<u8>>,
    codec: Codec,
    table: Seq<ChunkRef>,
    chunks: Seq<Chunk>,
    index: int,
)
    requires
        0 <= index < chunks.len(),
    ensures
        object_data(blocks, codec, table, chunks) == object_data(
            blocks,
            codec,
            table,
            chunks.take(index),
        ) + chunk_data(blocks, codec, table, chunks[index].hash@) + object_data(
            blocks,
            codec,
            table,
            chunks.skip(index + 1),
        ),
        object_data(blocks, codec, table, chunks.take(index + 1)) == object_data(
            blocks,
            codec,
            table,
            chunks.take(index),
        ) + chunk_data(blocks, codec, table, chunks[index].hash@),
{
    let front = chunks.take(index);
    let upto = chunks.take(index + 1);
    let back = chunks.skip(index + 1);
    assert(chunks =~= upto + back);
    lemma_object_data_concat(blocks, codec, table, upto, back);
    assert(upto.drop_last() =~= front);
    assert(upto.last() == chunks[index]);
}

/// Whether two repositories' tables and stores give every chunk of `chunks`
/// the same plaintext and know it alike.
pub open spec fn same_chunk_data(
    blocks: Map<BlockId, Seq<u8>>,
    table: Seq<ChunkRef>,
    other_blocks: Map<BlockId, Seq<u8>>,
    other_table: Seq<ChunkRef>,
    codec: Codec,
    chunks: Seq<Chunk>,
) -> bool {
    forall|j: int|
        0 <= j < chunks.len() ==> chunk_data(blocks, codec, table, (#[trigger] chunks[j]).hash@)
            == chunk_data(other_blocks, codec, other_table, chunks[j].hash@)
}

/// Where every chunk has the same plaintext, the object has the same bytes.
pub proof fn lemma_object_data_same(
    blocks: Map<BlockId, Seq<u8>>,
    table: Seq<ChunkRef>,
    other_blocks: Map<BlockId, Seq<u8>>,
    other_table: Seq<ChunkRef>,
    codec: Codec,
    chunks: Seq<Chunk>,
)
    requires
        same_chunk_data(blocks, table, other_blocks, other_table, codec, chunks),
    ensures
        object_data(blocks, codec, table, chunks) == object_data(
            other_blocks,
            codec,
            other_table,
            chunks,
        ),
    decreases chunks.len(),
{
    if chunks.len() > 0 {
        assert forall|j: int| 0 <= j < chunks.drop_last().len() implies chunk_data(
            blocks,
            codec,
            table,
            (#[trigger] chunks.drop_last()[j]).hash@,
        ) == chunk_data(other_blocks, codec, other_table, chunks.drop_last()[j].hash@) by {
            assert(chunks.drop_last()[j] == chunks[j]);
        }
        lemma_object_data_same(blocks, table, other_blocks, other_table, codec, chunks.drop_last());
        assert(chunks.last() == chunks[chunks.len() - 1]);
    }
}

/// The entry of `table` for the digest `hash`.
pub open spec fn chunk_entry(table: Seq<ChunkRef>, hash: Seq<u8>) -> ChunkRef {
    table[chunk_index(table, hash)]
}

/// The number of bytes that the chunks of `table` take up in the store.
pub open spec fn stored_total(table: Seq<ChunkRef>) -> nat
    decreases table.len(),
{
    if table.len() == 0 {
        0
    } else {
        stored_total(table.drop_last()) + table.last().stored_size as nat
    }
}

/// A change of reference counts changes nothing about the room that the
/// chunks take up.
pub proof fn lemma_stored_total_same(before: Seq<ChunkRef>, after: Seq<ChunkRef>)
    requires
        before.len() == after.len(),
        forall|i: int| 0 <= i < before.len() ==> (#[trigger] after[i]).stored_size
            == before[i].stored_size,
    ensures
        stored_total(after) == stored_total(before),
    decreases before.len(),
{
    if before.len() > 0 {
        assert forall|i: int| 0 <= i < before.drop_last().len() implies (
        #[trigger] after.drop_last()[i]).stored_size == before.drop_last()[i].stored_size by {
            assert(after.drop_last()[i] == after[i]);
        }
        lemma_stored_total_same(before.drop_last(), after.drop_last());
        assert(after.last() == after[after.len() - 1]);
    }
}

/// Whether `after` is `before` with the reference count of the chunk at
/// index `i` set to `refcount`.
pub open spec fn recounted(before: Seq<ChunkRef>, after: Seq<ChunkRef>, i: int, refcount: u64) -> bool {
    &&& 0 <= i < before.len()
    &&& after.len() == before.len()
    &&& forall|j: int| 0 <= j < before.len() && j != i ==> after[j] == before[j]
    &&& after[i].hash == before[i].hash
    &&& after[i].size == before[i].size
    &&& after[i].stored_size == before[i].stored_size
    &&& after[i].blocks == before[i].blocks
    &&& after[i].refcount == refcount
}

/// Setting a reference count changes nothing else about a table.
pub proof fn lemma_recounted(before: Seq<ChunkRef>, after: Seq<ChunkRef>, i: int, refcount: u64)
    requires
        distinct_hashes(before),
        recounted(before, after, i, refcount),
    ensures
        distinct_hashes(after),
        forall|hash: Seq<u8>| has_chunk(after, hash) == #[trigger] has_chunk(before, hash),
        forall|hash: Seq<u8>, j: int| chunk_at(after, hash, j)
            == #[trigger] chunk_at(before, hash, j),
        forall|hash: Seq<u8>|
            #[trigger] refcount_of(after, hash) == if hash == before[i].hash@ {
                refcount as nat
            } else {
                refcount_of(before, hash)
            },
        forall|hash: Seq<u8>|
            has_chunk(before, hash) ==> chunk_index(after, hash) == #[trigger] chunk_index(
                before,
                hash,
            ),
{
    assert forall|a: int, b: int| 0
        <= a < b < after.len() implies after[a].hash@ != after[b].hash@ by {
        assert(before[a].hash@ != before[b].hash@);
    }
    assert forall|hash: Seq<u8>, j: int| chunk_at(after, hash, j) == #[trigger] chunk_at(
        before,
        hash,
        j,
    ) by {}
    assert forall|hash: Seq<u8>| has_chunk(after, hash) == #[trigger] has_chunk(before, hash) by {
        if has_chunk(after, hash) {
            let j = choose|j: int| chunk_at(after, hash, j);
            assert(chunk_at(before, hash, j));
        }
        if has_chunk(before, hash) {
            let j = choose|j: int| chunk_at(before, hash, j);
            assert(chunk_at(after, hash, j));
        }
    }
    assert forall|hash: Seq<u8>| has_chunk(before, hash) implies chunk_index(after, hash)
        == #[trigger] chunk_index(before, hash) by {
        let j = chunk_index(before, hash);
        assert(chunk_at(before, hash, j));
        assert(chunk_at(after, hash, j));
        lemma_chunk_at(after, j);
    }
    assert forall|hash: Seq<u8>|
        #[trigger] refcount_of(after, hash) == if hash == before[i].hash@ {
            refcount as nat
        } else {
            refcount_of(before, hash)
        } by {
        if has_chunk(before, hash) {
            let j = chunk_index(before, hash);
            assert(chunk_at(before, hash, j));
            lemma_chunk_at(before, j);
            lemma_chunk_at(after, j);
            if hash == before[i].hash@ {
                lemma_chunk_at(before, i);
            }
        } else {
            if hash == before[i].hash@ {
                assert(chunk_at(before, hash, i));
            }
        }
    }
}

/// Adding a chunk with a new digest changes nothing about the others.
pub proof fn lemma_chunk_added(before: Seq<ChunkRef>, entry: ChunkRef)
    requires
        distinct_hashes(before),
        !has_chunk(before, entry.hash@),
    ensures
        distinct_hashes(before.push(entry)),
        forall|hash: Seq<u8>|
            #[trigger] has_chunk(before.push(entry), hash) == (has_chunk(before, hash) || hash
                == entry.hash@),
        forall|hash: Seq<u8>|
            has_chunk(before, hash) ==> chunk_index(before.push(entry), hash)
                == #[trigger] chunk_index(before, hash),
        chunk_index(before.push(entry), entry.hash@) == before.len(),
        forall|hash: Seq<u8>|
            #[trigger] refcount_of(before.push(entry), hash) == if hash == entry.hash@ {
                entry.refcount as nat
            } else {
                refcount_of(before, hash)
            },
{
    let after = before.push(entry);
    assert forall|a: int, b: int| 0
        <= a < b < after.len() implies after[a].hash@ != after[b].hash@ by {
        if b == before.len() {
            assert(!chunk_at(before, entry.hash@, a));
        } else {
            assert(before[a].hash@ != before[b].hash@);
        }
    }
    assert forall|hash: Seq<u8>|
        #[trigger] has_chunk(after, hash) == (has_chunk(before, hash) || hash == entry.hash@) by {
        if has_chunk(after, hash) {
            let j = choose|j: int| chunk_at(after, hash, j);
            if j < before.len() {
                assert(chunk_at(before, hash, j));
            }
        }
        if has_chunk(before, hash) {
            let j = choose|j: int| chunk_at(before, hash, j);
            assert(chunk_at(after, hash, j));
        }
        if hash == entry.hash@ {
            assert(chunk_at(after, hash, before.len() as int));
        }
    }
    assert forall|hash: Seq<u8>| has_chunk(before, hash) implies chunk_index(after, hash)
        == #[trigger] chunk_index(before, hash) by {
        let j = chunk_index(before, hash);
        assert(chunk_at(before, hash, j));
        assert(chunk_at(after, hash, j));
        lemma_chunk_at(after, j);
    }
    assert(chunk_at(after, entry.hash@, before.len() as int));
    lemma_chunk_at(after, before.len() as int);
    assert forall|hash: Seq<u8>|
        #[trigger] refcount_of(after, hash) == if hash == entry.hash@ {
            entry.refcount as nat
        } else {
            refcount_of(before, hash)
        } by {
        if has_chunk(before, hash) {
            let j = chunk_index(before, hash);
            assert(chunk_at(before, hash, j));
            assert(chunk_at(after, hash, j));
            lemma_chunk_at(after, j);
        }
    }
}

/// Taking a chunk out of a table changes nothing about the others.
pub proof fn lemma_chunk_removed(before: Seq<ChunkRef>, i: int)
    requires
        distinct_hashes(before),
        0 <= i < before.len(),
    ensures
        distinct_hashes(before.remove(i)),
        forall|hash: Seq<u8>|
            #[trigger] has_chunk(before.remove(i), hash) == (has_chunk(before, hash) && hash
                != before[i].hash@),
        forall|hash: Seq<u8>|
            has_chunk(before, hash) && hash != before[i].hash@ ==> chunk_entry(
                before.remove(i),
                hash,
            ) == #[trigger] chunk_entry(before, hash),
        forall|hash: Seq<u8>|
            #[trigger] refcount_of(before.remove(i), hash) == if hash == before[i].hash@ {
                0
            } else {
                refcount_of(before, hash)
            },
        forall|hash: Seq<u8>, j: int|
            #[trigger] chunk_at(before.remove(i), hash, j) ==> chunk_at(
                before,
                hash,
                if j < i {
                    j
                } else {
                    j + 1
                },
            ),
{
    let after = before.remove(i);
    assert forall|a: int, b: int| 0
        <= a < b < after.len() implies after[a].hash@ != after[b].hash@ by {
        let a0 = if a < i { a } else { a + 1 };
        let b0 = if b < i { b } else { b + 1 };
        assert(before[a0].hash@ != before[b0].hash@);
    }
    assert forall|hash: Seq<u8>|
        #[trigger] has_chunk(after, hash) == (has_chunk(before, hash)
            && hash != before[i].hash@) by {
        if has_chunk(after, hash) {
            let j = choose|j: int| chunk_at(after, hash, j);
            let j0 = if j < i { j } else { j + 1 };
            assert(chunk_at(before, hash, j0));
            if j0 < i {
                assert(before[j0].hash@ != before[i].hash@);
            } else {
                assert(before[i].hash@ != before[j0].hash@);
            }
        }
        if has_chunk(before, hash) && hash != before[i].hash@ {
            let j = choose|j: int| chunk_at(before, hash, j);
            let j1 = if j < i { j } else { j - 1 };
            assert(chunk_at(after, hash, j1));
        }
    }
    assert forall|hash: Seq<u8>| has_chunk(before, hash)
        && hash != before[i].hash@ implies chunk_entry(
        after,
        hash,
    ) == #[trigger] chunk_entry(before, hash) by {
        let j = chunk_index(before, hash);
        assert(chunk_at(before, hash, j));
        let j1 = if j < i { j } else { j - 1 };
        assert(chunk_at(after, hash, j1));
        lemma_chunk_at(after, j1);
    }
    assert forall|hash: Seq<u8>|
        #[trigger] refcount_of(after, hash) == if hash == before[i].hash@ {
            0
        } else {
            refcount_of(before, hash)
        } by {
        if has_chunk(before, hash) && hash != before[i].hash@ {
            assert(chunk_entry(after, hash) == chunk_entry(before, hash));
        }
    }
}

impl Header {
    /// The per-chunk pipeline of the repository.
    pub open spec fn codec(&self) -> Codec {
        self.metadata@.config.codec()
    }

    /// The invariant of a header together with the chunks `extra` that are
    /// referenced from outside it: keys and digests are each listed once,
    /// every handle is well-formed, every listed chunk is referenced, sizes
    /// agree, and no chunk is referenced more often than the table records.
    pub open spec fn wf_with(&self, extra: Seq<Chunk>) -> bool {
        &&& self.metadata@.config.valid()
        &&& distinct_keys(self.objects@)
        &&& distinct_hashes(self.chunks@)
        &&& forall|i: int| 0 <= i < self.objects@.len()
            ==> (#[trigger] self.objects@[i]).handle.wf()
        &&& forall|i: int| 0 <= i < self.chunks@.len()
            ==> (#[trigger] self.chunks@[i]).refcount >= 1
        &&& forall|i: int|
            0 <= i < self.objects@.len() ==> sizes_agree(
                self.chunks@,
                (#[trigger] self.objects@[i]).handle.chunks@,
            )
        &&& sizes_agree(self.chunks@, extra)
        &&& references_counted(self.objects@, self.chunks@, extra)
    }

    /// The invariant of a header that nothing outside it refers to.
    pub open spec fn wf(&self) -> bool {
        self.wf_with(Seq::empty())
    }

    /// Headers that hold the same are well-formed alike.
    #[verifier::rlimit(50)]
    pub proof fn lemma_same_view(&self, other: &Header, extra: Seq<Chunk>)
        requires
            self@ == other@,
            self.wf_with(extra),
        ensures
            other.wf_with(extra),
            same_table(self.chunks@, other.chunks@),
            same_objects(self.objects@, other.objects@),
            other.codec() == self.codec(),
    {
        let a = self.chunks@;
        let b = other.chunks@;
        let x = self.objects@;
        let y = other.objects@;
        assert(self@.chunks.len() == a.len());
        assert(other@.chunks.len() == b.len());
        assert(self@.objects.len() == x.len());
        assert(other@.objects.len() == y.len());
        assert forall|i: int| 0 <= i < a.len() implies (#[trigger] a[i])@ == b[i]@ by {
            assert(self@.chunks[i] == a[i]@);
            assert(other@.chunks[i] == b[i]@);
        }
        assert forall|i: int| 0 <= i < x.len() implies (#[trigger] x[i])@ == y[i]@ by {
            assert(self@.objects[i] == x[i]@);
            assert(other@.objects[i] == y[i]@);
        }
        lemma_same_table(a, b);
        assert forall|i: int, j: int| 0 <= i < j < y.len() implies y[i].key@ != y[j].key@ by {
            assert(x[i]@ == y[i]@);
            assert(x[j]@ == y[j]@);
            assert(x[i].key@ != x[j].key@);
        }
        assert forall|i: int| 0 <= i < y.len() implies (#[trigger] y[i]).handle.wf() && sizes_agree(
            b,
            y[i].handle.chunks@,
        ) by {
            assert(x[i]@ == y[i]@);
            assert(x[i].handle.wf());
            assert(sizes_agree(a, x[i].handle.chunks@));
        }
        assert forall|i: int| 0 <= i < b.len() implies (#[trigger] b[i]).refcount >= 1 by {
            assert(a[i]@ == b[i]@);
            assert(a[i].refcount >= 1);
        }
        assert forall|hash: Seq<u8>|
            references(y, hash) + occurrences(extra, hash) <= #[trigger] refcount_of(b, hash) by {
            lemma_same_references(x, y, hash);
            assert(references(x, hash) + occurrences(extra, hash) <= refcount_of(a, hash));
        }
    }

    /// A copy of this header.
    pub fn duplicate(&self) -> (copy: Header)
        ensures
            copy@ == self@,
    {
        let mut objects: Vec<ObjectEntry> = Vec::new();
        let mut i: usize = 0;
        while i < self.objects.len()
            invariant
                i <= self.objects@.len(),
                objects@.len() == i,
                forall|j: int| 0 <= j < i ==> (#[trigger] objects@[j])@ == self.objects@[j]@,
            decreases self.objects@.len() - i,
        {
            let entry = &self.objects[i];
            objects.push(ObjectEntry { key: entry.key.clone(), handle: entry.handle.duplicate() });
            i += 1;
        }
        let mut chunks: Vec<ChunkRef> = Vec::new();
        let mut k: usize = 0;
        while k < self.chunks.len()
            invariant
                k <= self.chunks@.len(),
                chunks@.len() == k,
                forall|j: int| 0 <= j < k ==> (#[trigger] chunks@[j])@ == self.chunks@[j]@,
            decreases self.chunks@.len() - k,
        {
            let entry = &self.chunks[k];
            chunks.push(
                ChunkRef {
                    hash: entry.hash,
                    size: entry.size,
                    stored_size: entry.stored_size,
                    blocks: entry.blocks.clone(),
                    refcount: entry.refcount,
                },
            );
            k += 1;
        }
        let copy = Header { objects, chunks, metadata: self.metadata.duplicate() };
        assert(copy@.objects =~= self@.objects);
        assert(copy@.chunks =~= self@.chunks);
        copy
    }

    /// Creates a new empty header.
    pub fn new(metadata: RepositoryMetadata) -> (header: Header)
        requires
            metadata@.config.valid(),
        ensures
            header.wf(),
            header.objects@.len() == 0,
            header.chunks@.len() == 0,
            header.metadata@ == metadata@,
    {
        let header = Header { objects: Vec::new(), chunks: Vec::new(), metadata };
        proof {
            assert forall|hash: Seq<u8>|
                references(header.objects@, hash) + occurrences(Seq::<Chunk>::empty(), hash)
                    <= #[trigger] refcount_of(header.chunks@, hash) by {}
        }
        header
    }

    /// Find the chunk with digest `hash` in the table.
    pub fn find_chunk(&self, hash: &ChunkHash) -> (found: Option<usize>)
        ensures
            match found {
                Some(i) => chunk_at(self.chunks@, hash@, i as int),
                None => !has_chunk(self.chunks@, hash@),
            },
    {
        let mut i: usize = 0;
        while i < self.chunks.len()
            invariant
                i <= self.chunks@.len(),
                forall|j: int| 0 <= j < i ==> self.chunks@[j].hash@ != hash@,
            decreases self.chunks@.len() - i,
        {
            if hash_eq(&self.chunks[i].hash, hash) {
                return Some(i);
            }
            i += 1;
        }
        None
    }

    /// Find the object stored under `key`.
    pub fn find_object(&self, key: &[u8]) -> (found: Option<usize>)
        ensures
            match found {
                Some(i) => object_at(self.objects@, key@, i as int),
                None => !has_object(self.objects@, key@),
            },
    {
        let mut i: usize = 0;
        while i < self.objects.len()
            invariant
                i <= self.objects@.len(),
                forall|j: int| 0 <= j < i ==> self.objects@[j].key@ != key@,
            decreases self.objects@.len() - i,
        {
            if bytes_eq(self.objects[i].key.as_slice(), key) {
                return Some(i);
            }
            i += 1;
        }
        None
    }

    /// Returns the list of addresses of blocks used for storing data.
    #[verifier::rlimit(50)]
    pub fn data_blocks(&self) -> (addresses: Vec<BlockAddress>)
        ensures
            forall|a: BlockAddress|
                addresses@.contains(a) <==> exists|i: int, j: int|
                    0 <= i < self.chunks@.len() && 0 <= j < self.chunks@[i].blocks@.len()
                        && #[trigger] self.chunks@[i].blocks@[j] == a,
    {
        let mut addresses: Vec<BlockAddress> = Vec::new();
        let mut i: usize = 0;
        while i < self.chunks.len()
            invariant
                i <= self.chunks@.len(),
                forall|a: BlockAddress|
                    addresses@.contains(a) <==> exists|k: int, j: int|
                        0 <= k < i && 0 <= j < self.chunks@[k].blocks@.len()
                            && #[trigger] self.chunks@[k].blocks@[j] == a,
            decreases self.chunks@.len() - i,
        {
            let mut j: usize = 0;
            let blocks = &self.chunks[i].blocks;
            while j < blocks.len()
                invariant
                    i < self.chunks@.len(),
                    blocks == self.chunks@[i as int].blocks,
                    j <= blocks@.len(),
                    forall|a: BlockAddress|
                        addresses@.contains(a) <==> (exists|k: int, l: int|
                            0 <= k < i && 0 <= l < self.chunks@[k].blocks@.len()
                                && #[trigger] self.chunks@[k].blocks@[l] == a) || (exists|l: int|
                            0 <= l < j && #[trigger] blocks@[l] == a),
                decreases blocks@.len() - j,
            {
                let ghost before = addresses@;
                addresses.push(blocks[j]);
                proof {
                    assert forall|a: BlockAddress|
                        addresses@.contains(a) <==> (exists|k: int, l: int|
                            0 <= k < i && 0 <= l < self.chunks@[k].blocks@.len()
                                && #[trigger] self.chunks@[k].blocks@[l] == a) || (exists|l: int|
                            0 <= l < j + 1 && #[trigger] blocks@[l] == a) by {
                        if addresses@.contains(a) {
                            let at = choose|at: int| 0 <= at < addresses@.len()
                                && addresses@[at] == a;
                            if at < before.len() {
                                assert(before[at] == a);
                                assert(before.contains(a));
                            } else {
                                assert(blocks@[j as int] == a);
                            }
                        }
                        if before.contains(a) {
                            let at = choose|at: int| 0 <= at < before.len() && before[at] == a;
                            assert(addresses@[at] == a);
                        }
                        if exists|l: int| 0 <= l < j + 1 && #[trigger] blocks@[l] == a {
                            let l = choose|l: int| 0 <= l < j + 1 && #[trigger] blocks@[l] == a;
                            if l == j {
                                assert(addresses@[before.len() as int] == a);
                            } else {
                                assert(before.contains(a));
                            }
                        }
                    }
                }
                j += 1;
            }
            proof {
                assert forall|a: BlockAddress|
                    addresses@.contains(a) <==> exists|k: int, l: int|
                        0 <= k < i + 1 && 0 <= l < self.chunks@[k].blocks@.len()
                            && #[trigger] self.chunks@[k].blocks@[l] == a by {
                    if exists|l: int| 0 <= l < j && #[trigger] blocks@[l] == a {
                        let l = choose|l: int| 0 <= l < j && #[trigger] blocks@[l] == a;
                        assert(self.chunks@[i as int].blocks@[l] == a);
                    }
                    if exists|k: int, l: int|
                        0 <= k < i + 1 && 0 <= l < self.chunks@[k].blocks@.len()
                            && #[trigger] self.chunks@[k].blocks@[l] == a {
                        let (k, l) = choose|k: int, l: int|
                            0 <= k < i + 1 && 0 <= l < self.chunks@[k].blocks@.len()
                                && #[trigger] self.chunks@[k].blocks@[l] == a;
                        if k == i {
                            assert(blocks@[l] == a);
                        } else {
                            assert(self.chunks@[k].blocks@[l] == a);
                        }
                    }
                }
            }
            i += 1;
        }
        addresses
    }
}

/// Whether two byte strings are the same.
pub fn bytes_eq(a: &[u8], b: &[u8]) -> (same: bool)
    ensures
        same == (a@ == b@),
{
    if a.len() != b.len() {
        return false;
    }
    let mut i: usize = 0;
    while i < a.len()
        invariant
            a@.len() == b@.len(),
            i <= a@.len(),
            forall|j: int| 0 <= j < i ==> a@[j] == b@[j],
        decreases a@.len() - i,
    {
        if a[i] != b[i] {
            return false;
        }
        i += 1;
    }
    assert(a@ =~= b@);
    true
}

} // verus!
