//! What holds of a repository across its operations.
//!
//! The contracts of the operations say what each of them does. The lemmas
//! here put contracts together: what an object holds after a seek, a write
//! and a flush; that truncating twice is truncating once; that the same
//! content is stored once; that a repository opened from a store holds what
//! was published to the store, and so what was written and committed; which
//! savepoints are valid; and what a verification tells.

use vstd::prelude::*;
use crate::chunking::complete_chunks;
use crate::error::Error;
use crate::hash::blake2b_256;
use crate::handle::Chunk;
use crate::header::{
    has_object, lemma_object_data_same, lemma_same_table, object_at, object_index, same_objects,
    Header,
};
use crate::object::{at_most, Object, ObjectModel, SeekFrom};
use crate::repository::{ObjectRepository, Savepoint};
use crate::store::DataStore;

verus! {

/// After a seek to `position`, a write of `data` and a flush, a faithful
/// object holds what it held before with `data` in place of the bytes from
/// `position` on, as many as `data` has or as there were: writes past the end
/// append. A position behind the end is the end.
pub proof fn lemma_seek_write_flush(before: ObjectModel, position: u64, data: Seq<u8>)
    ensures
        ({
            let target = at_most(position as int, before.contents.len() as int);
            let sought = before.sought(SeekFrom::Start(position));
            &&& sought is Some
            &&& sought->0.position == target
            &&& sought->0.written(data).position == target + data.len()
            &&& sought->0.written(data).contents == before.contents.take(target) + data
                + before.contents.skip(
                at_most(target + data.len(), before.contents.len() as int),
            )
            &&& target + data.len() <= before.contents.len() ==> sought->0.written(
                data,
            ).contents.len() == before.contents.len()
        }),
{
}

/// Truncating an object twice to the same length is truncating it once.
pub proof fn lemma_truncate_idempotent(before: ObjectModel, length: nat)
    ensures
        before.truncated(length).truncated(length) == before.truncated(length),
        before.truncated(length).contents.len() <= length || before.contents.len() <= length,
        length <= before.contents.len() ==> before.truncated(length).contents
            == before.contents.take(length as int),
{
}

/// A seek moves the position into the object and leaves the contents alone.
pub proof fn lemma_seek_stays_inside(before: ObjectModel, pos: SeekFrom)
    requires
        before.position <= before.contents.len(),
    ensures
        match before.sought(pos) {
            Some(after) => after.contents == before.contents && after.position
                <= after.contents.len(),
            None => match pos {
                SeekFrom::Start(_) => false,
                SeekFrom::End(offset) => offset < 0 || offset > before.contents.len(),
                SeekFrom::Current(offset) => before.position + offset < 0,
            },
        },
{
}

/// The bytes of the object under `key` in a header, as a store with these
/// blocks holds them.
pub open spec fn header_contents(
    blocks: Map<crate::store::BlockId, Seq<u8>>,
    header: &Header,
    key: Seq<u8>,
) -> Seq<u8> {
    crate::header::object_data(
        blocks,
        header.codec(),
        header.chunks@,
        header.objects@[object_index(header.objects@, key)].handle.chunks@,
    )
}

/// Headers that hold the same give every key the same bytes.
pub proof fn lemma_same_header_same_contents(
    blocks: Map<crate::store::BlockId, Seq<u8>>,
    one: &Header,
    other: &Header,
    key: Seq<u8>,
)
    requires
        one.wf(),
        one@ == other@,
    ensures
        has_object(other.objects@, key) == has_object(one.objects@, key),
        has_object(one.objects@, key) ==> header_contents(blocks, other, key) == header_contents(
            blocks,
            one,
            key,
        ),
{
    one.lemma_same_view(other, Seq::empty());
    lemma_same_table(one.chunks@, other.chunks@);
    let x = one.objects@;
    let y = other.objects@;
    if has_object(x, key) {
        let i = object_index(x, key);
        assert(object_at(x, key, i));
        assert(x[i]@ == y[i]@);
        assert(object_at(y, key, i));
        crate::header::lemma_object_at(y, i);
        let chunks = x[i].handle.chunks@;
        lemma_object_data_same(blocks, one.chunks@, blocks, other.chunks@, one.codec(), chunks);
    }
    if has_object(y, key) {
        let i = object_index(y, key);
        assert(object_at(y, key, i));
        assert(x[i]@ == y[i]@);
        assert(object_at(x, key, i));
    }
}

/// A repository that is opened from a store holds, under every key, the
/// bytes that were published to the store: what was committed is what is
/// read after a reopen.
pub proof fn lemma_reopened_holds_the_published<S: DataStore>(
    published: &ObjectRepository<S>,
    reopened: &ObjectRepository<S>,
    key: Seq<u8>,
)
    requires
        published.wf(),
        published.durable(),
        reopened.wf(),
        reopened.store.blocks() == published.store.blocks(),
        reopened.header@ == published.committed@,
    ensures
        reopened.consistent(),
        has_object(reopened.header.objects@, key) == has_object(
            published.committed.objects@,
            key,
        ),
        has_object(published.committed.objects@, key) ==> reopened.contents_of(key)
            == header_contents(published.store.blocks(), &published.committed, key),
{
    published.committed.lemma_same_view(&reopened.header, Seq::empty());
    lemma_same_table(published.committed.chunks@, reopened.header.chunks@);
    lemma_same_header_same_contents(
        published.store.blocks(),
        &published.committed,
        &reopened.header,
        key,
    );
}

/// The same content is stored once: a repository that has stored `pieces`,
/// which collided with nothing, knows them all, and storing them again
/// leaves the store and the size of the table of chunks as they are.
pub proof fn lemma_stored_once<S: DataStore>(
    before: &ObjectRepository<S>,
    once: &ObjectRepository<S>,
    twice: &ObjectRepository<S>,
    pieces: Seq<Seq<u8>>,
)
    requires
        before.collision_free(pieces),
        before.stored(once, pieces),
        once.stored(twice, pieces),
    ensures
        once.knows_all(pieces),
        once.same_room(twice),
        crate::header::stored_total(twice.header.chunks@) == crate::header::stored_total(
            once.header.chunks@,
        ),
{
}

/// The same content under a second key takes no room. The object `a0`, new
/// and empty, takes a write of `data` (`a1`) and a flush (`a2`); so does the
/// object `b0`, new and empty in a repository with the table and the store
/// that the first flush left (`b1`, `b2`). Where the chunks of the first
/// object collided with nothing, the second object lists chunks of the same
/// sizes and digests as the first, and storing it has left the store and
/// the size of the table of chunks as they were.
pub proof fn lemma_same_content_under_two_keys<S: DataStore>(
    a0: &Object<S>,
    a1: &Object<S>,
    a2: &Object<S>,
    b0: &Object<S>,
    b1: &Object<S>,
    b2: &Object<S>,
    data: Seq<u8>,
)
    requires
        a0.wf(), !a0.writing, !a0.failed, a0.chunks().len() == 0, a0.faithful(),
        a0.repo().consistent(),
        a1.wf(), a1.writing, !a1.failed, a1.entry == a0.entry,
        a1.fed_with(a0, data),
        a0.repo().only_chunks_changed(&a1.repo()),
        a1.repo().consistent(),
        a1.position == a0.position + data.len(),
        a2.wf(), a2.flushed_from(a1),
        a0.repo().collision_free(complete_chunks(a0.chunker.bits(), a0.lead() + data)),
        a1.repo().collision_free(a1.closing()),
        b0.wf(), !b0.writing, !b0.failed, b0.chunks().len() == 0, b0.faithful(),
        b0.repo().consistent(),
        b0.repo().header.chunks == a2.repo().header.chunks,
        b0.repo().store == a2.repo().store,
        b0.repo().header.metadata == a2.repo().header.metadata,
        b0.chunker.bits() == a0.chunker.bits(),
        b0.position == a0.position,
        b1.wf(), b1.writing, !b1.failed, b1.entry == b0.entry,
        b1.fed_with(b0, data),
        b0.repo().only_chunks_changed(&b1.repo()),
        b1.repo().consistent(),
        b1.position == b0.position + data.len(),
        b2.wf(), b2.flushed_from(b1),
    ensures
        b0.repo().same_room(&b2.repo()),
        b2.chunks().len() == a2.chunks().len(),
        forall|i: int| 0 <= i < b2.chunks().len() ==> (#[trigger] b2.chunks()[i]).size
            == a2.chunks()[i].size && b2.chunks()[i].hash@ == a2.chunks()[i].hash@,
{
    let fresh = complete_chunks(a0.chunker.bits(), a0.lead() + data);
    assert(a0.lead() =~= Seq::<u8>::empty());
    assert(b0.lead() =~= Seq::<u8>::empty());
    assert(a1.faithful());
    assert(a1.chunks() == a0.chunks());
    assert(b1.chunks() == b0.chunks());
    assert(a1.rest() =~= Seq::<u8>::empty());
    assert(b1.rest() =~= Seq::<u8>::empty());
    assert(a1.closing() == b1.closing());
    assert(a2.faithful());
    let all = a1.pieces() + a1.closing();
    assert(a1.pieces() =~= fresh);
    assert(b1.pieces() =~= fresh);
    assert(a2.repo().holds(all));
    assert(b0.repo().knows_all(fresh)) by {
        assert forall|i: int| 0 <= i < fresh.len() implies b0.repo().knows(
            blake2b_256(#[trigger] fresh[i]),
        ) by {
            assert(all[i] == fresh[i]);
            assert(a2.repo().knows(blake2b_256(all[i])));
        }
    }
    assert(b0.repo().same_room(&b1.repo()));
    assert(b1.repo().knows_all(b1.closing())) by {
        assert forall|i: int| 0 <= i < b1.closing().len() implies b1.repo().knows(
            blake2b_256(#[trigger] b1.closing()[i]),
        ) by {
            assert(all[fresh.len() + i] == a1.closing()[i]);
            assert(a2.repo().knows(blake2b_256(all[fresh.len() + i])));
            assert(b0.repo().knows(blake2b_256(b1.closing()[i])));
        }
    }
    assert(b1.repo().same_room(&b2.repo()));
    assert(a1.start_location.index == 0);
    assert(b1.start_location.index == 0);
    let ca = a2.chunks().subrange(0, all.len() as int);
    let cb = b2.chunks().subrange(0, all.len() as int);
    assert(a1.upto() == 0);
    assert(b1.upto() == 0);
    assert(a2.chunks() =~= ca);
    assert(b2.chunks() =~= cb);
    assert forall|i: int| 0 <= i < b2.chunks().len() implies (#[trigger] b2.chunks()[i]).size
        == a2.chunks()[i].size && b2.chunks()[i].hash@ == a2.chunks()[i].hash@ by {
        assert(cb[i] == b2.chunks()[i]);
        assert(ca[i] == a2.chunks()[i]);
    }
}


/// What was written to a new object under a key, flushed and committed is
/// what a repository that is opened from the store holds under the key.
///
/// `committed` is the repository as `commit` leaves it, with `data` under
/// `key`; `reopened` is one that `open` makes of its store.
pub proof fn lemma_round_trip<S: DataStore>(
    committed: &ObjectRepository<S>,
    reopened: &ObjectRepository<S>,
    key: Seq<u8>,
    data: Seq<u8>,
)
    requires
        committed.wf(),
        committed.clean,
        committed.durable(),
        has_object(committed.header.objects@, key),
        committed.contents_of(key) == data,
        reopened.wf(),
        reopened.store.blocks() == committed.store.blocks(),
        reopened.header@ == committed.committed@,
    ensures
        (ObjectModel { contents: Seq::empty(), position: 0 }).written(data).contents == data,
        reopened.consistent(),
        has_object(reopened.header.objects@, key),
        reopened.contents_of(key) == data,
{
    lemma_committed_holds_the_current(committed, key);
    lemma_reopened_holds_the_published(committed, reopened, key);
    assert((ObjectModel { contents: Seq::empty(), position: 0 }).written(data).contents =~= data);
}

/// In a repository that has just committed, the published header gives
/// every key the bytes that the repository's own header gives it.
pub proof fn lemma_committed_holds_the_current<S: DataStore>(
    repository: &ObjectRepository<S>,
    key: Seq<u8>,
)
    requires
        repository.wf(),
        repository.clean,
    ensures
        has_object(repository.committed.objects@, key) == has_object(
            repository.header.objects@,
            key,
        ),
        has_object(repository.header.objects@, key) ==> header_contents(
            repository.store.blocks(),
            &repository.committed,
            key,
        ) == repository.contents_of(key),
{
    lemma_same_header_same_contents(
        repository.store.blocks(),
        &repository.header,
        &repository.committed,
        key,
    );
}

/// Restoring a savepoint gives back what the repository held when the
/// savepoint was taken: where the blocks that were in use then are as they
/// were, the repository with the savepoint's header has the same keys, and
/// the object under each holds the same bytes.
pub proof fn lemma_restored_holds_the_saved<S: DataStore>(
    taken: &ObjectRepository<S>,
    restored: &ObjectRepository<S>,
    key: Seq<u8>,
)
    requires
        taken.wf(),
        restored.header@ == taken.header@,
        crate::archive::same_below(
            taken.store.blocks(),
            restored.store.blocks(),
            taken.next_block as int,
        ),
    ensures
        has_object(restored.header.objects@, key) == has_object(taken.header.objects@, key),
        has_object(taken.header.objects@, key) ==> restored.contents_of(key) == taken.contents_of(
            key,
        ),
        taken.consistent() ==> restored.consistent(),
{
    let before = taken.store.blocks();
    let now = restored.store.blocks();
    let table = taken.header.chunks@;
    let codec = taken.header.codec();
    taken.header.lemma_same_view(&restored.header, Seq::empty());
    lemma_same_table(taken.header.chunks@, restored.header.chunks@);
    lemma_same_header_same_contents(now, &taken.header, &restored.header, key);
    assert forall|j: int| 0 <= j < table.len() implies crate::header::payload(
        now,
        codec,
        #[trigger] table[j],
    ) == crate::header::payload(before, codec, table[j]) by {
        assert(crate::archive::all_below(table[j].blocks@, taken.next_block as int));
        crate::header::lemma_payload_unchanged(
            before,
            now,
            codec,
            table[j],
            taken.next_block as int,
        );
    }
    if has_object(taken.header.objects@, key) {
        let chunks = taken.header.objects@[object_index(taken.header.objects@, key)].handle.chunks@;
        assert forall|j: int| 0 <= j < chunks.len() implies crate::header::chunk_data(
            now,
            codec,
            table,
            (#[trigger] chunks[j]).hash@,
        ) == crate::header::chunk_data(before, codec, table, chunks[j].hash@) by {
            let hash = chunks[j].hash@;
            if crate::header::has_chunk(table, hash) {
                let c = crate::header::chunk_index(table, hash);
                assert(crate::header::chunk_at(table, hash, c));
            }
        }
        lemma_object_data_same(now, table, before, table, codec, chunks);
    }
    if taken.consistent() {
        assert forall|j: int| 0 <= j < table.len() implies crate::header::entry_sound(
            now,
            codec,
            #[trigger] table[j],
        ) by {
            assert(crate::header::entry_sound(before, codec, table[j]));
        }
    }
}

/// A savepoint is valid exactly until the transaction in which it was taken
/// ends: in a later state of the repository in which it was taken it is
/// valid if no commit and no rollback came between, and not valid if one
/// did.
pub proof fn lemma_savepoint_validity<S: DataStore>(
    savepoint: &Savepoint,
    taken: &ObjectRepository<S>,
    now: &ObjectRepository<S>,
)
    requires
        savepoint.valid_in(taken),
        now.instance == taken.instance,
        now.header.metadata@ == taken.header.metadata@,
        now.transaction >= taken.transaction,
        now.transaction == taken.transaction ==> now.next_block >= taken.next_block,
    ensures
        savepoint.valid_in(now) <==> now.transaction == taken.transaction,
{
}

/// Whether `result` is what verifying `object` may give.
pub open spec fn verified_as<S: DataStore>(object: &Object<S>, result: Result<bool, Error>) -> bool {
    match result {
        Ok(valid) => if valid {
            forall|i: int| 0 <= i < object.chunks().len() ==> object.chunk_check(i) == Some(true)
        } else {
            exists|i: int|
                0 <= i < object.chunks().len() && #[trigger] object.chunk_check(i) == Some(false)
                    && forall|j: int| 0 <= j < i ==> object.chunk_check(j) == Some(true)
        },
        Err(error) => object.repo().store.reliable() ==> error == Error::Corrupt && exists|i: int|
            0 <= i < object.chunks().len() && #[trigger] object.chunk_check(i) is None && forall|
                j: int,
            |
                0 <= j < i ==> object.chunk_check(j) == Some(true),
    }
}

/// Where the stored bytes of every chunk of an object decode, verifying the
/// object gives `false` if and only if the plaintext of at least one chunk
/// has another digest than the chunk names.
pub proof fn lemma_verify_sound<S: DataStore>(object: &Object<S>, result: Result<bool, Error>)
    requires
        verified_as(object, result),
        object.repo().store.reliable(),
        forall|i: int| 0 <= i < object.chunks().len() ==> object.chunk_check(i) is Some,
    ensures
        result is Ok,
        result == Ok::<bool, Error>(false) <==> exists|i: int|
            0 <= i < object.chunks().len() && #[trigger] object.chunk_check(i) == Some(false),
{
    match result {
        Ok(valid) => {
            if valid {
                assert forall|i: int| 0
                    <= i < object.chunks().len() implies #[trigger] object.chunk_check(
                    i,
                ) != Some(false) by {
                    assert(object.chunk_check(i) == Some(true));
                }
            }
        },
        Err(_) => {
            let i = choose|i: int|
                0 <= i < object.chunks().len() && #[trigger] object.chunk_check(i) is None;
            assert(object.chunk_check(i) is Some);
        },
    }
}

} // verus!
