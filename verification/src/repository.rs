//! The repository: a chunk store with reference counts under a map from keys
//! to objects, changed in transactions.

use vstd::prelude::*;
use crate::archive::{all_below, read_run, same_below, same_outside, stored_bytes, write_run};
use crate::block::{block_run, blocks_needed, BlockAddress, HeaderAddress, MAX_BLOCKS};
use crate::chunking::{concat, lemma_concat_step};
use crate::codec::Codec;
use crate::error::Error;
use crate::handle::{occurrences, Chunk};
use crate::hash::{blake2b_256, chunk_hash, hash_eq, ChunkHash};
use crate::header::{
    chunk_at, chunk_data, chunk_entry, chunk_index, distinct_hashes, entry_sound, has_chunk,
    lemma_chunk_added, lemma_chunk_at, lemma_chunk_removed, lemma_payload_unchanged,
    lemma_unknown_is_unreferenced, chunks_readable, lemma_object_data_len,
    lemma_referenced_is_known, lemma_referenced_is_readable,
    lemma_recounted, object_data, payload, recounted, refcount_of, references, references_counted,
    sizes_agree, table_below, table_sound, ChunkRef, Header, ObjectEntry,
};
use crate::store::{BlockId, DataStore};

verus! {

/// A repository of objects in a block store.
///
/// Changes are made to the header in memory and to fresh blocks of the store;
/// the header that the last commit published and the blocks it refers to are
/// left alone until the next commit publishes its successor.
pub struct ObjectRepository<S: DataStore> {
    /// The store that holds the blocks.
    pub store: S,
    /// The header as the current transaction has made it.
    pub header: Header,
    /// The header that the last commit published.
    pub committed: Header,
    /// Where the published header is stored.
    pub address: HeaderAddress,
    /// The index of the first block of the published header.
    pub header_block: u64,
    /// The index of the first block that neither the published state nor the
    /// current transaction uses.
    pub next_block: u64,
    /// The number of commits and rollbacks so far; it tells the savepoints of
    /// this transaction from those of earlier ones.
    pub transaction: u64,
    /// Whether the header is still the published one.
    pub clean: bool,
    /// The number that the repository was given when it was created or
    /// opened; it tells the savepoints of this repository from those of
    /// others. Whoever opens a store anew gives the repository a number of
    /// its own, drawn at random for one.
    pub instance: u128,
}

impl<S: DataStore> ObjectRepository<S> {
    /// The per-chunk pipeline of the repository.
    pub open spec fn codec(&self) -> Codec {
        self.header.codec()
    }

    /// The plaintext of the chunk with digest `hash`, as the store holds it.
    pub open spec fn data(&self, hash: Seq<u8>) -> Seq<u8> {
        chunk_data(self.store.blocks(), self.codec(), self.header.chunks@, hash)
    }

    /// The bytes of an object made up of `chunks`, as the store holds them.
    pub open spec fn bytes_of(&self, chunks: Seq<Chunk>) -> Seq<u8> {
        object_data(self.store.blocks(), self.codec(), self.header.chunks@, chunks)
    }

    /// Whether the table knows the digest `hash`.
    pub open spec fn knows(&self, hash: Seq<u8>) -> bool {
        has_chunk(self.header.chunks@, hash)
    }

    /// The invariant of the current transaction's state, together with the
    /// chunks `extra` that an object being written has stored but not yet
    /// listed.
    pub open spec fn state_wf(&self, extra: Seq<Chunk>) -> bool {
        &&& self.header.wf_with(extra)
        &&& table_below(self.header.chunks@, self.next_block as int)
        &&& self.next_block <= MAX_BLOCKS
    }

    /// The index of the first block of the published header.
    pub open spec fn header_first(&self) -> int {
        self.header_block as int
    }

    /// The index of the first block behind the published header.
    pub open spec fn floor(&self) -> int {
        self.header_block + blocks_needed(self.address.header_size())
    }

    /// The invariant of what a repository keeps of the published state: the
    /// published header is well-formed, it lies in blocks of its own behind
    /// the chunks it lists, and the current transaction uses neither. A clean
    /// repository's header is the published one.
    pub open spec fn settled(&self) -> bool {
        &&& self.committed.wf()
        &&& self.committed.metadata@ == self.header.metadata@
        &&& self.address.header_size() >= 8
        &&& crate::publish::addresses(
            self.address,
            self.header_block as nat,
            (self.address.header_size() - 8) as nat,
        )
        &&& table_below(self.committed.chunks@, self.header_first())
        &&& self.floor() <= self.next_block
        &&& self.clean ==> self.header@ == self.committed@
    }

    /// The invariant of a repository that no object is open in.
    pub open spec fn wf(&self) -> bool {
        self.state_wf(Seq::empty()) && self.settled()
    }

    /// Whether the store publishes the header that this repository takes for
    /// the published one, at the address that it has for it.
    pub open spec fn anchored(&self) -> bool {
        &&& crate::publish::superblock_target(self.store.blocks()) == Some(
            self.header_first() as nat,
        )
        &&& crate::publish::frame_length(self.store.blocks(), self.header_first() as nat) == Some(
            (self.address.header_size() - 8) as nat,
        )
        &&& crate::publish::published(self.store.blocks()) == Some(
            crate::encoding::wire_of(&self.committed),
        )
    }

    /// Whether the store holds the published state in full: the header and
    /// every chunk that it lists.
    pub open spec fn durable(&self) -> bool {
        &&& self.anchored()
        &&& table_sound(self.store.blocks(), self.committed.codec(), self.committed.chunks@)
    }

    /// What a write to free blocks leaves of the published state.
    #[verifier::rlimit(50)]
    pub proof fn lemma_settled_kept(&self, after: &Self)
        requires
            self.settled(),
            self.only_chunks_changed(after),
        ensures
            after.settled(),
            self.anchored() ==> after.anchored(),
            self.durable() ==> after.durable(),
    {
        if after.clean {
            assert(after.header@.chunks =~= self.header@.chunks);
            assert(after.header@.objects =~= self.header@.objects);
        }
        if self.anchored() {
            self.lemma_anchor_kept(after);
        }
        if self.durable() {
            self.lemma_published_chunks_kept(after);
        }
    }

    /// A write to free blocks leaves the published header where it is.
    #[verifier::rlimit(50)]
    proof fn lemma_anchor_kept(&self, after: &Self)
        requires
            self.anchored(),
            self.address.header_size() >= 8,
            self.floor() <= self.next_block,
            after.address == self.address,
            after.header_block == self.header_block,
            after.committed == self.committed,
            same_below(self.store.blocks(), after.store.blocks(), self.next_block as int),
        ensures
            after.anchored(),
    {
        let before = self.store.blocks();
        let now = after.store.blocks();
        let first = self.header_first() as nat;
        assert(8 + (self.address.header_size() - 8) == self.address.header_size());
        crate::publish::lemma_published_unchanged(before, now, self.next_block as int);
        crate::publish::lemma_frame_unchanged(before, now, first, self.next_block as int);
    }

    /// A write to free blocks leaves the chunks of the published header as
    /// they are.
    proof fn lemma_published_chunks_kept(&self, after: &Self)
        requires
            table_sound(self.store.blocks(), self.committed.codec(), self.committed.chunks@),
            table_below(self.committed.chunks@, self.next_block as int),
            after.committed == self.committed,
            same_below(self.store.blocks(), after.store.blocks(), self.next_block as int),
        ensures
            table_sound(after.store.blocks(), after.committed.codec(), after.committed.chunks@),
    {
        let before = self.store.blocks();
        let now = after.store.blocks();
        let table = self.committed.chunks@;
        assert forall|j: int| 0 <= j < table.len() implies entry_sound(
            now,
            self.committed.codec(),
            #[trigger] table[j],
        ) by {
            assert(all_below(table[j].blocks@, self.next_block as int));
            lemma_payload_unchanged(
                before,
                now,
                self.committed.codec(),
                table[j],
                self.next_block as int,
            );
            assert(entry_sound(before, self.committed.codec(), table[j]));
        }
    }

    /// What a change of the key map leaves of the published state.
    pub proof fn lemma_settled_replaced(
        &self,
        after: &Self,
        entry: int,
        start: int,
        upto: int,
        inserted: Seq<Chunk>,
    )
        requires
            self.settled(),
            self.chunks_replaced(after, entry, start, upto, inserted),
        ensures
            after.settled(),
            self.anchored() ==> after.anchored(),
            self.durable() ==> after.durable(),
    {
    }

    /// Whether the store holds every chunk of the table.
    pub open spec fn consistent(&self) -> bool {
        table_sound(self.store.blocks(), self.codec(), self.header.chunks@)
    }

    /// Whether `after` is this repository with nothing changed but the table
    /// of chunks and blocks that were free.
    pub open spec fn only_chunks_changed(&self, after: &Self) -> bool {
        &&& after.header.objects == self.header.objects
        &&& after.header.metadata == self.header.metadata
        &&& after.committed == self.committed
        &&& after.address == self.address
        &&& after.header_block == self.header_block
        &&& after.transaction == self.transaction
        &&& after.instance == self.instance
        &&& self.next_block <= after.next_block
        &&& same_below(self.store.blocks(), after.store.blocks(), self.next_block as int)
        &&& after.store.reliable() == self.store.reliable()
        &&& after.clean ==> self.clean && after.header.chunks == self.header.chunks
    }

    /// Whether `after` knows every chunk that this repository knows, with the
    /// same plaintext.
    pub open spec fn chunks_kept(&self, after: &Self) -> bool {
        forall|hash: Seq<u8>|
            #![trigger after.knows(hash)]
            #![trigger after.data(hash)]
            self.knows(hash) ==> after.knows(hash) && after.data(hash) == self.data(hash)
    }

    /// Store a chunk that holds `data` and take a reference to it. Where the
    /// table already has a chunk with the digest of `data`, nothing is written
    /// and that chunk gets one more reference.
    #[verifier::rlimit(50)]
    pub(crate) fn write_chunk(&mut self, data: &[u8], Ghost(extra): Ghost<Seq<Chunk>>) -> (result: Result<
        Chunk,
        Error,
    >)
        requires
            old(self).state_wf(extra),
        ensures
            old(self).only_chunks_changed(final(self)),
            old(self).consistent() ==> final(self).consistent(),
            old(self).chunks_kept(final(self)),
            match result {
                Ok(chunk) => {
                    &&& final(self).state_wf(extra.push(chunk))
                    &&& chunk.size == data@.len()
                    &&& chunk.hash@ == blake2b_256(data@)
                    &&& final(self).knows(chunk.hash@)
                    &&& !old(self).knows(chunk.hash@) ==> final(self).data(chunk.hash@) == data@
                    &&& old(self).knows(chunk.hash@) ==> final(self).store == old(self).store
                        && final(self).next_block == old(self).next_block
                        && crate::header::stored_total(final(self).header.chunks@)
                        == crate::header::stored_total(old(self).header.chunks@)
                    &&& forall|hash: Seq<u8>|
                        #[trigger] final(self).knows(hash) ==> old(self).knows(hash) || hash
                            == chunk.hash@
                    &&& final(self).clean == false
                    &&& final(self).next_block <= old(self).next_block + blocks_needed(
                        old(self).codec().encoded(data@).len(),
                    )
                    &&& final(self).header.chunks@.len() >= old(self).header.chunks@.len()
                    &&& forall|j: int|
                        0 <= j < final(self).header.chunks@.len() ==> (
                        #[trigger] final(self).header.chunks@[j]).refcount <= 1 + if j
                            < old(self).header.chunks@.len() {
                            old(self).header.chunks@[j].refcount
                        } else {
                            0
                        }
                },
                Err(error) => {
                    &&& final(self).state_wf(extra)
                    &&& final(self).header.chunks == old(self).header.chunks
                    &&& final(self).clean == old(self).clean
                    &&& old(self).store.reliable() ==> error == if old(self).knows(
                        blake2b_256(data@),
                    ) && chunk_entry(old(self).header.chunks@, blake2b_256(data@)).size
                        != data@.len() {
                        Error::Corrupt
                    } else {
                        Error::InvalidInput
                    }
                },
            },
            old(self).store.reliable() ==> (result is Ok <==> old(self).admits(data@)),
    {
        let hash = chunk_hash(data);
        let chunk = Chunk { size: data.len(), hash };
        let ghost table = self.header.chunks@;
        proof {
            assert forall|h: Seq<u8>|
                #![trigger self.knows(h)]
                #![trigger self.data(h)]
                old(self).knows(h) implies self.knows(h) && self.data(h) == old(self).data(h) by {}
        }
        match self.header.find_chunk(&hash) {
            Some(i) => {
                proof {
                    lemma_chunk_at(table, i as int);
                }
                if self.header.chunks[i].size != data.len() {
                    return Err(Error::Corrupt);
                }
                if self.header.chunks[i].refcount == u64::MAX {
                    return Err(Error::InvalidInput);
                }
                let refcount = self.header.chunks[i].refcount + 1;
                self.header.chunks[i].refcount = refcount;
                self.clean = false;
                proof {
                    let after = self.header.chunks@;
                    assert(recounted(table, after, i as int, refcount));
                    lemma_recounted(table, after, i as int, refcount);
                    assert forall|j: int| 0 <= j < after.len() implies all_below(
                        (#[trigger] after[j]).blocks@,
                        self.next_block as int,
                    ) by {
                        assert(all_below(table[j].blocks@, self.next_block as int));
                    }
                    assert forall|j: int| 0 <= j < after.len() implies payload(
                        self.store.blocks(),
                        self.codec(),
                        after[j],
                    ) == payload(self.store.blocks(), self.codec(), table[j]) by {}
                    assert forall|j: int| 0
                        <= j < after.len() implies (#[trigger] after[j]).refcount
                        >= 1 by {
                        assert(table[j].refcount >= 1);
                    }
                    if old(self).consistent() {
                        assert forall|j: int| 0 <= j < after.len() implies entry_sound(
                            self.store.blocks(),
                            self.codec(),
                            #[trigger] after[j],
                        ) by {
                            assert(entry_sound(self.store.blocks(), self.codec(), table[j]));
                        }
                    }
                    assert forall|h: Seq<u8>|
                        #![trigger self.knows(h)]
                        #![trigger self.data(h)]
                        old(self).knows(h) implies self.knows(h) && self.data(h) == old(self).data(
                            h,
                        ) by {
                        assert(has_chunk(table, h));
                        let j = chunk_index(table, h);
                        assert(chunk_index(after, h) == j);
                        assert(chunk_at(table, h, j));
                    }
                    crate::header::lemma_stored_total_same(table, after);
                    Self::lemma_sizes_kept(table, after, extra.push(chunk), i as int, chunk);
                    assert forall|k: int| 0 <= k < self.header.objects@.len() implies sizes_agree(
                        after,
                        (#[trigger] self.header.objects@[k]).handle.chunks@,
                    ) by {
                        let chunks = self.header.objects@[k].handle.chunks@;
                        assert(sizes_agree(table, chunks));
                        assert forall|j: int, l: int|
                            0 <= j < chunks.len() && #[trigger] chunk_at(
                                after,
                                chunks[j].hash@,
                                l,
                            ) implies after[l].size == chunks[j].size by {
                            assert(chunk_at(table, chunks[j].hash@, l));
                        }
                    }
                    assert(extra.push(chunk).drop_last() =~= extra);
                    assert forall|h: Seq<u8>|
                        references(self.header.objects@, h) + occurrences(extra.push(chunk), h)
                            <= #[trigger] refcount_of(after, h) by {
                        assert(references(self.header.objects@, h) + occurrences(extra, h)
                            <= refcount_of(table, h));
                    }
                }
                Ok(chunk)
            },
            None => {
                let stored = self.header.metadata.config().codec_of().encode(data);
                let needed = blocks_for(stored.len());
                if needed > MAX_BLOCKS - self.next_block {
                    return Err(Error::InvalidInput);
                }
                let ghost before = self.store.blocks();
                let first = self.next_block;
                match write_run(&mut self.store, first, stored.as_slice()) {
                    Err(error) => {
                        proof {
                            self.lemma_blocks_changed(old(self), first as int);
                        }
                        Err(error)
                    },
                    Ok(addresses) => {
                        let entry = ChunkRef {
                            hash,
                            size: data.len(),
                            stored_size: stored.len() as u64,
                            blocks: addresses,
                            refcount: 1,
                        };
                        self.header.chunks.push(entry);
                        self.next_block = first + needed;
                        self.clean = false;
                        proof {
                            let after = self.header.chunks@;
                            let entry = after[table.len() as int];
                            assert(after =~= table.push(entry));
                            lemma_chunk_added(table, entry);
                            assert(same_below(before, self.store.blocks(), first as int));
                            assert(payload(self.store.blocks(), self.codec(), entry)
                                == Some(data@));
                            assert forall|j: int| 0 <= j < table.len() implies payload(
                                self.store.blocks(),
                                self.codec(),
                                #[trigger] after[j],
                            ) == payload(before, self.codec(), table[j]) by {
                                assert(all_below(table[j].blocks@, first as int));
                                lemma_payload_unchanged(
                                    before,
                                    self.store.blocks(),
                                    self.codec(),
                                    table[j],
                                    first as int,
                                );
                            }
                            assert forall|j: int| 0 <= j < after.len() implies all_below(
                                (#[trigger] after[j]).blocks@,
                                self.next_block as int,
                            ) by {
                                if j < table.len() {
                                    assert(all_below(table[j].blocks@, first as int));
                                }
                            }
                            if old(self).consistent() {
                                assert forall|j: int| 0 <= j < after.len() implies entry_sound(
                                    self.store.blocks(),
                                    self.codec(),
                                    #[trigger] after[j],
                                ) by {
                                    if j < table.len() {
                                        assert(entry_sound(before, self.codec(), table[j]));
                                    }
                                }
                            }
                            assert forall|h: Seq<u8>|
                                #![trigger self.knows(h)]
                                #![trigger self.data(h)]
                                old(self).knows(h) implies self.knows(h) && self.data(h)
                                    == old(self).data(h) by {
                                let j = chunk_index(table, h);
                                assert(chunk_at(table, h, j));
                                assert(chunk_index(after, h) == j);
                                assert(after[j] == table[j]);
                            }
                            assert(self.data(hash@) == data@);
                            assert(extra.push(chunk).drop_last() =~= extra);
                            assert forall|h: Seq<u8>|
                                references(self.header.objects@, h) + occurrences(
                                    extra.push(chunk),
                                    h,
                                ) <= #[trigger] refcount_of(after, h) by {
                                assert(references(self.header.objects@, h) + occurrences(extra, h)
                                    <= refcount_of(table, h));
                            }
                            assert forall|j: int| 0 <= j < after.len() implies (
                            #[trigger] after[j]).refcount >= 1 by {
                                if j < table.len() {
                                    assert(table[j].refcount >= 1);
                                }
                            }
                            lemma_unknown_is_unreferenced(
                                self.header.objects@,
                                table,
                                extra,
                                hash@,
                            );
                            assert forall|k: int|
                                0 <= k < self.header.objects@.len() implies sizes_agree(
                                after,
                                (#[trigger] self.header.objects@[k]).handle.chunks@,
                            ) by {
                                let chunks = self.header.objects@[k].handle.chunks@;
                                assert(sizes_agree(table, chunks));
                                assert forall|j: int| 0 <= j < chunks.len() implies chunks[j].hash@
                                    != entry.hash@ by {
                                    assert(self.header.objects@[k].handle.chunks@[j].hash@ != hash@);
                                }
                                Self::lemma_sizes_extended(table, entry, chunks);
                            }
                            Self::lemma_sizes_extended(table, entry, extra);
                            assert forall|j: int, k: int|
                                0 <= j < extra.push(chunk).len() && #[trigger] chunk_at(
                                    after,
                                    extra.push(chunk)[j].hash@,
                                    k,
                                ) implies after[k].size == extra.push(chunk)[j].size by {
                                if j < extra.len() {
                                    assert(chunk_at(after, extra[j].hash@, k));
                                } else {
                                    lemma_chunk_at(after, k);
                                }
                            }
                        }
                        Ok(chunk)
                    },
                }
            },
        }
    }

    /// A change of blocks that were free leaves every chunk as it was.
    proof fn lemma_blocks_changed(&self, before: &Self, bound: int)
        requires
            same_below(before.store.blocks(), self.store.blocks(), bound),
            table_below(before.header.chunks@, bound),
            self.header == before.header,
        ensures
            before.consistent() ==> self.consistent(),
            before.chunks_kept(self),
    {
        let table = self.header.chunks@;
        assert forall|j: int| 0 <= j < table.len() implies payload(
            self.store.blocks(),
            self.codec(),
            #[trigger] table[j],
        ) == payload(before.store.blocks(), self.codec(), table[j]) by {
            assert(all_below(table[j].blocks@, bound));
            lemma_payload_unchanged(
                before.store.blocks(),
                self.store.blocks(),
                self.codec(),
                table[j],
                bound,
            );
        }
        if before.consistent() {
            assert forall|j: int| 0 <= j < table.len() implies entry_sound(
                self.store.blocks(),
                self.codec(),
                #[trigger] table[j],
            ) by {
                assert(entry_sound(before.store.blocks(), self.codec(), table[j]));
            }
        }
        assert forall|h: Seq<u8>|
            #![trigger self.knows(h)]
            #![trigger self.data(h)]
            before.knows(h) implies self.knows(h) && self.data(h) == before.data(h) by {
            let j = chunk_index(table, h);
            assert(chunk_at(table, h, j));
        }
    }

    /// Where a chunk with a new digest was added, sizes agree as before.
    proof fn lemma_sizes_extended(before: Seq<ChunkRef>, entry: ChunkRef, chunks: Seq<Chunk>)
        requires
            sizes_agree(before, chunks),
            forall|j: int| 0 <= j < chunks.len() ==> chunks[j].hash@ != entry.hash@,
        ensures
            sizes_agree(before.push(entry), chunks),
    {
        let after = before.push(entry);
        assert forall|j: int, k: int|
            0 <= j < chunks.len()
                && #[trigger] chunk_at(after, chunks[j].hash@, k) implies after[k].size
            == chunks[j].size by {
            assert(chunk_at(before, chunks[j].hash@, k));
        }
    }

    /// Whether none of `pieces` has the digest of a chunk with another
    /// plaintext, be it a chunk in the table or another of the pieces.
    pub open spec fn collision_free(&self, pieces: Seq<Seq<u8>>) -> bool {
        &&& forall|i: int|
            0 <= i < pieces.len() && self.knows(blake2b_256(#[trigger] pieces[i])) ==> self.data(
                blake2b_256(pieces[i]),
            ) == pieces[i]
        &&& forall|i: int, j: int|
            0 <= i < pieces.len() && 0 <= j < pieces.len() && blake2b_256(#[trigger] pieces[i])
                == blake2b_256(#[trigger] pieces[j]) ==> pieces[i] == pieces[j]
    }

    /// Whether `after` knows no digest that this repository does not know
    /// but those of `pieces`.
    pub open spec fn grown_by(&self, after: &Self, pieces: Seq<Seq<u8>>) -> bool {
        forall|hash: Seq<u8>|
            #[trigger] after.knows(hash) ==> self.knows(hash) || exists|k: int|
                0 <= k < pieces.len() && blake2b_256(#[trigger] pieces[k]) == hash
    }

    /// Pieces that collide neither with what a repository holds nor with
    /// each other do not collide with what the repository holds once some of
    /// them are stored.
    pub proof fn lemma_collision_free_step(
        &self,
        after: &Self,
        stored: Seq<Seq<u8>>,
        more: Seq<Seq<u8>>,
    )
        requires
            self.collision_free(stored + more),
            self.chunks_kept(after),
            self.grown_by(after, stored),
            after.holds(stored),
        ensures
            self.collision_free(stored),
            after.collision_free(more),
    {
        let all = stored + more;
        assert forall|i: int|
            0 <= i < stored.len()
                && self.knows(blake2b_256(#[trigger] stored[i])) implies self.data(
            blake2b_256(stored[i]),
        ) == stored[i] by {
            assert(all[i] == stored[i]);
        }
        assert forall|i: int, j: int|
            0 <= i < stored.len() && 0 <= j < stored.len() && blake2b_256(#[trigger] stored[i])
                == blake2b_256(#[trigger] stored[j]) implies stored[i] == stored[j] by {
            assert(all[i] == stored[i]);
            assert(all[j] == stored[j]);
        }
        assert forall|i: int|
            0 <= i < more.len() && after.knows(blake2b_256(#[trigger] more[i])) implies after.data(
            blake2b_256(more[i]),
        ) == more[i] by {
            let hash = blake2b_256(more[i]);
            assert(all[stored.len() + i] == more[i]);
            if self.knows(hash) {
                assert(self.data(hash) == all[stored.len() + i]);
            } else {
                let k = choose|k: int|
                    0 <= k < stored.len() && blake2b_256(#[trigger] stored[k]) == hash;
                assert(all[k] == stored[k]);
                assert(blake2b_256(all[k]) == blake2b_256(all[stored.len() + i]));
                assert(after.data(blake2b_256(stored[k])) == stored[k]);
            }
        }
        assert forall|i: int, j: int|
            0 <= i < more.len() && 0 <= j < more.len() && blake2b_256(#[trigger] more[i])
                == blake2b_256(#[trigger] more[j]) implies more[i] == more[j] by {
            assert(all[stored.len() + i] == more[i]);
            assert(all[stored.len() + j] == more[j]);
        }
    }

    /// Pieces that collide with nothing do so however many of them are
    /// looked at.
    pub proof fn lemma_collision_free_prefix(&self, stored: Seq<Seq<u8>>, more: Seq<Seq<u8>>)
        requires
            self.collision_free(stored + more),
        ensures
            self.collision_free(stored),
    {
        let all = stored + more;
        assert forall|i: int|
            0 <= i < stored.len()
                && self.knows(blake2b_256(#[trigger] stored[i])) implies self.data(
            blake2b_256(stored[i]),
        ) == stored[i] by {
            assert(all[i] == stored[i]);
        }
        assert forall|i: int, j: int|
            0 <= i < stored.len() && 0 <= j < stored.len() && blake2b_256(#[trigger] stored[i])
                == blake2b_256(#[trigger] stored[j]) implies stored[i] == stored[j] by {
            assert(all[i] == stored[i]);
            assert(all[j] == stored[j]);
        }
    }

    /// What a repository holds, it holds after a change that keeps the chunks
    /// it knows.
    pub proof fn lemma_holds_kept(&self, after: &Self, pieces: Seq<Seq<u8>>)
        requires
            self.holds(pieces),
            self.chunks_kept(after),
        ensures
            after.holds(pieces),
    {
        assert forall|i: int| 0 <= i < pieces.len() implies after.knows(
            blake2b_256(#[trigger] pieces[i]),
        ) && after.data(blake2b_256(pieces[i])) == pieces[i] by {
            assert(self.knows(blake2b_256(pieces[i])));
        }
    }

    /// Growth by one list of pieces and then by another is growth by both.
    pub proof fn lemma_grown_twice(
        &self,
        middle: &Self,
        after: &Self,
        first: Seq<Seq<u8>>,
        second: Seq<Seq<u8>>,
    )
        requires
            self.grown_by(middle, first),
            middle.grown_by(after, second),
        ensures
            self.grown_by(after, first + second),
    {
        let all = first + second;
        assert forall|hash: Seq<u8>| #[trigger] after.knows(hash) implies self.knows(hash)
            || exists|k: int| 0 <= k < all.len() && blake2b_256(#[trigger] all[k]) == hash by {
            if middle.knows(hash) {
                if !self.knows(hash) {
                    let k = choose|k: int|
                        0 <= k < first.len() && blake2b_256(#[trigger] first[k]) == hash;
                    assert(all[k] == first[k]);
                }
            } else {
                let k = choose|k: int|
                    0 <= k < second.len() && blake2b_256(#[trigger] second[k]) == hash;
                assert(all[first.len() + k] == second[k]);
            }
        }
    }

    /// Whether the repository surely has room for `count` more chunks that
    /// hold `length` bytes together: enough blocks are left for them, and no
    /// chunk is within `count` references of the most it can have.
    pub open spec fn takes(&self, count: nat, length: nat) -> bool {
        &&& self.next_block + length + count <= MAX_BLOCKS
        &&& forall|j: int|
            0 <= j < self.header.chunks@.len() ==> (#[trigger] self.header.chunks@[j]).refcount
                + count <= u64::MAX
    }

    /// Whether the repository knows a chunk with the digest of each of
    /// `pieces`.
    pub open spec fn knows_all(&self, pieces: Seq<Seq<u8>>) -> bool {
        forall|i: int| 0 <= i < pieces.len() ==> self.knows(blake2b_256(#[trigger] pieces[i]))
    }

    /// Whether `after` takes up the room in the store that this repository
    /// takes up: the store is the same, and the chunks of the table are
    /// stored in as many bytes.
    pub open spec fn same_room(&self, after: &Self) -> bool {
        &&& after.store == self.store
        &&& after.next_block == self.next_block
        &&& crate::header::stored_total(after.header.chunks@) == crate::header::stored_total(
            self.header.chunks@,
        )
    }

    /// Whether `after` has grown from this repository by no more than
    /// `count` chunks that hold `length` bytes together take: in blocks, and
    /// in the references to each chunk.
    pub open spec fn grew_within(&self, after: &Self, count: nat, length: nat) -> bool {
        &&& after.next_block <= self.next_block + length + count
        &&& after.header.chunks@.len() >= self.header.chunks@.len()
        &&& forall|j: int|
            0 <= j < after.header.chunks@.len() ==> (#[trigger] after.header.chunks@[j]).refcount
                <= count + if j < self.header.chunks@.len() {
                self.header.chunks@[j].refcount
            } else {
                0
            }
    }

    /// A repository with room for two lots of chunks has room for the second
    /// once it has grown by the first.
    pub proof fn lemma_takes_after(
        &self,
        after: &Self,
        count: nat,
        length: nat,
        more: nat,
        more_length: nat,
    )
        requires
            self.takes(count + more, length + more_length),
            self.grew_within(after, count, length),
        ensures
            after.takes(more, more_length),
    {
        assert forall|j: int| 0 <= j < after.header.chunks@.len() implies (
        #[trigger] after.header.chunks@[j]).refcount + more <= u64::MAX by {
            if j < self.header.chunks@.len() {
                assert(self.header.chunks@[j].refcount + (count + more) <= u64::MAX);
            }
        }
    }

    /// Whether storing `pieces` is sure to succeed: the store does not fail
    /// and holds every chunk of the table, the pieces collide with nothing,
    /// and there is room for them.
    pub open spec fn welcomes(&self, pieces: Seq<Seq<u8>>) -> bool {
        &&& self.sound_for(pieces)
        &&& self.takes(pieces.len(), concat(pieces).len())
    }

    /// Whether nothing but a want of room can keep `pieces` from being
    /// stored: the store does not fail and holds every chunk of the table,
    /// and the pieces collide with nothing.
    pub open spec fn sound_for(&self, pieces: Seq<Seq<u8>>) -> bool {
        &&& self.store.reliable()
        &&& self.consistent()
        &&& self.collision_free(pieces)
    }

    /// A repository that is sound for pieces is sound for the first of them.
    pub proof fn lemma_sound_prefix(&self, stored: Seq<Seq<u8>>, more: Seq<Seq<u8>>)
        requires
            self.sound_for(stored + more),
        ensures
            self.sound_for(stored),
    {
        self.lemma_collision_free_prefix(stored, more);
    }

    /// A repository that is sound for two lots of pieces is sound for the
    /// second once it has stored the first.
    pub proof fn lemma_sound_step(
        &self,
        after: &Self,
        stored: Seq<Seq<u8>>,
        more: Seq<Seq<u8>>,
    )
        requires
            self.sound_for(stored + more),
            self.only_chunks_changed(after),
            after.consistent(),
            self.stored(after, stored),
        ensures
            after.sound_for(more),
    {
        self.lemma_collision_free_prefix(stored, more);
        self.lemma_collision_free_step(after, stored, more);
    }

    /// In a consistent repository, a chunk with the digest of a piece that
    /// collides with nothing has the size of the piece.
    pub proof fn lemma_sizes_match(&self, piece: Seq<u8>)
        requires
            self.consistent(),
            self.knows(blake2b_256(piece)) ==> self.data(blake2b_256(piece)) == piece,
        ensures
            self.knows(blake2b_256(piece)) ==> chunk_entry(
                self.header.chunks@,
                blake2b_256(piece),
            ).size == piece.len(),
    {
        let hash = blake2b_256(piece);
        let table = self.header.chunks@;
        if self.knows(hash) {
            let c = chunk_index(table, hash);
            assert(chunk_at(table, hash, c));
            assert(entry_sound(self.store.blocks(), self.codec(), table[c]));
        }
    }

    /// A repository that welcomes pieces welcomes the first of them.
    pub proof fn lemma_welcomes_prefix(&self, stored: Seq<Seq<u8>>, more: Seq<Seq<u8>>)
        requires
            self.welcomes(stored + more),
        ensures
            self.welcomes(stored),
    {
        self.lemma_sound_prefix(stored, more);
        crate::chunking::lemma_concat_append(stored, more);
    }

    /// A repository that welcomes two lots of pieces welcomes the second
    /// once it has stored the first.
    pub proof fn lemma_welcomes_step(
        &self,
        after: &Self,
        stored: Seq<Seq<u8>>,
        more: Seq<Seq<u8>>,
    )
        requires
            self.welcomes(stored + more),
            self.only_chunks_changed(after),
            after.consistent(),
            self.chunks_kept(after),
            self.grown_by(after, stored),
            self.grew_within(after, stored.len(), concat(stored).len()),
            self.collision_free(stored) ==> after.holds(stored),
        ensures
            after.welcomes(more),
    {
        self.lemma_collision_free_prefix(stored, more);
        self.lemma_collision_free_step(after, stored, more);
        crate::chunking::lemma_concat_append(stored, more);
        self.lemma_takes_after(
            after,
            stored.len(),
            concat(stored).len(),
            more.len(),
            concat(more).len(),
        );
    }

    /// Whether `after` is what storing `fresh` may make of this repository:
    /// it has kept the chunks it knew and knows no others but those of
    /// `fresh`; it has grown by no more than they take, and by nothing if it
    /// knew them all; and it holds them if they collided with nothing.
    pub open spec fn stored(&self, after: &Self, fresh: Seq<Seq<u8>>) -> bool {
        &&& self.chunks_kept(after)
        &&& self.grown_by(after, fresh)
        &&& self.grew_within(after, fresh.len(), concat(fresh).len())
        &&& self.collision_free(fresh) ==> after.holds(fresh)
        &&& self.knows_all(fresh) ==> self.same_room(after)
    }

    /// Storing some pieces and then some more is storing them all.
    pub proof fn lemma_stored_twice(
        &self,
        middle: &Self,
        after: &Self,
        first: Seq<Seq<u8>>,
        second: Seq<Seq<u8>>,
    )
        requires
            self.stored(middle, first),
            middle.stored(after, second),
        ensures
            self.stored(after, first + second),
    {
        let all = first + second;
        assert forall|hash: Seq<u8>|
            #![trigger after.knows(hash)]
            #![trigger after.data(hash)]
            self.knows(hash) implies after.knows(hash) && after.data(hash) == self.data(hash) by {
            assert(middle.knows(hash));
            assert(middle.data(hash) == self.data(hash));
        }
        self.lemma_grown_twice(middle, after, first, second);
        crate::chunking::lemma_concat_append(first, second);
        if self.collision_free(all) {
            self.lemma_collision_free_prefix(first, second);
            self.lemma_collision_free_step(middle, first, second);
            middle.lemma_holds_kept(after, first);
            assert forall|i: int| 0 <= i < all.len() implies after.knows(
                blake2b_256(#[trigger] all[i]),
            ) && after.data(blake2b_256(all[i])) == all[i] by {
                if i < first.len() {
                    assert(all[i] == first[i]);
                } else {
                    assert(all[i] == second[i - first.len()]);
                }
            }
        }
        if self.knows_all(all) {
            assert forall|i: int| 0 <= i < first.len() implies self.knows(
                blake2b_256(#[trigger] first[i]),
            ) by {
                assert(all[i] == first[i]);
            }
            assert forall|i: int| 0 <= i < second.len() implies middle.knows(
                blake2b_256(#[trigger] second[i]),
            ) by {
                assert(all[first.len() + i] == second[i]);
                assert(self.knows(blake2b_256(all[first.len() + i])));
            }
        }
    }

    /// Whether storing a chunk that holds `piece` succeeds on a store that
    /// does not fail: a chunk with its digest has its size and a reference
    /// to spare; without such a chunk there are blocks enough for it.
    pub open spec fn admits(&self, piece: Seq<u8>) -> bool {
        let hash = blake2b_256(piece);
        if self.knows(hash) {
            chunk_entry(self.header.chunks@, hash).size == piece.len() && chunk_entry(
                self.header.chunks@,
                hash,
            ).refcount < u64::MAX
        } else {
            self.next_block + blocks_needed(self.codec().encoded(piece).len()) <= MAX_BLOCKS
        }
    }

    /// A chunk takes no more blocks than it has bytes, and one.
    pub proof fn lemma_blocks_of_piece(&self, piece: Seq<u8>)
        ensures
            blocks_needed(self.codec().encoded(piece).len()) <= piece.len() + 1,
    {
    }

    /// A consistent repository with room for one more chunk admits a piece
    /// that collides with nothing it holds.
    pub proof fn lemma_admits(&self, piece: Seq<u8>)
        requires
            self.consistent(),
            self.knows(blake2b_256(piece)) ==> self.data(blake2b_256(piece)) == piece,
            self.takes(1, piece.len()),
        ensures
            self.admits(piece),
    {
        let hash = blake2b_256(piece);
        let table = self.header.chunks@;
        if self.knows(hash) {
            let c = chunk_index(table, hash);
            assert(chunk_at(table, hash, c));
            assert(entry_sound(self.store.blocks(), self.codec(), table[c]));
        } else {
            self.lemma_blocks_of_piece(piece);
        }
    }

    /// Whether the store holds each of `pieces` under its digest.
    pub open spec fn holds(&self, pieces: Seq<Seq<u8>>) -> bool {
        forall|i: int|
            0 <= i < pieces.len() ==> self.knows(blake2b_256(#[trigger] pieces[i])) && self.data(
                blake2b_256(pieces[i]),
            ) == pieces[i]
    }

    /// Store each of `ready` as a chunk and add its descriptor to `listed`.
    #[verifier::rlimit(50)]
    pub fn store_chunks(&mut self, ready: &Vec<Vec<u8>>, listed: &mut Vec<Chunk>) -> (result:
        Result<(), Error>)
        requires
            old(self).state_wf(old(listed)@),
        ensures
            old(self).only_chunks_changed(final(self)),
            old(self).consistent() ==> final(self).consistent(),
            old(self).chunks_kept(final(self)),
            final(self).state_wf(final(listed)@),
            final(listed)@.len() >= old(listed)@.len(),
            final(listed)@.take(old(listed)@.len() as int) == old(listed)@,
            final(self).clean == (old(self).clean && final(listed)@.len() == old(listed)@.len()),
            result is Ok ==> {
                &&& final(listed)@.len() == old(listed)@.len() + ready@.len()
                &&& forall|i: int|
                    0 <= i < ready@.len() ==> {
                        &&& (#[trigger] final(listed)@[old(listed)@.len() + i]).size
                            == ready@[i]@.len()
                        &&& final(listed)@[old(listed)@.len() + i].hash@ == blake2b_256(ready@[i]@)
                    }
                &&& old(self).collision_free(Seq::new(ready@.len(), |i: int| ready@[i]@))
                    ==> final(self).holds(Seq::new(ready@.len(), |i: int| ready@[i]@))
                &&& old(self).grown_by(final(self), Seq::new(ready@.len(), |i: int| ready@[i]@))
                &&& old(self).knows_all(Seq::new(ready@.len(), |i: int| ready@[i]@))
                    ==> old(self).same_room(final(self))
            },
            result is Ok ==> old(self).stored(
                final(self),
                Seq::new(ready@.len(), |i: int| ready@[i]@),
            ),
            old(self).welcomes(Seq::new(ready@.len(), |i: int| ready@[i]@)) ==> result is Ok,
            old(self).sound_for(Seq::new(ready@.len(), |i: int| ready@[i]@)) && result is Err
                ==> result->Err_0 == Error::InvalidInput,
    {
        let ghost pieces = Seq::new(ready@.len(), |i: int| ready@[i]@);
        let ghost base = listed@.len() as int;
        let ghost owed = old(self).welcomes(pieces);
        let ghost sound = old(self).sound_for(pieces);
        let mut i: usize = 0;
        proof {
            assert(listed@.take(base) =~= old(listed)@);
            old(self).lemma_kept_reflexive();
            assert(pieces.take(0) =~= Seq::<Seq<u8>>::empty());
        }
        while i < ready.len()
            invariant
                i <= ready@.len(),
                base == old(listed)@.len(),
                pieces == Seq::new(ready@.len(), |i: int| ready@[i]@),
                old(self).only_chunks_changed(self),
                old(self).consistent() ==> self.consistent(),
                old(self).chunks_kept(self),
                self.state_wf(listed@),
                listed@.len() == base + i,
                listed@.take(base) == old(listed)@,
                self.clean == (old(self).clean && i == 0),
                forall|k: int|
                    0 <= k < i ==> (#[trigger] listed@[base + k]).size == ready@[k]@.len()
                        && listed@[base + k].hash@ == blake2b_256(ready@[k]@),
                forall|hash: Seq<u8>|
                    #[trigger] self.knows(hash) ==> old(self).knows(hash) || exists|k: int|
                        0 <= k < i && blake2b_256(#[trigger] pieces[k]) == hash,
                (forall|k: int| 0 <= k < i ==> old(self).knows(blake2b_256(#[trigger] pieces[k])))
                    ==> old(self).same_room(self),
                old(self).collision_free(pieces) ==> forall|k: int|
                    0 <= k < i ==> self.knows(blake2b_256(#[trigger] pieces[k])) && self.data(
                        blake2b_256(pieces[k]),
                    ) == pieces[k],
                owed == old(self).welcomes(pieces),
                sound == old(self).sound_for(pieces),
                old(self).grew_within(self, i as nat, concat(pieces.take(i as int)).len()),
            decreases ready@.len() - i,
        {
            let ghost before = *self;
            let ghost listed_before = listed@;
            proof {
                lemma_concat_step(pieces, i as int);
            }
            match self.write_chunk(ready[i].as_slice(), Ghost(listed@)) {
                Err(error) => {
                    proof {
                        if sound {
                            let piece = pieces[i as int];
                            let hash = blake2b_256(piece);
                            if before.knows(hash) {
                                if old(self).knows(hash) {
                                    assert(old(self).data(hash) == piece);
                                } else {
                                    let j = choose|j: int|
                                        0 <= j < i && blake2b_256(#[trigger] pieces[j]) == hash;
                                    assert(pieces[j] == piece);
                                    assert(before.data(blake2b_256(pieces[j])) == pieces[j]);
                                }
                            }
                            before.lemma_sizes_match(piece);
                            if owed {
                                old(self).lemma_takes_after(
                                    &before,
                                    i as nat,
                                    concat(pieces.take(i as int)).len(),
                                    (pieces.len() - i) as nat,
                                    (concat(pieces).len() - concat(pieces.take(i as int)).len()) as nat,
                                );
                                before.lemma_admits(piece);
                                assert(false);
                            }
                        }
                    }
                    return Err(error);
                },
                Ok(chunk) => {
                    listed.push(chunk);
                    proof {
                        let piece = pieces[i as int];
                        let hash = blake2b_256(piece);
                        assert(listed@.take(base) =~= listed_before.take(base));
                        before.lemma_blocks_of_piece(piece);
                        if forall|k: int|
                            0 <= k < i + 1 ==> old(self).knows(blake2b_256(#[trigger] pieces[k])) {
                            assert(old(self).knows(blake2b_256(pieces[i as int])));
                            assert(before.knows(hash));
                        }
                        old(self).lemma_kept_transitive(&before, self);
                        assert forall|h: Seq<u8>| #[trigger] self.knows(h) implies old(self).knows(h)
                            || exists|k: int|
                            0 <= k < i + 1 && blake2b_256(#[trigger] pieces[k]) == h by {
                            if before.knows(h) {
                                if !old(self).knows(h) {
                                    let k = choose|k: int|
                                        0 <= k < i && blake2b_256(#[trigger] pieces[k]) == h;
                                    assert(blake2b_256(pieces[k]) == h);
                                }
                            } else {
                                assert(blake2b_256(pieces[i as int]) == h);
                            }
                        }
                        if old(self).collision_free(pieces) {
                            assert forall|k: int| 0 <= k < i + 1 implies self.knows(
                                blake2b_256(#[trigger] pieces[k]),
                            ) && self.data(blake2b_256(pieces[k])) == pieces[k] by {
                                if k < i {
                                    assert(before.knows(blake2b_256(pieces[k])));
                                } else {
                                    if before.knows(hash) {
                                        if old(self).knows(hash) {
                                            assert(old(self).data(hash) == piece);
                                        } else {
                                            let j = choose|j: int|
                                                0 <= j < i && blake2b_256(#[trigger] pieces[j])
                                                    == hash;
                                            assert(pieces[j] == pieces[i as int]);
                                            assert(before.data(blake2b_256(pieces[j]))
                                                == pieces[j]);
                                        }
                                    }
                                }
                            }
                        }
                    }
                },
            }
            i += 1;
        }
        proof {
            assert(pieces.take(pieces.len() as int) =~= pieces);
            if old(self).knows_all(pieces) {
                assert forall|k: int| 0 <= k < i implies old(self).knows(
                    blake2b_256(#[trigger] pieces[k]),
                ) by {}
            }
        }
        Ok(())
    }

    /// Whether `after` is this repository with the chunks from `start` up
    /// to, not including, `upto` of the object at index `entry` replaced by
    /// `inserted`, and with nothing else changed but the table of chunks.
    pub open spec fn chunks_replaced(
        &self,
        after: &Self,
        entry: int,
        start: int,
        upto: int,
        inserted: Seq<Chunk>,
    ) -> bool {
        let before_chunks = self.header.objects@[entry].handle.chunks@;
        let after_chunks = after.header.objects@[entry].handle.chunks@;
        &&& after.store == self.store
        &&& after.header.metadata == self.header.metadata
        &&& after.committed == self.committed
        &&& after.address == self.address
        &&& after.header_block == self.header_block
        &&& after.transaction == self.transaction
        &&& after.instance == self.instance
        &&& after.next_block == self.next_block
        &&& !after.clean
        &&& crate::header::handle_replaced(self.header.objects@, after.header.objects@, entry)
        &&& after_chunks == before_chunks.take(start) + inserted + before_chunks.skip(upto)
        &&& after.chunks_kept(self)
        &&& self.consistent() ==> after.consistent()
    }

    /// Whether `after` is this repository with nothing changed but the handle
    /// of the object at index `entry`, the table of chunks and blocks that
    /// were free: the other objects and all keys, the metadata, the published
    /// state, the transaction and every block that was in use are as they
    /// were.
    pub open spec fn only_object_changed(&self, after: &Self, entry: int) -> bool {
        &&& crate::header::handle_replaced(self.header.objects@, after.header.objects@, entry)
        &&& after.header.metadata == self.header.metadata
        &&& after.committed == self.committed
        &&& after.address == self.address
        &&& after.header_block == self.header_block
        &&& after.transaction == self.transaction
        &&& after.instance == self.instance
        &&& self.next_block <= after.next_block
        &&& same_below(self.store.blocks(), after.store.blocks(), self.next_block as int)
        &&& after.store.reliable() == self.store.reliable()
        &&& self.anchored() ==> after.anchored()
        &&& self.durable() ==> after.durable()
    }

    /// A repository is itself with nothing changed.
    pub proof fn lemma_object_unchanged(&self, entry: int)
        requires
            0 <= entry < self.header.objects@.len(),
        ensures
            self.only_object_changed(self, entry),
    {
    }

    /// A write to free blocks changes no object.
    pub proof fn lemma_object_kept(&self, after: &Self, entry: int)
        requires
            self.settled(),
            self.only_chunks_changed(after),
            0 <= entry < self.header.objects@.len(),
        ensures
            self.only_object_changed(after, entry),
    {
        self.lemma_settled_kept(after);
    }

    /// A change of one object's chunks changes nothing but that object.
    pub proof fn lemma_object_replaced(
        &self,
        after: &Self,
        entry: int,
        start: int,
        upto: int,
        inserted: Seq<Chunk>,
    )
        requires
            self.settled(),
            self.chunks_replaced(after, entry, start, upto, inserted),
        ensures
            self.only_object_changed(after, entry),
    {
        self.lemma_settled_replaced(after, entry, start, upto, inserted);
    }

    /// Writes to free blocks and then a change of one object's chunks change
    /// nothing but that object.
    pub proof fn lemma_object_written(
        &self,
        fed: &Self,
        after: &Self,
        entry: int,
        start: int,
        upto: int,
        inserted: Seq<Chunk>,
    )
        requires
            self.settled(),
            0 <= entry < self.header.objects@.len(),
            self.only_chunks_changed(fed),
            fed.chunks_replaced(after, entry, start, upto, inserted),
        ensures
            self.only_object_changed(after, entry),
    {
        self.lemma_object_kept(fed, entry);
        self.lemma_settled_kept(fed);
        fed.lemma_object_replaced(after, entry, start, upto, inserted);
        self.lemma_object_changed_twice(fed, after, entry);
    }

    /// Two changes of one object are a change of that object.
    pub proof fn lemma_object_changed_twice(&self, middle: &Self, after: &Self, entry: int)
        requires
            self.only_object_changed(middle, entry),
            middle.only_object_changed(after, entry),
        ensures
            self.only_object_changed(after, entry),
    {
        let a = self.store.blocks();
        let b = middle.store.blocks();
        let c = after.store.blocks();
        assert forall|id: BlockId|
            #![trigger a.dom().contains(id)]
            #![trigger c.dom().contains(id)]
            id <= self.next_block as int implies a.dom().contains(id) == c.dom().contains(id) && (
        a.dom().contains(id) ==> a[id] == c[id]) by {
            assert(a.dom().contains(id) == b.dom().contains(id));
            assert(b.dom().contains(id) == c.dom().contains(id));
        }
        let x = self.header.objects@;
        let y = middle.header.objects@;
        let z = after.header.objects@;
        assert forall|i: int| 0 <= i < x.len() && i != entry implies z[i] == x[i] by {
            assert(y[i] == x[i]);
        }
    }

    /// Put `inserted` into the chunk list of the object at index `entry`, in
    /// place of the chunks from `start` up to, not including, `upto`, and
    /// give up the references that the replaced chunks held.
    #[verifier::rlimit(50)]
    pub fn replace_chunks(
        &mut self,
        entry: usize,
        start: usize,
        upto: usize,
        inserted: &Vec<Chunk>,
        size: u64,
    )
        requires
            old(self).state_wf(inserted@),
            entry < old(self).header.objects@.len(),
            start <= upto <= old(self).header.objects@[entry as int].handle.chunks@.len(),
            forall|i: int| 0 <= i < inserted@.len() ==> (#[trigger] inserted@[i]).size > 0,
            size == crate::handle::total_size(
                old(self).header.objects@[entry as int].handle.chunks@.take(start as int)
                    + inserted@ + old(self).header.objects@[entry as int].handle.chunks@.skip(
                    upto as int,
                ),
            ),
        ensures
            final(self).state_wf(Seq::empty()),
            old(self).chunks_replaced(final(self), entry as int, start as int, upto as int, inserted@),
            final(self).header.objects@[entry as int].handle.size == size,
            start == upto ==> final(self).header.chunks == old(self).header.chunks,
    {
        let ghost before_objects = self.header.objects@;
        let ghost before_chunks = self.header.objects@[entry as int].handle.chunks@;
        let mut spliced: Vec<Chunk> = Vec::new();
        let mut removed: Vec<Chunk> = Vec::new();
        let count = self.header.objects[entry].handle.chunks.len();
        let mut i: usize = 0;
        while i < start
            invariant
                i <= start <= upto <= count,
                entry < self.header.objects@.len(),
                count == before_chunks.len(),
                self.header.objects@[entry as int].handle.chunks@ == before_chunks,
                spliced@ == before_chunks.take(i as int),
            decreases start - i,
        {
            spliced.push(self.header.objects[entry].handle.chunks[i]);
            assert(spliced@ =~= before_chunks.take(i + 1));
            i += 1;
        }
        let mut j: usize = 0;
        while j < inserted.len()
            invariant
                j <= inserted@.len(),
                spliced@ == before_chunks.take(start as int) + inserted@.take(j as int),
            decreases inserted@.len() - j,
        {
            spliced.push(inserted[j]);
            assert(spliced@ =~= before_chunks.take(start as int) + inserted@.take(j + 1));
            j += 1;
        }
        assert(inserted@.take(inserted@.len() as int) =~= inserted@);
        while i < upto
            invariant
                start <= i <= upto <= count,
                entry < self.header.objects@.len(),
                count == before_chunks.len(),
                self.header.objects@[entry as int].handle.chunks@ == before_chunks,
                removed@ == before_chunks.subrange(start as int, i as int),
            decreases upto - i,
        {
            removed.push(self.header.objects[entry].handle.chunks[i]);
            assert(removed@ =~= before_chunks.subrange(start as int, i + 1));
            i += 1;
        }
        while i < count
            invariant
                upto <= i <= count,
                entry < self.header.objects@.len(),
                count == before_chunks.len(),
                self.header.objects@[entry as int].handle.chunks@ == before_chunks,
                spliced@ == before_chunks.take(start as int) + inserted@ + before_chunks.subrange(
                    upto as int,
                    i as int,
                ),
            decreases count - i,
        {
            spliced.push(self.header.objects[entry].handle.chunks[i]);
            assert(spliced@ =~= before_chunks.take(start as int) + inserted@
                + before_chunks.subrange(upto as int, i + 1));
            i += 1;
        }
        assert(before_chunks.subrange(upto as int, count as int) =~= before_chunks.skip(
            upto as int,
        ));
        self.header.objects[entry].handle = crate::handle::ObjectHandle { size, chunks: spliced };
        self.clean = false;
        proof {
            let after_objects = self.header.objects@;
            let after_chunks = after_objects[entry as int].handle.chunks@;
            let table = self.header.chunks@;
            assert(crate::header::handle_replaced(before_objects, after_objects, entry as int));
            assert forall|a: int, b: int| 0
                <= a < b < after_objects.len() implies after_objects[a].key@
                != after_objects[b].key@ by {
                assert(before_objects[a].key@ != before_objects[b].key@);
            }
            assert(sizes_agree(table, before_chunks));
            assert(sizes_agree(table, after_chunks)) by {
                assert forall|c: int, l: int|
                    0 <= c < after_chunks.len() && #[trigger] chunk_at(
                        table,
                        after_chunks[c].hash@,
                        l,
                    ) implies table[l].size == after_chunks[c].size by {
                    if c < start {
                        assert(after_chunks[c] == before_chunks[c]);
                        assert(chunk_at(table, before_chunks[c].hash@, l));
                    } else if c < start + inserted@.len() {
                        assert(after_chunks[c] == inserted@[c - start]);
                        assert(chunk_at(table, inserted@[c - start].hash@, l));
                    } else {
                        let c0 = c - start - inserted@.len() + upto;
                        assert(after_chunks[c] == before_chunks[c0]);
                        assert(chunk_at(table, before_chunks[c0].hash@, l));
                    }
                }
            }
            assert(sizes_agree(table, removed@)) by {
                assert forall|c: int, l: int|
                    0 <= c < removed@.len() && #[trigger] chunk_at(table, removed@[c].hash@, l)
                    implies table[l].size == removed@[c].size by {
                    assert(removed@[c] == before_chunks[start + c]);
                    assert(chunk_at(table, before_chunks[start + c].hash@, l));
                }
            }
            assert forall|k: int| 0 <= k < after_objects.len() implies (
            #[trigger] after_objects[k]).handle.wf() && sizes_agree(
                table,
                after_objects[k].handle.chunks@,
            ) by {
                if k != entry {
                    assert(after_objects[k] == before_objects[k]);
                    assert(before_objects[k].handle.wf());
                    assert(sizes_agree(table, before_objects[k].handle.chunks@));
                } else {
                    assert(before_objects[k].handle.wf());
                    assert forall|c: int| 0 <= c < after_chunks.len() implies (
                    #[trigger] after_chunks[c]).size > 0 by {
                        if c < start {
                            assert(after_chunks[c] == before_chunks[c]);
                        } else if c < start + inserted@.len() {
                            assert(after_chunks[c] == inserted@[c - start]);
                        } else {
                            assert(after_chunks[c] == before_chunks[c - start - inserted@.len()
                                + upto]);
                        }
                    }
                }
            }
            assert forall|hash: Seq<u8>|
                references(after_objects, hash) + occurrences(removed@, hash)
                    <= #[trigger] refcount_of(table, hash) by {
                crate::header::lemma_handle_replaced(
                    before_objects,
                    after_objects,
                    entry as int,
                    hash,
                );
                let front = before_chunks.take(start as int);
                let back = before_chunks.skip(upto as int);
                assert(before_chunks =~= front + removed@ + back);
                crate::handle::lemma_occurrences_concat(front, removed@, hash);
                crate::handle::lemma_occurrences_concat(front + removed@, back, hash);
                crate::handle::lemma_occurrences_concat(front, inserted@, hash);
                crate::handle::lemma_occurrences_concat(front + inserted@, back, hash);
                assert(references(before_objects, hash) + occurrences(inserted@, hash)
                    <= refcount_of(table, hash));
            }
            assert(self.header.wf_with(removed@));
            self.lemma_kept_reflexive();
            assert(removed@.skip(0) =~= removed@);
        }
        let ghost installed = *self;
        let mut r: usize = 0;
        while r < removed.len()
            invariant
                r <= removed@.len(),
                self.state_wf(removed@.skip(r as int)),
                self.store == installed.store,
                self.header.objects == installed.header.objects,
                self.header.metadata == installed.header.metadata,
                self.committed == installed.committed,
                self.address == installed.address,
                self.header_block == installed.header_block,
                self.transaction == installed.transaction,
                self.instance == installed.instance,
                self.next_block == installed.next_block,
                !self.clean,
                self.chunks_kept(&installed),
                installed.consistent() ==> self.consistent(),
                r == 0 ==> self.header.chunks == installed.header.chunks,
            decreases removed@.len() - r,
        {
            let ghost before = *self;
            proof {
                assert(removed@.skip(r as int)[0] == removed@[r as int]);
            }
            self.release_chunk(&removed[r], Ghost(removed@.skip(r as int)), Ghost(0));
            proof {
                assert(removed@.skip(r as int).remove(0) =~= removed@.skip(r + 1));
                assert forall|hash: Seq<u8>|
                    #![trigger installed.knows(hash)]
                    #![trigger installed.data(hash)]
                    self.knows(hash) implies installed.knows(hash) && installed.data(hash)
                        == self.data(hash) by {
                    assert(before.knows(hash));
                    assert(before.data(hash) == self.data(hash));
                }
            }
            r += 1;
        }
        proof {
            assert(removed@.skip(removed@.len() as int) =~= Seq::<Chunk>::empty());
            assert forall|hash: Seq<u8>|
                #![trigger old(self).knows(hash)]
                #![trigger old(self).data(hash)]
                self.knows(hash) implies old(self).knows(hash) && old(self).data(hash) == self.data(
                    hash,
                ) by {
                assert(installed.knows(hash));
                assert(installed.data(hash) == self.data(hash));
            }
        }
    }

    /// The bytes of readable chunks, cut at the start of the chunk with index
    /// `index`.
    pub proof fn lemma_bytes_split(&self, chunks: Seq<Chunk>, index: int)
        requires
            chunks_readable(self.store.blocks(), self.codec(), self.header.chunks@, chunks),
            0 <= index <= chunks.len(),
        ensures
            self.bytes_of(chunks) == self.bytes_of(chunks.take(index)) + self.bytes_of(
                chunks.skip(index),
            ),
            self.bytes_of(chunks.take(index)).len() == crate::handle::chunk_start(chunks, index),
            self.bytes_of(chunks).len() == crate::handle::total_size(chunks),
            self.bytes_of(chunks.take(index)) == self.bytes_of(chunks).take(
                crate::handle::chunk_start(chunks, index) as int,
            ),
            self.bytes_of(chunks.skip(index)) == self.bytes_of(chunks).skip(
                crate::handle::chunk_start(chunks, index) as int,
            ),
    {
        let blocks = self.store.blocks();
        let codec = self.codec();
        let table = self.header.chunks@;
        let front = chunks.take(index);
        let back = chunks.skip(index);
        assert(chunks =~= front + back);
        crate::header::lemma_object_data_concat(blocks, codec, table, front, back);
        assert(chunks_readable(blocks, codec, table, front)) by {
            assert forall|j: int| 0 <= j < front.len() implies {
                &&& has_chunk(table, (#[trigger] front[j]).hash@)
                &&& chunk_data(blocks, codec, table, front[j].hash@).len() == front[j].size
                &&& blake2b_256(chunk_data(blocks, codec, table, front[j].hash@)) == front[j].hash@
            } by {
                assert(front[j] == chunks[j]);
            }
        }
        lemma_object_data_len(blocks, codec, table, front);
        lemma_object_data_len(blocks, codec, table, chunks);
        let whole = self.bytes_of(chunks);
        let head = self.bytes_of(front);
        let tail = self.bytes_of(back);
        assert(whole.take(head.len() as int) =~= head);
        assert(whole.skip(head.len() as int) =~= tail);
    }

    /// Where the store holds each piece under its digest, the chunks that
    /// describe the pieces make up the pieces' bytes.
    pub proof fn lemma_bytes_described(&self, chunks: Seq<Chunk>, pieces: Seq<Seq<u8>>)
        requires
            chunks.len() == pieces.len(),
            forall|i: int| 0 <= i < chunks.len() ==> (#[trigger] chunks[i]).hash@
                == blake2b_256(pieces[i]),
            self.holds(pieces),
        ensures
            self.bytes_of(chunks) == crate::chunking::concat(pieces),
        decreases chunks.len(),
    {
        if chunks.len() > 0 {
            let front = chunks.drop_last();
            let pieces_front = pieces.drop_last();
            assert forall|i: int| 0 <= i < front.len() implies (#[trigger] front[i]).hash@
                == blake2b_256(pieces_front[i]) by {
                assert(front[i] == chunks[i]);
            }
            assert forall|i: int| 0 <= i < pieces_front.len() implies self.knows(
                blake2b_256(#[trigger] pieces_front[i]),
            ) && self.data(blake2b_256(pieces_front[i])) == pieces_front[i] by {
                assert(pieces_front[i] == pieces[i]);
            }
            self.lemma_bytes_described(front, pieces_front);
            let last = chunks.len() - 1;
            assert(chunks.last() == chunks[last]);
            assert(self.data(blake2b_256(pieces[last])) == pieces[last]);
        }
    }

    /// Chunks that are kept make up the same bytes.
    pub proof fn lemma_bytes_kept(&self, after: &Self, chunks: Seq<Chunk>)
        requires
            self.chunks_kept(after),
            after.header.metadata == self.header.metadata,
            forall|j: int| 0 <= j < chunks.len() ==> self.knows((#[trigger] chunks[j]).hash@),
        ensures
            after.bytes_of(chunks) == self.bytes_of(chunks),
    {
        assert forall|j: int| 0 <= j < chunks.len() implies chunk_data(
            after.store.blocks(),
            self.codec(),
            after.header.chunks@,
            (#[trigger] chunks[j]).hash@,
        ) == chunk_data(self.store.blocks(), self.codec(), self.header.chunks@, chunks[j].hash@) by {
            assert(self.knows(chunks[j].hash@));
            assert(after.data(chunks[j].hash@) == self.data(chunks[j].hash@));
        }
        crate::header::lemma_object_data_same(
            after.store.blocks(),
            after.header.chunks@,
            self.store.blocks(),
            self.header.chunks@,
            self.codec(),
            chunks,
        );
    }

    /// The chunks of every object, and those of `extra`, are known.
    pub proof fn lemma_known(&self, extra: Seq<Chunk>, k: int)
        requires
            self.state_wf(extra),
            0 <= k < self.header.objects@.len(),
        ensures
            forall|j: int|
                0 <= j < self.header.objects@[k].handle.chunks@.len() ==> self.knows(
                    (#[trigger] self.header.objects@[k].handle.chunks@[j]).hash@,
                ),
            forall|j: int| 0 <= j < extra.len() ==> self.knows((#[trigger] extra[j]).hash@),
    {
        lemma_referenced_is_known(self.header.objects@, self.header.chunks@, extra);
        assert forall|j: int|
            0 <= j < self.header.objects@[k].handle.chunks@.len() implies self.knows(
            (#[trigger] self.header.objects@[k].handle.chunks@[j]).hash@,
        ) by {
            assert(has_chunk(self.header.chunks@, self.header.objects@[k].handle.chunks@[j].hash@));
        }
    }

    /// A repository keeps its own chunks.
    pub proof fn lemma_kept_reflexive(&self)
        ensures
            self.chunks_kept(self),
            self.next_block <= MAX_BLOCKS ==> self.only_chunks_changed(self),
    {
    }

    /// What is kept over two steps is kept over both together.
    pub proof fn lemma_kept_transitive(&self, middle: &Self, after: &Self)
        requires
            self.only_chunks_changed(middle),
            middle.only_chunks_changed(after),
            self.chunks_kept(middle),
            middle.chunks_kept(after),
        ensures
            self.only_chunks_changed(after),
            self.chunks_kept(after),
    {
        assert forall|hash: Seq<u8>|
            #![trigger after.knows(hash)]
            #![trigger after.data(hash)]
            self.knows(hash) implies after.knows(hash) && after.data(hash) == self.data(hash) by {
            assert(middle.knows(hash));
            assert(middle.data(hash) == self.data(hash));
        }
        let a = self.store.blocks();
        let b = middle.store.blocks();
        let c = after.store.blocks();
        assert forall|id: BlockId|
            #![trigger a.dom().contains(id)]
            #![trigger c.dom().contains(id)]
            id <= self.next_block as int implies a.dom().contains(id) == c.dom().contains(id) && (
        a.dom().contains(id) ==> a[id] == c[id]) by {
            assert(a.dom().contains(id) == b.dom().contains(id));
            assert(b.dom().contains(id) == c.dom().contains(id));
        }
    }

    /// Read the stored form of the chunk with digest `hash` and decode it,
    /// without holding the result to the digest.
    pub fn fetch_chunk(&self, hash: &ChunkHash) -> (result: Result<Vec<u8>, Error>)
        requires
            distinct_hashes(self.header.chunks@),
        ensures
            match result {
                Ok(data) => self.knows(hash@) && payload(
                    self.store.blocks(),
                    self.codec(),
                    chunk_entry(self.header.chunks@, hash@),
                ) == Some(data@),
                Err(error) => self.store.reliable() ==> if self.knows(hash@) {
                    error == Error::Corrupt && payload(
                        self.store.blocks(),
                        self.codec(),
                        chunk_entry(self.header.chunks@, hash@),
                    ) is None
                } else {
                    error == Error::NotFound
                },
            },
    {
        match self.header.find_chunk(hash) {
            None => Err(Error::NotFound),
            Some(i) => {
                proof {
                    lemma_chunk_at(self.header.chunks@, i as int);
                }
                let entry = &self.header.chunks[i];
                let stored = match read_run(&self.store, &entry.blocks) {
                    Ok(stored) => stored,
                    Err(error) => {
                        return Err(error);
                    },
                };
                if stored.len() as u64 != entry.stored_size {
                    return Err(Error::Corrupt);
                }
                match self.header.metadata.config().codec_of().decode(stored, entry.size) {
                    Some(data) => Ok(data),
                    None => Err(Error::Corrupt),
                }
            },
        }
    }

    /// Read the plaintext of `chunk`. What is returned has the size and the
    /// digest that `chunk` names; a chunk whose stored bytes give anything
    /// else is corrupt.
    pub fn read_chunk(&self, chunk: &Chunk) -> (result: Result<Vec<u8>, Error>)
        requires
            distinct_hashes(self.header.chunks@),
        ensures
            match result {
                Ok(data) => {
                    &&& self.knows(chunk.hash@)
                    &&& data@ == self.data(chunk.hash@)
                    &&& data@.len() == chunk.size
                    &&& blake2b_256(data@) == chunk.hash@
                },
                Err(error) => self.store.reliable() ==> if self.knows(chunk.hash@) {
                    error == Error::Corrupt
                } else {
                    error == Error::NotFound
                },
            },
            self.store.reliable() ==> (result is Ok <==> self.knows(chunk.hash@) && match payload(
                self.store.blocks(),
                self.codec(),
                chunk_entry(self.header.chunks@, chunk.hash@),
            ) {
                Some(plain) => plain.len() == chunk.size && blake2b_256(plain) == chunk.hash@,
                None => false,
            }),
    {
        let data = match self.fetch_chunk(&chunk.hash) {
            Ok(data) => data,
            Err(error) => {
                return Err(error);
            },
        };
        if data.len() != chunk.size {
            return Err(Error::Corrupt);
        }
        let actual = chunk_hash(data.as_slice());
        if !hash_eq(&actual, &chunk.hash) {
            return Err(Error::Corrupt);
        }
        Ok(data)
    }

    /// Give up the reference that the chunk at index `at` of `extra` holds.
    /// A chunk without references leaves the table; its blocks stay in the
    /// store until they are collected.
    #[verifier::rlimit(50)]
    pub(crate) fn release_chunk(
        &mut self,
        chunk: &Chunk,
        Ghost(extra): Ghost<Seq<Chunk>>,
        Ghost(at): Ghost<int>,
    )
        requires
            old(self).state_wf(extra),
            0 <= at < extra.len(),
            extra[at].hash@ == chunk.hash@,
        ensures
            final(self).state_wf(extra.remove(at)),
            final(self).store == old(self).store,
            final(self).header.objects == old(self).header.objects,
            final(self).header.metadata == old(self).header.metadata,
            final(self).committed == old(self).committed,
            final(self).address == old(self).address,
            final(self).header_block == old(self).header_block,
            final(self).transaction == old(self).transaction,
            final(self).instance == old(self).instance,
            final(self).next_block == old(self).next_block,
            final(self).clean == false,
            old(self).consistent() ==> final(self).consistent(),
            final(self).chunks_kept(old(self)),
            forall|hash: Seq<u8>|
                hash != chunk.hash@ ==> #[trigger] final(self).knows(hash) == old(self).knows(hash),
    {
        let ghost table = self.header.chunks@;
        let ghost rest = extra.remove(at);
        proof {
            crate::handle::lemma_occurs(extra, at);
            assert(references(self.header.objects@, chunk.hash@) + occurrences(extra, chunk.hash@)
                <= refcount_of(table, chunk.hash@));
            assert(has_chunk(table, chunk.hash@));
        }
        self.clean = false;
        match self.header.find_chunk(&chunk.hash) {
            None => {
                assert(false);
            },
            Some(i) => {
                proof {
                    lemma_chunk_at(table, i as int);
                    assert forall|h: Seq<u8>|
                        occurrences(extra, h) == #[trigger] occurrences(rest, h)
                            + if extra[at].hash@
                            == h {
                            1nat
                        } else {
                            0nat
                        } by {
                        crate::handle::lemma_occurrences_remove(extra, at, h);
                    }
                    assert forall|j: int, k: int|
                        0 <= j < rest.len() && #[trigger] chunk_at(table, rest[j].hash@, k)
                        implies table[k].size == rest[j].size by {
                        let j0 = if j < at { j } else { j + 1 };
                        assert(rest[j] == extra[j0]);
                        assert(chunk_at(table, extra[j0].hash@, k));
                    }
                }
                if self.header.chunks[i].refcount > 1 {
                    let refcount = self.header.chunks[i].refcount - 1;
                    self.header.chunks[i].refcount = refcount;
                    proof {
                        let after = self.header.chunks@;
                        assert(recounted(table, after, i as int, refcount));
                        lemma_recounted(table, after, i as int, refcount);
                        assert forall|j: int| 0 <= j < after.len() implies all_below(
                            (#[trigger] after[j]).blocks@,
                            self.next_block as int,
                        ) by {
                            assert(all_below(table[j].blocks@, self.next_block as int));
                        }
                        assert forall|j: int| 0 <= j < after.len() implies (
                        #[trigger] after[j]).refcount >= 1 by {
                            assert(table[j].refcount >= 1);
                        }
                        if old(self).consistent() {
                            assert forall|j: int| 0 <= j < after.len() implies entry_sound(
                                self.store.blocks(),
                                self.codec(),
                                #[trigger] after[j],
                            ) by {
                                assert(entry_sound(self.store.blocks(), self.codec(), table[j]));
                            }
                        }
                        assert forall|h: Seq<u8>|
                            #![trigger old(self).knows(h)]
                            #![trigger old(self).data(h)]
                            self.knows(h) implies old(self).knows(h) && old(self).data(h)
                                == self.data(h) by {
                            assert(has_chunk(table, h));
                            let j = chunk_index(table, h);
                            assert(chunk_index(after, h) == j);
                            assert(chunk_at(table, h, j));
                        }
                        assert forall|k: int|
                            0 <= k < self.header.objects@.len() implies sizes_agree(
                            after,
                            (#[trigger] self.header.objects@[k]).handle.chunks@,
                        ) by {
                            let chunks = self.header.objects@[k].handle.chunks@;
                            assert(sizes_agree(table, chunks));
                            assert forall|j: int, l: int|
                                0 <= j < chunks.len() && #[trigger] chunk_at(
                                    after,
                                    chunks[j].hash@,
                                    l,
                                ) implies after[l].size == chunks[j].size by {
                                assert(chunk_at(table, chunks[j].hash@, l));
                            }
                        }
                        assert forall|j: int, l: int|
                            0 <= j < rest.len() && #[trigger] chunk_at(after, rest[j].hash@, l)
                            implies after[l].size == rest[j].size by {
                            assert(chunk_at(table, rest[j].hash@, l));
                        }
                        assert forall|h: Seq<u8>|
                            references(self.header.objects@, h) + occurrences(rest, h)
                                <= #[trigger] refcount_of(after, h) by {
                            assert(references(self.header.objects@, h) + occurrences(extra, h)
                                <= refcount_of(table, h));
                        }
                    }
                } else {
                    self.header.chunks.remove(i);
                    proof {
                        let after = self.header.chunks@;
                        assert(after =~= table.remove(i as int));
                        lemma_chunk_removed(table, i as int);
                        assert(table[i as int].refcount == 1);
                        assert forall|j: int| 0 <= j < after.len() implies all_below(
                            (#[trigger] after[j]).blocks@,
                            self.next_block as int,
                        ) && after[j].refcount >= 1 by {
                            let j0 = if j < i { j } else { j + 1 };
                            assert(after[j] == table[j0]);
                            assert(all_below(table[j0].blocks@, self.next_block as int));
                            assert(table[j0].refcount >= 1);
                        }
                        if old(self).consistent() {
                            assert forall|j: int| 0 <= j < after.len() implies entry_sound(
                                self.store.blocks(),
                                self.codec(),
                                #[trigger] after[j],
                            ) by {
                                let j0 = if j < i { j } else { j + 1 };
                                assert(after[j] == table[j0]);
                                assert(entry_sound(self.store.blocks(), self.codec(), table[j0]));
                            }
                        }
                        assert forall|h: Seq<u8>|
                            #![trigger old(self).knows(h)]
                            #![trigger old(self).data(h)]
                            self.knows(h) implies old(self).knows(h) && old(self).data(h)
                                == self.data(h) by {
                            assert(has_chunk(table, h) && h != table[i as int].hash@);
                            assert(chunk_entry(after, h) == chunk_entry(table, h));
                        }
                        assert forall|k: int|
                            0 <= k < self.header.objects@.len() implies sizes_agree(
                            after,
                            (#[trigger] self.header.objects@[k]).handle.chunks@,
                        ) by {
                            let chunks = self.header.objects@[k].handle.chunks@;
                            assert(sizes_agree(table, chunks));
                            assert forall|j: int, l: int|
                                0 <= j < chunks.len() && #[trigger] chunk_at(
                                    after,
                                    chunks[j].hash@,
                                    l,
                                ) implies after[l].size == chunks[j].size by {
                                let l0 = if l < i { l } else { l + 1 };
                                assert(chunk_at(table, chunks[j].hash@, l0));
                            }
                        }
                        assert forall|j: int, l: int|
                            0 <= j < rest.len() && #[trigger] chunk_at(after, rest[j].hash@, l)
                            implies after[l].size == rest[j].size by {
                            let l0 = if l < i { l } else { l + 1 };
                            assert(chunk_at(table, rest[j].hash@, l0));
                        }
                        assert forall|h: Seq<u8>|
                            references(self.header.objects@, h) + occurrences(rest, h)
                                <= #[trigger] refcount_of(after, h) by {
                            assert(references(self.header.objects@, h) + occurrences(extra, h)
                                <= refcount_of(table, h));
                        }
                    }
                }
            },
        }
    }

    /// In a consistent repository every chunk of every object, and every
    /// chunk of `extra`, can be read.
    pub proof fn lemma_readable(&self, extra: Seq<Chunk>, k: int)
        requires
            self.state_wf(extra),
            self.consistent(),
            0 <= k < self.header.objects@.len(),
        ensures
            chunks_readable(
                self.store.blocks(),
                self.codec(),
                self.header.chunks@,
                self.header.objects@[k].handle.chunks@,
            ),
            chunks_readable(self.store.blocks(), self.codec(), self.header.chunks@, extra),
            self.bytes_of(self.header.objects@[k].handle.chunks@).len()
                == self.header.objects@[k].handle.size,
            self.bytes_of(extra).len() == crate::handle::total_size(extra),
    {
        let chunks = self.header.objects@[k].handle.chunks@;
        lemma_referenced_is_known(self.header.objects@, self.header.chunks@, extra);
        assert forall|j: int| 0 <= j < chunks.len() implies has_chunk(
            self.header.chunks@,
            (#[trigger] chunks[j]).hash@,
        ) by {
            assert(has_chunk(self.header.chunks@, self.header.objects@[k].handle.chunks@[j].hash@));
        }
        lemma_referenced_is_readable(self.store.blocks(), self.codec(), self.header.chunks@, chunks);
        lemma_referenced_is_readable(self.store.blocks(), self.codec(), self.header.chunks@, extra);
        lemma_object_data_len(self.store.blocks(), self.codec(), self.header.chunks@, chunks);
        lemma_object_data_len(self.store.blocks(), self.codec(), self.header.chunks@, extra);
    }

    /// Where a reference count changed, sizes agree as before.
    proof fn lemma_sizes_kept(
        before: Seq<ChunkRef>,
        after: Seq<ChunkRef>,
        chunks: Seq<Chunk>,
        i: int,
        chunk: Chunk,
    )
        requires
            0 <= i < before.len(),
            after.len() == before.len(),
            forall|j: int| 0 <= j < before.len() ==> after[j].hash == before[j].hash
                && after[j].size
                == before[j].size,
            chunks.len() > 0,
            chunks.last() == chunk,
            sizes_agree(before, chunks.drop_last()),
            before[i].hash@ == chunk.hash@,
            before[i].size == chunk.size,
            distinct_hashes(before),
        ensures
            sizes_agree(after, chunks),
    {
        assert forall|j: int, k: int|
            0 <= j < chunks.len()
                && #[trigger] chunk_at(after, chunks[j].hash@, k) implies after[k].size
            == chunks[j].size by {
            assert(chunk_at(before, chunks[j].hash@, k));
            if j < chunks.len() - 1 {
                assert(chunks.drop_last()[j] == chunks[j]);
            } else {
                lemma_chunk_at(before, i);
                lemma_chunk_at(before, k);
            }
        }
    }
}

/// The number of blocks that `size` bytes fill.
pub fn blocks_for_size(size: u64) -> (count: u64)
    ensures
        count == blocks_needed(size as nat),
{
    let whole = size / 4096;
    if size % 4096 == 0 {
        whole
    } else {
        whole + 1
    }
}

/// The number of blocks that `length` bytes fill.
pub fn blocks_for(length: usize) -> (count: u64)
    ensures
        count == blocks_needed(length as nat),
{
    let whole = (length / 4096) as u64;
    if length % 4096 == 0 {
        whole
    } else {
        whole + 1
    }
}

impl<S: DataStore> ObjectRepository<S> {
    /// Whether every block of every chunk in the table lies below `bound`.
    fn table_lies_below(header: &Header, bound: u64) -> (below: bool)
        ensures
            below == table_below(header.chunks@, bound as int),
    {
        let mut i: usize = 0;
        while i < header.chunks.len()
            invariant
                i <= header.chunks@.len(),
                forall|k: int|
                    0 <= k < i ==> all_below((#[trigger] header.chunks@[k]).blocks@, bound as int),
            decreases header.chunks@.len() - i,
        {
            let blocks = &header.chunks[i].blocks;
            let mut j: usize = 0;
            while j < blocks.len()
                invariant
                    i < header.chunks@.len(),
                    blocks == header.chunks@[i as int].blocks,
                    j <= blocks@.len(),
                    forall|l: int| 0 <= l < j ==> (#[trigger] blocks@[l]).0 < bound,
                decreases blocks@.len() - j,
            {
                if blocks[j].0 >= bound {
                    assert(!all_below(header.chunks@[i as int].blocks@, bound as int));
                    return false;
                }
                j += 1;
            }
            i += 1;
        }
        true
    }

    /// Create a repository in `store`: an empty header is published in the
    /// first blocks of the store. The repository goes by the number
    /// `instance`, which tells its savepoints from those of others.
    #[verifier::rlimit(50)]
    pub fn create(
        store: S,
        config: crate::metadata::RepositoryConfig,
        id: u128,
        creation_time: crate::metadata::Timestamp,
        instance: u128,
    ) -> (result: Result<Self, Error>)
        ensures
            match result {
                Ok(repository) => {
                    &&& repository.wf()
                    &&& repository.instance == instance
                    &&& repository.durable()
                    &&& repository.consistent()
                    &&& repository.clean
                    &&& repository.transaction == 0
                    &&& repository.header.objects@.len() == 0
                    &&& repository.header.chunks@.len() == 0
                    &&& repository.header.metadata@.id == id
                    &&& repository.header.metadata@.config == config
                    &&& repository.header.metadata@.creation_time == creation_time
                    &&& repository.store.reliable() == store.reliable()
                },
                Err(error) => !config.valid() ==> error == Error::InvalidInput,
            },
            !config.valid() ==> result is Err,
            config.valid() && store.reliable() ==> result is Ok,
    {
        if config.chunker_bits < 1 || config.chunker_bits > 32 {
            return Err(Error::InvalidInput);
        }
        let mut store = store;
        let header = Header::new(crate::metadata::RepositoryMetadata::new(id, config, creation_time));
        proof {
            crate::encoding::lemma_empty_header_len(&header);
        }
        let address = match header.write(&mut store, BlockAddress(0)) {
            Ok(address) => address,
            Err(error) => {
                return Err(error);
            },
        };
        let committed = header.duplicate();
        let next_block = blocks_for_size(address.size());
        proof {
            header.lemma_same_view(&committed, Seq::empty());
            crate::encoding::lemma_view_determines_wire(&header, &committed);
            assert(committed@.chunks.len() == committed.chunks@.len());
            assert(header@.chunks.len() == header.chunks@.len());
            assert(committed.chunks@.len() == 0);
        }
        Ok(
            ObjectRepository {
                store,
                header,
                committed,
                address,
                header_block: 0,
                next_block,
                transaction: 0,
                clean: true,
                instance,
            },
        )
    }

    /// Open the repository that `store` publishes, under the number
    /// `instance`, which tells the savepoints of this repository from those
    /// of another that is opened from the same store.
    ///
    /// A store that publishes the header of a well-formed repository is
    /// opened with that header, whatever else the store holds. A store that
    /// publishes no header is refused as reading the header refuses it, and
    /// one that publishes a header that cannot be that of a repository is
    /// corrupt.
    #[verifier::rlimit(50)]
    pub fn open(store: S, instance: u128) -> (result: Result<Self, Error>)
        ensures
            match result {
                Ok(repository) => {
                    &&& repository.wf()
                    &&& repository.instance == instance
                    &&& repository.anchored()
                    &&& repository.clean
                    &&& repository.transaction == 0
                    &&& repository.store == store
                    &&& repository.header@ == repository.committed@
                },
                Err(error) => store.reliable() ==> {
                    &&& error == Error::NotFound <==> !store.blocks().contains_key(0)
                    &&& error == if exists|header: Header|
                        crate::publish::published(store.blocks()) == Some(
                            crate::encoding::wire_of(&header),
                        ) {
                        Error::Corrupt
                    } else {
                        crate::publish::refusal(store.blocks())
                    }
                },
            },
            forall|published: Self|
                #![trigger published.anchored()]
                store.reliable() && published.wf() && published.anchored()
                    && published.store.blocks() == store.blocks() ==> result is Ok
                    && result->Ok_0.header@ == published.committed@,
            store.reliable() ==> (result is Ok <==> exists|published: Self|
                #![trigger published.anchored()]
                published.wf() && published.anchored() && published.store.blocks()
                    == store.blocks()),
    {
        let read = Header::read(&store);
        proof {
            assert forall|published: Self|
                #![trigger published.anchored()]
                store.reliable() && published.wf() && published.anchored()
                    && published.store.blocks() == store.blocks() implies Self::opens_as(
                &published,
                read,
            ) by {
                Self::lemma_read_of_published(&published, read);
            }
        }
        let (header, address) = match read {
            Ok(read) => read,
            Err(error) => {
                return Err(error);
            },
        };
        let first = match Self::fit(&header, &address) {
            Some(first) => first,
            None => {
                return Err(Error::Corrupt);
            },
        };
        let committed = header.duplicate();
        let next_block = first + blocks_for_size(address.size());
        let repository = ObjectRepository {
            store,
            header,
            committed,
            address,
            header_block: first,
            next_block,
            transaction: 0,
            clean: true,
            instance,
        };
        proof {
            repository.lemma_opened();
        }
        Ok(repository)
    }

    /// Whether a header that was read can be opened: it is well-formed, it
    /// starts with a block, and the chunks that it lists lie before it. The
    /// result is the index of the block that the header starts with.
    fn fit(header: &Header, address: &HeaderAddress) -> (first: Option<u64>)
        ensures
            match first {
                Some(first) => {
                    &&& header.wf()
                    &&& first < MAX_BLOCKS
                    &&& address.offset() == 8 + first * 4096
                    &&& table_below(header.chunks@, first as int)
                },
                None => forall|first: u64|
                    !(header.wf() && first < MAX_BLOCKS && address.offset() == 8 + first * 4096
                        && #[trigger] table_below(header.chunks@, first as int)),
            },
    {
        if !header.validate() {
            return None;
        }
        let first = match BlockAddress::from_offset(address.header_offset()) {
            Some(first) => first,
            None => {
                proof {
                    assert forall|first: u64|
                        !(header.wf() && first < MAX_BLOCKS && address.offset() == 8 + first * 4096
                            && #[trigger] table_below(header.chunks@, first as int)) by {
                        if first < MAX_BLOCKS {
                            assert(BlockAddress(first).offset() == 8 + first * 4096);
                        }
                    }
                }
                return None;
            },
        };
        if !Self::table_lies_below(header, first.0) {
            return None;
        }
        Some(first.0)
    }

    /// A repository that was put together from what a store publishes is
    /// well-formed and has the published header where the store has it.
    #[verifier::rlimit(50)]
    proof fn lemma_opened(&self)
        requires
            self.header.wf(),
            self.committed@ == self.header@,
            table_below(self.header.chunks@, self.header_block as int),
            self.header_block < MAX_BLOCKS,
            crate::publish::published(self.store.blocks()) == Some(
                crate::encoding::wire_of(&self.header),
            ),
            crate::publish::superblock_target(self.store.blocks())
                == Some(self.header_block as nat),
            crate::publish::frame_length(self.store.blocks(), self.header_block as nat) is Some,
            crate::publish::addresses(
                self.address,
                self.header_block as nat,
                crate::publish::frame_length(self.store.blocks(), self.header_block as nat)->0,
            ),
            self.next_block == self.header_block + blocks_needed(self.address.header_size()),
            self.clean,
        ensures
            self.wf(),
            self.anchored(),
    {
        self.header.lemma_same_view(&self.committed, Seq::empty());
        crate::encoding::lemma_view_determines_wire(&self.header, &self.committed);
        crate::header::lemma_same_table(self.header.chunks@, self.committed.chunks@);
        let table = self.header.chunks@;
        assert forall|i: int| 0 <= i < table.len() implies all_below(
            (#[trigger] table[i]).blocks@,
            self.next_block as int,
        ) by {
            assert(all_below(table[i].blocks@, self.header_block as int));
        }
    }

    /// Whether `read` is the published header of `published`, read back in
    /// full and fit to be opened.
    pub open spec fn opens_as(published: &Self, read: Result<(Header, HeaderAddress), Error>) -> bool {
        &&& read is Ok
        &&& read->Ok_0.0@ == published.committed@
        &&& read->Ok_0.0.wf()
        &&& read->Ok_0.1.offset() == 8 + published.header_block * 4096
        &&& published.header_block < MAX_BLOCKS
        &&& table_below(read->Ok_0.0.chunks@, published.header_block as int)
    }

    /// What a reliable store gives when the published header of a
    /// well-formed repository is read from it.
    #[verifier::rlimit(50)]
    proof fn lemma_read_of_published(published: &Self, read: Result<(Header, HeaderAddress), Error>)
        requires
            published.wf(),
            published.anchored(),
            crate::publish::read_as(published.store.blocks(), true, read),
        ensures
            Self::opens_as(published, read),
    {
        match read {
            Ok((header, address)) => {
                crate::encoding::lemma_wire_determines_view(&header, &published.committed);
                published.committed.lemma_same_view(&header, Seq::empty());
                crate::header::lemma_same_table(published.committed.chunks@, header.chunks@);
            },
            Err(_) => {
                assert(crate::publish::published(published.store.blocks()) == Some(
                    crate::encoding::wire_of(&published.committed),
                ));
            },
        }
    }

    /// Publish the header of the current transaction.
    ///
    /// The header is written to fresh blocks, and then the superblock is made
    /// to point to it. Where this fails, the store publishes what it
    /// published before, and the transaction goes on.
    #[verifier::rlimit(50)]
    pub fn commit(&mut self) -> (result: Result<(), Error>)
        requires
            old(self).wf(),
        ensures
            final(self).wf(),
            final(self).header == old(self).header,
            final(self).instance == old(self).instance,
            final(self).store.reliable() == old(self).store.reliable(),
            old(self).consistent() ==> final(self).consistent(),
            match result {
                Ok(()) => {
                    &&& final(self).anchored()
                    &&& final(self).clean
                    &&& final(self).transaction == old(self).transaction + 1
                    &&& final(self).committed@ == old(self).header@
                    &&& old(self).consistent() ==> final(self).durable()
                },
                Err(error) => {
                    &&& old(self).store.reliable() ==> error == if old(self).transaction
                        == u64::MAX {
                        Error::InvalidInput
                    } else {
                        Error::Serialize
                    }
                    &&& final(self).transaction == old(self).transaction
                    &&& final(self).committed == old(self).committed
                    &&& final(self).clean == old(self).clean
                    &&& old(self).anchored() ==> final(self).anchored()
                    &&& old(self).durable() ==> final(self).durable()
                    &&& old(self).anchored() ==> crate::publish::published(
                        final(self).store.blocks(),
                    ) == crate::publish::published(old(self).store.blocks())
                },
            },
            crate::publish::same_below_but_superblock(
                old(self).store.blocks(),
                final(self).store.blocks(),
                old(self).next_block as int,
            ),
            old(self).chunks_kept(final(self)),
            forall|key: Seq<u8>| #[trigger] final(self).contents_of(key) == old(self).contents_of(key),
            old(self).transaction == u64::MAX ==> result is Err,
            old(self).store.reliable() ==> (result is Ok <==> {
                let length = crate::encoding::encoding_of(&old(self).header).len();
                &&& old(self).transaction < u64::MAX
                &&& 8 + length <= usize::MAX
                &&& old(self).next_block + blocks_needed(8 + length) <= MAX_BLOCKS
            }),
    {
        proof {
            old(self).lemma_data_kept(old(self));
        }
        if self.transaction == u64::MAX {
            return Err(Error::InvalidInput);
        }
        let first = BlockAddress(self.next_block);
        let ghost before = *self;
        let written = self.header.write(&mut self.store, first);
        match written {
            Err(error) => {
                proof {
                    before.lemma_written_ahead(self);
                    before.lemma_data_kept(self);
                }
                Err(error)
            },
            Ok(address) => {
                let committed = self.header.duplicate();
                let count = blocks_for_size(address.size());
                let ghost written = *self;
                proof {
                    self.header.lemma_same_view(&committed, Seq::empty());
                    before.lemma_published_anew(&written, &committed, address);
                }
                self.committed = committed;
                self.address = address;
                self.header_block = first.0;
                self.next_block = first.0 + count;
                self.transaction = self.transaction + 1;
                self.clean = true;
                proof {
                    before.lemma_committed(self);
                    before.lemma_data_kept(self);
                }
                Ok(())
            },
        }
    }

    /// Where the header is the same and every block that was in use, but
    /// for the superblock, is as it was, every chunk and every object holds
    /// the bytes that it held.
    pub proof fn lemma_data_kept(&self, after: &Self)
        requires
            table_below(self.header.chunks@, self.next_block as int),
            after.header == self.header,
            crate::publish::same_below_but_superblock(
                self.store.blocks(),
                after.store.blocks(),
                self.next_block as int,
            ),
        ensures
            self.chunks_kept(after),
            forall|hash: Seq<u8>| #[trigger] after.data(hash) == self.data(hash),
            forall|key: Seq<u8>| #[trigger] after.contents_of(key) == self.contents_of(key),
    {
        let table = self.header.chunks@;
        assert forall|hash: Seq<u8>| #[trigger] after.data(hash) == self.data(hash) by {
            if has_chunk(table, hash) {
                let j = chunk_index(table, hash);
                assert(chunk_at(table, hash, j));
                assert(all_below(table[j].blocks@, self.next_block as int));
                crate::publish::lemma_stored_bytes_kept(
                    self.store.blocks(),
                    after.store.blocks(),
                    table[j].blocks@,
                    self.next_block as int,
                );
            }
        }
        assert forall|key: Seq<u8>| #[trigger] after.contents_of(key) == self.contents_of(key) by {
            let chunks = self.header.objects@[crate::header::object_index(
                self.header.objects@,
                key,
            )].handle.chunks@;
            assert forall|j: int| 0 <= j < chunks.len() implies chunk_data(
                self.store.blocks(),
                self.codec(),
                table,
                (#[trigger] chunks[j]).hash@,
            ) == chunk_data(after.store.blocks(), self.codec(), table, chunks[j].hash@) by {
                assert(after.data(chunks[j].hash@) == self.data(chunks[j].hash@));
            }
            crate::header::lemma_object_data_same(
                self.store.blocks(),
                table,
                after.store.blocks(),
                table,
                self.codec(),
                chunks,
            );
        }
    }

    /// What a commit leaves: a well-formed, clean repository whose header is
    /// the published one.
    #[verifier::rlimit(50)]
    proof fn lemma_committed(&self, after: &Self)
        requires
            self.wf(),
            after.header == self.header,
            after.committed@ == self.header@,
            after.committed.wf(),
            after.committed.metadata@ == self.header.metadata@,
            table_below(after.committed.chunks@, self.next_block as int),
            after.header_block == self.next_block,
            after.address.header_size() >= 8,
            crate::publish::addresses(
                after.address,
                self.next_block as nat,
                (after.address.header_size() - 8) as nat,
            ),
            after.next_block == self.next_block + blocks_needed(after.address.header_size()),
            after.clean,
            crate::publish::published(after.store.blocks()) == Some(
                crate::encoding::wire_of(&after.committed),
            ),
            crate::publish::superblock_target(after.store.blocks()) == Some(self.next_block as nat),
            crate::publish::frame_length(after.store.blocks(), self.next_block as nat) == Some(
                (after.address.header_size() - 8) as nat,
            ),
            self.consistent() ==> table_sound(
                after.store.blocks(),
                self.codec(),
                self.header.chunks@,
            ) && table_sound(after.store.blocks(), after.committed.codec(), after.committed.chunks@),
        ensures
            after.wf(),
            after.anchored(),
            self.consistent() ==> after.consistent() && after.durable(),
    {
        let table = after.header.chunks@;
        assert forall|i: int| 0 <= i < table.len() implies all_below(
            (#[trigger] table[i]).blocks@,
            after.next_block as int,
        ) by {
            assert(all_below(table[i].blocks@, self.next_block as int));
        }
    }

    /// A failed attempt to publish has changed free blocks at most.
    #[verifier::rlimit(50)]
    proof fn lemma_written_ahead(&self, after: &Self)
        requires
            self.wf(),
            after.header == self.header,
            after.committed == self.committed,
            after.address == self.address,
            after.header_block == self.header_block,
            after.next_block == self.next_block,
            after.transaction == self.transaction,
            after.instance == self.instance,
            after.clean == self.clean,
            after.store.reliable() == self.store.reliable(),
            same_below(self.store.blocks(), after.store.blocks(), self.next_block as int),
        ensures
            after.wf(),
            self.consistent() ==> after.consistent(),
            self.anchored() ==> after.anchored(),
            self.durable() ==> after.durable(),
            self.anchored() ==> crate::publish::published(after.store.blocks())
                == crate::publish::published(self.store.blocks()),
    {
        self.lemma_kept_reflexive();
        assert(self.only_chunks_changed(after));
        self.lemma_settled_kept(after);
        after.lemma_blocks_changed(self, self.next_block as int);
    }

    /// A header that was published anew is the published header, and the
    /// chunks that it lists are where they were.
    #[verifier::rlimit(50)]
    proof fn lemma_published_anew(&self, after: &Self, committed: &Header, address: HeaderAddress)
        requires
            self.wf(),
            after.header == self.header,
            committed@ == self.header@,
            committed.wf(),
            crate::publish::published(after.store.blocks()) == Some(
                crate::encoding::wire_of(&self.header),
            ),
            crate::publish::superblock_target(after.store.blocks()) == Some(self.next_block as nat),
            crate::publish::frame_length(after.store.blocks(), self.next_block as nat) == Some(
                crate::encoding::encoding_of(&self.header).len(),
            ),
            crate::publish::addresses(
                address,
                self.next_block as nat,
                crate::encoding::encoding_of(&self.header).len(),
            ),
            forall|id: BlockId|
                #![trigger self.store.blocks().dom().contains(id)]
                #![trigger after.store.blocks().dom().contains(id)]
                1 <= id <= self.next_block ==> self.store.blocks().dom().contains(id)
                    == after.store.blocks().dom().contains(id) && (
                self.store.blocks().dom().contains(id) ==> self.store.blocks()[id]
                    == after.store.blocks()[id]),
        ensures
            crate::encoding::wire_of(committed) == crate::encoding::wire_of(&self.header),
            table_below(committed.chunks@, self.next_block as int),
            committed.metadata@ == self.header.metadata@,
            address.header_size() >= 8,
            crate::publish::addresses(
                address,
                self.next_block as nat,
                (address.header_size() - 8) as nat,
            ),
            crate::publish::frame_length(after.store.blocks(), self.next_block as nat) == Some(
                (address.header_size() - 8) as nat,
            ),
            crate::publish::published(after.store.blocks()) == Some(
                crate::encoding::wire_of(committed),
            ),
            self.consistent() ==> table_sound(
                after.store.blocks(),
                self.codec(),
                self.header.chunks@,
            ) && table_sound(after.store.blocks(), committed.codec(), committed.chunks@),
    {
        self.header.lemma_same_view(committed, Seq::empty());
        crate::header::lemma_same_table(self.header.chunks@, committed.chunks@);
        crate::encoding::lemma_view_determines_wire(&self.header, committed);
        if self.consistent() {
            let table = self.header.chunks@;
            assert forall|j: int| 0 <= j < table.len() implies entry_sound(
                after.store.blocks(),
                self.codec(),
                #[trigger] table[j],
            ) by {
                assert(all_below(table[j].blocks@, self.next_block as int));
                crate::publish::lemma_stored_bytes_kept(
                    self.store.blocks(),
                    after.store.blocks(),
                    table[j].blocks@,
                    self.next_block as int,
                );
                assert(entry_sound(self.store.blocks(), self.codec(), table[j]));
            }
        }
    }
}

/// A target for rolling back changes in a repository.
///
/// A savepoint holds the header as it was when the savepoint was taken.
/// Restoring to it undoes the changes made since, and restoring to a later
/// savepoint after that does them again. A savepoint belongs to the
/// repository and the transaction in which it was taken: once the
/// repository has committed or rolled back, the savepoint is no longer
/// valid, and it is valid in no repository that was created or opened with
/// another number than the one in which it was taken.
#[derive(Debug)]
pub struct Savepoint {
    /// The header associated with this savepoint.
    pub header: Header,
    /// The number of the transaction this savepoint is associated with.
    pub transaction: u64,
    /// The index of the first block that was free when the savepoint was
    /// taken.
    pub bound: u64,
    /// The number that the repository drew when it was created or opened.
    pub instance: u128,
}

impl Savepoint {
    /// The invariant of a savepoint: its header is well-formed, and the
    /// chunks that it lists lie in blocks that were in use when it was taken.
    pub open spec fn wf(&self) -> bool {
        &&& self.header.wf()
        &&& table_below(self.header.chunks@, self.bound as int)
    }

    /// Whether this savepoint is valid in `repository`: it was taken in the
    /// repository's current transaction.
    pub open spec fn valid_in<S: DataStore>(&self, repository: &ObjectRepository<S>) -> bool {
        &&& self.instance == repository.instance
        &&& self.transaction == repository.transaction
        &&& self.bound <= repository.next_block
        &&& self.header.metadata@ == repository.header.metadata@
    }

    /// Whether the store of `repository` holds every chunk that the header
    /// of this savepoint lists.
    pub open spec fn held_by<S: DataStore>(&self, repository: &ObjectRepository<S>) -> bool {
        table_sound(repository.store.blocks(), self.header.codec(), self.header.chunks@)
    }

    /// A savepoint outlives a change of one object: writes go to blocks
    /// that were free when the savepoint was taken, so the store holds the
    /// savepoint's chunks as before, and the savepoint is as valid as it was.
    pub proof fn lemma_outlives<S: DataStore>(
        &self,
        before: &ObjectRepository<S>,
        after: &ObjectRepository<S>,
        entry: int,
    )
        requires
            self.wf(),
            self.bound <= before.next_block,
            before.only_object_changed(after, entry),
        ensures
            self.held_by(before) ==> self.held_by(after),
            self.valid_in(before) ==> self.valid_in(after),
    {
        if self.held_by(before) {
            let table = self.header.chunks@;
            assert forall|j: int| 0 <= j < table.len() implies entry_sound(
                after.store.blocks(),
                self.header.codec(),
                #[trigger] table[j],
            ) by {
                assert(all_below(table[j].blocks@, self.bound as int));
                assert(all_below(table[j].blocks@, before.next_block as int));
                lemma_payload_unchanged(
                    before.store.blocks(),
                    after.store.blocks(),
                    self.header.codec(),
                    table[j],
                    before.next_block as int,
                );
                assert(entry_sound(before.store.blocks(), self.header.codec(), table[j]));
            }
        }
    }

    /// Return whether this savepoint is valid in `repository`.
    pub fn is_valid<S: DataStore>(&self, repository: &ObjectRepository<S>) -> (valid: bool)
        ensures
            valid == self.valid_in(repository),
    {
        self.instance == repository.instance && self.transaction == repository.transaction
            && self.bound <= repository.next_block && self.header.metadata.same(
            &repository.header.metadata,
        )
    }
}

impl<S: DataStore> ObjectRepository<S> {
    /// Whether `after` is this repository with another header and nothing
    /// else changed but the flag that tells a clean repository.
    pub open spec fn only_header_changed(&self, after: &Self) -> bool {
        &&& after.store == self.store
        &&& after.instance == self.instance
        &&& after.committed == self.committed
        &&& after.address == self.address
        &&& after.header_block == self.header_block
    }

    /// Give up the changes of the current transaction: the header is the
    /// published one again, and the blocks that the transaction used are free.
    #[verifier::rlimit(50)]
    pub fn rollback(&mut self) -> (result: Result<(), Error>)
        requires
            old(self).wf(),
        ensures
            final(self).wf(),
            old(self).only_header_changed(final(self)),
            old(self).anchored() ==> final(self).anchored(),
            old(self).durable() ==> final(self).durable(),
            match result {
                Ok(()) => {
                    &&& final(self).header@ == old(self).committed@
                    &&& old(self).durable() ==> final(self).consistent()
                    &&& final(self).clean
                    &&& final(self).transaction == old(self).transaction + 1
                    &&& final(self).next_block == old(self).floor()
                },
                Err(error) => *final(self) == *old(self) && error == Error::InvalidInput,
            },
            result is Ok <==> old(self).transaction < u64::MAX,
    {
        if self.transaction == u64::MAX {
            return Err(Error::InvalidInput);
        }
        let header = self.committed.duplicate();
        self.header = header;
        self.next_block = self.header_block + blocks_for_size(self.address.size());
        self.transaction = self.transaction + 1;
        self.clean = true;
        proof {
            old(self).lemma_rolled_back(self);
        }
        Ok(())
    }

    /// What a rollback leaves: a well-formed repository with the published
    /// header.
    #[verifier::rlimit(50)]
    proof fn lemma_rolled_back(&self, after: &Self)
        requires
            self.wf(),
            after.header@ == self.committed@,
            after.store == self.store,
            after.committed == self.committed,
            after.address == self.address,
            after.header_block == self.header_block,
            after.next_block == self.floor(),
            after.clean,
        ensures
            after.wf(),
            self.anchored() ==> after.anchored(),
            self.durable() ==> after.durable() && after.consistent(),
    {
        self.committed.lemma_same_view(&after.header, Seq::empty());
        crate::header::lemma_same_table(self.committed.chunks@, after.header.chunks@);
        let table = after.header.chunks@;
        assert(table_below(table, self.header_first()));
        assert forall|i: int| 0 <= i < table.len() implies all_below(
            (#[trigger] table[i]).blocks@,
            after.next_block as int,
        ) by {
            assert(all_below(table[i].blocks@, self.header_first()));
        }
    }

    /// A clean repository whose published state the store holds in full is
    /// consistent.
    pub proof fn lemma_durable_is_consistent(&self)
        requires
            self.wf(),
            self.durable(),
            self.header@ == self.committed@,
        ensures
            self.consistent(),
    {
        self.committed.lemma_same_view(&self.header, Seq::empty());
        crate::header::lemma_same_table(self.committed.chunks@, self.header.chunks@);
    }

    /// Take a savepoint: a copy of the header as it is now.
    pub fn savepoint(&self) -> (savepoint: Savepoint)
        requires
            self.wf(),
        ensures
            savepoint.wf(),
            savepoint.valid_in(self),
            savepoint.header@ == self.header@,
            savepoint.transaction == self.transaction,
            savepoint.bound == self.next_block,
            savepoint.instance == self.instance,
            self.consistent() ==> savepoint.held_by(self),
    {
        let header = self.header.duplicate();
        proof {
            self.header.lemma_same_view(&header, Seq::empty());
            crate::header::lemma_same_table(self.header.chunks@, header.chunks@);
        }
        Savepoint {
            header,
            transaction: self.transaction,
            bound: self.next_block,
            instance: self.instance,
        }
    }

    /// Restore the header that `savepoint` holds. A savepoint that is not
    /// valid in this repository is not restored, and nothing changes.
    #[verifier::rlimit(50)]
    pub fn restore(&mut self, savepoint: &Savepoint) -> (restored: bool)
        requires
            old(self).wf(),
            savepoint.wf(),
        ensures
            final(self).wf(),
            restored == savepoint.valid_in(old(self)),
            !restored ==> *final(self) == *old(self),
            restored ==> {
                &&& final(self).header@ == savepoint.header@
                &&& old(self).only_header_changed(final(self))
                &&& final(self).transaction == old(self).transaction
                &&& final(self).next_block == old(self).next_block
                &&& !final(self).clean
                &&& savepoint.held_by(old(self)) ==> final(self).consistent()
            },
            old(self).anchored() ==> final(self).anchored(),
            old(self).durable() ==> final(self).durable(),
    {
        if !savepoint.is_valid(self) {
            return false;
        }
        let header = savepoint.header.duplicate();
        proof {
            savepoint.header.lemma_same_view(&header, Seq::empty());
            crate::header::lemma_same_table(savepoint.header.chunks@, header.chunks@);
            assert(table_below(header.chunks@, savepoint.bound as int));
            assert forall|i: int| 0 <= i < header.chunks@.len() implies all_below(
                (#[trigger] header.chunks@[i]).blocks@,
                self.next_block as int,
            ) by {
                assert(all_below(header.chunks@[i].blocks@, savepoint.bound as int));
            }
        }
        self.header = header;
        self.clean = false;
        true
    }

    /// Return whether there is an object under `key`.
    pub fn contains(&self, key: &[u8]) -> (found: bool)
        ensures
            found == crate::header::has_object(self.header.objects@, key@),
    {
        self.header.find_object(key).is_some()
    }

    /// The number of objects in the repository.
    pub fn len(&self) -> (count: usize)
        ensures
            count == self.header.objects@.len(),
    {
        self.header.objects.len()
    }

    /// Return the object under `key`, ready to be read and written, or
    /// `None` if there is no such object.
    pub fn get<'a>(&'a mut self, key: &[u8]) -> (result: Option<crate::object::Object<'a, S>>)
        requires
            old(self).wf(),
        ensures
            result is Some <==> crate::header::has_object(old(self).header.objects@, key@),
            match result {
                Some(object) => {
                    &&& object.wf()
                    &&& *object.repository == *old(self)
                    &&& *final(self) == *final(object.repository)
                    &&& object.key() == key@
                    &&& object.position == 0
                    &&& !object.writing
                    &&& !object.failed
                    &&& object.faithful()
                },
                None => *final(self) == *old(self),
            },
    {
        match self.header.find_object(key) {
            Some(entry) => Some(crate::object::Object::new(self, entry)),
            None => None,
        }
    }

    /// Add a new, empty object under `key` and return it. An object that was
    /// under `key` before is replaced, and the references that it held to
    /// its chunks are given up.
    pub fn insert<'a>(&'a mut self, key: &[u8]) -> (object: crate::object::Object<'a, S>)
        requires
            old(self).wf(),
        ensures
            object.wf(),
            *final(self) == *final(object.repository),
            object.key() == key@,
            object.chunks().len() == 0,
            object.position == 0,
            !object.writing,
            !object.failed,
            object.faithful(),
            object.repository.store == old(self).store,
            object.repository.transaction == old(self).transaction,
            object.repository.instance == old(self).instance,
            object.repository.next_block == old(self).next_block,
            object.repository.header.metadata == old(self).header.metadata,
            object.repository.committed == old(self).committed,
            !crate::header::has_object(old(self).header.objects@, key@)
                ==> object.repository.header.chunks == old(self).header.chunks
                && object.repository.header.objects@.len() == old(self).header.objects@.len() + 1,
            old(self).anchored() ==> object.repository.anchored(),
            old(self).durable() ==> object.repository.durable(),
            old(self).consistent() ==> object.repository.consistent(),
            forall|other: Seq<u8>|
                other != key@ ==> (#[trigger] crate::header::has_object(
                    object.repository.header.objects@,
                    other,
                ) == crate::header::has_object(old(self).header.objects@, other)),
            forall|other: Seq<u8>|
                other != key@ && #[trigger] crate::header::has_object(
                    old(self).header.objects@,
                    other,
                ) ==> object.repository.contents_of(other) == old(self).contents_of(other),
    {
        let entry = self.empty_entry(key);
        proof {
            assert forall|other: Seq<u8>|
                other != key@ && #[trigger] crate::header::has_object(
                    old(self).header.objects@,
                    other,
                ) implies self.contents_of(other) == old(self).contents_of(other) by {
                old(self).lemma_other_contents_kept(self, other);
            }
        }
        crate::object::Object::new(self, entry)
    }

    /// An object that is listed as before, in a repository that kept the
    /// chunks it knows, holds the bytes it held.
    proof fn lemma_other_contents_kept(&self, after: &Self, key: Seq<u8>)
        requires
            after.wf(),
            after.chunks_kept(self),
            after.header.metadata == self.header.metadata,
            crate::header::has_object(after.header.objects@, key),
            after.header.objects@[crate::header::object_index(after.header.objects@, key)]
                == self.header.objects@[crate::header::object_index(self.header.objects@, key)],
        ensures
            after.contents_of(key) == self.contents_of(key),
    {
        let index = crate::header::object_index(after.header.objects@, key);
        assert(crate::header::object_at(after.header.objects@, key, index));
        let chunks = after.header.objects@[index].handle.chunks@;
        after.lemma_known(Seq::empty(), index);
        after.lemma_bytes_kept(self, chunks);
    }

    /// The bytes of the object under `key`, as the store holds them.
    pub open spec fn contents_of(&self, key: Seq<u8>) -> Seq<u8> {
        self.bytes_of(
            self.header.objects@[crate::header::object_index(self.header.objects@, key)].handle.chunks@,
        )
    }

    /// Make the object under `key` empty, or add an empty object under `key`
    /// if there is none, and return the index of the object.
    #[verifier::rlimit(50)]
    fn empty_entry(&mut self, key: &[u8]) -> (entry: usize)
        requires
            old(self).wf(),
        ensures
            final(self).wf(),
            entry < final(self).header.objects@.len(),
            final(self).header.objects@[entry as int].key@ == key@,
            final(self).header.objects@[entry as int].handle.chunks@.len() == 0,
            final(self).store == old(self).store,
            final(self).transaction == old(self).transaction,
            final(self).instance == old(self).instance,
            final(self).committed == old(self).committed,
            final(self).address == old(self).address,
            final(self).header_block == old(self).header_block,
            final(self).next_block == old(self).next_block,
            final(self).header.metadata == old(self).header.metadata,
            !final(self).clean,
            !crate::header::has_object(old(self).header.objects@, key@)
                ==> final(self).header.chunks == old(self).header.chunks
                && final(self).header.objects@.len() == old(self).header.objects@.len() + 1,
            old(self).consistent() ==> final(self).consistent(),
            final(self).chunks_kept(old(self)),
            forall|other: Seq<u8>|
                other != key@ ==> (#[trigger] crate::header::has_object(
                    final(self).header.objects@,
                    other,
                ) == crate::header::has_object(old(self).header.objects@, other)),
            forall|other: Seq<u8>|
                other != key@ && #[trigger] crate::header::has_object(
                    old(self).header.objects@,
                    other,
                ) ==> final(self).header.objects@[crate::header::object_index(
                    final(self).header.objects@,
                    other,
                )] == old(self).header.objects@[crate::header::object_index(
                    old(self).header.objects@,
                    other,
                )],
    {
        let ghost before = self.header.objects@;
        match self.header.find_object(key) {
            Some(entry) => {
                let count = self.header.objects[entry].handle.chunks.len();
                let inserted: Vec<Chunk> = Vec::new();
                proof {
                    let chunks = self.header.objects@[entry as int].handle.chunks@;
                    assert(chunks.take(0) + inserted@ + chunks.skip(count as int) =~= Seq::<
                        Chunk,
                    >::empty());
                }
                self.replace_chunks(entry, 0, count, &inserted, 0);
                proof {
                    let after = self.header.objects@;
                    let chunks = old(self).header.objects@[entry as int].handle.chunks@;
                    assert(chunks.take(0) + inserted@ + chunks.skip(count as int) =~= Seq::<
                        Chunk,
                    >::empty());
                    old(self).lemma_settled_replaced(self, entry as int, 0, count as int, inserted@);
                    crate::header::lemma_object_at(before, entry as int);
                    Self::lemma_other_objects_kept(before, after, entry as int);
                }
                entry
            },
            None => {
                let entry = self.header.objects.len();
                self.header.objects.push(
                    ObjectEntry {
                        key: vstd::slice::slice_to_vec(key),
                        handle: crate::handle::ObjectHandle { size: 0, chunks: Vec::new() },
                    },
                );
                self.clean = false;
                proof {
                    let after = self.header.objects@;
                    assert(after.drop_last() =~= before);
                    assert forall|a: int, b: int| 0 <= a < b < after.len() implies after[a].key@
                        != after[b].key@ by {
                        if b == before.len() {
                            assert(!crate::header::object_at(before, key@, a));
                        } else {
                            assert(before[a].key@ != before[b].key@);
                        }
                    }
                    assert forall|hash: Seq<u8>|
                        references(after, hash) + occurrences(Seq::<Chunk>::empty(), hash)
                            <= #[trigger] refcount_of(self.header.chunks@, hash) by {
                        assert(references(before, hash) + occurrences(
                            Seq::<Chunk>::empty(),
                            hash,
                        ) <= refcount_of(self.header.chunks@, hash));
                    }
                    assert forall|i: int| 0 <= i < after.len() implies (
                    #[trigger] after[i]).handle.wf() && sizes_agree(
                        self.header.chunks@,
                        after[i].handle.chunks@,
                    ) by {
                        if i < before.len() {
                            assert(before[i].handle.wf());
                            assert(sizes_agree(self.header.chunks@, before[i].handle.chunks@));
                        }
                    }
                    self.lemma_kept_reflexive();
                    assert forall|other: Seq<u8>| other != key@ implies (
                    #[trigger] crate::header::has_object(after, other)
                        == crate::header::has_object(before, other)) by {
                        if crate::header::has_object(after, other) {
                            let i = choose|i: int| crate::header::object_at(after, other, i);
                            assert(crate::header::object_at(before, other, i));
                        }
                        if crate::header::has_object(before, other) {
                            let i = choose|i: int| crate::header::object_at(before, other, i);
                            assert(crate::header::object_at(after, other, i));
                        }
                    }
                    assert forall|other: Seq<u8>|
                        other != key@ && #[trigger] crate::header::has_object(
                            before,
                            other,
                        ) implies after[crate::header::object_index(after, other)]
                        == before[crate::header::object_index(before, other)] by {
                        let i = crate::header::object_index(before, other);
                        assert(crate::header::object_at(before, other, i));
                        assert(crate::header::object_at(after, other, i));
                        crate::header::lemma_object_at(after, i);
                    }
                }
                entry
            },
        }
    }

    /// Where the handle of one object was replaced, the other objects are
    /// found as before.
    proof fn lemma_other_objects_kept(before: Seq<ObjectEntry>, after: Seq<ObjectEntry>, entry: int)
        requires
            crate::header::handle_replaced(before, after, entry),
            crate::header::distinct_keys(before),
        ensures
            crate::header::distinct_keys(after),
            forall|key: Seq<u8>|
                #[trigger] crate::header::has_object(after, key) == crate::header::has_object(
                    before,
                    key,
                ),
            forall|key: Seq<u8>|
                #[trigger] crate::header::has_object(before, key) ==> crate::header::object_index(
                    after,
                    key,
                ) == crate::header::object_index(before, key),
            forall|key: Seq<u8>|
                key != before[entry].key@ && #[trigger] crate::header::has_object(before, key)
                    ==> after[crate::header::object_index(after, key)]
                    == before[crate::header::object_index(before, key)],
    {
        assert forall|a: int, b: int| 0 <= a < b < after.len() implies after[a].key@
            != after[b].key@ by {
            assert(before[a].key@ != before[b].key@);
        }
        assert forall|key: Seq<u8>|
            #[trigger] crate::header::has_object(after, key) == crate::header::has_object(
                before,
                key,
            ) by {
            if crate::header::has_object(after, key) {
                let i = choose|i: int| crate::header::object_at(after, key, i);
                assert(crate::header::object_at(before, key, i));
            }
            if crate::header::has_object(before, key) {
                let i = choose|i: int| crate::header::object_at(before, key, i);
                assert(crate::header::object_at(after, key, i));
            }
        }
        assert forall|key: Seq<u8>|
            #[trigger] crate::header::has_object(before, key) implies crate::header::object_index(
            after,
            key,
        ) == crate::header::object_index(before, key) by {
            let i = crate::header::object_index(before, key);
            assert(crate::header::object_at(before, key, i));
            assert(crate::header::object_at(after, key, i));
            crate::header::lemma_object_at(after, i);
        }
        assert forall|key: Seq<u8>|
            key != before[entry].key@ && #[trigger] crate::header::has_object(before, key)
            implies after[crate::header::object_index(after, key)]
            == before[crate::header::object_index(before, key)] by {
            let i = crate::header::object_index(before, key);
            assert(crate::header::object_at(before, key, i));
        }
    }
}

/// The keys of the objects in a repository, in no particular order.
///
/// This value is created by [`ObjectRepository::keys`].
#[derive(Debug)]
pub struct Keys {
    /// The keys.
    pub keys: Vec<Vec<u8>>,
    /// The number of keys that have been handed out.
    pub taken: usize,
}

impl Keys {
    /// The keys that have not been handed out, in the order in which they
    /// will be.
    pub open spec fn remaining(&self) -> Seq<Seq<u8>> {
        Seq::new(
            if self.taken <= self.keys@.len() {
                (self.keys@.len() - self.taken) as nat
            } else {
                0
            },
            |i: int| self.keys@[self.taken + i]@,
        )
    }

    /// Hand out the next key, or `None` when there is none left.
    pub fn next(&mut self) -> (key: Option<Vec<u8>>)
        ensures
            match key {
                Some(key) => old(self).remaining().len() > 0 && key@ == old(self).remaining()[0]
                    && final(self).remaining() == old(self).remaining().skip(1),
                None => old(self).remaining().len() == 0 && final(self).remaining().len() == 0,
            },
    {
        if self.taken < self.keys.len() {
            let key = self.keys[self.taken].clone();
            self.taken = self.taken + 1;
            assert(self.remaining() =~= old(self).remaining().skip(1));
            assert(key@ == old(self).remaining()[0]);
            Some(key)
        } else {
            None
        }
    }

    /// The number of keys that are left, as a lower and an upper bound.
    pub fn size_hint(&self) -> (bounds: (usize, Option<usize>))
        ensures
            bounds.0 == self.remaining().len(),
            bounds.1 == Some(bounds.0),
    {
        let left = if self.taken <= self.keys.len() {
            self.keys.len() - self.taken
        } else {
            0
        };
        (left, Some(left))
    }
}

impl<S: DataStore> ObjectRepository<S> {
    /// Return the keys of the objects in this repository.
    pub fn keys(&self) -> (keys: Keys)
        ensures
            keys.remaining().len() == self.header.objects@.len(),
            forall|i: int|
                0 <= i < self.header.objects@.len() ==> keys.remaining()[i]
                    == self.header.objects@[i].key@,
    {
        let mut keys: Vec<Vec<u8>> = Vec::new();
        let mut i: usize = 0;
        while i < self.header.objects.len()
            invariant
                i <= self.header.objects@.len(),
                keys@.len() == i,
                forall|j: int| 0 <= j < i ==> (#[trigger] keys@[j])@
                    == self.header.objects@[j].key@,
            decreases self.header.objects@.len() - i,
        {
            keys.push(self.header.objects[i].key.clone());
            i += 1;
        }
        Keys { keys, taken: 0 }
    }

    /// Return information about this repository.
    pub fn info(&self) -> (info: crate::metadata::RepositoryInfo)
        ensures
            info.id == self.header.metadata@.id,
            info.config == self.header.metadata@.config,
            info.creation_time == self.header.metadata@.creation_time,
    {
        self.header.metadata.to_info()
    }

    /// Remove the object under `key` and give up the references that it held
    /// to its chunks. Returns whether there was such an object.
    #[verifier::rlimit(50)]
    pub fn remove(&mut self, key: &[u8]) -> (removed: bool)
        requires
            old(self).wf(),
        ensures
            final(self).wf(),
            removed == crate::header::has_object(old(self).header.objects@, key@),
            !removed ==> *final(self) == *old(self),
            !crate::header::has_object(final(self).header.objects@, key@),
            final(self).store == old(self).store,
            final(self).transaction == old(self).transaction,
            final(self).only_header_kept(old(self)),
            old(self).anchored() ==> final(self).anchored(),
            old(self).durable() ==> final(self).durable(),
            old(self).consistent() ==> final(self).consistent(),
            forall|other: Seq<u8>|
                other != key@ ==> (#[trigger] crate::header::has_object(
                    final(self).header.objects@,
                    other,
                ) == crate::header::has_object(old(self).header.objects@, other)),
            forall|other: Seq<u8>|
                other != key@ && #[trigger] crate::header::has_object(
                    old(self).header.objects@,
                    other,
                ) ==> final(self).contents_of(other) == old(self).contents_of(other),
    {
        let found = self.header.find_object(key);
        match found {
            None => false,
            Some(entry) => {
                let emptied = self.empty_entry(key);
                let ghost mid = *self;
                proof {
                    crate::header::lemma_object_at(self.header.objects@, emptied as int);
                }
                self.header.objects.remove(emptied);
                proof {
                    mid.lemma_entry_removed(self, emptied as int);
                    assert forall|other: Seq<u8>|
                        other != key@ && #[trigger] crate::header::has_object(
                            old(self).header.objects@,
                            other,
                        ) implies self.contents_of(other) == old(self).contents_of(other) by {
                        assert(crate::header::has_object(mid.header.objects@, other));
                        old(self).lemma_other_contents_kept(self, other);
                    }
                }
                true
            },
        }
    }

    /// Whether this repository has the published state, the store and the
    /// metadata of `before`.
    pub open spec fn only_header_kept(&self, before: &Self) -> bool {
        &&& self.store == before.store
        &&& self.instance == before.instance
        &&& self.committed == before.committed
        &&& self.address == before.address
        &&& self.header_block == before.header_block
        &&& self.next_block == before.next_block
        &&& self.header.metadata == before.header.metadata
    }

    /// What is left when an object without chunks has been taken out.
    #[verifier::rlimit(50)]
    proof fn lemma_entry_removed(&self, after: &Self, entry: int)
        requires
            self.wf(),
            !self.clean,
            0 <= entry < self.header.objects@.len(),
            self.header.objects@[entry].handle.chunks@.len() == 0,
            after.header.objects@ == self.header.objects@.remove(entry),
            after.header.chunks == self.header.chunks,
            after.header.metadata == self.header.metadata,
            after.store == self.store,
            after.committed == self.committed,
            after.address == self.address,
            after.header_block == self.header_block,
            after.next_block == self.next_block,
            after.transaction == self.transaction,
            after.clean == self.clean,
        ensures
            after.wf(),
            after.chunks_kept(self),
            self.consistent() ==> after.consistent(),
            self.anchored() ==> after.anchored(),
            self.durable() ==> after.durable(),
            !crate::header::has_object(after.header.objects@, self.header.objects@[entry].key@),
            forall|other: Seq<u8>|
                other != self.header.objects@[entry].key@ ==> (#[trigger] crate::header::has_object(
                    after.header.objects@,
                    other,
                ) == crate::header::has_object(self.header.objects@, other)),
            forall|other: Seq<u8>|
                other != self.header.objects@[entry].key@ && #[trigger] crate::header::has_object(
                    self.header.objects@,
                    other,
                ) ==> after.header.objects@[crate::header::object_index(
                    after.header.objects@,
                    other,
                )] == self.header.objects@[crate::header::object_index(
                    self.header.objects@,
                    other,
                )],
    {
        let before = self.header.objects@;
        let now = after.header.objects@;
        let key = before[entry].key@;
        assert forall|a: int, b: int| 0 <= a < b < now.len() implies now[a].key@ != now[b].key@ by {
            let a0 = if a < entry { a } else { a + 1 };
            let b0 = if b < entry { b } else { b + 1 };
            assert(before[a0].key@ != before[b0].key@);
        }
        assert forall|i: int| 0 <= i < now.len() implies (#[trigger] now[i]).handle.wf()
            && sizes_agree(after.header.chunks@, now[i].handle.chunks@) by {
            let i0 = if i < entry { i } else { i + 1 };
            assert(now[i] == before[i0]);
            assert(before[i0].handle.wf());
            assert(sizes_agree(self.header.chunks@, before[i0].handle.chunks@));
        }
        assert forall|hash: Seq<u8>|
            references(now, hash) + occurrences(Seq::<Chunk>::empty(), hash)
                <= #[trigger] refcount_of(after.header.chunks@, hash) by {
            crate::header::lemma_empty_object_removed(before, entry, hash);
            assert(references(before, hash) + occurrences(Seq::<Chunk>::empty(), hash)
                <= refcount_of(self.header.chunks@, hash));
        }
        assert forall|other: Seq<u8>|
            #[trigger] crate::header::has_object(now, other) == (crate::header::has_object(
                before,
                other,
            ) && other != key) by {
            if crate::header::has_object(now, other) {
                let i = choose|i: int| crate::header::object_at(now, other, i);
                let i0 = if i < entry { i } else { i + 1 };
                assert(crate::header::object_at(before, other, i0));
                if i0 < entry {
                    assert(before[i0].key@ != before[entry].key@);
                } else {
                    assert(before[entry].key@ != before[i0].key@);
                }
            }
            if crate::header::has_object(before, other) && other != key {
                let i = choose|i: int| crate::header::object_at(before, other, i);
                let i1 = if i < entry { i } else { i - 1 };
                assert(crate::header::object_at(now, other, i1));
            }
        }
        assert forall|other: Seq<u8>|
            other != key && #[trigger] crate::header::has_object(before, other)
            implies now[crate::header::object_index(now, other)]
            == before[crate::header::object_index(before, other)] by {
            let i = crate::header::object_index(before, other);
            assert(crate::header::object_at(before, other, i));
            let i1 = if i < entry { i } else { i - 1 };
            assert(crate::header::object_at(now, other, i1));
            crate::header::lemma_object_at(now, i1);
        }
    }
}

/// Whether the published state of a repository with the header `committed`
/// in the blocks from index `first` up to, not including, `floor` needs the
/// block `id`: it is the superblock, a block of the header, or a block of a
/// chunk that the header lists.
pub open spec fn block_live(committed: &Header, first: int, floor: int, id: BlockId) -> bool {
    ||| id == 0
    ||| first < id <= floor
    ||| exists|i: int, j: int|
        0 <= i < committed.chunks@.len() && 0 <= j < committed.chunks@[i].blocks@.len()
            && #[trigger] committed.chunks@[i].blocks@[j].id() == id
}

/// Whether `after` holds every block that `before` holds and the published
/// state needs, and no block that `before` does not hold.
pub open spec fn live_blocks_kept(
    committed: &Header,
    first: int,
    floor: int,
    before: Map<BlockId, Seq<u8>>,
    after: Map<BlockId, Seq<u8>>,
) -> bool {
    &&& forall|id: BlockId|
        #![trigger after.dom().contains(id)]
        after.dom().contains(id) ==> before.dom().contains(id) && after[id] == before[id]
    &&& forall|id: BlockId|
        #![trigger before.dom().contains(id)]
        before.dom().contains(id) && block_live(committed, first, floor, id)
            ==> after.dom().contains(id)
}

impl<S: DataStore> ObjectRepository<S> {
    /// Whether the published state needs the block `id`.
    pub open spec fn live(&self, id: BlockId) -> bool {
        block_live(&self.committed, self.header_first(), self.floor(), id)
    }

    /// Mark the blocks that the published state needs, by index.
    #[verifier::rlimit(50)]
    fn live_map(&self) -> (marks: Option<Vec<bool>>)
        requires
            self.wf(),
        ensures
            match marks {
                Some(marks) => {
                    &&& marks@.len() == self.floor()
                    &&& forall|index: int|
                        0 <= index < marks@.len() ==> (#[trigger] marks@[index] == self.live(
                            (index + 1) as BlockId,
                        ))
                },
                None => self.floor() > usize::MAX,
            },
    {
        let floor = self.header_block + blocks_for_size(self.address.size());
        if floor > usize::MAX as u64 {
            return None;
        }
        let size = floor as usize;
        let first = self.header_block as usize;
        let mut marks: Vec<bool> = Vec::new();
        let mut n: usize = 0;
        while n < size
            invariant
                n <= size,
                first <= size,
                marks@.len() == n,
                forall|index: int| 0 <= index < n ==> #[trigger] marks@[index] == (first <= index),
            decreases size - n,
        {
            marks.push(n >= first);
            n += 1;
        }
        let ghost table = self.committed.chunks@;
        let mut i: usize = 0;
        while i < self.committed.chunks.len()
            invariant
                i <= table.len(),
                table == self.committed.chunks@,
                table_below(table, first as int),
                first <= size,
                marks@.len() == size,
                forall|index: int|
                    0 <= index < size ==> #[trigger] marks@[index] == (first <= index || exists|
                        k: int,
                        j: int,
                    |
                        0 <= k < i && 0 <= j < table[k].blocks@.len()
                            && #[trigger] table[k].blocks@[j].0
                            == index),
            decreases table.len() - i,
        {
            let blocks = &self.committed.chunks[i].blocks;
            let mut j: usize = 0;
            while j < blocks.len()
                invariant
                    i < table.len(),
                    j <= blocks@.len(),
                    blocks@ == table[i as int].blocks@,
                    all_below(blocks@, first as int),
                    first <= size,
                    marks@.len() == size,
                    forall|index: int|
                        0 <= index < size ==> #[trigger] marks@[index] == (first
                            <= index || (exists|
                            k: int,
                            l: int,
                        |
                            0 <= k < i && 0 <= l < table[k].blocks@.len()
                                && #[trigger] table[k].blocks@[l].0 == index) || (exists|l: int|
                            0 <= l < j && #[trigger] blocks@[l].0 == index)),
                decreases blocks@.len() - j,
            {
                let at = blocks[j].0 as usize;
                let ghost before = marks@;
                marks.set(at, true);
                proof {
                    assert forall|index: int| 0 <= index < size implies #[trigger] marks@[index]
                        == (
                    first <= index || (exists|k: int, l: int|
                        0 <= k < i && 0 <= l < table[k].blocks@.len()
                            && #[trigger] table[k].blocks@[l].0 == index) || (exists|l: int|
                        0 <= l < j + 1 && #[trigger] blocks@[l].0 == index)) by {
                        if index == at {
                            assert(blocks@[j as int].0 == index);
                        } else {
                            assert(marks@[index] == before[index]);
                            if exists|l: int| 0 <= l < j + 1 && #[trigger] blocks@[l].0 == index {
                                let l = choose|l: int|
                                    0 <= l < j + 1 && #[trigger] blocks@[l].0 == index;
                                assert(l < j);
                            }
                        }
                    }
                }
                j += 1;
            }
            proof {
                assert forall|index: int| 0 <= index < size implies #[trigger] marks@[index] == (
                first <= index || exists|k: int, l: int|
                    0 <= k < i + 1 && 0 <= l < table[k].blocks@.len()
                        && #[trigger] table[k].blocks@[l].0 == index) by {
                    if exists|l: int| 0 <= l < j && #[trigger] blocks@[l].0 == index {
                        let l = choose|l: int| 0 <= l < j && #[trigger] blocks@[l].0 == index;
                        assert(table[i as int].blocks@[l].0 == index);
                    }
                    if exists|k: int, l: int|
                        0 <= k < i + 1 && 0 <= l < table[k].blocks@.len()
                            && #[trigger] table[k].blocks@[l].0 == index {
                        let (k, l) = choose|k: int, l: int|
                            0 <= k < i + 1 && 0 <= l < table[k].blocks@.len()
                                && #[trigger] table[k].blocks@[l].0 == index;
                        if k == i {
                            assert(blocks@[l].0 == index);
                        } else {
                            assert(table[k].blocks@[l].0 == index);
                        }
                    }
                }
            }
            i += 1;
        }
        proof {
            assert forall|index: int| 0 <= index < marks@.len() implies (#[trigger] marks@[index]
                == self.live((index + 1) as BlockId)) by {
                let id = (index + 1) as BlockId;
                if exists|k: int, l: int|
                    0 <= k < table.len() && 0 <= l < table[k].blocks@.len()
                        && #[trigger] table[k].blocks@[l].0 == index {
                    let (k, l) = choose|k: int, l: int|
                        0 <= k < table.len() && 0 <= l < table[k].blocks@.len()
                            && #[trigger] table[k].blocks@[l].0 == index;
                    assert(self.committed.chunks@[k].blocks@[l].id() == id);
                }
                if exists|k: int, l: int|
                    0 <= k < table.len() && 0 <= l < table[k].blocks@.len()
                        && #[trigger] self.committed.chunks@[k].blocks@[l].id() == id {
                    let (k, l) = choose|k: int, l: int|
                        0 <= k < table.len() && 0 <= l < table[k].blocks@.len()
                            && #[trigger] self.committed.chunks@[k].blocks@[l].id() == id;
                    assert(table[k].blocks@[l].0 == index);
                }
            }
        }
        Some(marks)
    }

    /// Remove from the store every block that the published state does not
    /// need.
    ///
    /// Only a clean repository is cleaned: the blocks of a transaction that
    /// has not been committed are not part of the published state.
    #[verifier::rlimit(50)]
    pub fn clean(&mut self) -> (result: Result<(), Error>)
        requires
            old(self).wf(),
        ensures
            final(self).wf(),
            final(self).header == old(self).header,
            final(self).committed == old(self).committed,
            final(self).address == old(self).address,
            final(self).header_block == old(self).header_block,
            final(self).next_block == old(self).next_block,
            final(self).transaction == old(self).transaction,
            final(self).instance == old(self).instance,
            final(self).clean == old(self).clean,
            live_blocks_kept(
                &old(self).committed,
                old(self).header_first(),
                old(self).floor(),
                old(self).store.blocks(),
                final(self).store.blocks(),
            ),
            old(self).anchored() ==> final(self).anchored(),
            old(self).durable() ==> final(self).durable(),
            !old(self).clean ==> result == Err::<(), Error>(Error::InvalidInput)
                && final(self).store == old(self).store,
            result is Ok ==> forall|id: BlockId|
                #![trigger final(self).store.blocks().dom().contains(id)]
                final(self).store.blocks().dom().contains(id) ==> old(self).live(id),
            old(self).store.reliable() ==> (result is Ok <==> old(self).clean && old(self).floor()
                <= usize::MAX),
            old(self).store.reliable() && result is Err ==> result == Err::<(), Error>(
                Error::InvalidInput,
            ),
    {
        proof {
            assert(live_blocks_kept(
                &self.committed,
                self.header_first(),
                self.floor(),
                self.store.blocks(),
                self.store.blocks(),
            ));
        }
        if !self.clean {
            return Err(Error::InvalidInput);
        }
        let marks = match self.live_map() {
            Some(marks) => marks,
            None => {
                return Err(Error::InvalidInput);
            },
        };
        let marked: usize = marks.len();
        assert(marked == old(self).floor());
        let ids = match self.store.list_blocks() {
            Ok(ids) => ids,
            Err(error) => {
                return Err(error);
            },
        };
        let ghost before = self.store.blocks();
        let mut n: usize = 0;
        while n < ids.len()
            invariant
                n <= ids@.len(),
                old(self).wf(),
                old(self).clean,
                self.header == old(self).header,
                self.committed == old(self).committed,
                self.address == old(self).address,
                self.header_block == old(self).header_block,
                self.next_block == old(self).next_block,
                self.transaction == old(self).transaction,
                self.instance == old(self).instance,
                self.clean == old(self).clean,
                self.store.reliable() == old(self).store.reliable(),
                before == old(self).store.blocks(),
                marks@.len() == old(self).floor(),
                forall|index: int|
                    0 <= index < marks@.len() ==> (#[trigger] marks@[index] == old(self).live(
                        (index + 1) as BlockId,
                    )),
                forall|id: BlockId| ids@.contains(id) <==> before.contains_key(id),
                forall|id: BlockId|
                    #![trigger self.store.blocks().dom().contains(id)]
                    self.store.blocks().dom().contains(id) ==> before.dom().contains(id)
                        && self.store.blocks()[id] == before[id],
                forall|id: BlockId|
                    #![trigger before.dom().contains(id)]
                    before.dom().contains(id) && old(self).live(id)
                        ==> self.store.blocks().dom().contains(id),
                forall|k: int|
                    0 <= k < n && self.store.blocks().dom().contains(#[trigger] ids@[k])
                        ==> old(self).live(ids@[k]),
            decreases ids@.len() - n,
        {
            let id = ids[n];
            let keep = if id == 0 {
                true
            } else if id - 1 < marks.len() as u128 {
                marks[(id - 1) as usize]
            } else {
                false
            };
            proof {
                if id != 0 && id - 1 >= marks@.len() {
                    assert(!old(self).live(id)) by {
                        if exists|i: int, j: int|
                            0 <= i < self.committed.chunks@.len() && 0 <= j
                                < self.committed.chunks@[i].blocks@.len()
                                && #[trigger] self.committed.chunks@[i].blocks@[j].id() == id {
                            let (i, j) = choose|i: int, j: int|
                                0 <= i < self.committed.chunks@.len() && 0 <= j
                                    < self.committed.chunks@[i].blocks@.len()
                                    && #[trigger] self.committed.chunks@[i].blocks@[j].id() == id;
                            assert(all_below(
                                self.committed.chunks@[i].blocks@,
                                old(self).header_first(),
                            ));
                        }
                    }
                }
                assert(keep == old(self).live(id));
            }
            if !keep {
                let ghost current = self.store.blocks();
                match self.store.remove_block(id) {
                    Ok(()) => {},
                    Err(error) => {
                        proof {
                            old(self).lemma_cleaned(self);
                        }
                        return Err(error);
                    },
                }
                proof {
                    assert forall|k: int|
                        0 <= k < n + 1 && self.store.blocks().dom().contains(
                            #[trigger] ids@[k],
                        ) implies old(self).live(ids@[k]) by {
                        if k < n {
                            assert(current.dom().contains(ids@[k]));
                        }
                    }
                }
            }
            n += 1;
        }
        proof {
            old(self).lemma_cleaned(self);
            assert forall|id: BlockId|
                #![trigger self.store.blocks().dom().contains(id)]
                self.store.blocks().dom().contains(id) implies old(self).live(id) by {
                assert(before.dom().contains(id));
                assert(ids@.contains(id));
                let k = choose|k: int| 0 <= k < ids@.len() && ids@[k] == id;
                assert(self.store.blocks().dom().contains(ids@[k]));
            }
        }
        Ok(())
    }

    /// A store that has lost only blocks which the published state does not
    /// need holds the published state as before.
    #[verifier::rlimit(50)]
    proof fn lemma_cleaned(&self, after: &Self)
        requires
            self.wf(),
            self.clean,
            after.header == self.header,
            after.committed == self.committed,
            after.address == self.address,
            after.header_block == self.header_block,
            after.next_block == self.next_block,
            after.transaction == self.transaction,
            after.clean == self.clean,
            live_blocks_kept(
                &self.committed,
                self.header_first(),
                self.floor(),
                self.store.blocks(),
                after.store.blocks(),
            ),
        ensures
            after.wf(),
            self.anchored() ==> after.anchored(),
            self.durable() ==> after.durable(),
    {
        let before = self.store.blocks();
        let now = after.store.blocks();
        if self.anchored() {
            self.lemma_anchor_cleaned(after);
        }
        if self.durable() {
            let table = self.committed.chunks@;
            assert forall|i: int| 0 <= i < table.len() implies entry_sound(
                now,
                self.committed.codec(),
                #[trigger] table[i],
            ) by {
                assert(entry_sound(before, self.committed.codec(), table[i]));
                let blocks = table[i].blocks@;
                assert(stored_bytes(before, blocks) is Some);
                self.lemma_listed_blocks_kept(after, i);
            }
        }
    }

    /// The blocks of a chunk that the published header lists, and that the
    /// store held, are still there after cleaning.
    proof fn lemma_listed_blocks_kept(&self, after: &Self, i: int)
        requires
            0 <= i < self.committed.chunks@.len(),
            stored_bytes(self.store.blocks(), self.committed.chunks@[i].blocks@) is Some,
            live_blocks_kept(
                &self.committed,
                self.header_first(),
                self.floor(),
                self.store.blocks(),
                after.store.blocks(),
            ),
        ensures
            stored_bytes(after.store.blocks(), self.committed.chunks@[i].blocks@) == stored_bytes(
                self.store.blocks(),
                self.committed.chunks@[i].blocks@,
            ),
    {
        let before = self.store.blocks();
        let now = after.store.blocks();
        let blocks = self.committed.chunks@[i].blocks@;
        assert forall|j: int| 0 <= j < blocks.len() implies before.dom().contains(
            (#[trigger] blocks[j]).id(),
        ) == now.dom().contains(blocks[j].id()) && (before.dom().contains(blocks[j].id())
            ==> before[blocks[j].id()] == now[blocks[j].id()]) by {
            let id = blocks[j].id();
            assert(self.committed.chunks@[i].blocks@[j].id() == id);
            assert(block_live(&self.committed, self.header_first(), self.floor(), id));
            if before.dom().contains(id) {
                assert(now.dom().contains(id));
            }
            if now.dom().contains(id) {
                assert(before.dom().contains(id));
            }
        }
        crate::archive::lemma_stored_bytes_agree(before, now, blocks);
    }

    /// Cleaning leaves the published header where it is.
    #[verifier::rlimit(50)]
    proof fn lemma_anchor_cleaned(&self, after: &Self)
        requires
            self.anchored(),
            self.address.header_size() >= 8,
            self.header_block + blocks_needed(self.address.header_size()) <= MAX_BLOCKS,
            after.address == self.address,
            after.header_block == self.header_block,
            after.committed == self.committed,
            live_blocks_kept(
                &self.committed,
                self.header_first(),
                self.floor(),
                self.store.blocks(),
                after.store.blocks(),
            ),
        ensures
            after.anchored(),
    {
        let before = self.store.blocks();
        let now = after.store.blocks();
        let first = self.header_first() as nat;
        let count = blocks_needed(self.address.header_size());
        assert(block_live(&self.committed, self.header_first(), self.floor(), 0));
        assert(before.dom().contains(0));
        assert(now.dom().contains(0));
        let run = block_run(first, count);
        assert(8 + (self.address.header_size() - 8) == self.address.header_size());
        assert(blocks_needed(8) == 1);
        assert(count >= 1);
        let head = (first + 1) as BlockId;
        assert(block_live(&self.committed, self.header_first(), self.floor(), head));
        assert(before.dom().contains(head));
        assert(now.dom().contains(head));
        assert(stored_bytes(before, run) is Some);
        crate::publish::lemma_run_starts(before, first, count);
        Self::lemma_run_present(before, first, count);
        assert forall|j: int| 0 <= j < run.len() implies before.dom().contains(
            (#[trigger] run[j]).id(),
        ) == now.dom().contains(run[j].id()) && (before.dom().contains(run[j].id())
            ==> before[run[j].id()] == now[run[j].id()]) by {
            let id = run[j].id();
            assert(block_live(&self.committed, self.header_first(), self.floor(), id));
            assert(before.dom().contains(id));
            assert(now.dom().contains(id));
        }
        crate::archive::lemma_stored_bytes_agree(before, now, run);
    }

    /// A run that can be read has all its blocks.
    proof fn lemma_run_present(blocks: Map<BlockId, Seq<u8>>, first: nat, count: nat)
        requires
            stored_bytes(blocks, block_run(first, count)) is Some,
            first + count <= MAX_BLOCKS,
        ensures
            forall|j: int|
                0 <= j < count
                    ==> blocks.dom().contains((#[trigger] block_run(first, count)[j]).id()),
        decreases count,
    {
        if count > 0 {
            let run = block_run(first, count);
            assert(run.drop_last() =~= block_run(first, (count - 1) as nat));
            Self::lemma_run_present(blocks, first, (count - 1) as nat);
            assert forall|j: int| 0 <= j < count implies blocks.dom().contains(
                (#[trigger] block_run(first, count)[j]).id(),
            ) by {
                if j < count - 1 {
                    assert(block_run(first, count)[j] == block_run(first, (count - 1) as nat)[j]);
                } else {
                    assert(run.last() == run[j]);
                }
            }
        }
    }
}

/// The options with which a repository is opened.
#[derive(Debug, Clone, Copy, PartialEq, Eq, Structural, Hash)]
pub struct OpenOption {
    /// Create the repository if the store holds none.
    pub create: bool,
    /// Create the repository, and fail if the store holds one already.
    pub create_new: bool,
    /// Remove everything that the store holds, and start with an empty
    /// repository.
    pub truncate: bool,
}

/// What opening a store with some options comes to.
#[derive(Debug, Clone, Copy, PartialEq, Eq, Structural, Hash)]
pub enum OpenPlan {
    /// The repository that the store holds is opened.
    Open,
    /// A new repository is created in the store.
    Create,
    /// The store is emptied, and a new repository is created in it.
    Truncate,
}

impl OpenOption {
    /// What opening a store with these options comes to, given whether the
    /// store holds a repository: the plan, or the error that opening ends
    /// with. A repository that is there is not created anew, one that is
    /// not there is opened only by creating it, and whatever is opened with
    /// `truncate` is emptied.
    pub open spec fn plan_for(self, present: bool) -> Result<OpenPlan, Error> {
        if present {
            if self.create_new {
                Err(Error::AlreadyExists)
            } else if self.truncate {
                Ok(OpenPlan::Truncate)
            } else {
                Ok(OpenPlan::Open)
            }
        } else {
            if self.create || self.create_new {
                if self.truncate {
                    Ok(OpenPlan::Truncate)
                } else {
                    Ok(OpenPlan::Create)
                }
            } else {
                Err(Error::NotFound)
            }
        }
    }

    /// What opening a store that keeps its format version apart comes to,
    /// given the version that was found there, if any: a store of this
    /// version is opened as `plan_for` says of a repository that is there, a
    /// store without a version as it says of one that is not, and a store of
    /// another version is refused as an unsupported format, as is a store
    /// without a version that is not to be created.
    pub open spec fn plan_for_version(self, version: Option<u128>) -> Result<OpenPlan, Error> {
        match version {
            Some(found) => if found == crate::encoding::FORMAT_VERSION {
                self.plan_for(true)
            } else {
                Err(Error::UnsupportedFormat)
            },
            None => match self.plan_for(false) {
                Ok(plan) => Ok(plan),
                Err(_) => Err(Error::UnsupportedFormat),
            },
        }
    }

    /// Decide what to do with a store that keeps its format version apart,
    /// given the version that was found there.
    pub fn plan_version(&self, version: Option<u128>) -> (plan: Result<OpenPlan, Error>)
        ensures
            plan == self.plan_for_version(version),
    {
        match version {
            Some(found) => {
                if found == crate::encoding::FORMAT_VERSION {
                    self.plan(true)
                } else {
                    Err(Error::UnsupportedFormat)
                }
            },
            None => match self.plan(false) {
                Ok(plan) => Ok(plan),
                Err(_) => Err(Error::UnsupportedFormat),
            },
        }
    }

    /// Decide what to do with a store, given whether it holds a repository.
    pub fn plan(&self, present: bool) -> (plan: Result<OpenPlan, Error>)
        ensures
            plan == self.plan_for(present),
    {
        if present {
            if self.create_new {
                Err(Error::AlreadyExists)
            } else if self.truncate {
                Ok(OpenPlan::Truncate)
            } else {
                Ok(OpenPlan::Open)
            }
        } else {
            if self.create || self.create_new {
                if self.truncate {
                    Ok(OpenPlan::Truncate)
                } else {
                    Ok(OpenPlan::Create)
                }
            } else {
                Err(Error::NotFound)
            }
        }
    }
}

impl<S: DataStore> ObjectRepository<S> {
    /// Remove every block but the superblock from `store`.
    #[verifier::rlimit(50)]
    fn wipe(store: &mut S) -> (result: Result<(), Error>)
        ensures
            final(store).reliable() == old(store).reliable(),
            forall|id: BlockId|
                #![trigger final(store).blocks().dom().contains(id)]
                final(store).blocks().dom().contains(id) ==> old(store).blocks().dom().contains(id)
                    && final(store).blocks()[id] == old(store).blocks()[id],
            old(store).blocks().dom().contains(0) ==> final(store).blocks().dom().contains(0),
            result is Ok ==> forall|id: BlockId|
                #![trigger final(store).blocks().dom().contains(id)]
                final(store).blocks().dom().contains(id) ==> id == 0,
            old(store).reliable() ==> result is Ok,
    {
        let ids = match store.list_blocks() {
            Ok(ids) => ids,
            Err(error) => {
                return Err(error);
            },
        };
        let ghost before = store.blocks();
        let mut n: usize = 0;
        while n < ids.len()
            invariant
                n <= ids@.len(),
                store.reliable() == old(store).reliable(),
                before == old(store).blocks(),
                forall|id: BlockId| ids@.contains(id) <==> before.contains_key(id),
                forall|id: BlockId|
                    #![trigger store.blocks().dom().contains(id)]
                    store.blocks().dom().contains(id) ==> before.dom().contains(id)
                        && store.blocks()[id] == before[id],
                before.dom().contains(0) ==> store.blocks().dom().contains(0),
                forall|k: int|
                    0 <= k < n && store.blocks().dom().contains(#[trigger] ids@[k]) ==> ids@[k]
                        == 0,
            decreases ids@.len() - n,
        {
            let id = ids[n];
            if id != 0 {
                let ghost current = store.blocks();
                match store.remove_block(id) {
                    Ok(()) => {},
                    Err(error) => {
                        return Err(error);
                    },
                }
                proof {
                    assert forall|k: int|
                        0 <= k < n + 1 && store.blocks().dom().contains(
                            #[trigger] ids@[k],
                        ) implies ids@[k] == 0 by {
                        if k < n {
                            assert(current.dom().contains(ids@[k]));
                        }
                    }
                }
            }
            n += 1;
        }
        proof {
            assert forall|id: BlockId|
                #![trigger store.blocks().dom().contains(id)]
                store.blocks().dom().contains(id) implies id == 0 by {
                assert(before.dom().contains(id));
                assert(ids@.contains(id));
                let k = choose|k: int| 0 <= k < ids@.len() && ids@[k] == id;
                assert(store.blocks().dom().contains(ids@[k]));
            }
        }
        Ok(())
    }

    /// Open the repository in `store` as `options` say: open what is there,
    /// create a repository where there is none, or empty the store and create
    /// one. A repository that is created gets the configuration, the
    /// identifier and the creation time given, and every repository the
    /// number `instance` for its savepoints. On a store that does not
    /// fail, creating succeeds exactly with a valid configuration, and
    /// opening succeeds at least where the store publishes the header of a
    /// well-formed repository.
    #[verifier::rlimit(50)]
    pub fn open_with(
        store: S,
        options: OpenOption,
        config: crate::metadata::RepositoryConfig,
        id: u128,
        creation_time: crate::metadata::Timestamp,
        instance: u128,
    ) -> (result: Result<Self, Error>)
        ensures
            match result {
                Ok(repository) => {
                    &&& repository.wf()
                    &&& repository.instance == instance
                    &&& repository.anchored()
                    &&& repository.clean
                    &&& repository.transaction == 0
                    &&& options.plan_for(store.blocks().contains_key(0)) is Ok || !store.reliable()
                    &&& options.plan_for(store.blocks().contains_key(0)) == Ok::<OpenPlan, Error>(
                        OpenPlan::Open,
                    ) && store.reliable() ==> repository.store == store
                    &&& options.plan_for(store.blocks().contains_key(0)) != Ok::<OpenPlan, Error>(
                        OpenPlan::Open,
                    ) && store.reliable() ==> repository.header.objects@.len() == 0
                        && repository.durable() && repository.consistent()
                        && repository.header.metadata@.id == id
                        && repository.header.metadata@.config == config
                },
                Err(error) => store.reliable() ==> match options.plan_for(
                    store.blocks().contains_key(0),
                ) {
                    Ok(plan) => if plan == OpenPlan::Open {
                        error == if exists|header: Header|
                            crate::publish::published(store.blocks()) == Some(
                                crate::encoding::wire_of(&header),
                            ) {
                            Error::Corrupt
                        } else {
                            crate::publish::refusal(store.blocks())
                        }
                    } else {
                        error == Error::InvalidInput
                    },
                    Err(refused) => error == refused,
                },
            },
            store.reliable() ==> match options.plan_for(store.blocks().contains_key(0)) {
                Ok(plan) => if plan == OpenPlan::Open {
                    forall|published: Self|
                        #![trigger published.anchored()]
                        published.wf() && published.anchored() && published.store.blocks()
                            == store.blocks() ==> result is Ok && result->Ok_0.header@
                            == published.committed@
                } else {
                    result is Ok <==> config.valid()
                },
                Err(_) => result is Err,
            },
    {
        let present = match store.read_block(crate::block::SUPERBLOCK_ID) {
            Ok(found) => found.is_some(),
            Err(error) => {
                return Err(error);
            },
        };
        match options.plan(present) {
            Err(error) => Err(error),
            Ok(OpenPlan::Open) => Self::open(store, instance),
            Ok(OpenPlan::Create) => Self::create(store, config, id, creation_time, instance),
            Ok(OpenPlan::Truncate) => {
                let mut store = store;
                match Self::wipe(&mut store) {
                    Ok(()) => {},
                    Err(error) => {
                        return Err(error);
                    },
                }
                Self::create(store, config, id, creation_time, instance)
            },
        }
    }
}

} // verus!
