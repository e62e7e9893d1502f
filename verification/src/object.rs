//! Reading, writing and seeking in the object stored under a key.
//!
//! An object's chunks cannot be changed in place. A write therefore buffers
//! what it is given, together with the bytes of the first chunk it touches
//! that lie before the write, and hands complete chunks to the repository as
//! the chunker finds their boundaries. Only `flush` puts the new chunks into
//! the object's chunk list, in place of the chunks that the write ran over.

use vstd::prelude::*;
use vstd::slice::{slice_subrange, slice_to_vec};
use crate::chunking::{complete_chunks, concat, last_chunk, remainder, IncrementalChunker};
use crate::error::Error;
use crate::handle::{chunk_start, total_size, Chunk, ChunkLocation, ObjectHandle};
use crate::hash::blake2b_256;
use crate::header::{chunks_readable, lemma_object_data_len, lemma_object_data_split};
use crate::repository::ObjectRepository;
use crate::store::DataStore;

verus! {

/// What an object is to its user: a string of bytes and a position in it.
pub struct ObjectModel {
    /// The bytes of the object, pending writes included.
    pub contents: Seq<u8>,
    /// The seek position.
    pub position: nat,
}

/// The smaller of two numbers.
pub open spec fn at_most(a: int, b: int) -> int {
    if a <= b {
        a
    } else {
        b
    }
}

impl ObjectModel {
    /// The object after `data` was written at the position: `data` takes the
    /// place of as many bytes as it has, or of all that are left, and the
    /// position moves behind it.
    pub open spec fn written(self, data: Seq<u8>) -> ObjectModel {
        ObjectModel {
            contents: self.contents.take(self.position as int) + data + self.contents.skip(
                at_most((self.position + data.len()) as int, self.contents.len() as int),
            ),
            position: self.position + data.len(),
        }
    }

    /// The object with the position moved to `position`, or to the end where
    /// `position` lies behind it.
    pub open spec fn moved(self, position: nat) -> ObjectModel {
        ObjectModel {
            contents: self.contents,
            position: at_most(position as int, self.contents.len() as int) as nat,
        }
    }

    /// The object after a seek, where the seek is not refused.
    pub open spec fn sought(self, pos: SeekFrom) -> Option<ObjectModel> {
        match seek_target(self.contents.len(), self.position, pos) {
            Some(position) => Some(ObjectModel { contents: self.contents, position }),
            None => None,
        }
    }

    /// The object cut down to `length` bytes, with the position at its new
    /// end; an object that is not longer than `length` stays as it is.
    pub open spec fn truncated(self, length: nat) -> ObjectModel {
        if length >= self.contents.len() {
            self
        } else {
            ObjectModel { contents: self.contents.take(length as int), position: length }
        }
    }
}

/// Writing behind what a pending write has buffered is writing at the
/// position.
pub proof fn lemma_written_model(
    stored: Seq<u8>,
    start: int,
    buffered: Seq<u8>,
    position: int,
    data: Seq<u8>,
)
    requires
        0 <= start <= stored.len(),
        position == start + buffered.len(),
    ensures
        ({
            let before = stored.take(start) + buffered + stored.skip(
                at_most(position, stored.len() as int),
            );
            let after = stored.take(start) + (buffered + data) + stored.skip(
                at_most(position + data.len(), stored.len() as int),
            );
            &&& before.len() >= position
            &&& after == before.take(position) + data + before.skip(
                at_most(position + data.len(), before.len() as int),
            )
        }),
{
    let size = stored.len() as int;
    let before = stored.take(start) + buffered + stored.skip(at_most(position, size));
    let after = stored.take(start) + (buffered + data) + stored.skip(
        at_most(position + data.len(), size),
    );
    let head = stored.take(start) + buffered;
    assert(before.take(position) =~= head);
    if position >= size {
        assert(before.skip(at_most(position + data.len(), before.len() as int)) =~= Seq::<
            u8,
        >::empty());
        assert(stored.skip(at_most(position + data.len(), size)) =~= Seq::<u8>::empty());
    } else {
        let cut = at_most(position + data.len(), size);
        assert(before.len() == size);
        assert(before.skip(cut) =~= stored.skip(cut));
    }
    assert(after =~= before.take(position) + data + before.skip(
        at_most(position + data.len(), before.len() as int),
    ));
}

/// The bytes before a position in a chunk, put behind the bytes of the
/// chunks before it, are the bytes of the object up to the position.
pub proof fn lemma_prefix_model(
    stored: Seq<u8>,
    front: Seq<u8>,
    data: Seq<u8>,
    back: Seq<u8>,
    offset: int,
)
    requires
        stored == front + data + back,
        0 <= offset <= data.len(),
    ensures
        stored.take(front.len() as int) == front,
        stored.take(front.len() as int) + data.take(offset) + stored.skip(front.len() + offset)
            == stored,
        stored.take(front.len() + offset) + data.skip(offset) + back == stored,
        stored.skip((front.len() + data.len()) as int) == back,
        data.take(offset) == stored.subrange(front.len() as int, front.len() + offset),
        data.skip(offset) == stored.subrange(front.len() + offset, (front.len()
            + data.len()) as int),
{
    assert(data.take(offset) =~= stored.subrange(front.len() as int, front.len() + offset));
    assert(data.skip(offset) =~= stored.subrange(front.len() + offset, (front.len()
        + data.len()) as int));
    assert(stored.take(front.len() as int) =~= front);
    assert(stored.take(front.len() as int) + data.take(offset) + stored.skip(front.len() + offset)
        =~= stored);
    assert(stored.take(front.len() + offset) + data.skip(offset) + back =~= stored);
    assert(stored.skip((front.len() + data.len()) as int) =~= back);
}

/// Where to seek to in an object.
#[derive(Debug, Clone, Copy, PartialEq, Eq, Structural)]
pub enum SeekFrom {
    /// The position that many bytes from the start.
    Start(u64),
    /// The position that many bytes before the end.
    End(i64),
    /// The position that many bytes behind the current one, or before it
    /// where the number is negative.
    Current(i64),
}

/// The position that a seek in an object of `size` bytes leads to from
/// `position`, or `None` where the seek is refused: a position before the
/// start of the object is refused, one behind its end becomes the end.
pub open spec fn seek_target(size: nat, position: nat, pos: SeekFrom) -> Option<nat> {
    match pos {
        SeekFrom::Start(offset) => Some(at_most(offset as int, size as int) as nat),
        SeekFrom::End(offset) => if offset < 0 || offset > size {
            None
        } else {
            Some((size - offset) as nat)
        },
        SeekFrom::Current(offset) => if position + offset < 0 {
            None
        } else {
            Some(at_most(position + offset, size as int) as nat)
        },
    }
}

/// Whether `chunks` are the descriptors of `pieces`: each names the size and
/// the digest of its piece.
pub open spec fn described_by(chunks: Seq<Chunk>, pieces: Seq<Seq<u8>>) -> bool {
    &&& chunks.len() == pieces.len()
    &&& forall|i: int|
        0 <= i < chunks.len() ==> (#[trigger] chunks[i]).size == pieces[i].len() && chunks[i].hash@
            == blake2b_256(pieces[i])
}

/// Chunks that describe pieces are together as large as the pieces.
pub proof fn lemma_described_size(chunks: Seq<Chunk>, pieces: Seq<Seq<u8>>)
    requires
        described_by(chunks, pieces),
    ensures
        total_size(chunks) == concat(pieces).len(),
    decreases chunks.len(),
{
    if chunks.len() > 0 {
        assert forall|i: int| 0 <= i < chunks.drop_last().len() implies (
        #[trigger] chunks.drop_last()[i]).size == pieces.drop_last()[i].len()
            && chunks.drop_last()[i].hash@ == blake2b_256(pieces.drop_last()[i]) by {
            assert(chunks.drop_last()[i] == chunks[i]);
        }
        lemma_described_size(chunks.drop_last(), pieces.drop_last());
        assert(chunks.last() == chunks[chunks.len() - 1]);
    }
}

/// What a flush leaves is what the pending write had made of the object.
pub proof fn lemma_flushed_model(
    stored: Seq<u8>,
    start: int,
    buffered: Seq<u8>,
    target: int,
    end: int,
)
    requires
        0 <= start <= target <= end <= stored.len(),
    ensures
        stored.take(start) + (buffered + stored.subrange(target, end)) + stored.skip(end)
            == stored.take(start) + buffered + stored.skip(target),
{
    assert(stored.take(start) + (buffered + stored.subrange(target, end)) + stored.skip(end)
        =~= stored.take(start) + buffered + stored.skip(target));
}

/// A handle for accessing data in a repository.
///
/// What an object remembers, for the proofs only, of the chunks that it has
/// stored. Only the operations of the object write to it.
pub struct WriteLog {
    pieces: Ghost<Seq<Seq<u8>>>,
    faithful: Ghost<bool>,
}

impl WriteLog {
    /// The plaintext of each chunk that the pending write has stored.
    pub closed spec fn pieces(&self) -> Seq<Seq<u8>> {
        self.pieces@
    }

    /// Whether every chunk that was stored went under its digest with its
    /// own bytes.
    pub closed spec fn faithful(&self) -> bool {
        self.faithful@
    }
}

/// An `Object` represents the data associated with a key in an
/// `ObjectRepository`. Data written to it reaches the repository's key map
/// when `flush` is called; an object that is dropped with a write pending
/// leaves the key map as it was.
pub struct Object<'a, S: DataStore> {
    /// The repository where chunks are stored.
    pub repository: &'a mut ObjectRepository<S>,
    /// The index of this object's entry among the repository's objects.
    pub entry: usize,
    /// A value responsible for buffering and chunking data which has been
    /// written.
    pub chunker: IncrementalChunker,
    /// The list of chunks which have been written since `flush` was last
    /// called.
    pub new_chunks: Vec<Chunk>,
    /// What the object remembers of the chunks it has stored.
    pub log: WriteLog,
    /// The location of the first chunk written to since `flush` was last
    /// called.
    pub start_location: ChunkLocation,
    /// Whether data has been written since `flush` was last called.
    pub writing: bool,
    /// Whether a write broke off half way. Such an object takes no more
    /// writes; the key map still holds what the last `flush` left.
    pub failed: bool,
    /// The current seek position of the object.
    pub position: u64,
}

impl<'a, S: DataStore> Object<'a, S> {
    /// The plaintext of each chunk that the pending write has stored, in
    /// the order of the bytes.
    pub open spec fn pieces(&self) -> Seq<Seq<u8>> {
        self.log.pieces()
    }

    /// Whether every chunk that this object has stored went under its digest
    /// with its own bytes. That is so unless the digest of a new chunk was
    /// that of a chunk with other bytes.
    pub open spec fn faithful(&self) -> bool {
        self.log.faithful()
    }

    /// The repository as this object sees it.
    pub open spec fn repo(&self) -> ObjectRepository<S> {
        *self.repository
    }

    /// The handle of this object in the key map.
    pub open spec fn handle(&self) -> ObjectHandle {
        self.repository.header.objects@[self.entry as int].handle
    }

    /// The chunks of this object as of the last flush.
    pub open spec fn chunks(&self) -> Seq<Chunk> {
        self.handle().chunks@
    }

    /// The key of this object.
    pub open spec fn key(&self) -> Seq<u8> {
        self.repository.header.objects@[self.entry as int].key@
    }

    /// The bytes of this object as of the last flush.
    pub open spec fn stored(&self) -> Seq<u8> {
        self.repository.bytes_of(self.chunks())
    }

    /// The bytes that the pending write has buffered: those of the first
    /// chunk it touched that lie before it, then what was written.
    pub open spec fn buffered(&self) -> Seq<u8> {
        concat(self.pieces()) + self.chunker.pending()
    }

    /// The bytes of this object with the pending write applied.
    pub open spec fn contents(&self) -> Seq<u8> {
        if self.writing {
            self.stored().take(self.start_location.start as int) + self.buffered()
                + self.stored().skip(at_most(self.position as int, self.handle().size as int))
        } else {
            self.stored()
        }
    }

    /// What this object is to its user.
    pub open spec fn model(&self) -> ObjectModel {
        ObjectModel { contents: self.contents(), position: self.position as nat }
    }

    /// The invariant of an object that took every write in full.
    pub open spec fn intact(&self) -> bool {
        &&& self.chunker.wf()
        &&& self.chunker.bits() == self.repository.header.metadata@.config.chunker_bits
        &&& self.chunker.ready().len() == 0
        &&& if self.writing {
            &&& self.faithful() ==> self.holds_pieces()
            &&& described_by(self.new_chunks@, self.pieces())
            &&& forall|i: int| 0 <= i < self.pieces().len()
                ==> (#[trigger] self.pieces()[i]).len() > 0
            &&& self.start_location.index <= self.chunks().len()
            &&& self.start_location.start == chunk_start(
                self.chunks(),
                self.start_location.index as int,
            )
            &&& self.chunks().len() > 0 ==> self.start_location.locates(
                self.chunks(),
                self.start_location.position as nat,
            )
            &&& self.chunks().len() == 0 ==> self.start_location.index == 0
            &&& self.start_location.start <= self.start_location.position <= self.handle().size
            &&& self.position == self.start_location.start + concat(self.pieces()).len()
                + self.chunker.pending().len()
            &&& self.start_location.position <= self.position
        } else {
            &&& self.new_chunks@.len() == 0
            &&& self.chunker.pending().len() == 0
            &&& self.position <= self.handle().size
        }
    }

    /// The invariant of an object.
    pub open spec fn wf(&self) -> bool {
        &&& self.repository.state_wf(self.new_chunks@)
        &&& self.repository.settled()
        &&& self.entry < self.repository.header.objects@.len()
        &&& !self.failed ==> self.intact()
    }

    /// Return the size of the object in bytes, as of the last flush.
    pub fn size(&self) -> (size: u64)
        requires
            self.wf(),
        ensures
            size == self.handle().size,
            size == total_size(self.chunks()),
    {
        self.repository.header.objects[self.entry].handle.size
    }

    /// Return the location of the chunk at the current seek position.
    pub fn current_chunk(&self) -> (found: Option<ChunkLocation>)
        requires
            self.wf(),
        ensures
            found is Some <==> self.chunks().len() > 0 && self.position <= self.handle().size,
            found is Some ==> found->0.locates(self.chunks(), self.position as nat),
    {
        self.repository.header.objects[self.entry].handle.locate(self.position)
    }

    /// Whether the store holds the plaintext of every chunk that the pending
    /// write has stored, under that chunk's digest.
    pub open spec fn holds_pieces(&self) -> bool {
        self.repository.holds(self.pieces())
    }

    /// What `feed` and `finish` need of an object and leave in place: the
    /// repository and the chunker are well-formed, and the new chunks are the
    /// descriptors of the pieces.
    pub open spec fn feedable(&self) -> bool {
        &&& self.repository.state_wf(self.new_chunks@)
        &&& self.entry < self.repository.header.objects@.len()
        &&& self.chunker.wf()
        &&& self.chunker.bits() == self.repository.header.metadata@.config.chunker_bits
        &&& self.chunker.ready().len() == 0
        &&& described_by(self.new_chunks@, self.pieces())
        &&& forall|i: int| 0 <= i < self.pieces().len() ==> (#[trigger] self.pieces()[i]).len() > 0
        &&& self.faithful() ==> self.holds_pieces()
    }

    /// Whether `after` is this object with nothing changed but the chunker,
    /// the new chunks and what the repository lets a write change.
    pub open spec fn only_buffer_changed(&self, after: &Self) -> bool {
        &&& after.entry == self.entry
        &&& after.start_location == self.start_location
        &&& after.writing == self.writing
        &&& after.position == self.position
        &&& self.repository.only_chunks_changed(after.repository)
        &&& self.repository.chunks_kept(after.repository)
        &&& self.repository.consistent() ==> after.repository.consistent()
        &&& after.pieces().len() >= self.pieces().len()
        &&& after.pieces().take(self.pieces().len() as int) == self.pieces()
    }

    /// Whether this object has stored some more pieces since its repository
    /// was `repo`, it was `faithful` and had stored `pieces`: the repository
    /// knows no new digest but those of the new pieces and has kept what it
    /// knew, and the object is faithful exactly if it was and the store holds
    /// the new pieces, which it does if they collide with nothing.
    pub open spec fn stored_since(
        &self,
        repo: &ObjectRepository<S>,
        faithful: bool,
        pieces: Seq<Seq<u8>>,
    ) -> bool {
        let fresh = self.pieces().skip(pieces.len() as int);
        &&& self.pieces().len() >= pieces.len()
        &&& self.pieces().take(pieces.len() as int) == pieces
        &&& self.faithful() ==> self.repo().holds(self.pieces())
        &&& repo.grown_by(&self.repo(), fresh)
        &&& repo.chunks_kept(&self.repo())
        &&& self.faithful() ==> faithful
        &&& faithful && repo.collision_free(fresh) ==> self.faithful()
    }

    /// Whether this object is `before` with `fresh` stored behind the pieces
    /// that `before` had stored: the repository has grown by no more than
    /// they take, and holds them if they collided with nothing.
    pub open spec fn fed_since(&self, before: &Self, fresh: Seq<Seq<u8>>) -> bool {
        &&& self.pieces() == before.pieces() + fresh
        &&& self.fed_from(&before.repo(), fresh)
    }

    /// Whether the repository has got to where it is from `repo` by storing
    /// `fresh`.
    pub open spec fn fed_from(&self, repo: &ObjectRepository<S>, fresh: Seq<Seq<u8>>) -> bool {
        repo.stored(&self.repo(), fresh)
    }

    /// The bytes that a write at the seek position hands to the chunker
    /// before its own: what the pending write has buffered and not stored
    /// yet, or, where no write is pending, the bytes before the position in
    /// the chunk that holds it.
    pub open spec fn lead(&self) -> Seq<u8> {
        if self.writing {
            self.chunker.pending()
        } else if self.chunks().len() > 0 && self.position <= self.handle().size {
            let held = crate::handle::location_of(self.chunks(), self.position as nat);
            self.stored().subrange(held.start as int, self.position as int)
        } else {
            Seq::empty()
        }
    }

    /// Storing more pieces twice is storing more pieces once.
    #[verifier::rlimit(50)]
    pub proof fn lemma_stored_since_twice(
        repo: &ObjectRepository<S>,
        faithful: bool,
        pieces: Seq<Seq<u8>>,
        middle: &Self,
        after: &Self,
    )
        requires
            middle.stored_since(repo, faithful, pieces),
            after.stored_since(&middle.repo(), middle.faithful(), middle.pieces()),
        ensures
            after.stored_since(repo, faithful, pieces),
    {
        let base = pieces.len() as int;
        let first = middle.pieces().skip(base);
        let second = after.pieces().skip(middle.pieces().len() as int);
        let both = after.pieces().skip(base);
        assert forall|i: int| 0 <= i < middle.pieces().len() implies after.pieces()[i]
            == middle.pieces()[i] by {
            assert(after.pieces().take(middle.pieces().len() as int)[i] == middle.pieces()[i]);
        }
        assert forall|i: int| 0 <= i < base implies middle.pieces()[i] == pieces[i] by {
            assert(middle.pieces().take(base)[i] == pieces[i]);
        }
        assert(both =~= first + second);
        assert(after.pieces().take(base) =~= pieces);
        repo.lemma_grown_twice(&middle.repo(), &after.repo(), first, second);
        assert forall|hash: Seq<u8>|
            #![trigger after.repo().knows(hash)]
            #![trigger after.repo().data(hash)]
            repo.knows(hash) implies after.repo().knows(hash) && after.repo().data(hash)
            == repo.data(hash) by {
            assert(middle.repo().knows(hash));
            assert(middle.repo().data(hash) == repo.data(hash));
        }
        if faithful && repo.collision_free(both) {
            repo.lemma_collision_free_prefix(first, second);
            assert(middle.faithful());
            assert forall|i: int| 0 <= i < first.len() implies middle.repo().knows(
                blake2b_256(#[trigger] first[i]),
            ) && middle.repo().data(blake2b_256(first[i])) == first[i] by {
                assert(first[i] == middle.pieces()[base + i]);
            }
            repo.lemma_collision_free_step(&middle.repo(), first, second);
        }
    }

    /// Hand `data` to the chunker and store the chunks that it completes.
    #[verifier::rlimit(50)]
    fn feed(&mut self, data: &[u8]) -> (result: Result<(), Error>)
        requires
            old(self).feedable(),
            !old(self).failed,
        ensures
            *final(final(self).repository) == *final(old(self).repository),
            old(self).only_buffer_changed(final(self)),
            final(self).repository.state_wf(final(self).new_chunks@),
            match result {
                Ok(()) => {
                    &&& final(self).feedable()
                    &&& !final(self).failed
                    &&& final(self).buffered() == old(self).buffered() + data@
                    &&& final(self).stored_since(&old(self).repo(), old(self).faithful(), old(self).pieces())
                    &&& final(self).fed_since(
                        old(self),
                        complete_chunks(
                            old(self).chunker.bits(),
                            old(self).chunker.pending() + data@,
                        ),
                    )
                    &&& final(self).chunker.pending() == remainder(
                        old(self).chunker.bits(),
                        old(self).chunker.pending() + data@,
                    )
                },
                Err(_) => final(self).failed,
            },
            old(self).repo().welcomes(
                complete_chunks(old(self).chunker.bits(), old(self).chunker.pending() + data@),
            ) ==> result is Ok,
            old(self).repo().sound_for(
                complete_chunks(old(self).chunker.bits(), old(self).chunker.pending() + data@),
            ) && result is Err ==> result->Err_0 == Error::InvalidInput,
    {
        let ghost pending = self.chunker.pending();
        let ghost bits = self.chunker.bits();
        self.chunker.write(data);
        let ready = self.chunker.chunks();
        let ghost fresh = Seq::new(ready@.len(), |i: int| ready@[i]@);
        proof {
            assert(fresh =~= complete_chunks(bits, pending + data@));
            crate::chunking::lemma_chunks_make_up_data(bits, pending + data@);
        }
        let ghost before = *self.repository;
        match self.repository.store_chunks(&ready, &mut self.new_chunks) {
            Err(error) => {
                self.failed = true;
                proof {
                    assert(self.pieces().take(self.pieces().len() as int) =~= self.pieces());
                }
                Err(error)
            },
            Ok(()) => {
                let ghost earlier = self.pieces();
                self.log.pieces = Ghost(earlier + fresh);
                let ghost still = self.faithful() && self.repository.holds(fresh);
                self.log.faithful = Ghost(still);
                proof {
                    assert(self.pieces().take(earlier.len() as int) =~= earlier);
                    assert(self.pieces().skip(earlier.len() as int) =~= fresh);
                    if self.faithful() {
                        before.lemma_holds_kept(self.repository, earlier);
                        assert forall|i: int| 0
                            <= i < self.pieces().len() implies self.repository.knows(
                            blake2b_256(#[trigger] self.pieces()[i]),
                        ) && self.repository.data(blake2b_256(self.pieces()[i]))
                            == self.pieces()[i] by {
                            if i < earlier.len() {
                                assert(self.pieces()[i] == earlier[i]);
                            } else {
                                assert(self.pieces()[i] == fresh[i - earlier.len()]);
                            }
                        }
                    }
                    assert(fresh == complete_chunks(bits, pending + data@));
                    crate::chunking::lemma_concat_append(earlier, fresh);
                    let left = self.chunker.pending();
                    assert(left == remainder(bits, pending + data@));
                    assert(concat(fresh) + left == pending + data@);
                    assert(concat(earlier) + concat(fresh) + left =~= concat(earlier) + (concat(
                        fresh,
                    ) + left));
                    assert(concat(earlier) + (pending + data@) =~= concat(earlier) + pending
                        + data@);
                    assert(self.buffered() == old(self).buffered() + data@);
                    assert(described_by(self.new_chunks@, self.pieces())) by {
                        assert forall|i: int| 0 <= i < self.new_chunks@.len() implies (
                        #[trigger] self.new_chunks@[i]).size == self.pieces()[i].len()
                            && self.new_chunks@[i].hash@ == blake2b_256(self.pieces()[i]) by {
                            if i < earlier.len() {
                                assert(self.new_chunks@[i] == self.new_chunks@.take(
                                    earlier.len() as int,
                                )[i]);
                            } else {
                                assert(self.new_chunks@[i] == self.new_chunks@[earlier.len() + (i
                                    - earlier.len())]);
                            }
                        }
                    }
                }
                Ok(())
            },
        }
    }

    /// In a consistent repository the stored bytes are as many as the handle
    /// says, and the contents reach at least to the position.
    pub proof fn lemma_contents_len(&self)
        requires
            self.wf(),
            !self.failed,
            self.repo().consistent(),
        ensures
            self.stored().len() == self.handle().size,
            self.position <= self.contents().len(),
            self.writing ==> self.contents().len() == self.position + self.handle().size - at_most(
                self.position as int,
                self.handle().size as int,
            ),
            !self.writing ==> self.contents().len() == self.handle().size,
    {
        self.repository.lemma_readable(self.new_chunks@, self.entry as int);
    }

    /// The stored bytes around the chunk at `index`: the chunks before it
    /// fill the object up to the chunk's start, and the chunk's plaintext
    /// follows.
    pub proof fn lemma_stored_around(&self, index: int)
        requires
            self.repo().state_wf(self.new_chunks@),
            self.entry < self.repo().header.objects@.len(),
            self.repo().consistent(),
            0 <= index < self.chunks().len(),
        ensures
            self.stored() == self.repo().bytes_of(self.chunks().take(index))
                + self.repo().data(self.chunks()[index].hash@) + self.repo().bytes_of(
                self.chunks().skip(index + 1),
            ),
            self.repo().bytes_of(self.chunks().take(index)).len() == chunk_start(
                self.chunks(),
                index,
            ),
            self.repo().data(self.chunks()[index].hash@).len() == self.chunks()[index].size,
            self.stored().len() == self.handle().size,
    {
        let chunks = self.chunks();
        let blocks = self.repository.store.blocks();
        let codec = self.repository.codec();
        let table = self.repository.header.chunks@;
        self.repository.lemma_readable(self.new_chunks@, self.entry as int);
        lemma_object_data_split(blocks, codec, table, chunks, index);
        assert(chunks_readable(blocks, codec, table, chunks.take(index))) by {
            assert forall|j: int| 0 <= j < chunks.take(index).len() implies {
                &&& crate::header::has_chunk(table, (#[trigger] chunks.take(index)[j]).hash@)
                &&& crate::header::chunk_data(blocks, codec, table, chunks.take(index)[j].hash@).len()
                    == chunks.take(index)[j].size
                &&& blake2b_256(
                    crate::header::chunk_data(blocks, codec, table, chunks.take(index)[j].hash@),
                ) == chunks.take(index)[j].hash@
            } by {
                assert(chunks.take(index)[j] == chunks[j]);
            }
        }
        lemma_object_data_len(blocks, codec, table, chunks.take(index));
    }

    /// The bytes behind the pending write in the last chunk that it ran
    /// over.
    pub open spec fn rest(&self) -> Seq<u8> {
        let target = at_most(self.position as int, self.handle().size as int);
        if self.chunks().len() > 0 {
            let held = crate::handle::location_of(self.chunks(), target as nat);
            self.stored().subrange(target, held.end as int)
        } else {
            Seq::empty()
        }
    }

    /// The chunk that `truncate` stores where it cuts a flushed object down
    /// to `length`: the bytes before `length` in the chunk that holds it,
    /// unless there are none.
    pub open spec fn cut(&self, length: nat) -> Seq<Seq<u8>> {
        let held = crate::handle::location_of(self.chunks(), length);
        last_chunk(self.stored().subrange(held.start as int, length as int))
    }

    /// The index of the chunk that a write at the seek position starts in:
    /// that of the first chunk that the pending write ran over, or, where no
    /// write is pending, that of the chunk at the position.
    pub open spec fn start_index(&self) -> int {
        if self.writing {
            self.start_location.index as int
        } else if self.chunks().len() > 0 {
            crate::handle::location_of(self.chunks(), self.position as nat).index as int
        } else {
            0
        }
    }

    /// Whether this object is `before` with `data` handed to the chunker:
    /// the chunks that `data` completed are stored and remembered behind
    /// those that the pending write had stored, and the chunker holds what
    /// is left. The object is faithful if it was and the new pieces
    /// collided with nothing.
    pub open spec fn fed_with(&self, before: &Self, data: Seq<u8>) -> bool {
        let fresh = complete_chunks(before.chunker.bits(), before.lead() + data);
        &&& self.pieces() == (if before.writing {
            before.pieces()
        } else {
            Seq::empty()
        }) + fresh
        &&& self.chunker.bits() == before.chunker.bits()
        &&& self.chunker.pending() == remainder(before.chunker.bits(), before.lead() + data)
        &&& self.start_location.index == before.start_index()
        &&& before.repo().stored(&self.repo(), fresh)
        &&& before.faithful() && before.repo().collision_free(fresh) ==> self.faithful()
        &&& self.faithful() ==> before.faithful()
    }

    /// The index behind the last chunk that the pending write ran over.
    pub open spec fn upto(&self) -> int {
        if self.chunks().len() > 0 {
            crate::handle::location_of(
                self.chunks(),
                at_most(self.position as int, self.handle().size as int) as nat,
            ).index + 1
        } else {
            0
        }
    }

    /// Whether this object is `before` with its pending write put into the
    /// chunk list: the chunks that describe the pieces which the write had
    /// stored and those that the flush stored stand in place of the chunks
    /// that the write ran over, the chunks before and behind them are as
    /// they were, and the repository knows no new chunk but those. The
    /// object is faithful if it was and the pieces left to store collided
    /// with nothing, and a faithful object's pieces are all held.
    pub open spec fn spliced_from(&self, before: &Self) -> bool {
        let all = before.pieces() + before.closing();
        let start = before.start_location.index as int;
        &&& self.pieces() == all
        &&& self.chunks().len() == start + all.len() + (before.chunks().len() - before.upto())
        &&& self.chunks().take(start) == before.chunks().take(start)
        &&& described_by(self.chunks().subrange(start, start + all.len()), all)
        &&& self.chunks().skip(start + all.len()) == before.chunks().skip(before.upto())
        &&& before.repo().grown_by(&self.repo(), before.closing())
        &&& before.start_location.index == before.upto() ==> before.repo().chunks_kept(
            &self.repo(),
        )
        &&& before.chunks().len() == 0 && before.repo().knows_all(before.closing())
            ==> before.repo().same_room(&self.repo())
        &&& before.faithful() && before.repo().collision_free(before.closing())
            ==> self.faithful()
        &&& self.faithful() ==> before.faithful() && self.repo().holds(all)
    }

    /// Whether this object is the flushed object `before` cut down to
    /// `length` bytes, which is less than it had: the chunks before the one
    /// that holds the new end are as they were, the chunk that `truncate`
    /// stored, if it stored one, is the last, and the repository knows no
    /// new chunk but that. The object is faithful if it was and the chunk
    /// collided with nothing, and a faithful object's new chunk is held.
    pub open spec fn cut_from(&self, before: &Self, length: nat) -> bool {
        let index = crate::handle::location_of(before.chunks(), length).index as int;
        let kept = before.cut(length);
        &&& self.pieces() == kept
        &&& self.chunks().len() == index + kept.len()
        &&& self.chunks().take(index) == before.chunks().take(index)
        &&& described_by(self.chunks().skip(index), kept)
        &&& before.repo().grown_by(&self.repo(), kept)
        &&& before.faithful() && before.repo().collision_free(kept) ==> self.faithful()
        &&& self.faithful() ==> before.faithful() && self.repo().holds(kept)
    }

    /// Whether this object is `before` with its pending write flushed, the
    /// seek position aside. Without a pending write it is `before`. With
    /// one, it is as large as the write has made it, its chunk list is the
    /// old one with the written chunks put in, and a faithful object holds
    /// what `before` held with the write applied.
    pub open spec fn flushed_from(&self, before: &Self) -> bool {
        &&& !self.writing
        &&& !self.failed
        &&& !before.failed
        &&& self.entry == before.entry
        &&& if before.writing {
            &&& self.handle().size == if before.position > before.handle().size {
                before.position
            } else {
                before.handle().size
            }
            &&& before.repo().consistent() ==> self.spliced_from(before)
            &&& before.repo().consistent() && self.faithful() ==> self.contents()
                == before.contents()
        } else {
            &&& self.repo() == before.repo()
            &&& self.faithful() == before.faithful()
        }
    }

    /// The chunks that `flush` stores for the pending write: those of what
    /// is buffered and of the bytes behind it.
    pub open spec fn closing(&self) -> Seq<Seq<u8>> {
        let stream = self.chunker.pending() + self.rest();
        complete_chunks(self.chunker.bits(), stream) + last_chunk(
            remainder(self.chunker.bits(), stream),
        )
    }

    /// In a consistent repository on a store that does not fail, each chunk
    /// of the object can be read.
    pub proof fn lemma_chunk_readable(&self, index: int)
        requires
            self.repo().state_wf(self.new_chunks@),
            self.entry < self.repo().header.objects@.len(),
            self.repo().consistent(),
            0 <= index < self.chunks().len(),
        ensures
            self.repo().knows(self.chunks()[index].hash@),
            match crate::header::payload(
                self.repo().store.blocks(),
                self.repo().codec(),
                crate::header::chunk_entry(self.repo().header.chunks@, self.chunks()[index].hash@),
            ) {
                Some(plain) => plain.len() == self.chunks()[index].size && blake2b_256(plain)
                    == self.chunks()[index].hash@,
                None => false,
            },
    {
        let table = self.repository.header.chunks@;
        let hash = self.chunks()[index].hash@;
        self.repository.lemma_readable(self.new_chunks@, self.entry as int);
        assert(crate::header::has_chunk(table, hash));
        let c = crate::header::chunk_index(table, hash);
        assert(crate::header::chunk_at(table, hash, c));
        assert(crate::header::entry_sound(
            self.repository.store.blocks(),
            self.repository.codec(),
            table[c],
        ));
    }

    /// Start a write at the seek position: note the chunk that holds the
    /// position and buffer the bytes of that chunk that lie before it.
    #[verifier::rlimit(50)]
    fn begin_write(&mut self) -> (result: Result<(), Error>)
        requires
            old(self).wf(),
            !old(self).failed,
            !old(self).writing,
        ensures
            final(self).wf(),
            *final(final(self).repository) == *final(old(self).repository),
            final(self).entry == old(self).entry,
            final(self).position == old(self).position,
            old(self).repository.only_chunks_changed(final(self).repository),
            old(self).repository.chunks_kept(final(self).repository),
            old(self).repository.consistent() ==> final(self).repository.consistent(),
            match result {
                Ok(()) => {
                    &&& final(self).writing
                    &&& !final(self).failed
                    &&& old(self).repository.consistent() ==> final(self).contents()
                        == old(self).contents()
                    &&& final(self).stored_since(&old(self).repo(), old(self).faithful(), Seq::empty())
                    &&& final(self).start_location.index == old(self).start_index()
                    &&& old(self).repository.consistent() ==> {
                        &&& final(self).pieces() == complete_chunks(
                            old(self).chunker.bits(),
                            old(self).lead(),
                        )
                        &&& final(self).fed_from(&old(self).repo(), final(self).pieces())
                        &&& final(self).chunker.pending() == remainder(
                            old(self).chunker.bits(),
                            old(self).lead(),
                        )
                    }
                },
                Err(_) => true,
            },
            old(self).repo().welcomes(complete_chunks(old(self).chunker.bits(), old(self).lead()))
                ==> result is Ok,
            old(self).repo().sound_for(complete_chunks(old(self).chunker.bits(), old(self).lead()))
                && result is Err ==> result->Err_0 == Error::InvalidInput,
    {
        proof {
            old(self).repository.lemma_kept_reflexive();
        }
        let ghost bits = self.chunker.bits();
        let ghost lead = self.lead();
        let located = self.repository.header.objects[self.entry].handle.locate(self.position);
        match located {
            None => {
                self.start_location = ChunkLocation {
                    chunk: Chunk { size: 0, hash: [0u8;32] },
                    start: 0,
                    end: 0,
                    position: 0,
                    index: 0,
                };
                self.writing = true;
                self.log.pieces = Ghost(Seq::empty());
                proof {
                    assert(self.chunks().take(0) =~= Seq::<Chunk>::empty());
                    assert(total_size(self.chunks()) == 0);
                    assert(concat(self.pieces()) =~= Seq::<u8>::empty());
                    assert(self.pieces().skip(0) =~= Seq::<Seq<u8>>::empty());
                    assert(self.pieces().take(0) =~= Seq::<Seq<u8>>::empty());
                    assert(lead =~= Seq::<u8>::empty());
                    assert(complete_chunks(bits, lead) =~= Seq::<Seq<u8>>::empty());
                    assert(remainder(bits, lead) =~= Seq::<u8>::empty());
                    assert(concat(Seq::<Seq<u8>>::empty()) =~= Seq::<u8>::empty());
                    if self.repository.consistent() {
                        assert(self.stored() =~= Seq::<u8>::empty());
                        assert(self.contents() =~= old(self).contents());
                    }
                }
                Ok(())
            },
            Some(location) => {
                proof {
                    crate::handle::lemma_location_unique(self.chunks(), location);
                    if self.repository.consistent() {
                        self.lemma_stored_around(location.index as int);
                    }
                }
                let data = match self.repository.read_chunk(&location.chunk) {
                    Ok(data) => data,
                    Err(error) => {
                        proof {
                            if self.repository.consistent() && self.repository.store.reliable() {
                                self.lemma_chunk_readable(location.index as int);
                                assert(false);
                            }
                        }
                        return Err(error);
                    },
                };
                let offset = location.relative_position();
                self.start_location = location;
                self.writing = true;
                self.log.pieces = Ghost(Seq::empty());
                let ghost begun = *self;
                proof {
                    assert(concat(self.pieces()) =~= Seq::<u8>::empty());
                    assert(self.buffered() =~= Seq::<u8>::empty());
                    assert(self.chunker.pending() + data@.take(offset as int) =~= data@.take(
                        offset as int,
                    ));
                    if old(self).repository.consistent() {
                        assert(lead =~= data@.take(offset as int));
                    }
                }
                match self.feed(slice_subrange(data.as_slice(), 0, offset)) {
                    Err(error) => Err(error),
                    Ok(()) => {
                        proof {
                            let chunks = self.chunks();
                            let index = location.index as int;
                            assert(self.buffered() =~= data@.take(offset as int));
                            assert(self.pieces().skip(0) =~= self.pieces());
                            assert(begun.pieces() + self.pieces() =~= self.pieces());
                            if old(self).repository.consistent() {
                                old(self).lemma_stored_around(index);
                                old(self).repository.lemma_known(
                                    old(self).new_chunks@,
                                    self.entry as int,
                                );
                                old(self).repository.lemma_bytes_kept(self.repository, chunks);
                                let stored = old(self).stored();
                                lemma_prefix_model(
                                    stored,
                                    old(self).repository.bytes_of(chunks.take(index)),
                                    data@,
                                    old(self).repository.bytes_of(chunks.skip(index + 1)),
                                    offset as int,
                                );
                                assert(self.contents() == old(self).contents());
                            }
                        }
                        Ok(())
                    },
                }
            },
        }
    }

    /// Write `buf` at the seek position, over what the object holds there,
    /// and move the position behind it. The bytes reach the repository as
    /// chunks fill up; the object's chunk list changes when `flush` is called.
    ///
    /// The write succeeds where the repository welcomes the chunks that it
    /// completes: the store does not fail and holds every chunk of the
    /// table, there is room for the chunks, and their digests collide with
    /// nothing. An object that a failed write has left half-written takes
    /// no more writes.
    #[verifier::rlimit(50)]
    pub fn write(&mut self, buf: &[u8]) -> (result: Result<usize, Error>)
        requires
            old(self).wf(),
        ensures
            final(self).wf(),
            *final(final(self).repository) == *final(old(self).repository),
            final(self).entry == old(self).entry,
            old(self).repository.only_chunks_changed(final(self).repository),
            old(self).repository.chunks_kept(final(self).repository),
            old(self).repository.consistent() ==> final(self).repository.consistent(),
            match result {
                Ok(count) => {
                    &&& count == buf@.len()
                    &&& final(self).writing
                    &&& !final(self).failed
                    &&& !old(self).failed
                    &&& old(self).repository.consistent() ==> final(self).model()
                        == old(self).model().written(buf@)
                    &&& final(self).stored_since(
                        &old(self).repo(),
                        old(self).faithful(),
                        if old(self).writing {
                            old(self).pieces()
                        } else {
                            Seq::empty()
                        },
                    )
                    &&& final(self).position == old(self).position + buf@.len()
                    &&& old(self).repository.consistent() ==> final(self).fed_with(
                        old(self),
                        buf@,
                    )
                },
                Err(_) => old(self).failed ==> *final(self).repository == *old(self).repository,
            },
            old(self).repo().only_object_changed(&final(self).repo(), old(self).entry as int),
            old(self).failed || old(self).position + buf@.len() > u64::MAX ==> result
                == Err::<usize, Error>(Error::InvalidInput),
            !old(self).failed && old(self).position + buf@.len() <= u64::MAX
                && old(self).repo().welcomes(
                complete_chunks(old(self).chunker.bits(), old(self).lead() + buf@),
            ) ==> result is Ok,
            old(self).repo().sound_for(
                complete_chunks(old(self).chunker.bits(), old(self).lead() + buf@),
            ) && result is Err ==> result->Err_0 == Error::InvalidInput,
    {
        proof {
            old(self).repository.lemma_kept_reflexive();
            old(self).repository.lemma_object_unchanged(self.entry as int);
        }
        if self.failed {
            return Err(Error::InvalidInput);
        }
        if buf.len() as u64 > u64::MAX - self.position {
            return Err(Error::InvalidInput);
        }
        let ghost bits = self.chunker.bits();
        let ghost lead = self.lead();
        let ghost first = complete_chunks(bits, lead);
        let ghost second = complete_chunks(bits, remainder(bits, lead) + buf@);
        proof {
            crate::chunking::lemma_chunking_is_incremental(bits, lead, buf@);
            if old(self).repo().welcomes(first + second) {
                old(self).repository.lemma_welcomes_prefix(first, second);
            }
            if old(self).repo().sound_for(first + second) {
                old(self).repository.lemma_sound_prefix(first, second);
            }
        }
        if !self.writing {
            match self.begin_write() {
                Ok(()) => {},
                Err(error) => {
                    proof {
                        old(self).repository.lemma_object_kept(self.repository, self.entry as int);
                    }
                    return Err(error);
                },
            }
            proof {
                if old(self).repo().welcomes(first + second) {
                    old(self).repository.lemma_welcomes_step(self.repository, first, second);
                }
                if old(self).repo().sound_for(first + second) {
                    old(self).repository.lemma_sound_step(self.repository, first, second);
                }
            }
        }
        let ghost begun = *self;
        match self.feed(buf) {
            Ok(()) => {},
            Err(error) => {
                proof {
                    old(self).repository.lemma_kept_transitive(begun.repository, self.repository);
                    old(self).repository.lemma_object_kept(self.repository, self.entry as int);
                }
                return Err(error);
            },
        }
        self.position = self.position + buf.len() as u64;
        proof {
            old(self).repository.lemma_kept_transitive(begun.repository, self.repository);
            old(self).repository.lemma_object_kept(self.repository, self.entry as int);
            if old(self).repository.consistent() {
                if old(self).writing {
                    old(self).chunker.lemma_pending_is_open();
                    crate::chunking::lemma_no_boundary(bits, lead);
                    assert(first + second =~= second);
                    assert(self.pieces().skip(old(self).pieces().len() as int) =~= second);
                } else {
                    assert(self.pieces() =~= first + second);
                    assert(self.pieces().skip(0) =~= self.pieces());
                }
            }
            assert(begun.intact());
            assert(self.buffered().len() == begun.buffered().len() + buf@.len());
            assert(self.handle() == begun.handle());
            assert(self.intact());
            if !old(self).writing {
                Self::lemma_stored_since_twice(
                    &old(self).repo(),
                    old(self).faithful(),
                    Seq::empty(),
                    &begun,
                    self,
                );
            }
            if old(self).repository.consistent() {
                if !old(self).writing {
                    old(self).repository.lemma_stored_twice(
                        begun.repository,
                        self.repository,
                        first,
                        second,
                    );
                }
            }
            if old(self).repository.consistent() {
                begun.lemma_contents_len();
                begun.repository.lemma_known(begun.new_chunks@, self.entry as int);
                begun.repository.lemma_bytes_kept(self.repository, self.chunks());
                lemma_written_model(
                    begun.stored(),
                    begun.start_location.start as int,
                    begun.buffered(),
                    begun.position as int,
                    buf@,
                );
                assert(self.contents() == old(self).model().written(buf@).contents);
            }
        }
        Ok(buf.len())
    }

    /// End the chunker's stream and store the chunk that it leaves.
    #[verifier::rlimit(50)]
    fn finish(&mut self) -> (result: Result<(), Error>)
        requires
            old(self).feedable(),
            !old(self).failed,
        ensures
            *final(final(self).repository) == *final(old(self).repository),
            old(self).only_buffer_changed(final(self)),
            final(self).repository.state_wf(final(self).new_chunks@),
            match result {
                Ok(()) => {
                    &&& final(self).feedable()
                    &&& !final(self).failed
                    &&& final(self).chunker.pending().len() == 0
                    &&& concat(final(self).pieces()) == old(self).buffered()
                    &&& final(self).stored_since(&old(self).repo(), old(self).faithful(), old(self).pieces())
                    &&& final(self).fed_since(old(self), last_chunk(old(self).chunker.pending()))
                },
                Err(_) => final(self).failed,
            },
            old(self).repo().welcomes(last_chunk(old(self).chunker.pending())) ==> result is Ok,
            old(self).repo().sound_for(last_chunk(old(self).chunker.pending())) && result is Err
                ==> result->Err_0 == Error::InvalidInput,
    {
        let ghost pending = self.chunker.pending();
        self.chunker.flush();
        let ready = self.chunker.chunks();
        let ghost fresh = Seq::new(ready@.len(), |i: int| ready@[i]@);
        proof {
            assert(fresh =~= last_chunk(pending));
        }
        let ghost before = *self.repository;
        match self.repository.store_chunks(&ready, &mut self.new_chunks) {
            Err(error) => {
                self.failed = true;
                proof {
                    assert(self.pieces().take(self.pieces().len() as int) =~= self.pieces());
                }
                Err(error)
            },
            Ok(()) => {
                let ghost earlier = self.pieces();
                self.log.pieces = Ghost(earlier + fresh);
                let ghost still = self.faithful() && self.repository.holds(fresh);
                self.log.faithful = Ghost(still);
                proof {
                    assert(self.pieces().take(earlier.len() as int) =~= earlier);
                    assert(self.pieces().skip(earlier.len() as int) =~= fresh);
                    if self.faithful() {
                        before.lemma_holds_kept(self.repository, earlier);
                        assert forall|i: int| 0
                            <= i < self.pieces().len() implies self.repository.knows(
                            blake2b_256(#[trigger] self.pieces()[i]),
                        ) && self.repository.data(blake2b_256(self.pieces()[i]))
                            == self.pieces()[i] by {
                            if i < earlier.len() {
                                assert(self.pieces()[i] == earlier[i]);
                            } else {
                                assert(self.pieces()[i] == fresh[i - earlier.len()]);
                            }
                        }
                    }
                    assert(fresh =~= last_chunk(pending));
                    crate::chunking::lemma_concat_append(earlier, fresh);
                    if pending.len() == 0 {
                        assert(fresh =~= Seq::<Seq<u8>>::empty());
                        assert(concat(fresh) =~= Seq::<u8>::empty());
                        assert(concat(earlier) + concat(fresh) =~= concat(earlier) + pending);
                    } else {
                        assert(fresh =~= seq![pending]);
                        assert(fresh.drop_last() =~= Seq::<Seq<u8>>::empty());
                        assert(concat(fresh.drop_last()) =~= Seq::<u8>::empty());
                        assert(concat(fresh) =~= pending);
                    }
                    assert(described_by(self.new_chunks@, self.pieces())) by {
                        assert forall|i: int| 0 <= i < self.new_chunks@.len() implies (
                        #[trigger] self.new_chunks@[i]).size == self.pieces()[i].len()
                            && self.new_chunks@[i].hash@ == blake2b_256(self.pieces()[i]) by {
                            if i < earlier.len() {
                                assert(self.new_chunks@[i] == self.new_chunks@.take(
                                    earlier.len() as int,
                                )[i]);
                            } else {
                                assert(self.new_chunks@[i] == self.new_chunks@[earlier.len() + (i
                                    - earlier.len())]);
                            }
                        }
                    }
                }
                Ok(())
            },
        }
    }

    /// Pieces that the store held before chunks were replaced, and whose
    /// chunks are listed after, the store holds after.
    proof fn lemma_holds_after_replace(&self, after: &Self, chunks: Seq<Chunk>, pieces: Seq<Seq<u8>>)
        requires
            described_by(chunks, pieces),
            self.repo().holds(pieces),
            after.repo().chunks_kept(&self.repo()),
            forall|i: int| 0 <= i < chunks.len()
                ==> after.repo().knows((#[trigger] chunks[i]).hash@),
        ensures
            after.repo().holds(pieces),
    {
        assert forall|i: int| 0 <= i < pieces.len() implies after.repo().knows(
            blake2b_256(#[trigger] pieces[i]),
        ) && after.repo().data(blake2b_256(pieces[i])) == pieces[i] by {
            assert(chunks[i].hash@ == blake2b_256(pieces[i]));
            assert(after.repo().knows(chunks[i].hash@));
        }
    }

    /// What `flush` makes of an object with a pending write, where the store
    /// holds every new chunk under its digest.
    #[verifier::rlimit(50)]
    proof fn lemma_flush_contents(
        before: &Self,
        fed: &Self,
        after: &Self,
        upto: int,
        target: int,
        end: int,
    )
        requires
            before.wf(),
            !before.failed,
            before.writing,
            before.repo().consistent(),
            before.only_buffer_changed(fed),
            fed.feedable(),
            after.repo().holds(fed.pieces()),
            fed.repo().chunks_replaced(
                &after.repo(),
                before.entry as int,
                before.start_location.index as int,
                upto,
                fed.new_chunks@,
            ),
            after.repo().state_wf(Seq::empty()),
            after.entry == before.entry,
            !after.writing,
            before.start_location.index <= upto <= before.chunks().len(),
            target == at_most(before.position as int, before.handle().size as int),
            target <= end <= before.handle().size,
            end == chunk_start(before.chunks(), upto),
            concat(fed.pieces()) == before.buffered() + before.stored().subrange(target, end),
        ensures
            after.contents() == before.contents(),
    {
        let chunks = before.chunks();
        let start = before.start_location.index as int;
        let stored = before.stored();
        let old_repo = before.repo();
        let mid_repo = fed.repo();
        let new_repo = after.repo();
        let entry = before.entry as int;
        old_repo.lemma_readable(before.new_chunks@, entry);
        old_repo.lemma_known(before.new_chunks@, entry);
        old_repo.lemma_bytes_split(chunks, start);
        old_repo.lemma_bytes_split(chunks, upto);
        let front = chunks.take(start);
        let back = chunks.skip(upto);
        let spliced = after.chunks();
        assert(spliced == front + fed.new_chunks@ + back);
        new_repo.lemma_known(Seq::empty(), entry);
        crate::header::lemma_object_data_concat(
            new_repo.store.blocks(),
            new_repo.codec(),
            new_repo.header.chunks@,
            front,
            fed.new_chunks@,
        );
        crate::header::lemma_object_data_concat(
            new_repo.store.blocks(),
            new_repo.codec(),
            new_repo.header.chunks@,
            front + fed.new_chunks@,
            back,
        );
        new_repo.lemma_bytes_described(fed.new_chunks@, fed.pieces());
        assert forall|j: int| 0 <= j < front.len() implies new_repo.knows(
            (#[trigger] front[j]).hash@,
        ) && new_repo.data(front[j].hash@) == old_repo.data(front[j].hash@) by {
            assert(spliced[j] == front[j]);
            assert(front[j] == chunks[j]);
            assert(new_repo.knows(spliced[j].hash@));
            assert(mid_repo.knows(front[j].hash@));
            assert(old_repo.knows(chunks[j].hash@));
            assert(mid_repo.data(front[j].hash@) == old_repo.data(front[j].hash@));
        }
        assert forall|j: int| 0 <= j < back.len() implies new_repo.knows(
            (#[trigger] back[j]).hash@,
        ) && new_repo.data(back[j].hash@) == old_repo.data(back[j].hash@) by {
            let at = front.len() + fed.new_chunks@.len() + j;
            assert(spliced[at] == back[j]);
            assert(back[j] == chunks[upto + j]);
            assert(new_repo.knows(spliced[at].hash@));
            assert(mid_repo.knows(back[j].hash@));
            assert(old_repo.knows(chunks[upto + j].hash@));
            assert(mid_repo.data(back[j].hash@) == old_repo.data(back[j].hash@));
        }
        crate::header::lemma_object_data_same(
            new_repo.store.blocks(),
            new_repo.header.chunks@,
            old_repo.store.blocks(),
            old_repo.header.chunks@,
            old_repo.codec(),
            front,
        );
        crate::header::lemma_object_data_same(
            new_repo.store.blocks(),
            new_repo.header.chunks@,
            old_repo.store.blocks(),
            old_repo.header.chunks@,
            old_repo.codec(),
            back,
        );
        lemma_flushed_model(
            stored,
            before.start_location.start as int,
            before.buffered(),
            target,
            end,
        );
    }

    /// Buffer the bytes that lie behind the pending write in the last chunk
    /// that it ran over, and return the index behind that chunk.
    #[verifier::rlimit(50)]
    fn feed_rest(&mut self) -> (result: Result<usize, Error>)
        requires
            old(self).wf(),
            !old(self).failed,
            old(self).writing,
        ensures
            *final(final(self).repository) == *final(old(self).repository),
            final(self).repository.state_wf(final(self).new_chunks@),
            final(self).repository.settled(),
            old(self).repository.only_chunks_changed(final(self).repository),
            old(self).repository.chunks_kept(final(self).repository),
            old(self).repository.consistent() ==> final(self).repository.consistent(),
            final(self).entry == old(self).entry,
            final(self).position == old(self).position,
            final(self).start_location == old(self).start_location,
            final(self).writing,
            match result {
                Ok(upto) => {
                    let target = at_most(
                        old(self).position as int,
                        old(self).handle().size as int,
                    );
                    let end = chunk_start(old(self).chunks(), upto as int) as int;
                    &&& final(self).feedable()
                    &&& !final(self).failed
                    &&& final(self).stored_since(
                        &old(self).repo(),
                        old(self).faithful(),
                        old(self).pieces(),
                    )
                    &&& old(self).start_location.index <= upto <= old(self).chunks().len()
                    &&& upto == old(self).upto()
                    &&& target <= end <= old(self).handle().size
                    &&& upto == old(self).chunks().len() ==> end == old(self).handle().size
                    &&& final(self).buffered().len() == old(self).buffered().len() + (end - target)
                    &&& old(self).repository.consistent() ==> final(self).buffered()
                        == old(self).buffered() + old(self).stored().subrange(target, end)
                    &&& old(self).repository.consistent() ==> {
                        &&& final(self).fed_since(
                            old(self),
                            complete_chunks(
                                old(self).chunker.bits(),
                                old(self).chunker.pending() + old(self).rest(),
                            ),
                        )
                        &&& final(self).chunker.pending() == remainder(
                            old(self).chunker.bits(),
                            old(self).chunker.pending() + old(self).rest(),
                        )
                    }
                },
                Err(_) => final(self).wf(),
            },
            old(self).repo().welcomes(
                complete_chunks(
                    old(self).chunker.bits(),
                    old(self).chunker.pending() + old(self).rest(),
                ),
            ) ==> result is Ok,
            old(self).repo().sound_for(
                complete_chunks(
                    old(self).chunker.bits(),
                    old(self).chunker.pending() + old(self).rest(),
                ),
            ) && result is Err ==> result->Err_0 == Error::InvalidInput,
    {
        let ghost bits = self.chunker.bits();
        let ghost pending = self.chunker.pending();
        let ghost rest = self.rest();
        let size = self.repository.header.objects[self.entry].handle.size;
        let target = if self.position < size {
            self.position
        } else {
            size
        };
        let located = self.repository.header.objects[self.entry].handle.locate(target);
        let ghost chunks = self.chunks();
        proof {
            old(self).repository.lemma_kept_reflexive();
        }
        match located {
            None => {
                proof {
                    assert(total_size(chunks) == 0);
                    assert(chunks.take(0) =~= Seq::<Chunk>::empty());
                    assert(self.pieces().take(self.pieces().len() as int) =~= self.pieces());
                    assert(self.pieces().skip(self.pieces().len() as int) =~= Seq::<Seq<u8>>::empty());
                    if self.repository.consistent() {
                        self.lemma_contents_len();
                        assert(self.buffered() + self.stored().subrange(0, 0) =~= self.buffered());
                    }
                    assert(pending + rest =~= pending);
                    self.chunker.lemma_pending_is_open();
                    crate::chunking::lemma_no_boundary(bits, pending);
                    assert(self.pieces() + Seq::<Seq<u8>>::empty() =~= self.pieces());
                    assert(concat(Seq::<Seq<u8>>::empty()) =~= Seq::<u8>::empty());
                }
                Ok(0)
            },
            Some(location) => {
                proof {
                    crate::handle::lemma_location_unique(chunks, location);
                }
                let data = match self.repository.read_chunk(&location.chunk) {
                    Ok(data) => data,
                    Err(error) => {
                        proof {
                            if self.repository.consistent() && self.repository.store.reliable() {
                                self.lemma_chunk_readable(location.index as int);
                                assert(false);
                            }
                        }
                        return Err(error);
                    },
                };
                let offset = location.relative_position();
                let count = self.repository.header.objects[self.entry].handle.chunks.len();
                assert(location.index < count);
                let upto = location.index + 1;
                proof {
                    crate::handle::lemma_locates_monotone(chunks, self.start_location, location);
                    crate::handle::lemma_chunk_start_step(chunks, location.index as int);
                    crate::handle::lemma_chunk_start_monotone(chunks, upto as int, chunks.len() as int);
                    if self.repository.consistent() {
                        self.lemma_stored_around(location.index as int);
                        lemma_prefix_model(
                            self.stored(),
                            self.repository.bytes_of(chunks.take(location.index as int)),
                            data@,
                            self.repository.bytes_of(chunks.skip(location.index + 1)),
                            offset as int,
                        );
                        assert(rest =~= data@.subrange(offset as int, data@.len() as int));
                    }
                }
                match self.feed(slice_subrange(data.as_slice(), offset, data.len())) {
                    Ok(()) => {},
                    Err(error) => {
                        return Err(error);
                    },
                }
                proof {
                    if old(self).repository.consistent() {
                        assert(data@.skip(offset as int) =~= old(self).stored().subrange(
                            target as int,
                            location.end as int,
                        ));
                    }
                }
                Ok(upto)
            },
        }
    }

    /// Put the pending write into the object's chunk list: the chunks that
    /// were written take the place of the chunks that the write ran over, and
    /// the bytes of the last of those that lie behind the write are kept.
    ///
    /// Without a pending write there is nothing to do. With one, the flush
    /// succeeds where the repository welcomes the chunks that are left to
    /// store. Whatever comes of it, a flush changes nothing but this object,
    /// the table of chunks and blocks that were free: the keys, the other
    /// objects, the published state and the transaction are as they were.
    #[verifier::rlimit(50)]
    pub fn flush(&mut self) -> (result: Result<(), Error>)
        requires
            old(self).wf(),
        ensures
            final(self).wf(),
            *final(final(self).repository) == *final(old(self).repository),
            final(self).entry == old(self).entry,
            old(self).repository.consistent() ==> final(self).repository.consistent(),
            final(self).position == old(self).position,
            match result {
                Ok(()) => {
                    &&& !final(self).writing
                    &&& !final(self).failed
                    &&& !old(self).failed
                    &&& final(self).position == old(self).position
                    &&& !old(self).writing ==> *final(self).repository == *old(self).repository
                        && final(self).faithful() == old(self).faithful()
                    &&& old(self).repository.consistent() && (old(self).writing
                        ==> final(self).faithful()) ==> final(self).model() == old(self).model()
                    &&& final(self).faithful() ==> old(self).faithful()
                },
                Err(_) => final(self).repository.header.objects
                    == old(self).repository.header.objects,
            },
            !old(self).writing && !old(self).failed ==> result is Ok,
            old(self).failed ==> result == Err::<(), Error>(Error::InvalidInput),
            old(self).writing && !old(self).failed && old(self).repo().welcomes(old(self).closing())
                ==> result is Ok,
            old(self).writing && old(self).repo().sound_for(old(self).closing()) && result is Err
                ==> result == Err::<(), Error>(Error::InvalidInput),
            final(self).repository.store.reliable() == old(self).repository.store.reliable(),
            old(self).repo().only_object_changed(&final(self).repo(), old(self).entry as int),
            result is Ok ==> final(self).flushed_from(old(self)),
            result is Err && !old(self).failed ==> final(self).writing,
            result is Ok && old(self).writing && old(self).repository.consistent()
                && old(self).chunks().len() == 0 && old(self).repo().knows_all(old(self).closing())
                ==> old(self).repo().same_room(&final(self).repo()),
            result is Ok && old(self).writing ==> final(self).handle().size == if old(self).position
                > old(self).handle().size {
                old(self).position
            } else {
                old(self).handle().size
            },
    {
        proof {
            old(self).repository.lemma_object_unchanged(self.entry as int);
        }
        if self.failed {
            return Err(Error::InvalidInput);
        }
        if !self.writing {
            return Ok(());
        }
        let size = self.repository.header.objects[self.entry].handle.size;
        let ghost chunks = self.chunks();
        let ghost target = at_most(self.position as int, size as int);
        let ghost bits = self.chunker.bits();
        let ghost stream = self.chunker.pending() + self.rest();
        let ghost first = complete_chunks(bits, stream);
        let ghost second = last_chunk(remainder(bits, stream));
        proof {
            if old(self).repo().welcomes(first + second) {
                old(self).repository.lemma_welcomes_prefix(first, second);
            }
            if old(self).repo().sound_for(first + second) {
                old(self).repository.lemma_sound_prefix(first, second);
            }
        }
        let upto = match self.feed_rest() {
            Ok(upto) => upto,
            Err(error) => {
                proof {
                    old(self).repository.lemma_object_kept(self.repository, self.entry as int);
                }
                return Err(error);
            },
        };
        let ghost end = chunk_start(chunks, upto as int) as int;
        let ghost fed_once = *self;
        proof {
            if old(self).repo().welcomes(first + second) {
                old(self).repository.lemma_welcomes_step(self.repository, first, second);
            }
            if old(self).repo().sound_for(first + second) {
                old(self).repository.lemma_sound_step(self.repository, first, second);
            }
        }
        match self.finish() {
            Ok(()) => {},
            Err(error) => {
                proof {
                    old(self).repository.lemma_kept_transitive(
                        fed_once.repository,
                        self.repository,
                    );
                    old(self).repository.lemma_object_kept(self.repository, self.entry as int);
                }
                return Err(error);
            },
        }
        let ghost fed = *self;
        proof {
            Self::lemma_stored_since_twice(
                &old(self).repo(),
                old(self).faithful(),
                old(self).pieces(),
                &fed_once,
                &fed,
            );
            if old(self).repository.consistent() {
                old(self).repository.lemma_stored_twice(
                    fed_once.repository,
                    fed.repository,
                    first,
                    second,
                );
            }
        }
        let new_size = if self.position > size {
            self.position
        } else {
            size
        };
        proof {
            old(self).repository.lemma_kept_transitive(fed_once.repository, fed.repository);
            assert(fed.pieces().take(old(self).pieces().len() as int) =~= old(self).pieces()) by {
                assert(fed.pieces().take(fed_once.pieces().len() as int) == fed_once.pieces());
                assert(fed_once.pieces().take(old(self).pieces().len() as int) == old(self).pieces());
            }
            lemma_described_size(self.new_chunks@, self.pieces());
            let start = self.start_location.index as int;
            crate::handle::lemma_total_size_concat(chunks.take(start), self.new_chunks@);
            crate::handle::lemma_total_size_concat(
                chunks.take(start) + self.new_chunks@,
                chunks.skip(upto as int),
            );
            crate::handle::lemma_total_size_split(chunks, upto as int);
            assert(self.chunks() == chunks);
            assert forall|i: int| 0 <= i < self.new_chunks@.len() implies (
            #[trigger] self.new_chunks@[i]).size > 0 by {
                assert(self.pieces()[i].len() > 0);
            }
        }
        self.repository.replace_chunks(
            self.entry,
            self.start_location.index,
            upto,
            &self.new_chunks,
            new_size,
        );
        self.new_chunks = Vec::new();
        self.writing = false;
        proof {
            if old(self).repository.consistent() && self.faithful() {
                self.repository.lemma_known(Seq::empty(), self.entry as int);
                assert forall|i: int| 0 <= i < fed.new_chunks@.len() implies self.repository.knows(
                    (#[trigger] fed.new_chunks@[i]).hash@,
                ) by {
                    assert(self.chunks()[fed.start_location.index + i] == fed.new_chunks@[i]);
                }
                fed.lemma_holds_after_replace(self, fed.new_chunks@, fed.pieces());
                Self::lemma_flush_contents(old(self), &fed, self, upto as int, target, end);
            }
            Self::lemma_flush_frame(old(self), &fed, self, upto as int);
            if old(self).repository.consistent() {
                assert(fed.pieces() =~= old(self).pieces() + old(self).closing());
                if fed.start_location.index == upto {
                    assert forall|hash: Seq<u8>|
                        #![trigger self.repo().knows(hash)]
                        #![trigger self.repo().data(hash)]
                        old(self).repo().knows(hash) implies self.repo().knows(hash)
                        && self.repo().data(hash) == old(self).repo().data(hash) by {
                        assert(fed.repo().knows(hash));
                        assert(fed.repo().data(hash) == old(self).repo().data(hash));
                    }
                }
                Self::lemma_spliced(old(self), &fed, self, upto as int);
            }
        }
        Ok(())
    }

    /// The repository of an object is one that no object is open in once
    /// the object is given up, with or without a pending write: the chunks
    /// that a write stored and no flush listed stay in the table until the
    /// transaction ends.
    pub proof fn lemma_given_up(&self)
        requires
            self.wf(),
        ensures
            self.repo().wf(),
    {
        let empty = Seq::<Chunk>::empty();
        assert forall|hash: Seq<u8>|
            crate::header::references(self.repo().header.objects@, hash)
                + crate::handle::occurrences(empty, hash) <= #[trigger] crate::header::refcount_of(
                self.repo().header.chunks@,
                hash,
            ) by {
            assert(crate::header::references(self.repo().header.objects@, hash)
                + crate::handle::occurrences(self.new_chunks@, hash)
                <= crate::header::refcount_of(self.repo().header.chunks@, hash));
        }
    }

    /// An object without a pending write is listed in its repository under
    /// its key with the bytes that it holds, and the repository is one that
    /// no object is open in.
    pub proof fn lemma_flushed_object(&self)
        requires
            self.wf(),
            !self.writing,
            !self.failed,
        ensures
            self.repo().wf(),
            crate::header::has_object(self.repo().header.objects@, self.key()),
            self.repo().contents_of(self.key()) == self.contents(),
    {
        crate::header::lemma_object_at(self.repo().header.objects@, self.entry as int);
        assert(self.new_chunks@ =~= Seq::<Chunk>::empty());
    }

    /// What a flush leaves alone: it changes nothing but the object.
    proof fn lemma_flush_frame(before: &Self, fed: &Self, after: &Self, upto: int)
        requires
            before.repo().settled(),
            before.entry < before.repo().header.objects@.len(),
            before.repo().only_chunks_changed(&fed.repo()),
            fed.repo().chunks_replaced(
                &after.repo(),
                before.entry as int,
                before.start_location.index as int,
                upto,
                fed.new_chunks@,
            ),
        ensures
            before.repo().only_object_changed(&after.repo(), before.entry as int),
    {
        before.repository.lemma_object_kept(fed.repository, before.entry as int);
        before.repository.lemma_settled_kept(fed.repository);
        fed.repository.lemma_object_replaced(
            after.repository,
            before.entry as int,
            before.start_location.index as int,
            upto,
            fed.new_chunks@,
        );
        before.repository.lemma_object_changed_twice(
            fed.repository,
            after.repository,
            before.entry as int,
        );
    }

    /// What a flush makes of the chunk list, where `fed` is the object with
    /// every piece stored and `after` the object with the chunks replaced.
    proof fn lemma_spliced(before: &Self, fed: &Self, after: &Self, upto: int)
        requires
            fed.pieces() == before.pieces() + before.closing(),
            upto == before.upto(),
            before.start_location.index <= upto <= before.chunks().len(),
            described_by(fed.new_chunks@, fed.pieces()),
            after.chunks() == before.chunks().take(before.start_location.index as int)
                + fed.new_chunks@ + before.chunks().skip(upto),
            after.pieces() == fed.pieces(),
            after.faithful() == fed.faithful(),
            before.repo().grown_by(&fed.repo(), before.closing()),
            after.repo().chunks_kept(&fed.repo()),
            before.start_location.index == upto ==> before.repo().chunks_kept(&after.repo()),
            before.chunks().len() == 0 && before.repo().knows_all(before.closing())
                ==> before.repo().same_room(&after.repo()),
            fed.stored_since(&before.repo(), before.faithful(), before.pieces()),
            after.faithful() ==> after.repo().holds(fed.pieces()),
        ensures
            after.spliced_from(before),
    {
        let all = before.pieces() + before.closing();
        let start = before.start_location.index as int;
        let chunks = before.chunks();
        assert(all.skip(before.pieces().len() as int) =~= before.closing());
        assert(after.chunks().subrange(start, start + all.len()) =~= fed.new_chunks@);
        assert(after.chunks().take(start) =~= chunks.take(start));
        assert(after.chunks().skip(start + all.len()) =~= chunks.skip(upto));
        assert forall|hash: Seq<u8>| #[trigger] after.repo().knows(hash) implies before.repo().knows(
            hash,
        ) || exists|k: int|
            0 <= k < before.closing().len() && blake2b_256(#[trigger] before.closing()[k])
                == hash by {
            assert(fed.repo().knows(hash));
        }
    }

    /// The bytes of the chunk with index `index`, from `offset` to `end`,
    /// are the stored bytes at the same place in the object.
    proof fn lemma_read_window(&self, index: int, offset: int, end: int, data: Seq<u8>)
        requires
            self.wf(),
            !self.failed,
            !self.writing,
            self.repo().consistent(),
            0 <= index < self.chunks().len(),
            0 <= offset <= end <= self.chunks()[index].size,
            self.position == chunk_start(self.chunks(), index) + offset,
            data == self.repo().data(self.chunks()[index].hash@),
        ensures
            self.position + (end - offset) <= self.contents().len(),
            data.subrange(offset, end) == self.contents().subrange(
                self.position as int,
                self.position + (end - offset),
            ),
    {
        self.lemma_stored_around(index);
        let front = self.repo().bytes_of(self.chunks().take(index));
        let back = self.repo().bytes_of(self.chunks().skip(index + 1));
        assert(self.stored() == front + data + back);
        assert(data.subrange(offset, end) =~= self.stored().subrange(
            self.position as int,
            self.position + (end - offset),
        ));
    }

    /// Read up to `size` bytes at the seek position and move the position
    /// behind them. A pending write is flushed first. The bytes come from one
    /// chunk: fewer than `size` are returned where that chunk ends first, and
    /// none only at the end of the object.
    #[verifier::rlimit(50)]
    pub fn read(&mut self, size: usize) -> (result: Result<Vec<u8>, Error>)
        requires
            old(self).wf(),
        ensures
            final(self).wf(),
            *final(final(self).repository) == *final(old(self).repository),
            final(self).entry == old(self).entry,
            old(self).repository.consistent() ==> final(self).repository.consistent(),
            !old(self).writing && !old(self).failed ==> *final(self).repository
                == *old(self).repository,
            match result {
                Ok(bytes) => {
                    &&& bytes@.len() <= size
                    &&& !final(self).writing
                    &&& !final(self).failed
                    &&& final(self).position == old(self).position + bytes@.len()
                    &&& bytes@.len() == 0 <==> size
                        == 0 || old(self).position >= final(self).handle().size
                    &&& bytes@.len() > 0 ==> crate::handle::reads(
                        final(self).chunks(),
                        old(self).position as nat,
                        size as nat,
                        bytes@.len(),
                    )
                    &&& old(self).repository.consistent() && (old(self).writing
                        ==> final(self).faithful()) ==> {
                        &&& final(self).contents() == old(self).contents()
                        &&& old(self).position + bytes@.len() <= old(self).contents().len()
                        &&& bytes@ == old(self).contents().subrange(
                            old(self).position as int,
                            old(self).position + bytes@.len(),
                        )
                        &&& final(self).handle().size == old(self).contents().len()
                    }
                },
                Err(error) => {
                    &&& final(self).position == old(self).position
                    &&& old(self).failed ==> error == Error::InvalidInput
                    &&& !old(self).failed && !old(self).writing
                        && old(self).repository.store.reliable() ==> error == Error::Corrupt
                },
            },
            !old(self).writing && !old(self).failed && old(self).repository.store.reliable()
                && old(self).repository.consistent() ==> result is Ok,
            old(self).writing && !old(self).failed && old(self).repo().welcomes(old(self).closing())
                ==> result is Ok,
            old(self).writing && old(self).repo().sound_for(old(self).closing()) && result is Err
                ==> result->Err_0 == Error::InvalidInput,
            old(self).repo().only_object_changed(&final(self).repo(), old(self).entry as int),
            result is Ok || (!old(self).failed && !final(self).writing)
                ==> final(self).flushed_from(old(self)),
    {
        match self.flush() {
            Ok(()) => {},
            Err(error) => {
                return Err(error);
            },
        }
        let ghost flushed = *self;
        proof {
            if self.repository.consistent() {
                self.lemma_contents_len();
            }
        }
        let handle = &self.repository.header.objects[self.entry].handle;
        if size == 0 || self.position >= handle.size {
            return Ok(Vec::new());
        }
        let (index, offset) = handle.chunk_under(self.position);
        let chunk = handle.chunks[index];
        proof {
            self.repository.lemma_known(self.new_chunks@, self.entry as int);
            if self.repository.consistent() {
                self.repository.lemma_readable(self.new_chunks@, self.entry as int);
            }
        }
        let data = match self.repository.read_chunk(&chunk) {
            Ok(data) => data,
            Err(error) => {
                return Err(error);
            },
        };
        let end: usize = if size > chunk.size - offset {
            chunk.size
        } else {
            offset + size
        };
        let bytes = slice_to_vec(slice_subrange(data.as_slice(), offset, end));
        proof {
            if self.repository.consistent() {
                self.lemma_read_window(index as int, offset as int, end as int, data@);
            }
            crate::handle::lemma_chunk_start_step(self.chunks(), index as int);
            assert(chunk_start(self.chunks(), index as int) <= self.position);
        }
        self.position = self.position + (end - offset) as u64;
        Ok(bytes)
    }

    /// Open the object at index `entry` of `repository`, with the seek
    /// position at its start.
    pub fn new(repository: &'a mut ObjectRepository<S>, entry: usize) -> (object: Object<'a, S>)
        requires
            old(repository).wf(),
            entry < old(repository).header.objects@.len(),
        ensures
            object.wf(),
            *object.repository == *old(repository),
            *final(repository) == *final(object.repository),
            object.entry == entry,
            object.position == 0,
            !object.writing,
            !object.failed,
            object.faithful(),
    {
        let bits = repository.header.metadata.chunker_bits as usize;
        Object {
            repository,
            entry,
            chunker: IncrementalChunker::new(bits),
            new_chunks: Vec::new(),
            log: WriteLog { pieces: Ghost(Seq::empty()), faithful: Ghost(true) },
            start_location: ChunkLocation {
                chunk: Chunk { size: 0, hash: [0u8;32] },
                start: 0,
                end: 0,
                position: 0,
                index: 0,
            },
            writing: false,
            failed: false,
            position: 0,
        }
    }

    /// Move the seek position. A pending write is flushed first; where the
    /// target is then refused, the write stays flushed and the position
    /// where it was.
    #[verifier::rlimit(50)]
    pub fn seek(&mut self, pos: SeekFrom) -> (result: Result<u64, Error>)
        requires
            old(self).wf(),
        ensures
            final(self).wf(),
            *final(final(self).repository) == *final(old(self).repository),
            final(self).entry == old(self).entry,
            old(self).repository.consistent() ==> final(self).repository.consistent(),
            !old(self).writing && !old(self).failed ==> *final(self).repository
                == *old(self).repository && result == match seek_target(
                old(self).handle().size as nat,
                old(self).position as nat,
                pos,
            ) {
                Some(position) => Ok::<u64, Error>(position as u64),
                None => Err::<u64, Error>(Error::InvalidInput),
            },
            match result {
                Ok(position) => {
                    &&& !final(self).writing
                    &&& !final(self).failed
                    &&& final(self).position == position
                    &&& seek_target(
                        final(self).handle().size as nat,
                        old(self).position as nat,
                        pos,
                    ) == Some(position as nat)
                    &&& old(self).repository.consistent() && (old(self).writing
                        ==> final(self).faithful()) ==> Some(final(self).model())
                        == old(self).model().sought(pos)
                },
                Err(_) => final(self).position == old(self).position,
            },
            old(self).repo().only_object_changed(&final(self).repo(), old(self).entry as int),
            result is Ok || (!old(self).failed && !final(self).writing)
                ==> final(self).flushed_from(old(self)),
            old(self).failed ==> result == Err::<u64, Error>(Error::InvalidInput),
            (old(self).writing ==> old(self).repo().sound_for(old(self).closing())) && result is Err
                ==> result->Err_0 == Error::InvalidInput,
            old(self).writing && !old(self).failed && old(self).repo().welcomes(old(self).closing())
                ==> result == match seek_target(
                final(self).handle().size as nat,
                old(self).position as nat,
                pos,
            ) {
                Some(position) => Ok::<u64, Error>(position as u64),
                None => Err::<u64, Error>(Error::InvalidInput),
            },
    {
        match self.flush() {
            Ok(()) => {},
            Err(error) => {
                return Err(error);
            },
        }
        proof {
            if self.repository.consistent() {
                self.lemma_contents_len();
            }
        }
        let size = self.repository.header.objects[self.entry].handle.size;
        let position = self.position;
        let target: u64 = match pos {
            SeekFrom::Start(offset) => if offset < size {
                offset
            } else {
                size
            },
            SeekFrom::End(offset) => {
                if offset < 0 || offset as u64 > size {
                    return Err(Error::InvalidInput);
                }
                size - offset as u64
            },
            SeekFrom::Current(offset) => {
                if offset < 0 {
                    let back: u64 = if offset == i64::MIN {
                        0x8000_0000_0000_0000u64
                    } else {
                        (-offset) as u64
                    };
                    if back > position {
                        return Err(Error::InvalidInput);
                    }
                    position - back
                } else {
                    let forth = offset as u64;
                    if forth > size - position {
                        size
                    } else {
                        position + forth
                    }
                }
            },
        };
        self.position = target;
        Ok(target)
    }

    /// Truncate the object to the given `length`.
    ///
    /// If the given `length` is greater than or equal to the current size of
    /// the object, this does nothing but flush a pending write. Otherwise the
    /// seek position moves to the new end of the object, and the chunk that
    /// holds the new end is stored anew with the bytes that are kept. The
    /// size afterwards is `length` or the size that the object had, whichever
    /// is less.
    #[verifier::rlimit(50)]
    pub fn truncate(&mut self, length: u64) -> (result: Result<(), Error>)
        requires
            old(self).wf(),
        ensures
            final(self).wf(),
            *final(final(self).repository) == *final(old(self).repository),
            final(self).entry == old(self).entry,
            old(self).repository.consistent() ==> final(self).repository.consistent(),
            match result {
                Ok(()) => {
                    let flushed_size = if old(self).writing && old(self).position > old(self).handle().size {
                        old(self).position
                    } else {
                        old(self).handle().size
                    };
                    &&& !final(self).writing
                    &&& !final(self).failed
                    &&& final(self).handle().size == if length < flushed_size {
                        length
                    } else {
                        flushed_size
                    }
                    &&& final(self).position == if length < flushed_size {
                        length
                    } else {
                        old(self).position
                    }
                    &&& length >= flushed_size ==> final(self).flushed_from(old(self))
                    &&& !old(self).writing && length < flushed_size
                        && old(self).repository.consistent() ==> final(self).cut_from(
                        old(self),
                        length as nat,
                    )
                    &&& length < flushed_size && old(self).repository.consistent()
                        ==> exists|flushed: Self|
                        #[trigger] flushed.flushed_from(old(self)) && flushed.wf()
                            && flushed.position == old(self).position
                            && flushed.repo().consistent()
                            && old(self).repo().only_object_changed(
                            &flushed.repo(),
                            old(self).entry as int,
                        )
                            && final(self).cut_from(&flushed, length as nat)
                    &&& final(self).faithful() ==> old(self).faithful()
                    &&& old(self).repository.consistent() && final(self).faithful()
                        ==> final(self).model() == old(self).model().truncated(
                        length as nat,
                    )
                },
                Err(_) => true,
            },
            old(self).repo().only_object_changed(&final(self).repo(), old(self).entry as int),
            old(self).failed ==> result == Err::<(), Error>(Error::InvalidInput),
            !old(self).writing && old(self).repo().sound_for(old(self).cut(length as nat))
                && result is Err ==> result == Err::<(), Error>(Error::InvalidInput),
            !old(self).failed && !old(self).writing && (length >= old(self).handle().size
                || old(self).repo().welcomes(old(self).cut(length as nat))) ==> result is Ok,
            !old(self).failed && old(self).writing && length >= old(self).handle().size && length
                >= old(self).position && old(self).repo().welcomes(old(self).closing())
                ==> result is Ok,
    {
        let ghost before_flush = *self;
        match self.flush() {
            Ok(()) => {},
            Err(error) => {
                return Err(error);
            },
        }
        let ghost flushed = *self;
        proof {
            if self.repository.consistent() {
                self.lemma_contents_len();
            }
        }
        let size = self.repository.header.objects[self.entry].handle.size;
        if length >= size {
            return Ok(());
        }
        let located = self.repository.header.objects[self.entry].handle.locate(length);
        let count = self.repository.header.objects[self.entry].handle.chunks.len();
        proof {
            if self.chunks().len() == 0 {
                assert(total_size(self.chunks()) == 0);
            }
        }
        let location = located.unwrap();
        let offset = location.relative_position();
        let ghost chunks = self.chunks();
        let mut inserted: Vec<Chunk> = Vec::new();
        let ghost piece: Seq<u8> = Seq::empty();
        proof {
            crate::handle::lemma_location_unique(chunks, location);
        }
        if offset > 0 {
            let data = match self.repository.read_chunk(&location.chunk) {
                Ok(data) => data,
                Err(error) => {
                    proof {
                        if self.repository.consistent() && self.repository.store.reliable() {
                            self.lemma_chunk_readable(location.index as int);
                            assert(false);
                        }
                    }
                    return Err(error);
                },
            };
            let kept = slice_subrange(data.as_slice(), 0, offset);
            proof {
                piece = kept@;
                if self.repository.consistent() {
                    self.lemma_stored_around(location.index as int);
                    lemma_prefix_model(
                        self.stored(),
                        self.repository.bytes_of(chunks.take(location.index as int)),
                        data@,
                        self.repository.bytes_of(chunks.skip(location.index + 1)),
                        offset as int,
                    );
                    assert(self.stored().subrange(location.start as int, length as int)
                        =~= kept@);
                    if self.repository.sound_for(seq![piece]) {
                        assert(seq![piece][0] == piece);
                        self.repository.lemma_sizes_match(piece);
                    }
                    if self.repository.welcomes(seq![piece]) {
                        assert(seq![piece].drop_last() =~= Seq::<Seq<u8>>::empty());
                        assert(concat(seq![piece].drop_last()) =~= Seq::<u8>::empty());
                        assert(concat(seq![piece]) =~= piece);
                        self.repository.lemma_admits(piece);
                    }
                }
            }
            let chunk = match self.repository.write_chunk(kept, Ghost(Seq::empty())) {
                Ok(chunk) => chunk,
                Err(error) => {
                    proof {
                        flushed.repository.lemma_object_kept(self.repository, self.entry as int);
                        old(self).repository.lemma_object_changed_twice(
                            flushed.repository,
                            self.repository,
                            self.entry as int,
                        );
                    }
                    return Err(error);
                },
            };
            inserted.push(chunk);
            proof {
                assert(Seq::<Chunk>::empty().push(chunk) =~= inserted@);
                assert(inserted@.last() == chunk);
                assert(inserted@.drop_last() =~= Seq::<Chunk>::empty());
                assert(total_size(inserted@.drop_last()) == 0);
                assert(total_size(inserted@) == offset);
            }
        }
        let ghost stored_chunk = *self;
        proof {
            let joined = chunks.take(location.index as int) + inserted@ + chunks.skip(count as int);
            assert(chunks.skip(count as int) =~= Seq::<Chunk>::empty());
            crate::handle::lemma_total_size_concat(chunks.take(location.index as int), inserted@);
            assert(joined =~= chunks.take(location.index as int) + inserted@);
            if offset > 0 {
                assert(inserted@.drop_last() =~= Seq::<Chunk>::empty());
                assert(total_size(inserted@) == offset);
            } else {
                assert(total_size(inserted@) == 0);
            }
            assert(self.chunks() == chunks);
        }
        self.repository.replace_chunks(self.entry, location.index, count, &inserted, length);
        self.position = length;
        self.log.pieces = Ghost(if offset > 0 {
            seq![piece]
        } else {
            Seq::empty()
        });
        let ghost still = self.faithful() && stored_chunk.repository.holds(self.pieces());
        self.log.faithful = Ghost(still);
        proof {
            if old(self).repository.consistent() && self.faithful() {
                self.repository.lemma_known(Seq::empty(), self.entry as int);
                assert forall|i: int| 0 <= i < inserted@.len() implies self.repository.knows(
                    (#[trigger] inserted@[i]).hash@,
                ) by {
                    assert(self.chunks()[location.index + i] == inserted@[i]);
                }
                if offset > 0 {
                    assert(inserted@[0].hash@ == blake2b_256(piece));
                }
                stored_chunk.lemma_holds_after_replace(self, inserted@, self.pieces());
                if offset > 0 {
                    assert(seq![piece].drop_last() =~= Seq::<Seq<u8>>::empty());
                    assert(concat(seq![piece].drop_last()) =~= Seq::<u8>::empty());
                    assert(concat(seq![piece]) =~= piece);
                } else {
                    assert(concat(Seq::<Seq<u8>>::empty()) =~= flushed.stored().subrange(
                        length as int,
                        length as int,
                    ));
                }
                Self::lemma_truncate_contents(
                    &flushed,
                    &stored_chunk,
                    self,
                    location.index as int,
                    inserted@,
                    length as int,
                );
            }
            flushed.repository.lemma_kept_reflexive();
            flushed.repository.lemma_object_written(
                stored_chunk.repository,
                self.repository,
                self.entry as int,
                location.index as int,
                count as int,
                inserted@,
            );
            old(self).repository.lemma_object_changed_twice(
                flushed.repository,
                self.repository,
                self.entry as int,
            );
            if old(self).repository.consistent() {
                assert(flushed.cut(length as nat) =~= self.pieces());
                assert forall|hash: Seq<u8>|
                    #[trigger] stored_chunk.repo().knows(hash) implies flushed.repo().knows(hash)
                    || exists|k: int|
                    0 <= k < self.pieces().len() && blake2b_256(#[trigger] self.pieces()[k])
                        == hash by {
                    if !flushed.repo().knows(hash) {
                        assert(offset > 0);
                        assert(blake2b_256(self.pieces()[0]) == hash);
                    }
                }
                Self::lemma_cut(&flushed, &stored_chunk, self, length as nat, inserted@);
            }
        }
        Ok(())
    }

    /// What `truncate` makes of the chunk list of a flushed object, where
    /// `mid` is the object with the kept bytes stored and `after` the object
    /// with the chunks replaced.
    proof fn lemma_cut(before: &Self, mid: &Self, after: &Self, length: nat, inserted: Seq<Chunk>)
        requires
            after.pieces() == before.cut(length),
            described_by(inserted, after.pieces()),
            before.chunks().len() > 0,
            after.chunks() == before.chunks().take(
                crate::handle::location_of(before.chunks(), length).index as int,
            ) + inserted,
            crate::handle::location_of(before.chunks(), length).index < before.chunks().len(),
            before.repo().grown_by(&mid.repo(), after.pieces()),
            after.repo().chunks_kept(&mid.repo()),
            after.faithful() == (before.faithful() && mid.repo().holds(after.pieces())),
            before.repo().collision_free(after.pieces()) ==> mid.repo().holds(after.pieces()),
            after.faithful() ==> after.repo().holds(after.pieces()),
        ensures
            after.cut_from(before, length),
    {
        let index = crate::handle::location_of(before.chunks(), length).index as int;
        let kept = before.cut(length);
        assert(after.chunks().take(index) =~= before.chunks().take(index));
        assert(after.chunks().skip(index) =~= inserted);
        assert forall|hash: Seq<u8>| #[trigger] after.repo().knows(hash) implies before.repo().knows(
            hash,
        ) || exists|k: int| 0 <= k < kept.len() && blake2b_256(#[trigger] kept[k]) == hash by {
            assert(mid.repo().knows(hash));
        }
    }

    /// What `truncate` makes of a flushed object that is longer than
    /// `length`, where the store holds the rewritten chunk under its digest.
    #[verifier::rlimit(50)]
    proof fn lemma_truncate_contents(
        before: &Self,
        mid: &Self,
        after: &Self,
        index: int,
        inserted: Seq<Chunk>,
        length: int,
    )
        requires
            before.wf(),
            !before.failed,
            !before.writing,
            before.repo().consistent(),
            before.repo().only_chunks_changed(&mid.repo()),
            before.repo().chunks_kept(&mid.repo()),
            mid.repo().chunks_replaced(
                &after.repo(),
                before.entry as int,
                index,
                before.chunks().len() as int,
                inserted,
            ),
            after.repo().state_wf(Seq::empty()),
            after.entry == before.entry,
            !after.writing,
            0 <= index < before.chunks().len(),
            chunk_start(before.chunks(), index) <= length <= before.handle().size,
            described_by(inserted, after.pieces()),
            after.repo().holds(after.pieces()),
            concat(after.pieces()) == before.stored().subrange(
                chunk_start(before.chunks(), index) as int,
                length,
            ),
        ensures
            after.contents() == before.contents().take(length),
    {
        let chunks = before.chunks();
        let old_repo = before.repo();
        let mid_repo = mid.repo();
        let new_repo = after.repo();
        let entry = before.entry as int;
        old_repo.lemma_readable(before.new_chunks@, entry);
        old_repo.lemma_known(before.new_chunks@, entry);
        old_repo.lemma_bytes_split(chunks, index);
        let front = chunks.take(index);
        let spliced = after.chunks();
        assert(chunks.skip(chunks.len() as int) =~= Seq::<Chunk>::empty());
        assert(spliced =~= front + inserted);
        new_repo.lemma_known(Seq::empty(), entry);
        crate::header::lemma_object_data_concat(
            new_repo.store.blocks(),
            new_repo.codec(),
            new_repo.header.chunks@,
            front,
            inserted,
        );
        new_repo.lemma_bytes_described(inserted, after.pieces());
        assert forall|j: int| 0 <= j < front.len() implies new_repo.knows(
            (#[trigger] front[j]).hash@,
        ) && new_repo.data(front[j].hash@) == old_repo.data(front[j].hash@) by {
            assert(spliced[j] == front[j]);
            assert(front[j] == chunks[j]);
            assert(new_repo.knows(spliced[j].hash@));
            assert(mid_repo.knows(front[j].hash@));
            assert(old_repo.knows(chunks[j].hash@));
            assert(mid_repo.data(front[j].hash@) == old_repo.data(front[j].hash@));
        }
        crate::header::lemma_object_data_same(
            new_repo.store.blocks(),
            new_repo.header.chunks@,
            old_repo.store.blocks(),
            old_repo.header.chunks@,
            old_repo.codec(),
            front,
        );
        let stored = before.stored();
        let begin = chunk_start(chunks, index) as int;
        assert(stored.take(begin) + stored.subrange(begin, length) =~= stored.take(length));
    }

    /// What a check of the chunk with index `index` finds: whether the
    /// chunk's stored bytes decode to a plaintext with the chunk's digest, or
    /// `None` where they do not decode at all.
    pub open spec fn chunk_check(&self, index: int) -> Option<bool> {
        let hash = self.chunks()[index].hash@;
        if self.repo().knows(hash) {
            match crate::header::payload(
                self.repo().store.blocks(),
                self.repo().codec(),
                crate::header::chunk_entry(self.repo().header.chunks@, hash),
            ) {
                Some(plain) => Some(blake2b_256(plain) == hash),
                None => None,
            }
        } else {
            None
        }
    }

    /// Verify the integrity of the data in this object, as of the last
    /// flush.
    ///
    /// This returns `true` if every chunk's stored bytes decode to a plaintext
    /// with the chunk's digest, and `false` at the first chunk whose plaintext
    /// has another digest. Stored bytes that do not decode are an error.
    pub fn verify(&self) -> (result: Result<bool, Error>)
        requires
            self.wf(),
        ensures
            crate::laws::verified_as(self, result),
    {
        let handle = &self.repository.header.objects[self.entry].handle;
        let mut i: usize = 0;
        while i < handle.chunks.len()
            invariant
                self.wf(),
                handle == self.handle(),
                i <= self.chunks().len(),
                forall|j: int| 0 <= j < i ==> self.chunk_check(j) == Some(true),
            decreases self.chunks().len() - i,
        {
            let expected = handle.chunks[i];
            proof {
                self.repository.lemma_known(self.new_chunks@, self.entry as int);
            }
            match self.repository.fetch_chunk(&expected.hash) {
                Err(error) => {
                    assert(self.repo().store.reliable() ==> self.chunk_check(i as int) is None);
                    return Err(error);
                },
                Ok(data) => {
                    let actual = crate::hash::chunk_hash(data.as_slice());
                    if !crate::hash::hash_eq(&actual, &expected.hash) {
                        assert(self.chunk_check(i as int) == Some(false));
                        return Ok(false);
                    }
                },
            }
            i += 1;
        }
        Ok(true)
    }
}

} // verus!
