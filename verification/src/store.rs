//! The block store that a repository keeps its data in.
//!
//! A store maps block identifiers to byte strings. The repository needs no
//! more of it than the four operations of [`DataStore`]; [`MemoryStore`] is a
//! store that lives in memory and can be told to start failing, which is how a
//! crash in the middle of a commit is played through.

use vstd::prelude::*;
use vstd::slice::slice_to_vec;
use crate::error::Error;

verus! {

/// The identifier of a block: an opaque value of 128 bits.
pub type BlockId = u128;

/// The error code that [`MemoryStore`] reports once it has been told to fail.
pub const MEMORY_STORE_FAILURE: i32 = 5;

/// A store of blocks addressed by identifier.
///
/// The contract of each operation says what becomes of the store's contents,
/// `blocks()`, when the operation succeeds and how little may have changed
/// when it fails. A store that is `reliable()` never fails.
pub trait DataStore {
    /// The blocks the store holds.
    ///
    /// A verified store says here what it holds. A store that is written
    /// without proofs leaves this as it is; that its operations keep their
    /// contracts is then taken on trust.
    closed spec fn blocks(&self) -> Map<BlockId, Seq<u8>> {
        Map::empty()
    }

    /// Whether every operation on this store succeeds. Unless a store says
    /// otherwise, it does not promise that.
    closed spec fn reliable(&self) -> bool {
        false
    }

    /// Store `data` under `id`, replacing what was there. The write is atomic:
    /// where it fails, the store holds what it held before.
    fn write_block(&mut self, id: BlockId, data: &[u8]) -> (result: Result<(), Error>)
        ensures
            result is Ok ==> final(self).blocks() == old(self).blocks().insert(id, data@),
            result is Err ==> final(self).blocks() == old(self).blocks(),
            old(self).reliable() ==> result is Ok,
            final(self).reliable() == old(self).reliable(),
    ;

    /// Read the block stored under `id`, or `None` if there is none.
    fn read_block(&self, id: BlockId) -> (result: Result<Option<Vec<u8>>, Error>)
        ensures
            match result {
                Ok(Some(data)) => self.blocks().contains_key(id) && data@ == self.blocks()[id],
                Ok(None) => !self.blocks().contains_key(id),
                Err(_) => true,
            },
            self.reliable() ==> result is Ok,
    ;

    /// Remove the block stored under `id`, if there is one. Where the removal
    /// fails, the store holds what it held before.
    fn remove_block(&mut self, id: BlockId) -> (result: Result<(), Error>)
        ensures
            result is Ok ==> final(self).blocks() == old(self).blocks().remove(id),
            result is Err ==> final(self).blocks() == old(self).blocks(),
            old(self).reliable() ==> result is Ok,
            final(self).reliable() == old(self).reliable(),
    ;

    /// List the identifiers of all blocks in the store.
    fn list_blocks(&self) -> (result: Result<Vec<BlockId>, Error>)
        ensures
            match result {
                Ok(ids) => forall|id: BlockId| ids@.contains(id) <==> self.blocks().contains_key(id),
                Err(_) => true,
            },
            self.reliable() ==> result is Ok,
    ;
}

/// A block held by a [`MemoryStore`].
#[derive(Debug)]
pub struct StoredBlock {
    pub id: BlockId,
    pub data: Vec<u8>,
}

/// A store that keeps its blocks in memory.
///
/// It can be given a budget of changes: once that many blocks have been
/// written or removed, every further change fails and leaves the store as it
/// is, as a machine would that lost power at that moment.
#[derive(Debug)]
pub struct MemoryStore {
    entries: Vec<StoredBlock>,
    budget: Option<u64>,
}

/// Whether `entries` holds a block `id` at index `i`.
pub open spec fn holds_at(entries: Seq<StoredBlock>, id: BlockId, i: int) -> bool {
    0 <= i < entries.len() && entries[i].id == id
}

/// The blocks that `entries` hold: where an identifier occurs more than once,
/// the entry nearest the end counts.
pub open spec fn blocks_of(entries: Seq<StoredBlock>) -> Map<BlockId, Seq<u8>>
    decreases entries.len(),
{
    if entries.len() == 0 {
        Map::empty()
    } else {
        blocks_of(entries.drop_last()).insert(entries.last().id, entries.last().data@)
    }
}

/// An identifier has a block exactly when some entry carries it.
proof fn lemma_blocks_contain(entries: Seq<StoredBlock>, id: BlockId)
    ensures
        blocks_of(entries).contains_key(id) <==> exists|i: int| holds_at(entries, id, i),
    decreases entries.len(),
{
    if entries.len() > 0 {
        let front = entries.drop_last();
        lemma_blocks_contain(front, id);
        if blocks_of(entries).contains_key(id) {
            if entries.last().id == id {
                assert(holds_at(entries, id, entries.len() - 1));
            } else {
                let i = choose|i: int| holds_at(front, id, i);
                assert(holds_at(entries, id, i));
            }
        }
        if exists|i: int| holds_at(entries, id, i) {
            let i = choose|i: int| holds_at(entries, id, i);
            if i < entries.len() - 1 {
                assert(holds_at(front, id, i));
            }
        }
    }
}

/// The block under an identifier is that of the last entry that carries it.
proof fn lemma_last_entry_counts(entries: Seq<StoredBlock>, id: BlockId, i: int)
    requires
        holds_at(entries, id, i),
        forall|j: int| i < j < entries.len() ==> entries[j].id != id,
    ensures
        blocks_of(entries).contains_key(id),
        blocks_of(entries)[id] == entries[i].data@,
    decreases entries.len(),
{
    if i < entries.len() - 1 {
        assert(holds_at(entries.drop_last(), id, i));
        lemma_last_entry_counts(entries.drop_last(), id, i);
    }
}

/// Taking out one entry that carries `id` changes no block but that of `id`.
proof fn lemma_entry_removed(entries: Seq<StoredBlock>, id: BlockId, i: int)
    requires
        holds_at(entries, id, i),
    ensures
        blocks_of(entries.remove(i)).remove(id) == blocks_of(entries).remove(id),
    decreases entries.len(),
{
    let last = entries.len() - 1;
    if i == last {
        assert(entries.remove(i) =~= entries.drop_last());
        assert(blocks_of(entries.drop_last()).remove(id) =~= blocks_of(entries).remove(id));
    } else {
        let front = entries.drop_last();
        assert(entries.remove(i).drop_last() =~= front.remove(i));
        assert(entries.remove(i).last() == entries.last());
        assert(holds_at(front, id, i));
        lemma_entry_removed(front, id, i);
        let shorter = blocks_of(front.remove(i));
        let longer = blocks_of(front);
        let removed = entries.remove(i);
        assert(removed.len() > 0);
        assert(blocks_of(removed) == shorter.insert(entries.last().id, entries.last().data@));
        assert(blocks_of(entries) == longer.insert(entries.last().id, entries.last().data@));
        let lhs = blocks_of(removed).remove(id);
        let rhs = blocks_of(entries).remove(id);
        assert forall|k: BlockId|
            #![trigger lhs.dom().contains(k)]
            #![trigger rhs.dom().contains(k)]
            lhs.dom().contains(k) == rhs.dom().contains(k) && (lhs.dom().contains(k) ==> lhs[k]
                == rhs[k]) by {
            if k != id {
                assert(shorter.remove(id).contains_key(k) == shorter.contains_key(k));
                assert(longer.remove(id).contains_key(k) == longer.contains_key(k));
                if shorter.contains_key(k) {
                    assert(shorter.remove(id)[k] == shorter[k]);
                    assert(longer.remove(id)[k] == longer[k]);
                }
            }
        }
        assert(lhs =~= rhs);
    }
}

/// Whether a store with this budget of changes allows one more: it has no
/// budget, or something is left of it.
pub open spec fn allows(budget: Option<u64>) -> bool {
    match budget {
        None => true,
        Some(left) => left > 0,
    }
}

/// The budget that is left of `budget` after one more change was asked for:
/// one change less, unless there is no budget or nothing was left of it.
pub open spec fn spent(budget: Option<u64>) -> Option<u64> {
    match budget {
        None => None,
        Some(left) => if left > 0 {
            Some((left - 1) as u64)
        } else {
            Some(0u64)
        },
    }
}

impl MemoryStore {
    /// The number of changes the store still accepts, if it is limited.
    pub closed spec fn budget(&self) -> Option<u64> {
        self.budget
    }

    /// Create an empty store that never fails.
    pub fn new() -> (store: MemoryStore)
        ensures
            store.blocks() == Map::<BlockId, Seq<u8>>::empty(),
            store.budget() is None,
            store.reliable(),
    {
        MemoryStore { entries: Vec::new(), budget: None }
    }

    /// Let the next `changes` writes and removals succeed and all later ones
    /// fail.
    pub fn fail_after(&mut self, changes: u64)
        ensures
            final(self).blocks() == old(self).blocks(),
            final(self).budget() == Some(changes),
            !final(self).reliable(),
    {
        self.budget = Some(changes);
    }

    /// Let every operation succeed again.
    pub fn recover(&mut self)
        ensures
            final(self).blocks() == old(self).blocks(),
            final(self).budget() is None,
            final(self).reliable(),
    {
        self.budget = None;
    }

    /// Use up one change of the budget, if the store has one: a store
    /// without a budget allows every change, and one with a budget allows a
    /// change while something is left of it, and then has one change less.
    fn spend(&mut self) -> (allowed: bool)
        ensures
            final(self).entries == old(self).entries,
            allowed == allows(old(self).budget),
            final(self).budget == spent(old(self).budget),
    {
        match self.budget {
            None => true,
            Some(left) => {
                if left == 0 {
                    false
                } else {
                    self.budget = Some(left - 1);
                    true
                }
            },
        }
    }

    /// Take out every entry that carries `id`.
    fn discard(&mut self, id: BlockId)
        ensures
            final(self).budget == old(self).budget,
            blocks_of(final(self).entries@) == blocks_of(old(self).entries@).remove(id),
    {
        let mut i: usize = 0;
        while i < self.entries.len()
            invariant
                i <= self.entries@.len(),
                self.budget == old(self).budget,
                forall|j: int| 0 <= j < i ==> self.entries@[j].id != id,
                blocks_of(self.entries@).remove(id) == blocks_of(old(self).entries@).remove(id),
            decreases self.entries@.len() - i,
        {
            if self.entries[i].id == id {
                proof {
                    lemma_entry_removed(self.entries@, id, i as int);
                }
                self.entries.remove(i);
            } else {
                i += 1;
            }
        }
        proof {
            lemma_blocks_contain(self.entries@, id);
            assert(blocks_of(self.entries@).remove(id) =~= blocks_of(self.entries@));
        }
    }
}

impl DataStore for MemoryStore {
    closed spec fn blocks(&self) -> Map<BlockId, Seq<u8>> {
        blocks_of(self.entries@)
    }

    closed spec fn reliable(&self) -> bool {
        self.budget is None
    }

    /// Store `data` under `id` if the budget allows it, and use up one
    /// change of the budget.
    fn write_block(&mut self, id: BlockId, data: &[u8]) -> (result: Result<(), Error>)
        ensures
            result is Ok <==> allows(old(self).budget()),
            result is Err ==> result == Err::<(), Error>(Error::Io(MEMORY_STORE_FAILURE)),
            final(self).budget() == spent(old(self).budget()),
    {
        if !self.spend() {
            return Err(Error::Io(MEMORY_STORE_FAILURE));
        }
        self.discard(id);
        let ghost kept = self.entries@;
        self.entries.push(StoredBlock { id, data: slice_to_vec(data) });
        proof {
            assert(self.entries@.drop_last() =~= kept);
            assert(blocks_of(self.entries@) =~= blocks_of(old(self).entries@).insert(id, data@));
        }
        Ok(())
    }

    fn read_block(&self, id: BlockId) -> (result: Result<Option<Vec<u8>>, Error>) {
        let mut i: usize = self.entries.len();
        while i > 0
            invariant
                i <= self.entries@.len(),
                forall|j: int| i <= j < self.entries@.len() ==> self.entries@[j].id != id,
            decreases i,
        {
            i -= 1;
            if self.entries[i].id == id {
                proof {
                    lemma_last_entry_counts(self.entries@, id, i as int);
                }
                return Ok(Some(slice_to_vec(self.entries[i].data.as_slice())));
            }
        }
        proof {
            lemma_blocks_contain(self.entries@, id);
        }
        Ok(None)
    }

    /// Remove the block under `id` if the budget allows it, and use up one
    /// change of the budget.
    fn remove_block(&mut self, id: BlockId) -> (result: Result<(), Error>)
        ensures
            result is Ok <==> allows(old(self).budget()),
            result is Err ==> result == Err::<(), Error>(Error::Io(MEMORY_STORE_FAILURE)),
            final(self).budget() == spent(old(self).budget()),
    {
        if !self.spend() {
            return Err(Error::Io(MEMORY_STORE_FAILURE));
        }
        self.discard(id);
        Ok(())
    }

    fn list_blocks(&self) -> (result: Result<Vec<BlockId>, Error>) {
        let mut ids: Vec<BlockId> = Vec::new();
        let mut i: usize = 0;
        while i < self.entries.len()
            invariant
                i <= self.entries@.len(),
                ids@.len() == i,
                forall|j: int| 0 <= j < i ==> ids@[j] == self.entries@[j].id,
            decreases self.entries@.len() - i,
        {
            ids.push(self.entries[i].id);
            i += 1;
        }
        proof {
            assert forall|id: BlockId| ids@.contains(id) <==> self.blocks().contains_key(id) by {
                lemma_blocks_contain(self.entries@, id);
                if ids@.contains(id) {
                    let j = choose|j: int| 0 <= j < ids@.len() && ids@[j] == id;
                    assert(holds_at(self.entries@, id, j));
                }
                if self.blocks().contains_key(id) {
                    let j = choose|j: int| holds_at(self.entries@, id, j);
                    assert(ids@[j] == id);
                }
            }
        }
        Ok(ids)
    }
}

} // verus!
