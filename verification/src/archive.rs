//! Byte strings laid out over runs of blocks in a store.

use vstd::prelude::*;
use vstd::slice::slice_subrange;
use crate::block::{block_run, blocks_needed, BlockAddress, BLOCK_SIZE, MAX_BLOCKS};
use crate::error::Error;
use crate::store::{BlockId, DataStore};

verus! {

/// The contents of the blocks at `addresses` put end to end, or `None` where
/// the store lacks one of them.
pub open spec fn stored_bytes(blocks: Map<BlockId, Seq<u8>>, addresses: Seq<BlockAddress>) -> Option<
    Seq<u8>,
>
    decreases addresses.len(),
{
    if addresses.len() == 0 {
        Some(Seq::empty())
    } else {
        match stored_bytes(blocks, addresses.drop_last()) {
            Some(front) => if blocks.contains_key(addresses.last().id()) {
                Some(front + blocks[addresses.last().id()])
            } else {
                None
            },
            None => None,
        }
    }
}

/// Whether `after` holds the superblock and every block with an index below
/// `bound` exactly as `before` does.
pub open spec fn same_below(
    before: Map<BlockId, Seq<u8>>,
    after: Map<BlockId, Seq<u8>>,
    bound: int,
) -> bool {
    forall|id: BlockId|
        #![trigger before.dom().contains(id)]
        #![trigger after.dom().contains(id)]
        id <= bound ==> before.dom().contains(id) == after.dom().contains(id) && (
        before.dom().contains(id) ==> before[id] == after[id])
}

/// Whether `after` differs from `before` at most in the blocks with an index
/// from `low` up to, not including, `high`.
pub open spec fn same_outside(
    before: Map<BlockId, Seq<u8>>,
    after: Map<BlockId, Seq<u8>>,
    low: int,
    high: int,
) -> bool {
    forall|id: BlockId|
        #![trigger before.dom().contains(id)]
        #![trigger after.dom().contains(id)]
        !(low < id <= high) ==> before.dom().contains(id) == after.dom().contains(id) && (
        before.dom().contains(id) ==> before[id] == after[id])
}

/// Whether every address of `addresses` has an index below `bound`.
pub open spec fn all_below(addresses: Seq<BlockAddress>, bound: int) -> bool {
    forall|i: int| 0 <= i < addresses.len() ==> (#[trigger] addresses[i]).0 < bound
}

/// Blocks that did not change read the same.
pub proof fn lemma_stored_bytes_unchanged(
    before: Map<BlockId, Seq<u8>>,
    after: Map<BlockId, Seq<u8>>,
    addresses: Seq<BlockAddress>,
    bound: int,
)
    requires
        same_below(before, after, bound),
        all_below(addresses, bound),
    ensures
        stored_bytes(after, addresses) == stored_bytes(before, addresses),
    decreases addresses.len(),
{
    if addresses.len() > 0 {
        lemma_stored_bytes_unchanged(before, after, addresses.drop_last(), bound);
        let id = addresses.last().id();
        assert(before.dom().contains(id) == after.dom().contains(id));
    }
}

/// Blocks that two stores hold alike read the same from both.
pub proof fn lemma_stored_bytes_agree(
    before: Map<BlockId, Seq<u8>>,
    after: Map<BlockId, Seq<u8>>,
    addresses: Seq<BlockAddress>,
)
    requires
        forall|i: int|
            0 <= i < addresses.len() ==> before.dom().contains((#[trigger] addresses[i]).id())
                == after.dom().contains(addresses[i].id()) && (before.dom().contains(
                addresses[i].id(),
            ) ==> before[addresses[i].id()] == after[addresses[i].id()]),
    ensures
        stored_bytes(after, addresses) == stored_bytes(before, addresses),
    decreases addresses.len(),
{
    if addresses.len() > 0 {
        let front = addresses.drop_last();
        assert forall|i: int| 0 <= i < front.len() implies before.dom().contains(
            (#[trigger] front[i]).id(),
        ) == after.dom().contains(front[i].id()) && (before.dom().contains(front[i].id())
            ==> before[front[i].id()] == after[front[i].id()]) by {
            assert(front[i] == addresses[i]);
        }
        lemma_stored_bytes_agree(before, after, front);
        assert(addresses.last() == addresses[addresses.len() - 1]);
    }
}

/// Write `data` to the run of blocks that starts with the index `first`, a
/// block's worth of bytes to each and what is left to the last.
pub fn write_run<S: DataStore>(store: &mut S, first: u64, data: &[u8]) -> (result: Result<
    Vec<BlockAddress>,
    Error,
>)
    requires
        first + blocks_needed(data@.len()) <= MAX_BLOCKS,
    ensures
        match result {
            Ok(addresses) => {
                &&& addresses@ == block_run(first as nat, blocks_needed(data@.len()))
                &&& stored_bytes(final(store).blocks(), addresses@) == Some(data@)
                &&& data@.len() > 0 ==> final(store).blocks().contains_key((first + 1) as BlockId)
                    && final(store).blocks()[(first + 1) as BlockId] == data@.take(
                    if data@.len() < 4096 {
                        data@.len() as int
                    } else {
                        4096
                    },
                )
            },
            Err(_) => true,
        },
        same_outside(
            old(store).blocks(),
            final(store).blocks(),
            first as int,
            first + blocks_needed(data@.len()),
        ),
        old(store).reliable() ==> result is Ok,
        final(store).reliable() == old(store).reliable(),
{
    let mut addresses: Vec<BlockAddress> = Vec::new();
    let total: usize = data.len();
    let mut written: usize = 0;
    let ghost needed = blocks_needed(data@.len());
    while written < total
        invariant
            total == data@.len(),
            written <= total,
            written == total || written % 4096 == 0,
            needed == blocks_needed(data@.len()),
            first + needed <= MAX_BLOCKS,
            addresses@ == block_run(first as nat, blocks_needed(written as nat)),
            stored_bytes(store.blocks(), addresses@) == Some(data@.take(written as int)),
            written > 0 ==> store.blocks().contains_key((first + 1) as BlockId) && store.blocks()[(
            first + 1) as BlockId] == data@.take(
                if total < 4096 {
                    total as int
                } else {
                    4096
                },
            ),
            same_outside(
                old(store).blocks(),
                store.blocks(),
                first as int,
                first + blocks_needed(written as nat),
            ),
            store.reliable() == old(store).reliable(),
        decreases total - written,
    {
        let count: usize = addresses.len();
        let step: usize = if total - written > BLOCK_SIZE as usize {
            BLOCK_SIZE as usize
        } else {
            total - written
        };
        let address = BlockAddress(first + count as u64);
        let piece = slice_subrange(data, written, written + step);
        let ghost before = store.blocks();
        match store.write_block(address.block_id(), piece) {
            Ok(()) => {},
            Err(error) => {
                return Err(error);
            },
        }
        let ghost earlier = addresses@;
        addresses.push(address);
        proof {
            assert(blocks_needed((written + step) as nat) == count + 1);
            assert(addresses@ =~= block_run(first as nat, blocks_needed((written + step) as nat)));
            assert(addresses@.drop_last() =~= earlier);
            assert(same_below(before, store.blocks(), first + count)) by {
                assert forall|id: BlockId|
                    #![trigger before.dom().contains(id)]
                    #![trigger store.blocks().dom().contains(id)]
                    id <= first + count implies before.dom().contains(id)
                    == store.blocks().dom().contains(id) && (before.dom().contains(id)
                    ==> before[id] == store.blocks()[id]) by {
                    assert(id != address.id());
                }
            }
            assert(all_below(earlier, first + count));
            lemma_stored_bytes_unchanged(before, store.blocks(), earlier, first + count);
            assert(data@.take(written as int) + piece@ =~= data@.take(written + step));
            if written == 0 {
                assert(piece@ =~= data@.take(step as int));
            }
        }
        written = written + step;
    }
    proof {
        assert(data@.take(total as int) =~= data@);
    }
    Ok(addresses)
}

/// Read the blocks at `addresses` and put their contents end to end. A block
/// that the store lacks makes the run corrupt.
pub fn read_run<S: DataStore>(store: &S, addresses: &Vec<BlockAddress>) -> (result: Result<
    Vec<u8>,
    Error,
>)
    ensures
        match result {
            Ok(bytes) => stored_bytes(store.blocks(), addresses@) == Some(bytes@),
            Err(error) => store.reliable() ==> error == Error::Corrupt && stored_bytes(
                store.blocks(),
                addresses@,
            ) is None,
        },
{
    let mut bytes: Vec<u8> = Vec::new();
    let mut i: usize = 0;
    while i < addresses.len()
        invariant
            i <= addresses@.len(),
            stored_bytes(store.blocks(), addresses@.take(i as int)) == Some(bytes@),
        decreases addresses@.len() - i,
    {
        proof {
            assert(addresses@.take(i + 1).drop_last() =~= addresses@.take(i as int));
        }
        match store.read_block(addresses[i].block_id()) {
            Ok(Some(block)) => {
                let ghost front = bytes@;
                bytes.extend_from_slice(block.as_slice());
                assert(bytes@ =~= front + block@);
            },
            Ok(None) => {
                proof {
                    lemma_missing_block(store.blocks(), addresses@, i as int);
                }
                return Err(Error::Corrupt);
            },
            Err(error) => {
                return Err(error);
            },
        }
        i += 1;
    }
    proof {
        assert(addresses@.take(i as int) =~= addresses@);
    }
    Ok(bytes)
}

/// A run with a missing block cannot be read.
pub proof fn lemma_missing_block(
    blocks: Map<BlockId, Seq<u8>>,
    addresses: Seq<BlockAddress>,
    i: int,
)
    requires
        0 <= i < addresses.len(),
        !blocks.contains_key(addresses[i].id()),
    ensures
        stored_bytes(blocks, addresses) is None,
    decreases addresses.len(),
{
    if i < addresses.len() - 1 {
        lemma_missing_block(blocks, addresses.drop_last(), i);
    }
}

} // verus!
