//! Publishing a header: the header is written to fresh blocks behind its
//! length, and then the superblock is overwritten with the offset of the
//! first of those blocks. Until the superblock has changed, the store
//! publishes the header it published before.

use vstd::prelude::*;
use vstd::slice::slice_subrange;
use crate::archive::{
    all_below, lemma_stored_bytes_unchanged, read_run, same_below, same_outside, stored_bytes,
    write_run,
};
use crate::block::{
    block_run, blocks_needed, BlockAddress, HeaderAddress, BLOCK_OFFSET, BLOCK_SIZE, MAX_BLOCKS,
    SUPERBLOCK_ID,
};
use crate::bytes::{be64, from_be64, lemma_be64_round_trip, push_be64, read_be64};
use crate::encoding::{
    decode_header, encode_header, encoding_of, names_other_version, parse_header, wire_of,
    WireHeader,
};
use crate::error::Error;
use crate::header::Header;
use crate::repository::blocks_for;
use crate::store::{BlockId, DataStore};

verus! {

/// The index of the block that the superblock points to, if the store has a
/// superblock that points to a block.
pub open spec fn superblock_target(blocks: Map<BlockId, Seq<u8>>) -> Option<nat> {
    if blocks.contains_key(0) && blocks[0].len() == 8 {
        let offset = from_be64(blocks[0]);
        if offset >= 8 && (offset - 8) % 4096 == 0 && (offset - 8) / 4096 < MAX_BLOCKS {
            Some(((offset - 8) / 4096) as nat)
        } else {
            None
        }
    } else {
        None
    }
}

/// The length that the frame starting in the block with index `first`
/// records for its payload, if the block is there and holds a length.
pub open spec fn frame_length(blocks: Map<BlockId, Seq<u8>>, first: nat) -> Option<nat> {
    let id = (first + 1) as BlockId;
    if blocks.contains_key(id) && blocks[id].len() >= 8 {
        Some(from_be64(blocks[id].take(8)) as nat)
    } else {
        None
    }
}

/// The payload of the frame that starts in the block with index `first`: the
/// bytes behind the length, where the blocks hold exactly as many as the
/// length says. A frame too long for this machine to hold in memory counts as
/// not there.
pub open spec fn frame_at(blocks: Map<BlockId, Seq<u8>>, first: nat) -> Option<Seq<u8>> {
    match frame_length(blocks, first) {
        Some(length) => {
            let count = blocks_needed(8 + length);
            if first + count <= MAX_BLOCKS && 8 + length <= usize::MAX {
                match stored_bytes(blocks, block_run(first, count)) {
                    Some(frame) => if frame.len() == 8 + length {
                        Some(frame.skip(8))
                    } else {
                        None
                    },
                    None => None,
                }
            } else {
                None
            }
        },
        None => None,
    }
}

/// The header that the store publishes, as it is written.
pub open spec fn published(blocks: Map<BlockId, Seq<u8>>) -> Option<WireHeader> {
    match superblock_target(blocks) {
        Some(first) => match frame_at(blocks, first) {
            Some(payload) => parse_header(payload),
            None => None,
        },
        None => None,
    }
}

/// Whether `address` is that of a header with a payload of `length` bytes in
/// the blocks from index `first` on.
pub open spec fn addresses(address: HeaderAddress, first: nat, length: nat) -> bool {
    &&& address.offset() == 8 + first * 4096
    &&& address.header_size() == 8 + length
    &&& address.archive_size() == 8 + (first + blocks_needed(8 + length)) * 4096
    &&& first + blocks_needed(8 + length) <= MAX_BLOCKS
}

/// The blocks of a run with `count` blocks from index `first` on lie below
/// the end of the run.
pub proof fn lemma_run_below(first: nat, count: nat)
    ensures
        all_below(block_run(first, count), (first + count) as int),
{
}

/// The first block of a run is read first.
pub proof fn lemma_run_starts(blocks: Map<BlockId, Seq<u8>>, first: nat, count: nat)
    requires
        count >= 1,
        first + count <= MAX_BLOCKS,
    ensures
        match stored_bytes(blocks, block_run(first, count)) {
            Some(bytes) => {
                &&& blocks.contains_key((first + 1) as BlockId)
                &&& bytes.len() >= blocks[(first + 1) as BlockId].len()
                &&& bytes.take(blocks[(first + 1) as BlockId].len() as int) == blocks[(first
                    + 1) as BlockId]
            },
            None => true,
        },
    decreases count,
{
    let run = block_run(first, count);
    if count == 1 {
        assert(run.drop_last() =~= Seq::<BlockAddress>::empty());
        assert(stored_bytes(blocks, run.drop_last()) == Some(Seq::<u8>::empty()));
        assert(run.last() == BlockAddress(first as u64));
        match stored_bytes(blocks, run) {
            Some(bytes) => {
                assert(bytes =~= blocks[(first + 1) as BlockId]);
                assert(bytes.take(bytes.len() as int) =~= bytes);
            },
            None => {},
        }
    } else {
        assert(run.drop_last() =~= block_run(first, (count - 1) as nat));
        lemma_run_starts(blocks, first, (count - 1) as nat);
        match stored_bytes(blocks, run) {
            Some(bytes) => {
                let front = stored_bytes(blocks, run.drop_last())->0;
                let head = blocks[(first + 1) as BlockId];
                assert(bytes.take(head.len() as int) =~= front.take(head.len() as int));
            },
            None => {},
        }
    }
}

/// A frame that lies below blocks that changed reads as before.
pub proof fn lemma_frame_unchanged(
    before: Map<BlockId, Seq<u8>>,
    after: Map<BlockId, Seq<u8>>,
    first: nat,
    bound: int,
)
    requires
        same_below(before, after, bound),
        match frame_length(before, first) {
            Some(length) => first + blocks_needed(8 + length) <= bound,
            None => first < bound,
        },
    ensures
        frame_at(after, first) == frame_at(before, first),
        frame_length(after, first) == frame_length(before, first),
{
    let id = (first + 1) as BlockId;
    assert(before.dom().contains(id) == after.dom().contains(id));
    match frame_length(before, first) {
        Some(length) => {
            let count = blocks_needed(8 + length);
            lemma_run_below(first, count);
            lemma_stored_bytes_unchanged(before, after, block_run(first, count), bound);
        },
        None => {},
    }
}

/// What is published does not change where neither the superblock nor the
/// blocks of the published header change.
pub proof fn lemma_published_unchanged(
    before: Map<BlockId, Seq<u8>>,
    after: Map<BlockId, Seq<u8>>,
    bound: int,
)
    requires
        0 <= bound,
        same_below(before, after, bound),
        match superblock_target(before) {
            Some(first) => match frame_length(before, first) {
                Some(length) => first + blocks_needed(8 + length) <= bound,
                None => first < bound,
            },
            None => true,
        },
    ensures
        published(after) == published(before),
        superblock_target(after) == superblock_target(before),
{
    assert(before.dom().contains(0) == after.dom().contains(0));
    match superblock_target(before) {
        Some(first) => {
            lemma_frame_unchanged(before, after, first, bound);
        },
        None => {},
    }
}

/// Whether `result` is what reading the published header from a store with
/// these `blocks` may give: the header that the store publishes with its
/// address, or an error; a reliable store gives an error only where it
/// publishes no header, and then the error that says why.
pub open spec fn read_as(
    blocks: Map<BlockId, Seq<u8>>,
    reliable: bool,
    result: Result<(Header, HeaderAddress), Error>,
) -> bool {
    match result {
        Ok((header, address)) => {
            &&& published(blocks) == Some(wire_of(&header))
            &&& superblock_target(blocks) is Some
            &&& frame_length(blocks, superblock_target(blocks)->0) is Some
            &&& addresses(
                address,
                superblock_target(blocks)->0,
                frame_length(blocks, superblock_target(blocks)->0)->0,
            )
        },
        Err(error) => reliable ==> {
            &&& forall|header: Header| published(blocks) != Some(wire_of(&header))
            &&& error == refusal(blocks)
        },
    }
}

/// The error that reading the published header from a store with these
/// `blocks` ends with, where the store publishes none and does not fail: a
/// store without a superblock holds no repository; a superblock that leads
/// to no frame is corrupt; and a frame that holds no header is refused as
/// an unsupported format where it starts as a header of another version
/// does, and else as not a header.
pub open spec fn refusal(blocks: Map<BlockId, Seq<u8>>) -> Error {
    if !blocks.contains_key(0) {
        Error::NotFound
    } else {
        match superblock_target(blocks) {
            Some(first) => match frame_at(blocks, first) {
                Some(payload) => if names_other_version(payload) {
                    Error::UnsupportedFormat
                } else {
                    Error::Deserialize
                },
                None => Error::Corrupt,
            },
            None => Error::Corrupt,
        }
    }
}

impl Header {
    /// Reads the header that the store publishes.
    ///
    /// A store without a superblock holds no repository. A superblock that
    /// leads to no well-framed header is corrupt; a frame whose payload is
    /// not a header is refused as the decoder refuses it.
    #[verifier::rlimit(50)]
    pub fn read<S: DataStore>(store: &S) -> (result: Result<(Header, HeaderAddress), Error>)
        ensures
            read_as(store.blocks(), store.reliable(), result),
    {
        let superblock = match store.read_block(SUPERBLOCK_ID) {
            Ok(Some(bytes)) => bytes,
            Ok(None) => {
                return Err(Error::NotFound);
            },
            Err(error) => {
                return Err(error);
            },
        };
        if superblock.len() != 8 {
            return Err(Error::Corrupt);
        }
        let offset = read_be64(superblock.as_slice(), 0);
        assert(superblock@.subrange(0, 8) =~= superblock@);
        let first = match BlockAddress::from_offset(offset) {
            Some(first) => first,
            None => {
                proof {
                    if offset >= 8 && (offset - 8) % 4096 == 0 && (offset - 8) / 4096 < MAX_BLOCKS {
                        let a = BlockAddress(((offset - 8) / 4096) as u64);
                        assert(a.offset() == offset);
                    }
                }
                return Err(Error::Corrupt);
            },
        };
        assert(superblock_target(store.blocks()) == Some(first.0 as nat));
        let head = match store.read_block(first.block_id()) {
            Ok(Some(bytes)) => bytes,
            Ok(None) => {
                return Err(Error::Corrupt);
            },
            Err(error) => {
                return Err(error);
            },
        };
        if head.len() < 8 {
            return Err(Error::Corrupt);
        }
        let length = read_be64(head.as_slice(), 0);
        assert(head@.subrange(0, 8) =~= head@.take(8));
        if length > u64::MAX - 8 || length > usize::MAX as u64 - 8 {
            return Err(Error::Corrupt);
        }
        let total = 8 + length;
        let count = blocks_for(total as usize);
        if count > MAX_BLOCKS - first.0 {
            return Err(Error::Corrupt);
        }
        let run = BlockAddress::range(first.to_offset(), total);
        proof {
            Self::lemma_range_is_run(first.0 as nat, total as nat);
        }
        let frame = match read_run(store, &run) {
            Ok(frame) => frame,
            Err(error) => {
                return Err(error);
            },
        };
        if frame.len() as u64 != total {
            return Err(Error::Corrupt);
        }
        let payload = slice_subrange(frame.as_slice(), 8, frame.len());
        assert(payload@ =~= frame@.skip(8));
        let header = match decode_header(payload) {
            Ok(header) => header,
            Err(error) => {
                return Err(error);
            },
        };
        let address = HeaderAddress::new(
            offset,
            total,
            BLOCK_OFFSET + (first.0 + count) * BLOCK_SIZE,
        );
        Ok((header, address))
    }

    /// The blocks that hold the bytes of a frame are a run from its first
    /// block on.
    pub proof fn lemma_range_is_run(first: nat, total: nat)
        requires
            first < MAX_BLOCKS,
            total >= 1,
        ensures
            crate::block::blocks_covering((8 + first * 4096) as nat, total) == block_run(
                first,
                blocks_needed(total),
            ),
    {
        let start = (8 + first * 4096) as nat;
        let end = start + total;
        assert(crate::block::block_index_at(start) == first);
        assert(crate::block::block_index_at((end - 1) as nat) == first + blocks_needed(total) - 1);
        assert(crate::block::blocks_covering(start, total) =~= block_run(
            first,
            blocks_needed(total),
        ));
    }

    /// Writes this header to the blocks of `store` from `first` on and makes
    /// the superblock point to it.
    ///
    /// This does not overwrite the header that the store published before:
    /// until the superblock has been written, that header stays published,
    /// and where this fails it is published still.
    #[verifier::rlimit(50)]
    pub fn write<S: DataStore>(&self, store: &mut S, first: BlockAddress) -> (result: Result<
        HeaderAddress,
        Error,
    >)
        requires
            first.0 <= MAX_BLOCKS,
        ensures
            final(store).reliable() == old(store).reliable(),
            same_below(old(store).blocks(), final(store).blocks(), first.0 as int) || result is Ok,
            match result {
                Ok(address) => {
                    &&& published(final(store).blocks()) == Some(wire_of(self))
                    &&& superblock_target(final(store).blocks()) == Some(first.0 as nat)
                    &&& frame_length(final(store).blocks(), first.0 as nat) == Some(
                        encoding_of(self).len(),
                    )
                    &&& addresses(address, first.0 as nat, encoding_of(self).len())
                    &&& forall|id: BlockId|
                        #![trigger old(store).blocks().dom().contains(id)]
                        #![trigger final(store).blocks().dom().contains(id)]
                        1 <= id <= first.0 ==> old(store).blocks().dom().contains(id)
                            == final(store).blocks().dom().contains(id)
                            && (old(store).blocks().dom().contains(id)
                            ==> old(store).blocks()[id] == final(store).blocks()[id])
                },
                Err(error) => old(store).reliable() ==> error == Error::Serialize,
            },
            old(store).reliable() ==> (result is Ok <==> 8 + encoding_of(self).len() <= usize::MAX
                && first.0 + blocks_needed(8 + encoding_of(self).len()) <= MAX_BLOCKS),
    {
        let payload = encode_header(self);
        if payload.len() > usize::MAX - 8 {
            return Err(Error::Serialize);
        }
        let mut frame: Vec<u8> = Vec::new();
        push_be64(&mut frame, payload.len() as u64);
        frame.extend_from_slice(payload.as_slice());
        let ghost length = payload@.len();
        proof {
            lemma_be64_round_trip(length as u64);
            assert(frame@ =~= be64(length as u64) + payload@);
            assert(frame@.take(8) =~= be64(length as u64));
            assert(frame@.skip(8) =~= payload@);
        }
        let count = blocks_for(frame.len());
        if count > MAX_BLOCKS - first.0 {
            return Err(Error::Serialize);
        }
        let ghost before = store.blocks();
        let run = match write_run(store, first.0, frame.as_slice()) {
            Ok(run) => run,
            Err(error) => {
                return Err(error);
            },
        };
        let ghost written = store.blocks();
        let offset = first.to_offset();
        let mut pointer: Vec<u8> = Vec::new();
        push_be64(&mut pointer, offset);
        match store.write_block(SUPERBLOCK_ID, pointer.as_slice()) {
            Ok(()) => {},
            Err(error) => {
                return Err(error);
            },
        }
        proof {
            lemma_be64_round_trip(offset);
            assert(pointer@ =~= be64(offset));
            lemma_published_after_write(
                written,
                store.blocks(),
                first.0 as nat,
                count as nat,
                frame@,
                payload@,
            );
            crate::encoding::lemma_wire_well_shaped(self);
            assert(published(store.blocks()) == Some(wire_of(self)));
            assert forall|id: BlockId|
                #![trigger before.dom().contains(id)]
                #![trigger store.blocks().dom().contains(id)]
                1 <= id <= first.0 implies before.dom().contains(id)
                == store.blocks().dom().contains(id) && (before.dom().contains(id) ==> before[id]
                == store.blocks()[id]) by {
                assert(before.dom().contains(id) == written.dom().contains(id));
            }
        }
        Ok(HeaderAddress::new(offset, frame.len() as u64, BLOCK_OFFSET + (first.0
            + count) * BLOCK_SIZE))
    }
}

/// Whether `after` holds every block with an index below `bound` as `before`
/// does; the superblock may differ.
pub open spec fn same_below_but_superblock(
    before: Map<BlockId, Seq<u8>>,
    after: Map<BlockId, Seq<u8>>,
    bound: int,
) -> bool {
    forall|id: BlockId|
        #![trigger before.dom().contains(id)]
        #![trigger after.dom().contains(id)]
        1 <= id <= bound ==> before.dom().contains(id) == after.dom().contains(id) && (
        before.dom().contains(id) ==> before[id] == after[id])
}

/// Blocks read the same whatever became of the superblock.
pub proof fn lemma_stored_bytes_kept(
    before: Map<BlockId, Seq<u8>>,
    after: Map<BlockId, Seq<u8>>,
    addresses: Seq<BlockAddress>,
    bound: int,
)
    requires
        same_below_but_superblock(before, after, bound),
        all_below(addresses, bound),
    ensures
        stored_bytes(after, addresses) == stored_bytes(before, addresses),
    decreases addresses.len(),
{
    if addresses.len() > 0 {
        lemma_stored_bytes_kept(before, after, addresses.drop_last(), bound);
        let id = addresses.last().id();
        assert(before.dom().contains(id) == after.dom().contains(id));
    }
}

/// Once a frame has been written to a run of blocks and the superblock
/// points to the run, the store publishes what the frame holds.
#[verifier::rlimit(50)]
pub proof fn lemma_published_after_write(
    written: Map<BlockId, Seq<u8>>,
    after: Map<BlockId, Seq<u8>>,
    first: nat,
    count: nat,
    frame: Seq<u8>,
    payload: Seq<u8>,
)
    requires
        frame == be64(payload.len() as u64) + payload,
        8 + payload.len() <= usize::MAX,
        count == blocks_needed(frame.len()),
        first + count <= MAX_BLOCKS,
        stored_bytes(written, block_run(first, count)) == Some(frame),
        written.contains_key((first + 1) as BlockId),
        written[(first + 1) as BlockId] == frame.take(
            if frame.len() < 4096 {
                frame.len() as int
            } else {
                4096
            },
        ),
        after == written.insert(0, be64((8 + first * 4096) as u64)),
    ensures
        superblock_target(after) == Some(first),
        frame_length(after, first) == Some(payload.len()),
        frame_at(after, first) == Some(payload),
        same_below_but_superblock(written, after, (first + count) as int),
{
    let offset = (8 + first * 4096) as u64;
    lemma_be64_round_trip(offset);
    lemma_be64_round_trip(payload.len() as u64);
    assert(same_below_but_superblock(written, after, (first + count) as int));
    lemma_run_below(first, count);
    lemma_stored_bytes_kept(written, after, block_run(first, count), (first + count) as int);
    let head = after[(first + 1) as BlockId];
    assert(head.take(8) =~= be64(payload.len() as u64));
    assert(frame.skip(8) =~= payload);
}

} // verus!
