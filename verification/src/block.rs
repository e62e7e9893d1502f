//! The layout of the archive: a superblock of eight bytes, then blocks of a
//! fixed size, each with an address.

use vstd::prelude::*;
use crate::store::BlockId;

verus! {

/// The size of a block in bytes.
pub const BLOCK_SIZE: u64 = 4096;

/// The offset of the first block: the size of the superblock.
pub const BLOCK_OFFSET: u64 = 8;

/// The identifier under which the superblock is stored.
pub const SUPERBLOCK_ID: BlockId = 0;

/// The number of blocks an archive can hold; the offset of every block fits
/// in 64 bits with room to spare.
pub const MAX_BLOCKS: u64 = 0x8_0000_0000_0000;

/// The address of a block: its index among the blocks of the archive.
#[derive(Debug, Clone, Copy, PartialEq, Eq, Structural, Hash)]
pub struct BlockAddress(pub u64);

/// The number of blocks that `length` bytes fill.
pub open spec fn blocks_needed(length: nat) -> nat {
    ((length + 4095) / 4096) as nat
}

/// The addresses `first`, `first + 1`, ... of `count` blocks in a row.
pub open spec fn block_run(first: nat, count: nat) -> Seq<BlockAddress> {
    Seq::new(count, |i: int| BlockAddress((first + i) as u64))
}

/// The index of the block that holds the byte at `offset`.
pub open spec fn block_index_at(offset: nat) -> nat {
    if offset < 8 {
        0
    } else {
        ((offset - 8) / 4096) as nat
    }
}

/// The addresses of the blocks that hold a byte of the `length` bytes at
/// `start_offset`. Bytes of the superblock belong to no block.
pub open spec fn blocks_covering(start_offset: nat, length: nat) -> Seq<BlockAddress> {
    let end = start_offset + length;
    if length == 0 || end <= 8 {
        Seq::empty()
    } else {
        let first = block_index_at(start_offset);
        let last = block_index_at((end - 1) as nat);
        block_run(first, (last - first + 1) as nat)
    }
}

impl BlockAddress {
    /// The identifier under which this block is stored.
    pub open spec fn id(self) -> BlockId {
        (self.0 + 1) as BlockId
    }

    /// The offset of this block's first byte in the archive.
    pub open spec fn offset(self) -> nat {
        (8 + self.0 * 4096) as nat
    }

    /// The identifier under which this block is stored.
    pub fn block_id(&self) -> (id: BlockId)
        ensures
            id == self.id(),
            id != SUPERBLOCK_ID,
    {
        self.0 as u128 + 1
    }

    /// The offset of this block's first byte in the archive.
    pub fn to_offset(&self) -> (offset: u64)
        requires
            self.0 <= MAX_BLOCKS,
        ensures
            offset == self.offset(),
    {
        BLOCK_OFFSET + self.0 * BLOCK_SIZE
    }

    /// The address of the block that starts at `offset`, if one does.
    pub fn from_offset(offset: u64) -> (address: Option<BlockAddress>)
        ensures
            match address {
                Some(a) => a.offset() == offset && a.0 < MAX_BLOCKS,
                None => forall|a: BlockAddress| a.0 < MAX_BLOCKS ==> a.offset() != offset,
            },
    {
        if offset < BLOCK_OFFSET {
            return None;
        }
        let rest = offset - BLOCK_OFFSET;
        if rest % BLOCK_SIZE != 0 {
            return None;
        }
        let index = rest / BLOCK_SIZE;
        if index >= MAX_BLOCKS {
            return None;
        }
        Some(BlockAddress(index))
    }

    /// The addresses of the blocks that hold a byte of the `length` bytes at
    /// `start_offset`, in rising order.
    pub fn range(start_offset: u64, length: u64) -> (addresses: Vec<BlockAddress>)
        ensures
            addresses@ == blocks_covering(start_offset as nat, length as nat),
    {
        let mut addresses: Vec<BlockAddress> = Vec::new();
        let end: u128 = start_offset as u128 + length as u128;
        if length == 0 || end <= 8 {
            return addresses;
        }
        let first: u64 = if start_offset < BLOCK_OFFSET {
            0
        } else {
            (start_offset - BLOCK_OFFSET) / BLOCK_SIZE
        };
        let last: u128 = (end - 1 - 8) / 4096;
        let mut index: u64 = first;
        let ghost expected = blocks_covering(start_offset as nat, length as nat);
        assert(first <= last);
        assert(last < 0x20_0000_0000_0000);
        while index as u128 <= last
            invariant
                first <= index,
                index <= last + 1,
                last < 0x20_0000_0000_0000,
                expected == block_run(first as nat, (last - first + 1) as nat),
                addresses@ == expected.take(index - first),
            decreases last + 1 - index,
        {
            addresses.push(BlockAddress(index));
            assert(addresses@ =~= expected.take(index - first + 1));
            index += 1;
        }
        assert(addresses@ =~= expected);
        addresses
    }
}

/// The address of the header in the archive.
#[derive(Debug, PartialEq, Eq, Clone, Copy)]
pub struct HeaderAddress {
    /// The offset of the first block of the header.
    offset: u64,
    /// The size of the header in bytes, its length prefix included.
    header_size: u64,
    /// The size of the archive in bytes.
    archive_size: u64,
}

impl HeaderAddress {
    /// The offset of the first block of the header.
    pub closed spec fn offset(&self) -> nat {
        self.offset as nat
    }

    /// The size of the header in bytes, its length prefix included.
    pub closed spec fn header_size(&self) -> nat {
        self.header_size as nat
    }

    /// The size of the archive in bytes: the offset behind the last block
    /// of the header.
    pub closed spec fn archive_size(&self) -> nat {
        self.archive_size as nat
    }

    /// The address of a header of `header_size` bytes at `offset` in an
    /// archive of `archive_size` bytes.
    pub fn new(offset: u64, header_size: u64, archive_size: u64) -> (address: HeaderAddress)
        ensures
            address.offset() == offset,
            address.header_size() == header_size,
            address.archive_size() == archive_size,
    {
        HeaderAddress { offset, header_size, archive_size }
    }

    /// The offset of the first block of the header.
    pub fn header_offset(&self) -> (offset: u64)
        ensures
            offset == self.offset(),
    {
        self.offset
    }

    /// The size of the header in bytes, its length prefix included.
    pub fn size(&self) -> (size: u64)
        ensures
            size == self.header_size(),
    {
        self.header_size
    }

    /// The size of the archive in bytes: the offset behind the last block
    /// of the header.
    pub fn end(&self) -> (size: u64)
        ensures
            size == self.archive_size(),
    {
        self.archive_size
    }

    /// Returns the list of addresses of all blocks of the archive that the
    /// header closes: from the first block to the last block of the header.
    /// Blocks behind the header belong to no published state.
    pub fn blocks(&self) -> (addresses: Vec<BlockAddress>)
        ensures
            addresses@ == blocks_covering(
                8,
                if self.archive_size() < 8 {
                    0
                } else {
                    (self.archive_size() - 8) as nat
                },
            ),
    {
        if self.archive_size < BLOCK_OFFSET {
            BlockAddress::range(BLOCK_OFFSET, 0)
        } else {
            BlockAddress::range(BLOCK_OFFSET, self.archive_size - BLOCK_OFFSET)
        }
    }

    /// Returns the list of addresses of blocks used for storing the header.
    pub fn header_blocks(&self) -> (addresses: Vec<BlockAddress>)
        ensures
            addresses@ == blocks_covering(self.offset(), self.header_size()),
    {
        BlockAddress::range(self.offset, self.header_size)
    }
}

} // verus!
