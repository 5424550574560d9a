//! The layout of a freshly formatted image.

use vstd::prelude::*;
use crate::bytes::{Block, BLOCK_SIZE};
use crate::layout::{Superblock, Inode, MAGIC, INODE_SIZE};
use crate::bitmap::bits_of;

verus! {

/// Block of the inode bitmap.
pub const INODE_BITMAP_BLOCK: u64 = 1;
/// Block of the data bitmap.
pub const DATA_BITMAP_BLOCK: u64 = 2;
/// First block of the inode table.
pub const INODE_TABLE_BLOCK: u64 = 3;
/// Blocks in the inode table.
pub const INODE_TABLE_BLOCKS: u64 = 128;
/// First block of the journal.
pub const JOURNAL_START_BLOCK: u64 = 131;
/// Blocks in the journal.
pub const JOURNAL_BLOCKS: u64 = 8;
/// First data block.
pub const DATA_START_BLOCK: u64 = 139;
/// Inodes on an image.
pub const TOTAL_INODES: u64 = 2048;
/// Mode of the root directory: a directory with permissions 755.
pub const ROOT_MODE: u32 = 0o040755;

/// The superblock of a fresh image of `size_bytes` bytes: the root directory
/// takes one data block and inodes 0 to 2 are reserved.
pub fn format_superblock(size_bytes: u64) -> (sb: Superblock)
    requires
        size_bytes / 4096 > DATA_START_BLOCK,
    ensures
        sb.magic == MAGIC,
        sb.block_size == BLOCK_SIZE,
        sb.total_blocks == size_bytes / 4096,
        sb.total_inodes == INODE_TABLE_BLOCKS * (BLOCK_SIZE / INODE_SIZE),
        sb.free_blocks == size_bytes / 4096 - DATA_START_BLOCK - 1,
        sb.free_inodes == sb.total_inodes - 3,
        sb.inode_bitmap_block == INODE_BITMAP_BLOCK,
        sb.data_bitmap_block == DATA_BITMAP_BLOCK,
        sb.inode_table_block == INODE_TABLE_BLOCK,
        sb.journal_start_block == INODE_TABLE_BLOCK + INODE_TABLE_BLOCKS,
        sb.data_start_block == INODE_TABLE_BLOCK + INODE_TABLE_BLOCKS + JOURNAL_BLOCKS,
        forall|i: int| 0 <= i < 3996 ==> sb._padding[i] == 0,
{
    let total_blocks = size_bytes / BLOCK_SIZE;
    let journal_start = INODE_TABLE_BLOCK + INODE_TABLE_BLOCKS;
    let data_start = journal_start + JOURNAL_BLOCKS;
    let total_inodes = INODE_TABLE_BLOCKS * (BLOCK_SIZE / INODE_SIZE);
    let total_data_blocks = total_blocks - data_start;
    Superblock {
        magic: MAGIC,
        block_size: BLOCK_SIZE as u32,
        total_blocks,
        total_inodes,
        free_blocks: total_data_blocks - 1,
        free_inodes: total_inodes - 3,
        inode_bitmap_block: INODE_BITMAP_BLOCK,
        data_bitmap_block: DATA_BITMAP_BLOCK,
        inode_table_block: INODE_TABLE_BLOCK,
        journal_start_block: journal_start,
        data_start_block: data_start,
        _padding: [0u8; 3996],
    }
}

/// The inode bitmap of a fresh image: inodes 0, 1 and 2 (the root) in use.
pub fn initial_inode_bitmap() -> (b: Block)
    ensures
        forall|n: int| 0 <= n < 32768 ==> bits_of(b@)[n] == (n < 3),
{
    let mut b = [0u8; 4096];
    b[0] = 0b00000111;
    proof {
        assert forall|n: int| 0 <= n < 32768 implies bits_of(b@)[n] == (n < 3) by {
            let byte = b@[n / 8];
            let i = (n % 8) as u8;
            if n < 8 {
                assert(byte == 7u8);
                assert(((7u8 >> i) & 1u8 == 1u8) == (i < 3)) by (bit_vector)
                    requires
                        i < 8,
                ;
            } else {
                assert(byte == 0u8);
                assert((0u8 >> i) & 1u8 == 0u8) by (bit_vector);
            }
        }
    }
    b
}

/// The data bitmap of a fresh image: the first data block (the root
/// directory's) in use.
pub fn initial_data_bitmap() -> (b: Block)
    ensures
        forall|n: int| 0 <= n < 32768 ==> bits_of(b@)[n] == (n == 0),
{
    let mut b = [0u8; 4096];
    b[0] = 0b00000001;
    proof {
        assert forall|n: int| 0 <= n < 32768 implies bits_of(b@)[n] == (n == 0) by {
            let byte = b@[n / 8];
            let i = (n % 8) as u8;
            if n < 8 {
                assert(byte == 1u8);
                assert(((1u8 >> i) & 1u8 == 1u8) == (i == 0)) by (bit_vector)
                    requires
                        i < 8,
                ;
            } else {
                assert(byte == 0u8);
                assert((0u8 >> i) & 1u8 == 0u8) by (bit_vector);
            }
        }
    }
    b
}

/// The root directory's inode: mode 0o040755, owned by root, two links,
/// one block long, its entries in `data_start`, all times 0.
pub fn root_inode(data_start: u64) -> (i: Inode)
    ensures
        i.mode == ROOT_MODE,
        i.uid == 0 && i.gid == 0,
        i.hard_links == 2,
        i.size == BLOCK_SIZE,
        i.atime == 0 && i.mtime == 0 && i.ctime == 0,
        i.direct[0] == data_start,
        forall|k: int| 1 <= k < 12 ==> i.direct[k] == 0,
        i.indirect == 0 && i.double_indirect == 0,
        forall|k: int| 0 <= k < 88 ==> i._padding[k] == 0,
{
    let mut direct = [0u64; 12];
    direct[0] = data_start;
    Inode {
        mode: ROOT_MODE,
        uid: 0,
        gid: 0,
        size: BLOCK_SIZE,
        ctime: 0,
        atime: 0,
        mtime: 0,
        hard_links: 2,
        direct,
        indirect: 0,
        double_indirect: 0,
        _padding: [0u8; 88],
    }
}

} // verus!
