//! The inode table: inode `n` lives in slot `n % 16` of block
//! `inode_table_block + n / 16`, each slot 256 bytes long.

use vstd::prelude::*;
use crate::bytes::{Block, BLOCK_SIZE, same_outside};
use crate::layout::{Inode, INODE_SIZE, inode_stored, inode_gaps_zero};

verus! {

/// Inodes that fit in one block of the inode table.
pub const INODES_PER_BLOCK: u64 = 16;

/// The block of the inode table that holds inode `n`.
pub open spec fn inode_block(table: u64, n: u64) -> int {
    table + n / 16
}

/// The byte offset of inode `n` inside its block.
pub open spec fn inode_offset(n: u64) -> int {
    (n % 16) * 256
}

/// Finds inodes in the inode table that starts at `inode_table_block`.
pub struct InodeStore {
    pub inode_table_block: u64,
}

impl InodeStore {
    /// The inode table starting at block `inode_table_block`.
    pub fn new(inode_table_block: u64) -> (s: InodeStore)
        ensures
            s.inode_table_block == inode_table_block,
    {
        InodeStore { inode_table_block }
    }

    /// The block holding inode `inode_num` and the offset of its slot there.
    pub fn location(&self, inode_num: u64) -> (r: (u64, usize))
        requires
            self.inode_table_block + inode_num / 16 <= u64::MAX,
        ensures
            r.0 == inode_block(self.inode_table_block, inode_num),
            r.1 == inode_offset(inode_num),
            r.1 + 256 <= 4096,
    {
        let inodes_per_block = BLOCK_SIZE / INODE_SIZE;
        let block_index = inode_num / inodes_per_block;
        let offset = ((inode_num % inodes_per_block) * 256) as usize;
        (self.inode_table_block + block_index, offset)
    }

    /// Decodes inode `inode_num` from `block`, the block that holds it.
    pub fn read_inode(&self, inode_num: u64, block: &Block) -> (ino: Inode)
        ensures
            inode_stored(ino, block@, inode_offset(inode_num)),
    {
        let offset = ((inode_num % 16) * 256) as usize;
        Inode::read_at(block, offset)
    }

    /// Stores `inode` as inode `inode_num` in `block`, the block that holds it;
    /// the other fifteen slots of the block stay as they were.
    pub fn write_inode(&self, inode_num: u64, inode: &Inode, block: &mut Block)
        ensures
            inode_stored(*inode, final(block)@, inode_offset(inode_num)),
            inode_gaps_zero(final(block)@, inode_offset(inode_num)),
            same_outside(
                old(block)@,
                final(block)@,
                inode_offset(inode_num),
                inode_offset(inode_num) + 256,
            ),
    {
        let offset = ((inode_num % 16) * 256) as usize;
        inode.write_at(block, offset);
    }
}

/// Reading an inode back after storing it gives the stored inode, and storing
/// an inode leaves every other inode of the same block readable as before.
pub proof fn lemma_inode_read_after_write(
    before: Seq<u8>,
    after: Seq<u8>,
    written: u64,
    stored: Inode,
    other: u64,
    other_inode: Inode,
)
    requires
        before.len() == 4096,
        inode_stored(stored, after, inode_offset(written)),
        same_outside(before, after, inode_offset(written), inode_offset(written) + 256),
        other % 16 != written % 16,
        inode_stored(other_inode, before, inode_offset(other)),
    ensures
        forall|i: Inode| inode_stored(i, after, inode_offset(written)) ==> i == stored,
        forall|i: Inode| inode_stored(i, after, inode_offset(other)) ==> i == other_inode,
{
    assert forall|i: Inode| inode_stored(i, after, inode_offset(written)) implies i == stored by {
        crate::layout::lemma_inode_unique(i, stored, after, inode_offset(written));
    }
    crate::layout::lemma_inode_slots_independent(
        before,
        after,
        inode_offset(written),
        inode_offset(other),
        other_inode,
    );
    assert forall|i: Inode| inode_stored(i, after, inode_offset(other)) implies i == other_inode by {
        crate::layout::lemma_inode_unique(i, other_inode, after, inode_offset(other));
    }
}

} // verus!
