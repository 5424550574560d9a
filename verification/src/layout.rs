//! On-disk layout: the superblock, inode records, directory entry headers and
//! the journal header, each with its exact byte encoding.

use vstd::prelude::*;
use crate::bytes::{Block, u32_at, u64_at, u16_at, with_u16, with_u32, with_u64, same_outside, get_u16, get_u32, get_u64, put_u16, put_u32, put_u64, lemma_u16_roundtrip, lemma_u32_roundtrip, lemma_u64_roundtrip, lemma_u16_bytes_equal, lemma_u32_bytes_equal, lemma_u64_bytes_equal};

verus! {

/// Identifies a formatted image.
pub const MAGIC: u32 = 0x52465301;
/// Bytes reserved for one inode in the inode table.
pub const INODE_SIZE: u64 = 256;
/// Inode number of the root directory.
pub const ROOT_INODE: u32 = 2;

/// Directory entry type of a regular file.
pub const FT_REGULAR: u8 = 1;
/// Directory entry type of a directory.
pub const FT_DIRECTORY: u8 = 2;
/// Directory entry type of a symbolic link.
pub const FT_SYMLINK: u8 = 7;

/// Identifies a journal header that describes a transaction.
pub const JOURNAL_MAGIC: u32 = 0x4A524E4C;
/// Most blocks one journal transaction can carry.
pub const MAX_JOURNAL_BLOCKS: usize = 4;

/// Block 0 of an image: where everything else lives.
#[derive(Copy, Clone)]
pub struct Superblock {
    pub magic: u32,
    pub block_size: u32,
    pub total_blocks: u64,
    pub total_inodes: u64,
    pub free_blocks: u64,
    pub free_inodes: u64,
    pub inode_bitmap_block: u64,
    pub data_bitmap_block: u64,
    pub inode_table_block: u64,
    pub journal_start_block: u64,
    pub data_start_block: u64,
    pub _padding: [u8; 3996],
}

/// One inode record; it occupies a 256-byte slot of the inode table.
#[derive(Copy, Clone)]
pub struct Inode {
    pub mode: u32,
    pub uid: u32,
    pub gid: u32,
    pub size: u64,
    pub ctime: u64,
    pub atime: u64,
    pub mtime: u64,
    pub hard_links: u32,
    pub direct: [u64; 12],
    pub indirect: u64,
    pub double_indirect: u64,
    pub _padding: [u8; 88],
}

/// The 8-byte header in front of every directory entry.
#[derive(Copy, Clone)]
pub struct DirEntryHeader {
    pub inode: u32,
    pub rec_len: u16,
    pub name_len: u8,
    pub file_type: u8,
}

/// Block 0 of the journal: which blocks a pending transaction carries.
#[derive(Copy, Clone)]
pub struct JournalHeader {
    pub magic: u32,
    pub commited: u8,
    pub num_blocks: u8,
    pub _padding: [u8; 2],
    pub block_numbers: [u64; 4],
}

// ---------------------------------------------------------------- superblock

/// `s` holds the superblock `sb` at the start of the block.
pub open spec fn superblock_stored(sb: Superblock, s: Seq<u8>) -> bool {
    &&& s.len() == 4096
    &&& sb.magic == u32_at(s, 0)
    &&& sb.block_size == u32_at(s, 4)
    &&& sb.total_blocks == u64_at(s, 8)
    &&& sb.total_inodes == u64_at(s, 16)
    &&& sb.free_blocks == u64_at(s, 24)
    &&& sb.free_inodes == u64_at(s, 32)
    &&& sb.inode_bitmap_block == u64_at(s, 40)
    &&& sb.data_bitmap_block == u64_at(s, 48)
    &&& sb.inode_table_block == u64_at(s, 56)
    &&& sb.journal_start_block == u64_at(s, 64)
    &&& sb.data_start_block == u64_at(s, 72)
    &&& forall|i: int| 0 <= i < 3996 ==> sb._padding[i] == s[80 + i]
}

impl Superblock {
    /// Decodes the superblock held in block 0.
    pub fn from_block(b: &Block) -> (sb: Superblock)
        ensures
            superblock_stored(sb, b@),
    {
        let mut pad = [0u8; 3996];
        let mut i: usize = 0;
        while i < 3996
            invariant
                0 <= i <= 3996,
                forall|j: int| 0 <= j < i ==> pad[j] == b@[80 + j],
            decreases 3996 - i,
        {
            pad[i] = b[80 + i];
            i = i + 1;
        }
        Superblock {
            magic: get_u32(b, 0),
            block_size: get_u32(b, 4),
            total_blocks: get_u64(b, 8),
            total_inodes: get_u64(b, 16),
            free_blocks: get_u64(b, 24),
            free_inodes: get_u64(b, 32),
            inode_bitmap_block: get_u64(b, 40),
            data_bitmap_block: get_u64(b, 48),
            inode_table_block: get_u64(b, 56),
            journal_start_block: get_u64(b, 64),
            data_start_block: get_u64(b, 72),
            _padding: pad,
        }
    }

    /// Encodes the superblock into a fresh block; bytes past the record are zero.
    pub fn to_block(&self) -> (b: Block)
        ensures
            superblock_stored(*self, b@),
            forall|i: int| 4076 <= i < 4096 ==> b@[i] == 0,
            b@ == superblock_bytes(*self),
    {
        let mut b = [0u8; 4096];
        let mut i: usize = 0;
        while i < 3996
            invariant
                0 <= i <= 3996,
                forall|j: int| 0 <= j < i ==> b@[80 + j] == self._padding[j],
                forall|j: int| 4076 <= j < 4096 ==> b@[j] == 0,
            decreases 3996 - i,
        {
            b[80 + i] = self._padding[i];
            i = i + 1;
        }
        let ghost s0 = b@;
        put_u32(&mut b, 0, self.magic);
        put_u32(&mut b, 4, self.block_size);
        put_u64(&mut b, 8, self.total_blocks);
        put_u64(&mut b, 16, self.total_inodes);
        put_u64(&mut b, 24, self.free_blocks);
        put_u64(&mut b, 32, self.free_inodes);
        put_u64(&mut b, 40, self.inode_bitmap_block);
        put_u64(&mut b, 48, self.data_bitmap_block);
        put_u64(&mut b, 56, self.inode_table_block);
        put_u64(&mut b, 64, self.journal_start_block);
        put_u64(&mut b, 72, self.data_start_block);
        proof {
            lemma_superblock_encoding(*self, s0, b@);
            lemma_superblock_bytes(*self, b@);
        }
        b
    }
}

/// The bytes of block 0 that hold `sb`: the record, then zeros to the end.
pub open spec fn superblock_bytes(sb: Superblock) -> Seq<u8> {
    choose|s: Seq<u8>| superblock_stored(sb, s) && forall|i: int| 4076 <= i < 4096 ==> s[i] == 0
}

/// A superblock followed by zeros fixes every byte of its block.
pub proof fn lemma_superblock_bytes_unique(sb: Superblock, s: Seq<u8>, t: Seq<u8>)
    requires
        superblock_stored(sb, s),
        forall|i: int| 4076 <= i < 4096 ==> s[i] == 0,
        superblock_stored(sb, t),
        forall|i: int| 4076 <= i < 4096 ==> t[i] == 0,
    ensures
        s == t,
{
    lemma_u32_bytes_equal(s, t, 0);
    lemma_u32_bytes_equal(s, t, 4);
    lemma_u64_bytes_equal(s, t, 8);
    lemma_u64_bytes_equal(s, t, 16);
    lemma_u64_bytes_equal(s, t, 24);
    lemma_u64_bytes_equal(s, t, 32);
    lemma_u64_bytes_equal(s, t, 40);
    lemma_u64_bytes_equal(s, t, 48);
    lemma_u64_bytes_equal(s, t, 56);
    lemma_u64_bytes_equal(s, t, 64);
    lemma_u64_bytes_equal(s, t, 72);
    assert forall|i: int| 0 <= i < 4096 implies s[i] == t[i] by {
        if 80 <= i < 4076 {
            assert(s[80 + (i - 80)] == sb._padding[i - 80]);
        }
    }
    assert(s =~= t);
}

/// `superblock_bytes(sb)` holds `sb` followed by zeros.
pub proof fn lemma_superblock_bytes_stores(sb: Superblock)
    ensures
        superblock_stored(sb, superblock_bytes(sb)),
        forall|i: int| 4076 <= i < 4096 ==> superblock_bytes(sb)[i] == 0,
{
    let s0 = Seq::new(4096, |i: int| if 80 <= i < 4076 { sb._padding[i - 80] } else { 0u8 });
    let t = with_u64(with_u64(with_u64(with_u64(with_u64(with_u64(with_u64(with_u64(with_u64(
        with_u32(with_u32(s0, 0, sb.magic), 4, sb.block_size), 8, sb.total_blocks), 16,
        sb.total_inodes), 24, sb.free_blocks), 32, sb.free_inodes), 40, sb.inode_bitmap_block),
        48, sb.data_bitmap_block), 56, sb.inode_table_block), 64, sb.journal_start_block), 72,
        sb.data_start_block);
    lemma_superblock_encoding(sb, s0, t);
    lemma_superblock_bytes(sb, t);
}

/// A block that holds `sb` followed by zeros is `superblock_bytes(sb)`.
pub proof fn lemma_superblock_bytes(sb: Superblock, s: Seq<u8>)
    requires
        superblock_stored(sb, s),
        forall|i: int| 4076 <= i < 4096 ==> s[i] == 0,
    ensures
        superblock_bytes(sb) == s,
{
    assert(exists|t: Seq<u8>|
        superblock_stored(sb, t) && forall|i: int| 4076 <= i < 4096 ==> t[i] == 0) by {
        assert(superblock_stored(sb, s));
    }
    lemma_superblock_bytes_unique(sb, s, superblock_bytes(sb));
}

/// Writing the fields of `sb` in order over `s0` leaves a block that stores `sb`,
/// provided `s0` already holds its padding.
proof fn lemma_superblock_encoding(sb: Superblock, s0: Seq<u8>, t: Seq<u8>)
    requires
        s0.len() == 4096,
        forall|j: int| 0 <= j < 3996 ==> s0[80 + j] == sb._padding[j],
        t == with_u64(with_u64(with_u64(with_u64(with_u64(with_u64(with_u64(with_u64(with_u64(
            with_u32(with_u32(s0, 0, sb.magic), 4, sb.block_size), 8, sb.total_blocks), 16,
            sb.total_inodes), 24, sb.free_blocks), 32, sb.free_inodes), 40, sb.inode_bitmap_block),
            48, sb.data_bitmap_block), 56, sb.inode_table_block), 64, sb.journal_start_block), 72,
            sb.data_start_block),
    ensures
        superblock_stored(sb, t),
        forall|i: int| 80 <= i < 4096 ==> t[i] == s0[i],
{
    let s1 = with_u32(s0, 0, sb.magic);
    lemma_u32_roundtrip(s0, 0, sb.magic);
    let s2 = with_u32(s1, 4, sb.block_size);
    lemma_u32_roundtrip(s1, 4, sb.block_size);
    let s3 = with_u64(s2, 8, sb.total_blocks);
    lemma_u64_roundtrip(s2, 8, sb.total_blocks);
    let s4 = with_u64(s3, 16, sb.total_inodes);
    lemma_u64_roundtrip(s3, 16, sb.total_inodes);
    let s5 = with_u64(s4, 24, sb.free_blocks);
    lemma_u64_roundtrip(s4, 24, sb.free_blocks);
    let s6 = with_u64(s5, 32, sb.free_inodes);
    lemma_u64_roundtrip(s5, 32, sb.free_inodes);
    let s7 = with_u64(s6, 40, sb.inode_bitmap_block);
    lemma_u64_roundtrip(s6, 40, sb.inode_bitmap_block);
    let s8 = with_u64(s7, 48, sb.data_bitmap_block);
    lemma_u64_roundtrip(s7, 48, sb.data_bitmap_block);
    let s9 = with_u64(s8, 56, sb.inode_table_block);
    lemma_u64_roundtrip(s8, 56, sb.inode_table_block);
    let s10 = with_u64(s9, 64, sb.journal_start_block);
    lemma_u64_roundtrip(s9, 64, sb.journal_start_block);
    lemma_u64_roundtrip(s10, 72, sb.data_start_block);
    lemma_u32_frame(s2, t, 0, 8, 4096);
    lemma_u32_frame(s2, t, 4, 8, 4096);
    lemma_u64_frame(s3, t, 8, 16, 4096);
    lemma_u64_frame(s4, t, 16, 24, 4096);
    lemma_u64_frame(s5, t, 24, 32, 4096);
    lemma_u64_frame(s6, t, 32, 40, 4096);
    lemma_u64_frame(s7, t, 40, 48, 4096);
    lemma_u64_frame(s8, t, 48, 56, 4096);
    lemma_u64_frame(s9, t, 56, 64, 4096);
    lemma_u64_frame(s10, t, 64, 72, 4096);
    lemma_u32_frame(s1, s2, 0, 4, 8);
}

/// A 32-bit value stays readable when only bytes in `[lo, hi)` change and it lies outside them.
pub proof fn lemma_u32_frame(s: Seq<u8>, t: Seq<u8>, off: int, lo: int, hi: int)
    requires
        same_outside(s, t, lo, hi),
        0 <= off,
        off + 4 <= s.len(),
        off + 4 <= lo || hi <= off,
    ensures
        u32_at(t, off) == u32_at(s, off),
{
    assert(t[off] == s[off]);
    assert(t[off + 1] == s[off + 1]);
    assert(t[off + 2] == s[off + 2]);
    assert(t[off + 3] == s[off + 3]);
}

/// A 64-bit value stays readable when only bytes in `[lo, hi)` change and it lies outside them.
pub proof fn lemma_u64_frame(s: Seq<u8>, t: Seq<u8>, off: int, lo: int, hi: int)
    requires
        same_outside(s, t, lo, hi),
        0 <= off,
        off + 8 <= s.len(),
        off + 8 <= lo || hi <= off,
    ensures
        u64_at(t, off) == u64_at(s, off),
{
    lemma_u32_frame(s, t, off, lo, hi);
    lemma_u32_frame(s, t, off + 4, lo, hi);
}

/// A 16-bit value stays readable when only bytes in `[lo, hi)` change and it lies outside them.
pub proof fn lemma_u16_frame(s: Seq<u8>, t: Seq<u8>, off: int, lo: int, hi: int)
    requires
        same_outside(s, t, lo, hi),
        0 <= off,
        off + 2 <= s.len(),
        off + 2 <= lo || hi <= off,
    ensures
        u16_at(t, off) == u16_at(s, off),
{
    assert(t[off] == s[off]);
    assert(t[off + 1] == s[off + 1]);
}

} // verus!

verus! {

// ---------------------------------------------------------------- inode

/// `s` holds the inode `ino` in the 256-byte slot starting at `off`.
pub open spec fn inode_stored(ino: Inode, s: Seq<u8>, off: int) -> bool {
    &&& 0 <= off
    &&& off + 256 <= s.len()
    &&& ino.mode == u32_at(s, off)
    &&& ino.uid == u32_at(s, off + 4)
    &&& ino.gid == u32_at(s, off + 8)
    &&& ino.size == u64_at(s, off + 16)
    &&& ino.ctime == u64_at(s, off + 24)
    &&& ino.atime == u64_at(s, off + 32)
    &&& ino.mtime == u64_at(s, off + 40)
    &&& ino.hard_links == u32_at(s, off + 48)
    &&& forall|k: int| 0 <= k < 12 ==> ino.direct[k] == #[trigger] u64_at(s, off + 56 + 8 * k)
    &&& ino.indirect == u64_at(s, off + 152)
    &&& ino.double_indirect == u64_at(s, off + 160)
    &&& forall|k: int| 0 <= k < 88 ==> ino._padding[k] == #[trigger] s[off + 168 + k]
}

/// The bytes of a stored inode record that hold no field are zero.
pub open spec fn inode_gaps_zero(s: Seq<u8>, off: int) -> bool {
    &&& forall|k: int| off + 12 <= k < off + 16 ==> s[k] == 0
    &&& forall|k: int| off + 52 <= k < off + 56 ==> s[k] == 0
}

impl Inode {
    /// Decodes the inode held in the slot at `off`.
    pub fn read_at(b: &Block, off: usize) -> (ino: Inode)
        requires
            off + 256 <= 4096,
        ensures
            inode_stored(ino, b@, off as int),
    {
        let mut direct = [0u64; 12];
        let mut k: usize = 0;
        while k < 12
            invariant
                0 <= k <= 12,
                off + 256 <= 4096,
                forall|j: int| 0 <= j < k ==> direct[j] == u64_at(b@, off + 56 + 8 * j),
            decreases 12 - k,
        {
            direct[k] = get_u64(b, off + 56 + 8 * k);
            k = k + 1;
        }
        let mut pad = [0u8; 88];
        let mut i: usize = 0;
        while i < 88
            invariant
                0 <= i <= 88,
                off + 256 <= 4096,
                forall|j: int| 0 <= j < i ==> pad[j] == b@[off + 168 + j],
            decreases 88 - i,
        {
            pad[i] = b[off + 168 + i];
            i = i + 1;
        }
        Inode {
            mode: get_u32(b, off),
            uid: get_u32(b, off + 4),
            gid: get_u32(b, off + 8),
            size: get_u64(b, off + 16),
            ctime: get_u64(b, off + 24),
            atime: get_u64(b, off + 32),
            mtime: get_u64(b, off + 40),
            hard_links: get_u32(b, off + 48),
            direct,
            indirect: get_u64(b, off + 152),
            double_indirect: get_u64(b, off + 160),
            _padding: pad,
        }
    }

    /// Encodes the inode into the slot at `off`, changing no byte outside that slot.
    pub fn write_at(&self, b: &mut Block, off: usize)
        requires
            off + 256 <= 4096,
        ensures
            inode_stored(*self, final(b)@, off as int),
            inode_gaps_zero(final(b)@, off as int),
            same_outside(old(b)@, final(b)@, off as int, off + 256),
    {
        let ghost s0 = b@;
        let mut i: usize = 0;
        while i < 88
            invariant
                0 <= i <= 88,
                off + 256 <= 4096,
                same_outside(s0, b@, off + 168, off + 256),
                forall|j: int| 0 <= j < i ==> b@[off + 168 + j] == self._padding[j],
            decreases 88 - i,
        {
            b[off + 168 + i] = self._padding[i];
            i = i + 1;
        }
        let mut g: usize = 12;
        while g < 16
            invariant
                12 <= g <= 16,
                off + 256 <= 4096,
                same_outside(s0, b@, off + 12, off + 256),
                forall|j: int| 0 <= j < 88 ==> b@[off + 168 + j] == self._padding[j],
                forall|j: int| off + 12 <= j < off + g ==> b@[j] == 0,
            decreases 16 - g,
        {
            b[off + g] = 0;
            g = g + 1;
        }
        let mut g: usize = 52;
        while g < 56
            invariant
                52 <= g <= 56,
                off + 256 <= 4096,
                same_outside(s0, b@, off + 12, off + 256),
                forall|j: int| 0 <= j < 88 ==> b@[off + 168 + j] == self._padding[j],
                forall|j: int| off + 12 <= j < off + 16 ==> b@[j] == 0,
                forall|j: int| off + 52 <= j < off + g ==> b@[j] == 0,
            decreases 56 - g,
        {
            b[off + g] = 0;
            g = g + 1;
        }
        let mut k: usize = 0;
        while k < 12
            invariant
                0 <= k <= 12,
                off + 256 <= 4096,
                same_outside(s0, b@, off + 12, off + 256),
                forall|j: int| 0 <= j < 88 ==> b@[off + 168 + j] == self._padding[j],
                inode_gaps_zero(b@, off as int),
                forall|j: int|
                    0 <= j < k ==> self.direct[j] == #[trigger] u64_at(b@, off + 56 + 8 * j),
            decreases 12 - k,
        {
            let ghost before = b@;
            put_u64(b, off + 56 + 8 * k, self.direct[k]);
            proof {
                lemma_u64_roundtrip(before, off + 56 + 8 * k, self.direct[k as int]);
                assert forall|j: int| 0 <= j < k implies self.direct[j] == #[trigger] u64_at(
                    b@,
                    off + 56 + 8 * j,
                ) by {
                    lemma_u64_frame(before, b@, off + 56 + 8 * j, off + 56 + 8 * k, off + 64 + 8 * k);
                }
            }
            k = k + 1;
        }
        let ghost s1 = b@;
        put_u32(b, off, self.mode);
        put_u32(b, off + 4, self.uid);
        put_u32(b, off + 8, self.gid);
        put_u64(b, off + 16, self.size);
        put_u64(b, off + 24, self.ctime);
        put_u64(b, off + 32, self.atime);
        put_u64(b, off + 40, self.mtime);
        put_u32(b, off + 48, self.hard_links);
        put_u64(b, off + 152, self.indirect);
        put_u64(b, off + 160, self.double_indirect);
        proof {
            lemma_inode_encoding(*self, s1, b@, off as int);
        }
    }
}

/// Writing the scalar fields of `ino` over `s1` keeps the direct pointers,
/// gaps and padding already there and stores every scalar field.
#[verifier::rlimit(40)]
proof fn lemma_inode_encoding(ino: Inode, s1: Seq<u8>, t: Seq<u8>, off: int)
    requires
        0 <= off,
        off + 256 <= s1.len(),
        forall|j: int| 0 <= j < 88 ==> s1[off + 168 + j] == ino._padding[j],
        inode_gaps_zero(s1, off),
        forall|j: int| 0 <= j < 12 ==> ino.direct[j] == #[trigger] u64_at(s1, off + 56 + 8 * j),
        t == with_u64(with_u64(with_u32(with_u64(with_u64(with_u64(with_u64(with_u32(with_u32(
            with_u32(s1, off, ino.mode), off + 4, ino.uid), off + 8, ino.gid), off + 16, ino.size),
            off + 24, ino.ctime), off + 32, ino.atime), off + 40, ino.mtime), off + 48,
            ino.hard_links), off + 152, ino.indirect), off + 160, ino.double_indirect),
    ensures
        inode_stored(ino, t, off),
        inode_gaps_zero(t, off),
        same_outside(s1, t, off, off + 256),
{
    let a1 = with_u32(s1, off, ino.mode);
    lemma_u32_roundtrip(s1, off, ino.mode);
    let a2 = with_u32(a1, off + 4, ino.uid);
    lemma_u32_roundtrip(a1, off + 4, ino.uid);
    let a3 = with_u32(a2, off + 8, ino.gid);
    lemma_u32_roundtrip(a2, off + 8, ino.gid);
    let a4 = with_u64(a3, off + 16, ino.size);
    lemma_u64_roundtrip(a3, off + 16, ino.size);
    let a5 = with_u64(a4, off + 24, ino.ctime);
    lemma_u64_roundtrip(a4, off + 24, ino.ctime);
    let a6 = with_u64(a5, off + 32, ino.atime);
    lemma_u64_roundtrip(a5, off + 32, ino.atime);
    let a7 = with_u64(a6, off + 40, ino.mtime);
    lemma_u64_roundtrip(a6, off + 40, ino.mtime);
    let a8 = with_u32(a7, off + 48, ino.hard_links);
    lemma_u32_roundtrip(a7, off + 48, ino.hard_links);
    let a9 = with_u64(a8, off + 152, ino.indirect);
    lemma_u64_roundtrip(a8, off + 152, ino.indirect);
    lemma_u64_roundtrip(a9, off + 160, ino.double_indirect);
    // scalar fields written before later ones survive the later writes
    lemma_u32_frame(a1, t, off, off + 4, off + 256);
    lemma_u32_frame(a2, t, off + 4, off + 8, off + 256);
    lemma_u32_frame(a3, t, off + 8, off + 16, off + 256);
    lemma_u64_frame(a4, t, off + 16, off + 24, off + 256);
    lemma_u64_frame(a5, t, off + 24, off + 32, off + 256);
    lemma_u64_frame(a6, t, off + 32, off + 40, off + 256);
    lemma_u64_frame(a7, t, off + 40, off + 48, off + 256);
    lemma_u32_frame(a8, t, off + 48, off + 152, off + 256);
    lemma_u64_frame(a9, t, off + 152, off + 160, off + 256);
    // the direct pointers, the padding and the gaps lie outside every scalar write
    lemma_same_outside_trans(s1, a1, a2, off, off + 4, off + 4, off + 8);
    lemma_same_outside_trans(s1, a2, a3, off, off + 8, off + 8, off + 12);
    lemma_same_outside_trans(s1, a3, a4, off, off + 12, off + 16, off + 24);
    lemma_same_outside_trans(s1, a4, a5, off, off + 24, off + 24, off + 32);
    lemma_same_outside_trans(s1, a5, a6, off, off + 32, off + 32, off + 40);
    lemma_same_outside_trans(s1, a6, a7, off, off + 40, off + 40, off + 48);
    lemma_same_outside_trans(s1, a7, a8, off, off + 48, off + 48, off + 52);
    lemma_same_outside_trans(a8, a9, t, off + 152, off + 160, off + 160, off + 168);
    assert forall|j: int| 0 <= j < 12 implies ino.direct[j] == #[trigger] u64_at(
        t,
        off + 56 + 8 * j,
    ) by {
        lemma_u64_frame(a8, t, off + 56 + 8 * j, off + 152, off + 168);
        lemma_u64_frame(s1, a8, off + 56 + 8 * j, off, off + 52);
    }
    assert forall|k: int| 0 <= k < 88 implies ino._padding[k] == #[trigger] t[off + 168 + k] by {
        assert(t[off + 168 + k] == a8[off + 168 + k]);
        assert(a8[off + 168 + k] == s1[off + 168 + k]);
    }
    assert forall|k: int| off + 12 <= k < off + 16 implies t[k] == 0 by {
        assert(t[k] == a8[k]);
    }
    assert forall|k: int| off + 52 <= k < off + 56 implies t[k] == 0 by {
        assert(t[k] == a8[k]);
    }
    lemma_same_outside_trans(s1, a8, t, off, off + 52, off + 152, off + 168);
}

/// Agreement outside two ranges composes into agreement outside their hull.
pub proof fn lemma_same_outside_trans(
    a: Seq<u8>,
    b: Seq<u8>,
    c: Seq<u8>,
    lo1: int,
    hi1: int,
    lo2: int,
    hi2: int,
)
    requires
        same_outside(a, b, lo1, hi1),
        same_outside(b, c, lo2, hi2),
        lo1 <= lo2,
        hi1 <= hi2,
    ensures
        same_outside(a, c, lo1, hi2),
{
}

} // verus!

verus! {

// ---------------------------------------------------------------- directory entry header

/// `s` holds the directory entry header `h` at `off`.
pub open spec fn dir_header_stored(h: DirEntryHeader, s: Seq<u8>, off: int) -> bool {
    &&& 0 <= off
    &&& off + 8 <= s.len()
    &&& h.inode == u32_at(s, off)
    &&& h.rec_len == u16_at(s, off + 4)
    &&& h.name_len == s[off + 6]
    &&& h.file_type == s[off + 7]
}

impl DirEntryHeader {
    /// Decodes the header at `off`.
    pub fn read_at(b: &Block, off: usize) -> (h: DirEntryHeader)
        requires
            off + 8 <= 4096,
        ensures
            dir_header_stored(h, b@, off as int),
    {
        DirEntryHeader {
            inode: get_u32(b, off),
            rec_len: get_u16(b, off + 4),
            name_len: b[off + 6],
            file_type: b[off + 7],
        }
    }

    /// Encodes the header at `off`, changing no byte outside its eight bytes.
    pub fn write_at(&self, b: &mut Block, off: usize)
        requires
            off + 8 <= 4096,
        ensures
            dir_header_stored(*self, final(b)@, off as int),
            same_outside(old(b)@, final(b)@, off as int, off + 8),
    {
        let ghost s0 = b@;
        put_u32(b, off, self.inode);
        let ghost s1 = b@;
        put_u16(b, off + 4, self.rec_len);
        b[off + 6] = self.name_len;
        b[off + 7] = self.file_type;
        proof {
            lemma_u32_roundtrip(s0, off as int, self.inode);
            lemma_u16_roundtrip(s1, off + 4, self.rec_len);
            lemma_u32_frame(s1, b@, off as int, off + 4, off + 8);
        }
    }
}

// ---------------------------------------------------------------- journal header

/// `s` holds the journal header `h` at the start of the block.
pub open spec fn journal_header_stored(h: JournalHeader, s: Seq<u8>) -> bool {
    &&& s.len() == 4096
    &&& h.magic == u32_at(s, 0)
    &&& h.commited == s[4]
    &&& h.num_blocks == s[5]
    &&& h._padding[0] == s[6]
    &&& h._padding[1] == s[7]
    &&& forall|k: int| 0 <= k < 4 ==> h.block_numbers[k] == #[trigger] u64_at(s, 8 + 8 * k)
}

impl JournalHeader {
    /// Decodes the journal header held in the first journal block.
    pub fn from_block(b: &Block) -> (h: JournalHeader)
        ensures
            journal_header_stored(h, b@),
    {
        let mut nums = [0u64; 4];
        let mut k: usize = 0;
        while k < 4
            invariant
                0 <= k <= 4,
                forall|j: int| 0 <= j < k ==> nums[j] == u64_at(b@, 8 + 8 * j),
            decreases 4 - k,
        {
            nums[k] = get_u64(b, 8 + 8 * k);
            k = k + 1;
        }
        JournalHeader {
            magic: get_u32(b, 0),
            commited: b[4],
            num_blocks: b[5],
            _padding: [b[6], b[7]],
            block_numbers: nums,
        }
    }

    /// Encodes the journal header into a fresh block; bytes past the record are zero.
    pub fn to_block(&self) -> (b: Block)
        ensures
            journal_header_stored(*self, b@),
            forall|i: int| 40 <= i < 4096 ==> b@[i] == 0,
    {
        let mut b = [0u8; 4096];
        let mut k: usize = 0;
        while k < 4
            invariant
                0 <= k <= 4,
                forall|i: int| 0 <= i < 8 ==> b@[i] == 0,
                forall|i: int| 40 <= i < 4096 ==> b@[i] == 0,
                forall|j: int|
                    0 <= j < k ==> self.block_numbers[j] == #[trigger] u64_at(b@, 8 + 8 * j),
            decreases 4 - k,
        {
            let ghost before = b@;
            put_u64(&mut b, 8 + 8 * k, self.block_numbers[k]);
            proof {
                lemma_u64_roundtrip(before, 8 + 8 * k, self.block_numbers[k as int]);
                assert forall|j: int| 0 <= j < k implies self.block_numbers[j]
                    == #[trigger] u64_at(b@, 8 + 8 * j) by {
                    lemma_u64_frame(before, b@, 8 + 8 * j, 8 + 8 * k, 16 + 8 * k);
                }
            }
            k = k + 1;
        }
        let ghost s1 = b@;
        put_u32(&mut b, 0, self.magic);
        b[4] = self.commited;
        b[5] = self.num_blocks;
        b[6] = self._padding[0];
        b[7] = self._padding[1];
        proof {
            lemma_u32_roundtrip(s1, 0, self.magic);
            lemma_u32_frame(with_u32(s1, 0, self.magic), b@, 0, 4, 8);
            assert forall|j: int| 0 <= j < 4 implies self.block_numbers[j] == #[trigger] u64_at(
                b@,
                8 + 8 * j,
            ) by {
                lemma_u64_frame(s1, b@, 8 + 8 * j, 0, 8);
            }
        }
        b
    }
}

// ---------------------------------------------------------------- laws of the encodings

/// A block holds at most one superblock: decoding is determined by the bytes,
/// so decoding an encoded superblock gives back the same superblock.
pub proof fn lemma_superblock_unique(a: Superblock, b: Superblock, s: Seq<u8>)
    requires
        superblock_stored(a, s),
        superblock_stored(b, s),
    ensures
        a == b,
{
    assert(a._padding =~= b._padding);
}

/// An inode slot holds at most one inode: decoding an encoded inode gives it back.
pub proof fn lemma_inode_unique(a: Inode, b: Inode, s: Seq<u8>, off: int)
    requires
        inode_stored(a, s, off),
        inode_stored(b, s, off),
    ensures
        a == b,
{
    assert forall|k: int| 0 <= k < 88 implies a._padding[k] == b._padding[k] by {
        assert(a._padding[k] == s[off + 168 + k]);
    }
    assert(a._padding =~= b._padding);
    assert forall|k: int| 0 <= k < 12 implies a.direct[k] == b.direct[k] by {
        assert(a.direct[k] == u64_at(s, off + 56 + 8 * k));
    }
    assert(a.direct =~= b.direct);
}

/// A position holds at most one directory entry header.
pub proof fn lemma_dir_header_unique(a: DirEntryHeader, b: DirEntryHeader, s: Seq<u8>, off: int)
    requires
        dir_header_stored(a, s, off),
        dir_header_stored(b, s, off),
    ensures
        a == b,
{
}

/// A block holds at most one journal header: decoding an encoded header gives it back.
pub proof fn lemma_journal_header_unique(a: JournalHeader, b: JournalHeader, s: Seq<u8>)
    requires
        journal_header_stored(a, s),
        journal_header_stored(b, s),
    ensures
        a == b,
{
    assert forall|k: int| 0 <= k < 2 implies a._padding[k] == b._padding[k] by {
        if k == 0 {
        } else {
        }
    }
    assert(a._padding =~= b._padding);
    assert forall|k: int| 0 <= k < 4 implies a.block_numbers[k] == b.block_numbers[k] by {
        assert(a.block_numbers[k] == u64_at(s, 8 + 8 * k));
    }
    assert(a.block_numbers =~= b.block_numbers);
}

/// The inode that the slot at `off` of `s` holds; it depends on the 256
/// bytes of the slot alone.
pub open spec fn decoded_inode(s: Seq<u8>, off: int) -> Inode {
    choose|i: Inode| #[trigger] inode_stored(i, s.subrange(off, off + 256), 0)
}

/// An inode stored in a slot is stored at the start of the slot's bytes.
proof fn lemma_stored_in_slot(ino: Inode, s: Seq<u8>, off: int)
    requires
        inode_stored(ino, s, off),
    ensures
        inode_stored(ino, s.subrange(off, off + 256), 0),
{
    let sub = s.subrange(off, off + 256);
    assert forall|j: int| 0 <= j < 256 implies sub[j] == s[off + j] by {}
    assert(u32_at(sub, 0) == u32_at(s, off));
    assert(u32_at(sub, 4) == u32_at(s, off + 4));
    assert(u32_at(sub, 8) == u32_at(s, off + 8));
    assert(u64_at(sub, 16) == u64_at(s, off + 16));
    assert(u64_at(sub, 24) == u64_at(s, off + 24));
    assert(u64_at(sub, 32) == u64_at(s, off + 32));
    assert(u64_at(sub, 40) == u64_at(s, off + 40));
    assert(u32_at(sub, 48) == u32_at(s, off + 48));
    assert(u64_at(sub, 152) == u64_at(s, off + 152));
    assert(u64_at(sub, 160) == u64_at(s, off + 160));
    assert forall|k: int| 0 <= k < 12 implies ino.direct[k] == #[trigger] u64_at(sub, 56 + 8 * k) by {
        assert(u64_at(sub, 56 + 8 * k) == u64_at(s, off + 56 + 8 * k));
    }
    assert forall|k: int| 0 <= k < 88 implies ino._padding[k] == #[trigger] sub[168 + k] by {
        assert(sub[168 + k] == s[off + 168 + k]);
    }
}

/// A slot that holds `ino` decodes to `ino`.
pub proof fn lemma_decoded_inode(ino: Inode, s: Seq<u8>, off: int)
    requires
        inode_stored(ino, s, off),
    ensures
        decoded_inode(s, off) == ino,
{
    lemma_stored_in_slot(ino, s, off);
    let sub = s.subrange(off, off + 256);
    lemma_inode_unique(decoded_inode(s, off), ino, sub, 0);
}

/// Two blocks whose slots at `off` agree decode the same inode there.
pub proof fn lemma_decoded_same_slot(s: Seq<u8>, t: Seq<u8>, off: int)
    requires
        0 <= off,
        off + 256 <= s.len(),
        off + 256 <= t.len(),
        forall|j: int| off <= j < off + 256 ==> s[j] == t[j],
    ensures
        decoded_inode(s, off) == decoded_inode(t, off),
{
    assert(s.subrange(off, off + 256) =~= t.subrange(off, off + 256));
}

/// `s` after storing `ino` in the slot at `off`: the record with its gaps
/// zeroed, and every byte outside the slot as before.
pub open spec fn inode_written(s: Seq<u8>, off: int, ino: Inode) -> Seq<u8> {
    choose|t: Seq<u8>|
        inode_stored(ino, t, off) && inode_gaps_zero(t, off) && same_outside(s, t, off, off + 256)
}

/// Storing an inode fixes every byte of the block.
pub proof fn lemma_inode_bytes_unique(s: Seq<u8>, t1: Seq<u8>, t2: Seq<u8>, off: int, ino: Inode)
    requires
        inode_stored(ino, t1, off),
        inode_gaps_zero(t1, off),
        same_outside(s, t1, off, off + 256),
        inode_stored(ino, t2, off),
        inode_gaps_zero(t2, off),
        same_outside(s, t2, off, off + 256),
    ensures
        t1 == t2,
{
    lemma_u32_bytes_equal(t1, t2, off);
    lemma_u32_bytes_equal(t1, t2, off + 4);
    lemma_u32_bytes_equal(t1, t2, off + 8);
    lemma_u64_bytes_equal(t1, t2, off + 16);
    lemma_u64_bytes_equal(t1, t2, off + 24);
    lemma_u64_bytes_equal(t1, t2, off + 32);
    lemma_u64_bytes_equal(t1, t2, off + 40);
    lemma_u32_bytes_equal(t1, t2, off + 48);
    lemma_u64_bytes_equal(t1, t2, off + 152);
    lemma_u64_bytes_equal(t1, t2, off + 160);
    assert forall|i: int| 0 <= i < t1.len() implies t1[i] == t2[i] by {
        if off + 168 <= i < off + 256 {
            assert(t1[off + 168 + (i - off - 168)] == ino._padding[i - off - 168]);
            assert(t2[off + 168 + (i - off - 168)] == ino._padding[i - off - 168]);
        } else if off + 56 <= i < off + 152 {
            let k = (i - off - 56) / 8;
            assert(off + 56 + 8 * k <= i < off + 64 + 8 * k);
            assert(u64_at(t1, off + 56 + 8 * k) == ino.direct[k]);
            assert(u64_at(t2, off + 56 + 8 * k) == ino.direct[k]);
            lemma_u64_bytes_equal(t1, t2, off + 56 + 8 * k);
        }
    }
    assert(t1 =~= t2);
}

/// A block that stores `ino` at `off` with gaps zeroed and nothing else
/// changed is `inode_written(s, off, ino)`.
pub proof fn lemma_inode_written(s: Seq<u8>, t: Seq<u8>, off: int, ino: Inode)
    requires
        inode_stored(ino, t, off),
        inode_gaps_zero(t, off),
        same_outside(s, t, off, off + 256),
    ensures
        inode_written(s, off, ino) == t,
{
    assert(exists|u: Seq<u8>|
        inode_stored(ino, u, off) && inode_gaps_zero(u, off) && same_outside(s, u, off, off + 256))
        by {
        assert(inode_stored(ino, t, off));
    }
    lemma_inode_bytes_unique(s, inode_written(s, off, ino), t, off, ino);
}

/// The eight little-endian bytes of `v`.
pub open spec fn u64_bytes(v: u64) -> Seq<u8> {
    with_u64(Seq::new(8, |i: int| 0u8), 0, v)
}

/// `s` with the padding, the zero gaps and the direct pointers of `ino` laid
/// into the slot at `off`.
pub open spec fn inode_base(s: Seq<u8>, off: int, ino: Inode) -> Seq<u8> {
    Seq::new(
        s.len(),
        |i: int|
            if off + 168 <= i < off + 256 {
                ino._padding[i - off - 168]
            } else if (off + 12 <= i < off + 16) || (off + 52 <= i < off + 56) {
                0u8
            } else if off + 56 <= i < off + 152 {
                u64_bytes(ino.direct[(i - off - 56) / 8])[(i - off - 56) % 8]
            } else {
                s[i]
            },
    )
}

/// `s` with `ino` encoded in the slot at `off`.
pub open spec fn inode_encoded(s: Seq<u8>, off: int, ino: Inode) -> Seq<u8> {
    let s1 = inode_base(s, off, ino);
    with_u64(with_u64(with_u32(with_u64(with_u64(with_u64(with_u64(with_u32(with_u32(
        with_u32(s1, off, ino.mode), off + 4, ino.uid), off + 8, ino.gid), off + 16, ino.size),
        off + 24, ino.ctime), off + 32, ino.atime), off + 40, ino.mtime), off + 48,
        ino.hard_links), off + 152, ino.indirect), off + 160, ino.double_indirect)
}

/// Every slot can take every inode: `inode_written` stores `ino` at `off`,
/// zeroes the gaps and keeps every other byte.
pub proof fn lemma_inode_written_stores(s: Seq<u8>, off: int, ino: Inode)
    requires
        0 <= off,
        off + 256 <= s.len(),
    ensures
        inode_stored(ino, inode_written(s, off, ino), off),
        inode_gaps_zero(inode_written(s, off, ino), off),
        same_outside(s, inode_written(s, off, ino), off, off + 256),
        decoded_inode(inode_written(s, off, ino), off) == ino,
{
    let s1 = inode_base(s, off, ino);
    assert forall|k: int| 0 <= k < 12 implies ino.direct[k] == #[trigger] u64_at(s1, off + 56 + 8 * k) by {
        let z = Seq::new(8, |i: int| 0u8);
        lemma_u64_roundtrip(z, 0, ino.direct[k]);
        let b = u64_bytes(ino.direct[k]);
        assert forall|j: int| 0 <= j < 8 implies s1[off + 56 + 8 * k + j] == b[j] by {
            assert((8 * k + j) / 8 == k);
            assert((8 * k + j) % 8 == j);
        }
        assert(u64_at(s1, off + 56 + 8 * k) == u64_at(b, 0)) by {
            assert(s1[off + 56 + 8 * k] == b[0]);
            assert(s1[off + 56 + 8 * k + 1] == b[1]);
            assert(s1[off + 56 + 8 * k + 2] == b[2]);
            assert(s1[off + 56 + 8 * k + 3] == b[3]);
            assert(s1[off + 56 + 8 * k + 4] == b[4]);
            assert(s1[off + 56 + 8 * k + 5] == b[5]);
            assert(s1[off + 56 + 8 * k + 6] == b[6]);
            assert(s1[off + 56 + 8 * k + 7] == b[7]);
        }
    }
    let t = inode_encoded(s, off, ino);
    lemma_inode_encoding(ino, s1, t, off);
    assert(same_outside(s, s1, off, off + 256));
    lemma_same_outside_trans(s, s1, t, off, off + 256, off, off + 256);
    lemma_inode_written(s, t, off, ino);
    lemma_decoded_inode(ino, t, off);
}

/// Two places that store the same directory entry header hold the same eight bytes.
pub proof fn lemma_dir_header_bytes_equal(h: DirEntryHeader, s: Seq<u8>, t: Seq<u8>, off: int)
    requires
        dir_header_stored(h, s, off),
        dir_header_stored(h, t, off),
    ensures
        forall|i: int| off <= i < off + 8 ==> s[i] == t[i],
{
    lemma_u32_bytes_equal(s, t, off);
    lemma_u16_bytes_equal(s, t, off + 4);
}

/// Writing an inode into one slot leaves every other slot of the block as it was.
pub proof fn lemma_inode_slots_independent(
    old_block: Seq<u8>,
    new_block: Seq<u8>,
    written: int,
    other: int,
    ino: Inode,
)
    requires
        same_outside(old_block, new_block, written, written + 256),
        inode_stored(ino, old_block, other),
        other + 256 <= written || written + 256 <= other,
    ensures
        inode_stored(ino, new_block, other),
{
    let lo = written;
    let hi = written + 256;
    lemma_u32_frame(old_block, new_block, other, lo, hi);
    lemma_u32_frame(old_block, new_block, other + 4, lo, hi);
    lemma_u32_frame(old_block, new_block, other + 8, lo, hi);
    lemma_u64_frame(old_block, new_block, other + 16, lo, hi);
    lemma_u64_frame(old_block, new_block, other + 24, lo, hi);
    lemma_u64_frame(old_block, new_block, other + 32, lo, hi);
    lemma_u64_frame(old_block, new_block, other + 40, lo, hi);
    lemma_u32_frame(old_block, new_block, other + 48, lo, hi);
    lemma_u64_frame(old_block, new_block, other + 152, lo, hi);
    lemma_u64_frame(old_block, new_block, other + 160, lo, hi);
    assert forall|k: int| 0 <= k < 12 implies ino.direct[k] == #[trigger] u64_at(
        new_block,
        other + 56 + 8 * k,
    ) by {
        lemma_u64_frame(old_block, new_block, other + 56 + 8 * k, lo, hi);
    }
    assert forall|k: int| 0 <= k < 88 implies ino._padding[k] == #[trigger] new_block[other + 168
        + k] by {
        assert(new_block[other + 168 + k] == old_block[other + 168 + k]);
    }
}

} // verus!
