use libfs::bytes::{get_u16, get_u32, get_u64, put_u16, put_u32, put_u64, copy_into, Block};
use libfs::layout::{
    DirEntryHeader, Inode, JournalHeader, Superblock, FT_DIRECTORY, JOURNAL_MAGIC, MAGIC,
};

fn sample_superblock() -> Superblock {
    let mut pad = [0u8; 3996];
    pad[0] = 9;
    pad[3995] = 7;
    Superblock {
        magic: MAGIC,
        block_size: 4096,
        total_blocks: 25600,
        total_inodes: 2048,
        free_blocks: 25460,
        free_inodes: 2045,
        inode_bitmap_block: 1,
        data_bitmap_block: 2,
        inode_table_block: 3,
        journal_start_block: 131,
        data_start_block: 139,
        _padding: pad,
    }
}

fn sample_inode(seed: u64) -> Inode {
    let mut direct = [0u64; 12];
    for (k, d) in direct.iter_mut().enumerate() {
        *d = seed * 100 + k as u64;
    }
    let mut pad = [0u8; 88];
    pad[87] = seed as u8;
    Inode {
        mode: 0o100644,
        uid: 1000,
        gid: 100,
        size: 0x0102_0304_0506_0708,
        ctime: 11,
        atime: 22,
        mtime: 33,
        hard_links: 3,
        direct,
        indirect: 0xdead_beef,
        double_indirect: u64::MAX,
        _padding: pad,
    }
}

#[test]
fn integers_are_little_endian() {
    let mut b: Block = [0u8; 4096];
    put_u32(&mut b, 10, 0x1122_3344);
    assert_eq!(&b[10..14], &[0x44, 0x33, 0x22, 0x11]);
    assert_eq!(get_u32(&b, 10), 0x1122_3344);
    put_u16(&mut b, 100, 0xabcd);
    assert_eq!(&b[100..102], &[0xcd, 0xab]);
    assert_eq!(get_u16(&b, 100), 0xabcd);
    put_u64(&mut b, 4088, 0x0102_0304_0506_0708);
    assert_eq!(&b[4088..4096], &[8, 7, 6, 5, 4, 3, 2, 1]);
    assert_eq!(get_u64(&b, 4088), 0x0102_0304_0506_0708);
    assert_eq!(b[9], 0);
    assert_eq!(b[14], 0);
}

#[test]
fn copy_into_changes_only_its_range() {
    let mut b: Block = [5u8; 4096];
    copy_into(&mut b, 4093, &[1, 2, 3]);
    assert_eq!(&b[4090..4096], &[5, 5, 5, 1, 2, 3]);
}

#[test]
fn superblock_roundtrip() {
    let sb = sample_superblock();
    let b = sb.to_block();
    assert_eq!(&b[0..4], &MAGIC.to_le_bytes());
    assert_eq!(&b[72..80], &139u64.to_le_bytes());
    assert_eq!(b[80], 9);
    assert_eq!(b[4075], 7);
    assert!(b[4076..].iter().all(|&x| x == 0));
    let back = Superblock::from_block(&b);
    assert_eq!(back.magic, sb.magic);
    assert_eq!(back.block_size, sb.block_size);
    assert_eq!(back.total_blocks, sb.total_blocks);
    assert_eq!(back.total_inodes, sb.total_inodes);
    assert_eq!(back.free_blocks, sb.free_blocks);
    assert_eq!(back.free_inodes, sb.free_inodes);
    assert_eq!(back.inode_bitmap_block, sb.inode_bitmap_block);
    assert_eq!(back.data_bitmap_block, sb.data_bitmap_block);
    assert_eq!(back.inode_table_block, sb.inode_table_block);
    assert_eq!(back.journal_start_block, sb.journal_start_block);
    assert_eq!(back.data_start_block, sb.data_start_block);
    assert_eq!(back._padding[..], sb._padding[..]);
}

#[test]
fn inode_roundtrip_and_slot_independence() {
    let mut b: Block = [0xaau8; 4096];
    let a = sample_inode(1);
    let c = sample_inode(2);
    a.write_at(&mut b, 0);
    c.write_at(&mut b, 256);
    let ra = Inode::read_at(&b, 0);
    let rc = Inode::read_at(&b, 256);
    assert_eq!(ra.size, a.size);
    assert_eq!(ra.direct, a.direct);
    assert_eq!(ra.double_indirect, u64::MAX);
    assert_eq!(ra._padding[..], a._padding[..]);
    assert_eq!(rc.direct, c.direct);
    assert_eq!(rc.mode, 0o100644);
    // the record gaps are zero and the slot after is untouched
    assert_eq!(&b[12..16], &[0, 0, 0, 0]);
    assert_eq!(&b[52..56], &[0, 0, 0, 0]);
    assert!(b[512..].iter().all(|&x| x == 0xaa));
    // rewriting the first slot leaves the second one intact
    let d = sample_inode(3);
    d.write_at(&mut b, 0);
    let rc2 = Inode::read_at(&b, 256);
    assert_eq!(rc2.direct, c.direct);
    assert_eq!(rc2.uid, c.uid);
    assert_eq!(rc2.mode, c.mode);
}

#[test]
fn last_inode_slot_fits_in_block() {
    let mut b: Block = [0u8; 4096];
    let a = sample_inode(7);
    a.write_at(&mut b, 3840);
    let r = Inode::read_at(&b, 3840);
    assert_eq!(r.direct, a.direct);
    assert_eq!(r._padding[87], 7);
}

#[test]
fn dir_entry_header_roundtrip() {
    let mut b: Block = [0u8; 4096];
    let h = DirEntryHeader { inode: 42, rec_len: 4084, name_len: 2, file_type: FT_DIRECTORY };
    h.write_at(&mut b, 12);
    assert_eq!(&b[12..20], &[42, 0, 0, 0, 0xf4, 0x0f, 2, 2]);
    let r = DirEntryHeader::read_at(&b, 12);
    assert_eq!((r.inode, r.rec_len, r.name_len, r.file_type), (42, 4084, 2, FT_DIRECTORY));
}

#[test]
fn journal_header_roundtrip() {
    let h = JournalHeader {
        magic: JOURNAL_MAGIC,
        commited: 1,
        num_blocks: 3,
        _padding: [0, 0],
        block_numbers: [500, 600, 700, 0],
    };
    let b = h.to_block();
    assert_eq!(&b[0..4], &JOURNAL_MAGIC.to_le_bytes());
    assert_eq!(b[4], 1);
    assert_eq!(b[5], 3);
    assert_eq!(&b[16..24], &600u64.to_le_bytes());
    assert!(b[40..].iter().all(|&x| x == 0));
    let r = JournalHeader::from_block(&b);
    assert_eq!(r.magic, JOURNAL_MAGIC);
    assert_eq!(r.num_blocks, 3);
    assert_eq!(r.block_numbers, [500, 600, 700, 0]);
}
