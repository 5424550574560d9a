use libfs::bitmap::Bitmap;
use libfs::format::{format_superblock, initial_data_bitmap, initial_inode_bitmap, root_inode};
use libfs::layout::MAGIC;

#[test]
fn superblock_of_hundred_megabyte_image() {
    let sb = format_superblock(100 * 1024 * 1024);
    assert_eq!(sb.magic, MAGIC);
    assert_eq!(sb.total_blocks, 25600);
    assert_eq!(sb.total_inodes, 2048);
    assert_eq!(sb.free_blocks, 25600 - 139 - 1);
    assert_eq!(sb.free_inodes, 2045);
    assert_eq!(sb.journal_start_block, 131);
    assert_eq!(sb.data_start_block, 139);
}

#[test]
fn fresh_bitmaps() {
    let ib = Bitmap::from_block(initial_inode_bitmap());
    assert!(ib.is_used(0) && ib.is_used(1) && ib.is_used(2));
    assert!(!ib.is_used(3));
    let db = Bitmap::from_block(initial_data_bitmap());
    assert!(db.is_used(0));
    assert!(!db.is_used(1));
    let r = root_inode(139);
    assert_eq!(r.mode, 0o040755);
    assert_eq!(r.direct[0], 139);
    assert_eq!(r.hard_links, 2);
}

#[test]
fn formatted_layout_keeps_regions_apart() {
    let sb = format_superblock(100 * 1024 * 1024);
    assert!(0 < sb.inode_bitmap_block && sb.inode_bitmap_block < sb.inode_table_block);
    assert!(0 < sb.data_bitmap_block && sb.data_bitmap_block < sb.inode_table_block);
    assert_ne!(sb.inode_bitmap_block, sb.data_bitmap_block);
    assert_eq!(sb.total_inodes % 16, 0);
    assert!(sb.total_inodes <= 32768);
    assert!(sb.inode_table_block + sb.total_inodes / 16 <= sb.data_start_block);
}
