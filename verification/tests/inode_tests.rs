use libfs::bytes::Block;
use libfs::inode::InodeStore;
use libfs::layout::Inode;

#[test]
fn inode_location_in_table() {
    let s = InodeStore::new(3);
    assert_eq!(s.location(0), (3, 0));
    assert_eq!(s.location(2), (3, 512));
    assert_eq!(s.location(15), (3, 3840));
    assert_eq!(s.location(16), (4, 0));
    assert_eq!(s.location(2047), (130, 3840));
}

#[test]
fn inode_read_after_write() {
    let s = InodeStore::new(3);
    let mut block: Block = [0u8; 4096];
    let a = Inode::new_file(0o100644, 1, 2, 99);
    let b = Inode::new_directory(0o755, 0, 0, 5, 140);
    s.write_inode(17, &a, &mut block);
    s.write_inode(18, &b, &mut block);
    let ra = s.read_inode(17, &block);
    let rb = s.read_inode(18, &block);
    assert_eq!((ra.mode, ra.uid, ra.gid, ra.hard_links, ra.mtime), (0o100644, 1, 2, 1, 99));
    assert_eq!((rb.mode, rb.hard_links, rb.size, rb.direct[0]), (0o040755, 2, 4096, 140));
    let blank = s.read_inode(19, &block);
    assert_eq!(blank.mode, 0);
}
