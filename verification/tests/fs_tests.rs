use libfs::fs::{
    fuse_ino, inode_to_attr, is_directory, plan_read, plan_write, write_into_block, FileKind,
    FsError, ReadPlan,
};
use libfs::layout::Inode;

#[test]
fn fuse_root_is_inode_two() {
    assert_eq!(fuse_ino(1), 2);
    assert_eq!(fuse_ino(2), 2);
    assert_eq!(fuse_ino(77), 77);
}

#[test]
fn attributes_of_inode() {
    let mut i = Inode::new_file(0o100640, 1000, 50, 1234);
    i.size = 1025;
    i.hard_links = 3;
    let a = inode_to_attr(9, &i);
    assert_eq!(a.ino, 9);
    assert_eq!(a.size, 1025);
    assert_eq!(a.blocks, 3);
    assert_eq!(a.kind, FileKind::RegularFile);
    assert_eq!(a.perm, 0o640);
    assert_eq!(a.nlink, 3);
    assert_eq!((a.uid, a.gid), (1000, 50));
    assert_eq!((a.atime, a.mtime, a.ctime, a.crtime), (1234, 1234, 1234, 0));
    assert_eq!(a.blksize, 4096);
    let d = Inode::new_directory(0o700, 0, 0, 1, 200);
    assert_eq!(inode_to_attr(1, &d).kind, FileKind::Directory);
    assert!(is_directory(d.mode));
    assert!(!is_directory(0o120777));
}

#[test]
fn write_plans() {
    let mut i = Inode::new_file(0o100644, 0, 0, 0);
    let p = plan_write(&i, 5000).unwrap();
    assert_eq!((p.block_index, p.offset_in_block, p.needs_block), (1, 904, true));
    i.direct[1] = 300;
    assert!(!plan_write(&i, 5000).unwrap().needs_block);
    assert_eq!(plan_write(&i, 12 * 4096).err(), Some(FsError::FileTooBig));
    assert_eq!(plan_write(&i, -1).err(), Some(FsError::FileTooBig));
    assert_eq!(plan_write(&i, 12 * 4096 - 1).unwrap().block_index, 11);
}

#[test]
fn record_write_grows_file() {
    let mut i = Inode::new_file(0o100644, 0, 0, 0);
    i.record_write(1, 300, 5000, 10, 77);
    assert_eq!(i.direct[1], 300);
    assert_eq!(i.size, 5010);
    assert_eq!(i.mtime, 77);
    i.record_write(0, 299, 0, 5, 78);
    assert_eq!(i.size, 5010);
}

#[test]
fn write_into_block_copies_bytes() {
    let mut b = [0u8; 4096];
    write_into_block(&mut b, 904, b"hello");
    assert_eq!(&b[904..909], b"hello");
    assert_eq!(b[903], 0);
    assert_eq!(b[909], 0);
}

#[test]
fn read_plans() {
    let mut i = Inode::new_file(0o100644, 0, 0, 0);
    i.size = 5000;
    i.direct[0] = 300;
    i.direct[1] = 301;
    assert!(matches!(plan_read(&i, 0, 100), ReadPlan::Range { block_num: 300, start: 0, len: 100 }));
    assert!(matches!(plan_read(&i, 4000, 500), ReadPlan::Range { block_num: 300, start: 4000, len: 96 }));
    assert!(matches!(plan_read(&i, 4900, 500), ReadPlan::Range { block_num: 301, start: 804, len: 100 }));
    assert!(matches!(plan_read(&i, 5000, 10), ReadPlan::Empty));
    assert!(matches!(plan_read(&i, -5, 10), ReadPlan::Empty));
    i.size = 20000;
    assert!(matches!(plan_read(&i, 9000, 10), ReadPlan::Empty));
}
