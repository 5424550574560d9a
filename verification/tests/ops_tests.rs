use libfs::bitmap::Bitmap;
use libfs::format::{
    format_superblock, initial_data_bitmap, initial_inode_bitmap, root_inode, DATA_BITMAP_BLOCK,
    INODE_BITMAP_BLOCK, INODE_TABLE_BLOCK,
};
use libfs::fs::{is_directory, new_directory_block, FileKind, FsError};
use libfs::fsck::{data_block_count, BlockNote, InodeNote};
use libfs::inode::InodeStore;
use libfs::layout::{Superblock, ROOT_INODE};
use libfs::dir::insert_into_block;
use libfs::fsck_walk::{link_pass, walk_tree, Finding, Walked};
use libfs::layout::Inode;
use libfs::ops::{Fault, Fetched, RustFS, Step};
use std::collections::HashMap;

type Image = HashMap<u64, [u8; 4096]>;

/// A freshly formatted 1 MiB image, as a map of its blocks (missing blocks are zero).
fn fresh_image() -> Image {
    let mut img: Image = HashMap::new();
    let sb = format_superblock(1024 * 1024);
    img.insert(0, sb.to_block());
    img.insert(INODE_BITMAP_BLOCK, initial_inode_bitmap());
    img.insert(DATA_BITMAP_BLOCK, initial_data_bitmap());
    let table = InodeStore::new(INODE_TABLE_BLOCK);
    let (bn, _) = table.location(ROOT_INODE as u64);
    let mut block = [0u8; 4096];
    table.write_inode(ROOT_INODE as u64, &root_inode(sb.data_start_block), &mut block);
    img.insert(bn, block);
    img.insert(sb.data_start_block, new_directory_block(ROOT_INODE, ROOT_INODE));
    img
}

fn block(img: &Image, n: u64) -> [u8; 4096] {
    *img.get(&n).unwrap_or(&[0u8; 4096])
}

/// Runs an operation against the image: supplies each block it asks for,
/// then applies its writes in order.
fn drive<T>(img: &mut Image, mut op: impl FnMut(&Fetched) -> Step<T>) -> Result<T, Fault> {
    let mut fetched = Fetched::new();
    loop {
        match op(&fetched) {
            Step::Need(n) => {
                assert!(!fetched.has(n));
                fetched.add(n, block(img, n));
            }
            Step::Fault(f) => return Err(f),
            Step::Done(writes, answer) => {
                for (n, data) in writes {
                    img.insert(n, data);
                }
                return Ok(answer);
            }
        }
    }
}

fn mounted(img: &Image) -> RustFS {
    RustFS::new(&block(img, 0)).unwrap()
}

#[test]
fn mount_needs_the_magic_number() {
    let img = fresh_image();
    assert!(RustFS::new(&block(&img, 0)).is_some());
    assert!(RustFS::new(&[0u8; 4096]).is_none());
}

#[test]
fn getattr_of_root_and_of_unused_inode() {
    let mut img = fresh_image();
    let fs = mounted(&img);
    let root = drive(&mut img, |f| fs.getattr(f, 1)).unwrap().unwrap();
    assert_eq!(root.ino, 1);
    assert_eq!(root.kind, FileKind::Directory);
    assert_eq!(root.perm, 0o755);
    assert_eq!(root.nlink, 2);
    assert_eq!(root.size, 4096);
    assert_eq!(root.blocks, 8);
    let none = drive(&mut img, |f| fs.getattr(f, 9)).unwrap();
    assert_eq!(none.err(), Some(FsError::NotFound));
}

#[test]
fn create_then_lookup_finds_the_file() {
    let mut img = fresh_image();
    let mut fs = mounted(&img);
    let free_before = fs.superblock.free_inodes;
    let a = drive(&mut img, |f| fs.create(f, 1, "notes.txt", 0o100644, 1000, 100, 42))
        .unwrap()
        .unwrap();
    assert_eq!(a.ino, 3);
    assert_eq!(a.kind, FileKind::RegularFile);
    assert_eq!((a.size, a.nlink, a.uid, a.gid, a.mtime), (0, 1, 1000, 100, 42));
    assert_eq!(fs.superblock.free_inodes, free_before - 1);
    let stored = Superblock::from_block(&block(&img, 0));
    assert_eq!(stored.free_inodes, free_before - 1);
    assert!(Bitmap::from_block(block(&img, INODE_BITMAP_BLOCK)).is_used(3));
    let found = drive(&mut img, |f| fs.lookup(f, 1, "notes.txt")).unwrap().unwrap();
    assert_eq!(found.ino, 3);
    assert_eq!(found.mtime, 42);
    let missing = drive(&mut img, |f| fs.lookup(f, 1, "other")).unwrap();
    assert_eq!(missing.err(), Some(FsError::NotFound));
}

#[test]
fn write_then_read_gives_the_bytes_back() {
    let mut img = fresh_image();
    let mut fs = mounted(&img);
    let a = drive(&mut img, |f| fs.create(f, 1, "data", 0o100644, 0, 0, 1)).unwrap().unwrap();
    let n = drive(&mut img, |f| fs.write(f, a.ino, 5000, b"hello world", 7)).unwrap();
    assert_eq!(n, Ok(11));
    let back = drive(&mut img, |f| fs.read(f, a.ino, 5000, 11)).unwrap();
    assert_eq!(back, b"hello world".to_vec());
    let part = drive(&mut img, |f| fs.read(f, a.ino, 5006, 100)).unwrap();
    assert_eq!(part, b"world".to_vec());
    let attr = drive(&mut img, |f| fs.getattr(f, a.ino)).unwrap().unwrap();
    assert_eq!((attr.size, attr.mtime), (5011, 7));
    // the block before the written one is a hole
    let hole = drive(&mut img, |f| fs.read(f, a.ino, 0, 10)).unwrap();
    assert!(hole.is_empty());
    // the data block taken is the first free one after the root directory's
    assert!(Bitmap::from_block(block(&img, DATA_BITMAP_BLOCK)).is_used(1));
}

#[test]
fn write_past_the_direct_blocks_is_refused() {
    let mut img = fresh_image();
    let mut fs = mounted(&img);
    let a = drive(&mut img, |f| fs.create(f, 1, "big", 0o100644, 0, 0, 1)).unwrap().unwrap();
    let r = drive(&mut img, |f| fs.write(f, a.ino, 12 * 4096, b"x", 2)).unwrap();
    assert_eq!(r, Err(FsError::FileTooBig));
}

#[test]
fn write_across_a_block_end_cannot_be_done() {
    let mut img = fresh_image();
    let mut fs = mounted(&img);
    let a = drive(&mut img, |f| fs.create(f, 1, "edge", 0o100644, 0, 0, 1)).unwrap().unwrap();
    let r = drive(&mut img, |f| fs.write(f, a.ino, 4090, b"0123456789", 2));
    assert_eq!(r.err(), Some(Fault::PastBlockEnd));
}

#[test]
fn mkdir_then_readdir_lists_dots() {
    let mut img = fresh_image();
    let mut fs = mounted(&img);
    let d = drive(&mut img, |f| fs.mkdir(f, 1, "sub", 0o755, 5, 6, 9)).unwrap().unwrap();
    assert_eq!(d.kind, FileKind::Directory);
    assert_eq!((d.nlink, d.size, d.perm), (2, 4096, 0o755));
    let inside = drive(&mut img, |f| fs.readdir(f, d.ino, 0)).unwrap();
    let names: Vec<(u64, String)> = inside.iter().map(|e| (e.ino, e.name.clone())).collect();
    assert_eq!(names, vec![(d.ino, ".".to_string()), (2, "..".to_string())]);
    assert!(inside.iter().all(|e| e.kind == FileKind::Directory));
    let root = drive(&mut img, |f| fs.readdir(f, 1, 0)).unwrap();
    let names: Vec<String> = root.iter().map(|e| e.name.clone()).collect();
    assert_eq!(names, vec![".", "..", "sub"]);
    assert_eq!(root.iter().map(|e| e.next_offset).collect::<Vec<_>>(), vec![1, 2, 3]);
    let from_two = drive(&mut img, |f| fs.readdir(f, 1, 2)).unwrap();
    assert_eq!(from_two.len(), 1);
    assert_eq!(from_two[0].name, "sub");
    let parent = drive(&mut img, |f| fs.getattr(f, 1)).unwrap().unwrap();
    assert_eq!(parent.nlink, 3);
}

#[test]
fn unlink_removes_the_entry_and_frees_bits() {
    let mut img = fresh_image();
    let mut fs = mounted(&img);
    let a = drive(&mut img, |f| fs.create(f, 1, "gone", 0o100644, 0, 0, 1)).unwrap().unwrap();
    drive(&mut img, |f| fs.write(f, a.ino, 0, b"abc", 2)).unwrap().unwrap();
    assert!(Bitmap::from_block(block(&img, DATA_BITMAP_BLOCK)).is_used(1));
    let r = drive(&mut img, |f| fs.unlink(f, 1, "gone")).unwrap();
    assert_eq!(r, Ok(()));
    assert!(!Bitmap::from_block(block(&img, DATA_BITMAP_BLOCK)).is_used(1));
    let after = drive(&mut img, |f| fs.lookup(f, 1, "gone")).unwrap();
    assert_eq!(after.err(), Some(FsError::NotFound));
    let again = drive(&mut img, |f| fs.unlink(f, 1, "gone")).unwrap();
    assert_eq!(again, Err(FsError::NotFound));
}

#[test]
fn unlink_of_the_last_link_frees_the_inode_bit() {
    let mut img = fresh_image();
    let mut fs = mounted(&img);
    let a = drive(&mut img, |f| fs.create(f, 1, "x", 0o100644, 0, 0, 1)).unwrap().unwrap();
    assert!(Bitmap::from_block(block(&img, INODE_BITMAP_BLOCK)).is_used(a.ino));
    drive(&mut img, |f| fs.unlink(f, 1, "x")).unwrap().unwrap();
    let bits = Bitmap::from_block(block(&img, INODE_BITMAP_BLOCK));
    assert!(!bits.is_used(a.ino));
    // the reserved inodes and the root stay in use
    assert!(bits.is_used(0) && bits.is_used(1) && bits.is_used(2));
    // the next file takes the freed inode again
    let b = drive(&mut img, |f| fs.create(f, 1, "y", 0o100644, 0, 0, 1)).unwrap().unwrap();
    assert_eq!(b.ino, a.ino);
}

/// Runs a step on every block of the image fetched up front, as many as
/// there are in it.
fn on_whole_image<T>(img: &Image, op: impl Fn(&Fetched) -> Step<T>) -> Step<T> {
    let mut fetched = Fetched::new();
    for (n, b) in img.iter() {
        fetched.add(*n, *b);
    }
    for n in 0..256u64 {
        if !fetched.has(n) {
            fetched.add(n, [0u8; 4096]);
        }
    }
    op(&fetched)
}

#[test]
fn steps_with_every_block_fetched_ask_for_none() {
    let mut img = fresh_image();
    let mut fs = mounted(&img);
    let a = drive(&mut img, |f| fs.create(f, 1, "a", 0o100644, 0, 0, 1)).unwrap().unwrap();
    drive(&mut img, |f| fs.write(f, a.ino, 0, b"abc", 2)).unwrap().unwrap();
    assert!(matches!(on_whole_image(&img, |f| fs.getattr(f, a.ino)), Step::Done(_, Ok(_))));
    assert!(matches!(on_whole_image(&img, |f| fs.lookup(f, 1, "a")), Step::Done(_, Ok(_))));
    assert!(matches!(on_whole_image(&img, |f| fs.read(f, a.ino, 0, 3)), Step::Done(_, _)));
    assert!(matches!(on_whole_image(&img, |f| fs.readdir(f, 1, 0)), Step::Done(_, _)));
    assert!(matches!(on_whole_image(&img, |f| fs.unlink(f, 1, "a")), Step::Done(_, Ok(()))));
    let sb = fs.superblock;
    assert!(matches!(on_whole_image(&img, |f| walk_tree(f, &sb)), Step::Done(_, _)));
}

#[test]
fn a_step_asks_first_for_the_block_it_reads_first() {
    let img = fresh_image();
    let fs = mounted(&img);
    let none = Fetched::new();
    // getattr of the root reads the inode table block that holds inode 2
    assert!(matches!(fs.getattr(&none, 1), Step::Need(n) if n == INODE_TABLE_BLOCK));
    // lookup reads that block, then the root's entry block
    let mut f = Fetched::new();
    f.add(INODE_TABLE_BLOCK, block(&img, INODE_TABLE_BLOCK));
    let start = fs.superblock.data_start_block;
    assert!(matches!(fs.lookup(&f, 1, "a"), Step::Need(n) if n == start));
    // the walk asks for the same blocks, in the same order
    let sb = fs.superblock;
    assert!(matches!(walk_tree(&none, &sb), Step::Need(n) if n == INODE_TABLE_BLOCK));
    assert!(matches!(walk_tree(&f, &sb), Step::Need(n) if n == start));
}

#[test]
fn setattr_sets_the_times_given() {
    let mut img = fresh_image();
    let mut fs = mounted(&img);
    let a = drive(&mut img, |f| fs.create(f, 1, "t", 0o100644, 0, 0, 1)).unwrap().unwrap();
    let s = drive(&mut img, |f| fs.setattr(f, a.ino, Some(500), None)).unwrap();
    assert_eq!((s.atime, s.mtime), (500, 1));
    let g = drive(&mut img, |f| fs.getattr(f, a.ino)).unwrap().unwrap();
    assert_eq!((g.atime, g.mtime, g.ctime), (500, 1, 1));
}

#[test]
fn create_without_a_free_inode_is_refused() {
    let mut img = fresh_image();
    img.insert(INODE_BITMAP_BLOCK, [0xffu8; 4096]);
    let mut fs = mounted(&img);
    let before = img.clone();
    let r = drive(&mut img, |f| fs.create(f, 1, "n", 0o100644, 0, 0, 1)).unwrap();
    assert_eq!(r.err(), Some(FsError::NoSpace));
    assert_eq!(img, before);
}

#[test]
fn mkdir_without_a_free_data_block_keeps_the_inode_taken() {
    let mut img = fresh_image();
    img.insert(DATA_BITMAP_BLOCK, [0xffu8; 4096]);
    let mut fs = mounted(&img);
    let free_before = fs.superblock.free_inodes;
    let r = drive(&mut img, |f| fs.mkdir(f, 1, "d", 0o755, 0, 0, 1)).unwrap();
    assert_eq!(r.err(), Some(FsError::NoSpace));
    assert_eq!(fs.superblock.free_inodes, free_before - 1);
    assert!(Bitmap::from_block(block(&img, INODE_BITMAP_BLOCK)).is_used(3));
}

#[test]
fn lookup_in_a_broken_directory_cannot_be_done() {
    let mut img = fresh_image();
    let fs = mounted(&img);
    let mut dir = block(&img, fs.superblock.data_start_block);
    // the "." record now leads to offset 4090, where no header fits
    dir[4] = 0xFA;
    dir[5] = 0x0F;
    img.insert(fs.superblock.data_start_block, dir);
    let r = drive(&mut img, |f| fs.lookup(f, 1, "zzz"));
    assert_eq!(r.err(), Some(Fault::Directory(libfs::dir::DirError::TruncatedHeader)));
}

#[test]
fn block_zero_holds_the_superblock_kept_in_memory() {
    let mut img = fresh_image();
    let mut fs = mounted(&img);
    drive(&mut img, |f| fs.create(f, 1, "a", 0o100644, 0, 0, 1)).unwrap().unwrap();
    drive(&mut img, |f| fs.mkdir(f, 1, "b", 0o755, 0, 0, 1)).unwrap().unwrap();
    let on_disk = mounted(&img).superblock;
    assert_eq!(on_disk.free_inodes, fs.superblock.free_inodes);
    assert_eq!(on_disk.to_block(), fs.superblock.to_block());
}

fn walked(img: &mut Image) -> Walked {
    let sb = Superblock::from_block(&block(img, 0));
    drive(img, |f| walk_tree(f, &sb)).unwrap()
}

/// Inode `n` of the image and the table block that holds it.
fn inode_of(img: &Image, n: u64) -> (Inode, u64) {
    let table = InodeStore::new(INODE_TABLE_BLOCK);
    let (bn, _) = table.location(n);
    (table.read_inode(n, &block(img, bn)), bn)
}

fn put_inode(img: &mut Image, n: u64, ino: &Inode) {
    let table = InodeStore::new(INODE_TABLE_BLOCK);
    let (bn, _) = table.location(n);
    let mut b = block(img, bn);
    table.write_inode(n, ino, &mut b);
    img.insert(bn, b);
}

#[test]
fn walk_of_a_fresh_image_finds_nothing() {
    let mut img = fresh_image();
    let sb = Superblock::from_block(&block(&img, 0));
    let w = walked(&mut img);
    assert!(w.findings.is_empty());
    assert_eq!(w.checker.errors(), 0);
    assert_eq!(w.checker.recorded_blocks(), vec![sb.data_start_block]);
    assert_eq!(w.checker.subdirectories(2), 0);
    assert!(w.checker.linked_inodes().is_empty());
}

#[test]
fn walk_counts_subdirectories_links_and_blocks() {
    let mut img = fresh_image();
    let mut fs = mounted(&img);
    let d = drive(&mut img, |f| fs.mkdir(f, 1, "docs", 0o755, 0, 0, 1)).unwrap().unwrap();
    let a = drive(&mut img, |f| fs.create(f, d.ino, "a", 0o100644, 0, 0, 1)).unwrap().unwrap();
    drive(&mut img, |f| fs.write(f, a.ino, 0, b"abc", 2)).unwrap().unwrap();
    let w = walked(&mut img);
    assert!(w.findings.is_empty());
    assert_eq!(w.checker.errors(), 0);
    assert_eq!(w.checker.subdirectories(2), 1);
    assert_eq!(w.checker.subdirectories(d.ino), 0);
    assert_eq!(w.checker.link_count(d.ino), 1);
    assert_eq!(w.checker.link_count(a.ino), 1);
    assert_eq!(w.checker.linked_inodes(), vec![d.ino, a.ino]);
    assert_eq!(w.checker.recorded_blocks().len(), 3);
}

#[test]
fn walk_reports_a_bad_dot_entry() {
    let mut img = fresh_image();
    let mut fs = mounted(&img);
    let d = drive(&mut img, |f| fs.mkdir(f, 1, "docs", 0o755, 0, 0, 1)).unwrap().unwrap();
    let (di, _) = inode_of(&img, d.ino);
    // the subdirectory's block says "." is inode 7 and ".." is inode 9
    img.insert(di.direct[0], new_directory_block(7, 9));
    let w = walked(&mut img);
    assert_eq!(
        w.findings,
        vec![
            Finding::BadSelf { dir: d.ino, ino: 7 },
            Finding::BadParent { dir: d.ino, ino: 9, parent: 2 },
        ]
    );
    assert_eq!(w.checker.errors(), 2);
}

#[test]
fn walk_reports_a_pointer_outside_the_data_area() {
    let mut img = fresh_image();
    let mut fs = mounted(&img);
    let a = drive(&mut img, |f| fs.create(f, 1, "a", 0o100644, 0, 0, 1)).unwrap().unwrap();
    let (mut ai, _) = inode_of(&img, a.ino);
    ai.direct[3] = 1;
    put_inode(&mut img, a.ino, &ai);
    let w = walked(&mut img);
    assert_eq!(w.findings, vec![Finding::InvalidPointer { inode: a.ino, block: 1 }]);
    assert_eq!(w.checker.errors(), 1);
}

#[test]
fn walk_reports_a_directory_met_twice() {
    let mut img = fresh_image();
    let mut fs = mounted(&img);
    let d = drive(&mut img, |f| fs.mkdir(f, 1, "docs", 0o755, 0, 0, 1)).unwrap().unwrap();
    let (di, _) = inode_of(&img, d.ino);
    let mut b = block(&img, di.direct[0]);
    insert_into_block(&mut b, "up", 2, 2).unwrap();
    img.insert(di.direct[0], b);
    let w = walked(&mut img);
    assert_eq!(w.findings, vec![Finding::Cycle { dir: 2 }]);
    // a cycle is a warning, not an error
    assert_eq!(w.checker.errors(), 0);
    assert_eq!(w.checker.subdirectories(d.ino), 1);
    assert_eq!(w.checker.link_count(2), 1);
}

#[test]
fn walk_of_a_broken_directory_block_is_a_fault() {
    let mut img = fresh_image();
    let sb = Superblock::from_block(&block(&img, 0));
    let mut dir = block(&img, sb.data_start_block);
    // the "." record now leads to offset 4090, where no header fits
    dir[4] = 0xFA;
    dir[5] = 0x0F;
    img.insert(sb.data_start_block, dir);
    let r = drive(&mut img, |f| walk_tree(f, &sb));
    assert!(matches!(r, Err(Fault::Directory(libfs::dir::DirError::TruncatedHeader))));
}

#[test]
fn walk_counts_each_reported_error_once() {
    let mut img = fresh_image();
    let mut fs = mounted(&img);
    let d = drive(&mut img, |f| fs.mkdir(f, 1, "docs", 0o755, 0, 0, 1)).unwrap().unwrap();
    let a = drive(&mut img, |f| fs.create(f, d.ino, "a", 0o100644, 0, 0, 1)).unwrap().unwrap();
    let (mut ai, _) = inode_of(&img, a.ino);
    ai.direct[0] = 0xFFFF_FFFF;
    put_inode(&mut img, a.ino, &ai);
    let (di, _) = inode_of(&img, d.ino);
    let mut b = block(&img, di.direct[0]);
    insert_into_block(&mut b, "again", d.ino as u32, 2).unwrap();
    img.insert(di.direct[0], b);
    let w = walked(&mut img);
    assert_eq!(
        w.findings,
        vec![
            Finding::InvalidPointer { inode: a.ino, block: 0xFFFF_FFFF },
            Finding::Cycle { dir: d.ino },
        ]
    );
    let counted = w.findings.iter().filter(|x| !matches!(x, Finding::Cycle { .. })).count();
    assert_eq!(w.checker.errors() as usize, counted);
}

fn listed(img: &mut Image, fs: &RustFS, dir: u64) -> Vec<(u64, String)> {
    let items = drive(img, |f| fs.readdir(f, dir, 0)).unwrap();
    items.iter().map(|e| (e.ino, e.name.clone())).collect()
}

#[test]
fn readdir_after_create_and_unlink() {
    let mut img = fresh_image();
    let mut fs = mounted(&img);
    let a = drive(&mut img, |f| fs.create(f, 1, "a", 0o100644, 0, 0, 1)).unwrap().unwrap();
    let b = drive(&mut img, |f| fs.create(f, 1, "b", 0o100644, 0, 0, 1)).unwrap().unwrap();
    let c = drive(&mut img, |f| fs.create(f, 1, "c", 0o100644, 0, 0, 1)).unwrap().unwrap();
    let dots = vec![(2, ".".to_string()), (2, "..".to_string())];
    let mut all = dots.clone();
    all.extend(vec![(a.ino, "a".to_string()), (b.ino, "b".to_string()), (c.ino, "c".to_string())]);
    assert_eq!(listed(&mut img, &fs, 1), all);
    // unlink takes out exactly the entry named
    drive(&mut img, |f| fs.unlink(f, 1, "b")).unwrap().unwrap();
    let mut rest = dots.clone();
    rest.extend(vec![(a.ino, "a".to_string()), (c.ino, "c".to_string())]);
    assert_eq!(listed(&mut img, &fs, 1), rest);
    // a new entry takes the freed record, between "a" and "c", and the freed inode
    let d = drive(&mut img, |f| fs.create(f, 1, "d", 0o100644, 0, 0, 1)).unwrap().unwrap();
    assert_eq!(d.ino, b.ino);
    let mut again = dots;
    again.extend(vec![(a.ino, "a".to_string()), (d.ino, "d".to_string()), (c.ino, "c".to_string())]);
    assert_eq!(listed(&mut img, &fs, 1), again);
}

/// Runs every check of the checker on the image, as the fsck program does,
/// and gives the error count.
fn full_check(img: &mut Image) -> u32 {
    let sb = Superblock::from_block(&block(img, 0));
    let mut c = walked(img).checker;
    c.check_duplicates().unwrap();
    let inode_bits = Bitmap::from_block(block(img, sb.inode_bitmap_block));
    c.check_inode_bits(&inode_bits, sb.total_inodes).unwrap();
    let data_bits = Bitmap::from_block(block(img, sb.data_bitmap_block));
    let data_blocks = data_block_count(sb.total_blocks, sb.data_start_block);
    c.check_data_bits(&data_bits, sb.data_start_block, data_blocks).unwrap();
    let mismatches = drive(img, |f| link_pass(&c, f, &sb)).unwrap();
    assert!(c.record_errors(mismatches.len() as u64));
    c.check_free_items(sb.free_blocks, &data_bits, data_blocks).unwrap();
    c.check_free_items(sb.free_inodes, &inode_bits, sb.total_inodes).unwrap();
    c.errors()
}

#[test]
fn a_fresh_image_checks_consistent() {
    let mut img = fresh_image();
    assert_eq!(full_check(&mut img), 0);
}

/// Creating files keeps the free inode count of the superblock, but taking
/// data blocks (by mkdir and write) leaves its free block count as it was,
/// which the check reports as one error.
#[test]
fn after_mkdir_create_and_write_only_the_free_block_count_is_off() {
    let mut img = fresh_image();
    let mut fs = mounted(&img);
    let d = drive(&mut img, |f| fs.mkdir(f, 1, "docs", 0o755, 0, 0, 1)).unwrap().unwrap();
    let a = drive(&mut img, |f| fs.create(f, d.ino, "a", 0o100644, 0, 0, 1)).unwrap().unwrap();
    drive(&mut img, |f| fs.write(f, a.ino, 0, b"abc", 2)).unwrap().unwrap();
    assert_eq!(full_check(&mut img), 1);
    let sb = Superblock::from_block(&block(&img, 0));
    let fresh = Superblock::from_block(&block(&fresh_image(), 0));
    assert_eq!(sb.free_blocks, fresh.free_blocks);
    assert_eq!(sb.free_inodes, fresh.free_inodes - 2);
}

#[test]
fn an_orphaned_inode_is_one_error() {
    let mut img = fresh_image();
    let mut bits = Bitmap::from_block(block(&img, INODE_BITMAP_BLOCK));
    bits.allocate();
    img.insert(INODE_BITMAP_BLOCK, bits.to_block());
    // inode 3 is now marked used but no entry names it, and the superblock's
    // free inode count is one off
    assert_eq!(full_check(&mut img), 2);
}

#[test]
fn passes_report_duplicates_orphans_and_leaks() {
    let mut img = fresh_image();
    let mut fs = mounted(&img);
    let a = drive(&mut img, |f| fs.create(f, 1, "a", 0o100644, 0, 0, 1)).unwrap().unwrap();
    let b = drive(&mut img, |f| fs.create(f, 1, "b", 0o100644, 0, 0, 1)).unwrap().unwrap();
    drive(&mut img, |f| fs.write(f, a.ino, 0, b"abc", 2)).unwrap().unwrap();
    // "b" now shares the data block of "a"
    let (ai, _) = inode_of(&img, a.ino);
    let (mut bi, _) = inode_of(&img, b.ino);
    bi.direct[0] = ai.direct[0];
    put_inode(&mut img, b.ino, &bi);
    // inode 40 is marked used, and data bit 9 too
    let sb = Superblock::from_block(&block(&img, 0));
    let mut ib = block(&img, INODE_BITMAP_BLOCK);
    ib[5] |= 1;
    img.insert(INODE_BITMAP_BLOCK, ib);
    let mut db = block(&img, DATA_BITMAP_BLOCK);
    db[1] |= 2;
    img.insert(DATA_BITMAP_BLOCK, db);
    let mut c = walked(&mut img).checker;
    let dups = c.check_duplicates().unwrap();
    assert_eq!(dups, vec![(ai.direct[0], vec![a.ino, b.ino])]);
    assert_eq!(c.errors(), 1);
    let inode_bits = Bitmap::from_block(block(&img, INODE_BITMAP_BLOCK));
    let notes = c.check_inode_bits(&inode_bits, sb.total_inodes).unwrap();
    assert_eq!(notes, vec![(40, InodeNote::Orphaned)]);
    let data_bits = Bitmap::from_block(block(&img, DATA_BITMAP_BLOCK));
    let count = data_block_count(sb.total_blocks, sb.data_start_block);
    let leaks = c.check_data_bits(&data_bits, sb.data_start_block, count).unwrap();
    assert_eq!(leaks, vec![(sb.data_start_block + 9, BlockNote::Leaked)]);
    assert_eq!(c.errors(), 3);
    // a bitmap pass past the end of its block fails
    assert_eq!(c.check_inode_bits(&inode_bits, 40000), Err(Fault::BitOutOfRange));
}

#[test]
fn link_pass_reports_each_mismatch_once() {
    let mut img = fresh_image();
    let mut fs = mounted(&img);
    let d = drive(&mut img, |f| fs.mkdir(f, 1, "d", 0o755, 0, 0, 1)).unwrap().unwrap();
    let a = drive(&mut img, |f| fs.create(f, 1, "a", 0o100644, 0, 0, 1)).unwrap().unwrap();
    let sb = Superblock::from_block(&block(&img, 0));
    let c = walked(&mut img).checker;
    assert!(drive(&mut img, |f| link_pass(&c, f, &sb)).unwrap().is_empty());
    // the root claims 5 links and the file 3
    let (mut root, _) = inode_of(&img, 2);
    root.hard_links = 5;
    put_inode(&mut img, 2, &root);
    let (mut ai, _) = inode_of(&img, a.ino);
    ai.hard_links = 3;
    put_inode(&mut img, a.ino, &ai);
    let m = drive(&mut img, |f| link_pass(&c, f, &sb)).unwrap();
    assert_eq!(m, vec![(2, 5, 3, true), (a.ino, 3, 1, false)]);
    let _ = d;
}

#[test]
fn free_counts_are_compared_with_the_bitmap() {
    let img = fresh_image();
    let sb = Superblock::from_block(&block(&img, 0));
    let mut c = libfs::fsck::Checker::new(sb.data_start_block, sb.total_blocks);
    let bits = Bitmap::from_block(block(&img, INODE_BITMAP_BLOCK));
    assert_eq!(c.check_free_items(sb.free_inodes, &bits, sb.total_inodes), Ok((true, sb.total_inodes - 3)));
    assert_eq!(c.errors(), 0);
    assert_eq!(c.check_free_items(7, &bits, sb.total_inodes), Ok((false, sb.total_inodes - 3)));
    assert_eq!(c.errors(), 1);
    assert_eq!(c.check_free_items(7, &bits, 40000), Err(Fault::BitOutOfRange));
}

#[test]
fn readdir_entry_gives_one_entry_at_a_time() {
    let mut img = fresh_image();
    let mut fs = mounted(&img);
    let a = drive(&mut img, |f| fs.create(f, 1, "a", 0o100644, 0, 0, 1)).unwrap().unwrap();
    let e = drive(&mut img, |f| fs.readdir_entry(f, 1, 2)).unwrap().unwrap();
    assert_eq!((e.ino, e.next_offset, e.kind, e.name.as_str()), (a.ino, 3, FileKind::RegularFile, "a"));
    let dot = drive(&mut img, |f| fs.readdir_entry(f, 1, 0)).unwrap().unwrap();
    assert_eq!((dot.ino, dot.next_offset, dot.kind, dot.name.as_str()), (2, 1, FileKind::Directory, "."));
    assert!(drive(&mut img, |f| fs.readdir_entry(f, 1, 3)).unwrap().is_none());
}
