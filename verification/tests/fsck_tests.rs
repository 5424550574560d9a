use libfs::fsck::{
    block_pointers, data_block_count, is_dot, is_dot_dot, owned_pointers, BlockNote, Checker,
    EntryNote, InodeNote, PointerNote,
};
use libfs::layout::Inode;
use libfs::ops::{Fetched, Step};

#[test]
fn pointers_of_indirect_block() {
    let mut b = [0u8; 4096];
    b[8..16].copy_from_slice(&300u64.to_le_bytes());
    b[4088..4096].copy_from_slice(&7u64.to_le_bytes());
    let p = block_pointers(&b);
    assert_eq!(p.len(), 512);
    assert_eq!(p[0], 0);
    assert_eq!(p[1], 300);
    assert_eq!(p[511], 7);
}

#[test]
fn dot_names() {
    assert!(is_dot("."));
    assert!(!is_dot(".."));
    assert!(is_dot_dot(".."));
    assert!(!is_dot_dot("..."));
    assert!(!is_dot("a"));
}

#[test]
fn block_pointer_checks() {
    let mut c = Checker::new(139, 1000);
    assert_eq!(c.record_block(0, 5), PointerNote::Hole);
    assert_eq!(c.record_block(100, 5), PointerNote::Invalid);
    assert_eq!(c.record_block(1000, 5), PointerNote::Invalid);
    assert_eq!(c.errors(), 2);
    assert_eq!(c.record_block(200, 5), PointerNote::Recorded);
    assert_eq!(c.record_block(300, 6), PointerNote::Recorded);
    assert_eq!(c.record_block(200, 7), PointerNote::Recorded);
    assert_eq!(c.recorded_blocks(), vec![200, 300]);
    assert_eq!(c.check_duplicate(200), Some(vec![5, 7]));
    assert_eq!(c.check_duplicate(300), None);
    assert_eq!(c.errors(), 3);
}

#[test]
fn directory_entry_checks() {
    let mut c = Checker::new(139, 1000);
    assert!(c.enter_directory(2));
    assert!(!c.enter_directory(2));
    assert_eq!(c.check_entry(2, 2, 2, "."), EntryNote::SelfOk);
    assert_eq!(c.check_entry(2, 2, 3, "."), EntryNote::BadSelf);
    assert_eq!(c.check_entry(5, 2, 2, ".."), EntryNote::ParentOk);
    assert_eq!(c.check_entry(5, 2, 9, ".."), EntryNote::BadParent);
    assert_eq!(c.check_entry(2, 2, 10, "file"), EntryNote::Child);
    assert_eq!(c.check_entry(2, 2, 10, "again"), EntryNote::Child);
    assert_eq!(c.errors(), 2);
    assert_eq!(c.linked_inodes(), vec![10]);
    assert_eq!(c.expected_links(10, false), 2);
    c.count_subdir(2);
    assert_eq!(c.expected_links(2, true), 3);
    assert!(c.first_collection(10));
    assert!(!c.first_collection(10));
}

#[test]
fn bitmap_checks() {
    let mut c = Checker::new(139, 1000);
    c.check_entry(2, 2, 10, "f");
    assert_eq!(c.check_inode_bit(10, false), InodeNote::FreeButReferenced);
    assert_eq!(c.check_inode_bit(11, true), InodeNote::Orphaned);
    assert_eq!(c.check_inode_bit(2, true), InodeNote::Consistent);
    assert_eq!(c.check_inode_bit(1, true), InodeNote::Consistent);
    c.record_block(140, 10);
    assert_eq!(c.check_data_bit(140, true), BlockNote::Consistent);
    assert_eq!(c.check_data_bit(141, true), BlockNote::Leaked);
    assert_eq!(c.check_data_bit(140, false), BlockNote::FreeButUsed);
    assert!(c.check_links(2, 2));
    assert!(!c.check_links(1, 2));
    assert!(!c.check_free_count(5, 6));
    assert_eq!(c.errors(), 6);
    assert_eq!(data_block_count(1000, 139), 861);
}

fn pointer_block(entries: &[(usize, u64)]) -> [u8; 4096] {
    let mut b = [0u8; 4096];
    for &(slot, value) in entries {
        b[8 * slot..8 * slot + 8].copy_from_slice(&value.to_le_bytes());
    }
    b
}

#[test]
fn pointers_of_an_inode_follow_its_indirect_blocks() {
    let mut i = Inode::new_file(0o100644, 0, 0, 0);
    i.direct[0] = 140;
    i.indirect = 150;
    i.double_indirect = 160;
    let mut f = Fetched::new();
    // the single indirect block is asked for first
    assert!(matches!(owned_pointers(&f, &i), Step::Need(150)));
    f.add(150, pointer_block(&[(0, 151), (511, 152)]));
    assert!(matches!(owned_pointers(&f, &i), Step::Need(160)));
    f.add(160, pointer_block(&[(3, 170)]));
    assert!(matches!(owned_pointers(&f, &i), Step::Need(170)));
    f.add(170, pointer_block(&[(1, 171)]));
    let v = match owned_pointers(&f, &i) {
        Step::Done(writes, v) => {
            assert!(writes.is_empty());
            v
        }
        _ => panic!("all blocks were given"),
    };
    assert_eq!(v.len(), 12 + 1 + 512 + 1 + 1 + 512);
    assert_eq!(&v[..2], &[140, 0]);
    assert_eq!(v[12], 150);
    assert_eq!(v[13], 151);
    assert_eq!(v[12 + 512], 152);
    assert_eq!(v[12 + 513], 160);
    assert_eq!(v[12 + 514], 170);
    assert_eq!(v[12 + 515], 0);
    assert_eq!(v[12 + 516], 171);
}

#[test]
fn pointers_of_an_inode_without_indirect_blocks() {
    let mut i = Inode::new_file(0o100644, 0, 0, 0);
    i.direct[11] = 99;
    let f = Fetched::new();
    match owned_pointers(&f, &i) {
        Step::Done(_, v) => {
            assert_eq!(v.len(), 12);
            assert_eq!(v[11], 99);
        }
        _ => panic!("no block is needed"),
    }
}
