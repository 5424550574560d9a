use libfs::bytes::Block;
use libfs::dir::{insert_into_block, list_block, look_up_in_block, remove_from_block, DirError};
use libfs::fs::new_directory_block;
use libfs::layout::{DirEntryHeader, FT_DIRECTORY, FT_REGULAR};

fn names(block: &Block) -> Vec<(u32, String)> {
    list_block(block).unwrap()
}

#[test]
fn new_directory_lists_dot_entries() {
    let b = new_directory_block(5, 2);
    assert_eq!(names(&b), vec![(5, ".".to_string()), (2, "..".to_string())]);
    assert_eq!(look_up_in_block(&b, ".."), Ok(Some(2)));
    assert_eq!(look_up_in_block(&b, "x"), Ok(None));
}

#[test]
fn insert_appends_after_last_entry() {
    let mut b = new_directory_block(2, 2);
    assert_eq!(insert_into_block(&mut b, "hello.txt", 7, FT_REGULAR), Ok(true));
    // ".." shrinks to 12 bytes and the new entry takes the rest
    let dotdot = DirEntryHeader::read_at(&b, 12);
    assert_eq!(dotdot.rec_len, 12);
    let new = DirEntryHeader::read_at(&b, 24);
    assert_eq!((new.inode, new.rec_len, new.name_len, new.file_type), (7, 4072, 9, FT_REGULAR));
    assert_eq!(&b[32..41], b"hello.txt");
    assert_eq!(look_up_in_block(&b, "hello.txt"), Ok(Some(7)));
    assert_eq!(
        names(&b),
        vec![(2, ".".to_string()), (2, "..".to_string()), (7, "hello.txt".to_string())]
    );
}

#[test]
fn remove_takes_entry_out_of_listing() {
    let mut b = new_directory_block(2, 2);
    insert_into_block(&mut b, "a", 10, FT_REGULAR).unwrap();
    insert_into_block(&mut b, "bb", 11, FT_DIRECTORY).unwrap();
    assert_eq!(remove_from_block(&mut b, "a"), Ok(()));
    assert_eq!(look_up_in_block(&b, "a"), Ok(None));
    assert_eq!(
        names(&b),
        vec![(2, ".".to_string()), (2, "..".to_string()), (11, "bb".to_string())]
    );
    assert_eq!(remove_from_block(&mut b, "a"), Err(DirError::NotFound));
}

#[test]
fn insert_reuses_freed_record() {
    let mut b = new_directory_block(2, 2);
    insert_into_block(&mut b, "abcdefgh", 10, FT_REGULAR).unwrap(); // record at 24, 16 bytes when shrunk
    insert_into_block(&mut b, "z", 11, FT_REGULAR).unwrap(); // shrinks "abcdefgh" to 16
    remove_from_block(&mut b, "abcdefgh").unwrap();
    // a name of 4 bytes needs 12 bytes; 4 are left over, so the record keeps all 16
    assert_eq!(insert_into_block(&mut b, "four", 12, FT_REGULAR), Ok(true));
    let h = DirEntryHeader::read_at(&b, 24);
    assert_eq!((h.inode, h.rec_len, h.name_len), (12, 16, 4));
    assert_eq!(
        names(&b),
        vec![
            (2, ".".to_string()),
            (2, "..".to_string()),
            (12, "four".to_string()),
            (11, "z".to_string())
        ]
    );
}

#[test]
fn insert_splits_long_free_record() {
    let mut b = new_directory_block(2, 2);
    insert_into_block(&mut b, "a-much-longer-name", 10, FT_REGULAR).unwrap(); // 28 bytes when shrunk
    insert_into_block(&mut b, "z", 11, FT_REGULAR).unwrap();
    remove_from_block(&mut b, "a-much-longer-name").unwrap();
    assert_eq!(insert_into_block(&mut b, "ab", 12, FT_REGULAR), Ok(true));
    let h = DirEntryHeader::read_at(&b, 24);
    assert_eq!((h.inode, h.rec_len), (12, 12));
    let rest = DirEntryHeader::read_at(&b, 36);
    assert_eq!((rest.inode, rest.rec_len, rest.name_len, rest.file_type), (0, 16, 0, 0));
    assert_eq!(look_up_in_block(&b, "z"), Ok(Some(11)));
}

#[test]
fn zeroed_block_lists_nothing_and_cannot_take_entries() {
    let mut b: Block = [0u8; 4096];
    assert_eq!(list_block(&b), Ok(vec![]));
    assert_eq!(look_up_in_block(&b, "a"), Ok(None));
    assert_eq!(insert_into_block(&mut b, "a", 3, FT_REGULAR), Err(DirError::ZeroLengthRecord));
    assert!(b.iter().all(|&x| x == 0));
}

#[test]
fn oversized_name_is_refused() {
    let mut b = new_directory_block(2, 2);
    let before = b;
    assert_eq!(
        insert_into_block(&mut b, &"x".repeat(4070), 9, FT_REGULAR),
        Err(DirError::EntryOutsideBlock)
    );
    assert_eq!(b, before);
}

#[test]
fn chain_past_block_end_is_full() {
    let mut b: Block = [0u8; 4096];
    DirEntryHeader { inode: 3, rec_len: 5000, name_len: 1, file_type: FT_REGULAR }.write_at(&mut b, 0);
    b[8] = b'q';
    assert_eq!(insert_into_block(&mut b, "a", 4, FT_REGULAR), Ok(false));
    assert_eq!(look_up_in_block(&b, "q"), Ok(Some(3)));
}

#[test]
fn short_last_record_cannot_be_split() {
    let mut d: Block = [0u8; 4096];
    DirEntryHeader { inode: 5, rec_len: 4088, name_len: 1, file_type: FT_REGULAR }.write_at(&mut d, 0);
    DirEntryHeader { inode: 4, rec_len: 8, name_len: 255, file_type: FT_REGULAR }.write_at(&mut d, 4088);
    assert_eq!(insert_into_block(&mut d, "a", 5, FT_REGULAR), Err(DirError::RecordTooShort));
    let mut c: Block = [0u8; 4096];
    DirEntryHeader { inode: 4, rec_len: 4096, name_len: 255, file_type: FT_REGULAR }.write_at(&mut c, 0);
    assert_eq!(insert_into_block(&mut c, "a", 5, FT_REGULAR), Ok(true));
    let h = DirEntryHeader::read_at(&c, 264);
    assert_eq!((h.inode, h.rec_len, h.name_len), (5, 4096 - 264, 1));
}

#[test]
fn truncated_header_is_reported() {
    let mut b: Block = [0u8; 4096];
    DirEntryHeader { inode: 0, rec_len: 4092, name_len: 0, file_type: 0 }.write_at(&mut b, 0);
    assert_eq!(look_up_in_block(&b, "a"), Err(DirError::TruncatedHeader));
    assert_eq!(list_block(&b), Err(DirError::TruncatedHeader));
}

#[test]
fn name_past_block_end_is_reported() {
    let mut b: Block = [0u8; 4096];
    DirEntryHeader { inode: 0, rec_len: 4090, name_len: 0, file_type: 0 }.write_at(&mut b, 0);
    DirEntryHeader { inode: 9, rec_len: 6, name_len: 10, file_type: 1 }.write_at(&mut b, 4088);
    assert_eq!(look_up_in_block(&b, "a"), Err(DirError::TruncatedHeader));
    let mut c: Block = [0u8; 4096];
    DirEntryHeader { inode: 0, rec_len: 4080, name_len: 0, file_type: 0 }.write_at(&mut c, 0);
    DirEntryHeader { inode: 9, rec_len: 16, name_len: 10, file_type: 1 }.write_at(&mut c, 4080);
    assert_eq!(look_up_in_block(&c, "a"), Err(DirError::NameOutsideBlock));
    assert_eq!(list_block(&c), Err(DirError::NameOutsideBlock));
    assert_eq!(remove_from_block(&mut c, "a"), Err(DirError::NameOutsideBlock));
}

#[test]
fn invalid_utf8_names_read_lossily() {
    let mut b: Block = [0u8; 4096];
    DirEntryHeader { inode: 6, rec_len: 4096, name_len: 2, file_type: FT_REGULAR }.write_at(&mut b, 0);
    b[8] = b'a';
    b[9] = 0xff;
    assert_eq!(names(&b), vec![(6, "a\u{fffd}".to_string())]);
    assert_eq!(look_up_in_block(&b, "a\u{fffd}"), Ok(Some(6)));
}

fn put_record(b: &mut Block, off: usize, ino: u32, rec_len: u16, name: &[u8]) {
    b[off..off + 4].copy_from_slice(&ino.to_le_bytes());
    b[off + 4..off + 6].copy_from_slice(&rec_len.to_le_bytes());
    b[off + 6] = name.len() as u8;
    b[off + 7] = 1;
    b[off + 8..off + 8 + name.len()].copy_from_slice(name);
}

#[test]
fn an_entry_appended_with_room_only_for_its_bytes_gets_a_short_record() {
    let mut b: Block = [0u8; 4096];
    // two records, each at least its rounded entry long; the last leaves
    // 9 bytes after its own 12, room for "x" but not for its rounded 12
    put_record(&mut b, 0, 5, 4075, b"a");
    put_record(&mut b, 4075, 6, 21, b"b");
    assert_eq!(insert_into_block(&mut b, "x", 7, 1), Ok(true));
    assert_eq!(u16::from_le_bytes([b[4091], b[4092]]), 9);
    assert_eq!(
        names(&b),
        vec![(5, "a".to_string()), (6, "b".to_string()), (7, "x".to_string())]
    );
}
