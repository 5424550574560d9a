use libfs::bitmap::Bitmap;

#[test]
fn allocate_takes_lowest_free_bit() {
    let mut block = [0u8; 4096];
    block[0] = 0b0000_0111;
    let mut bm = Bitmap::from_block(block);
    assert_eq!(bm.allocate(), Some(3));
    assert!(bm.is_used(3));
    assert_eq!(bm.to_block()[0], 0b0000_1111);
    assert_eq!(bm.allocate(), Some(4));
}

#[test]
fn allocate_skips_full_bytes() {
    let mut block = [0xffu8; 4096];
    block[5] = 0b1110_1111;
    let mut bm = Bitmap::from_block(block);
    assert_eq!(bm.allocate(), Some(5 * 8 + 4));
    assert_eq!(bm.allocate(), None);
}

#[test]
fn allocate_on_full_bitmap_changes_nothing() {
    let mut bm = Bitmap::from_block([0xffu8; 4096]);
    assert_eq!(bm.allocate(), None);
    assert!(bm.to_block().iter().all(|&b| b == 0xff));
}

#[test]
fn free_undoes_allocate() {
    let mut block = [0u8; 4096];
    block[1] = 0b1010_1010;
    let mut bm = Bitmap::from_block(block);
    let n = bm.allocate().unwrap();
    assert_eq!(n, 0);
    bm.free(n);
    assert_eq!(bm.to_block(), block);
}

#[test]
fn successive_allocations_increase() {
    let mut bm = Bitmap::from_block([0u8; 4096]);
    let a = bm.allocate().unwrap();
    let b = bm.allocate().unwrap();
    let c = bm.allocate().unwrap();
    assert!(a < b && b < c);
    assert_eq!((a, b, c), (0, 1, 2));
}

#[test]
fn free_clears_only_its_bit() {
    let mut bm = Bitmap::from_block([0xffu8; 4096]);
    bm.free(32767);
    assert!(!bm.is_used(32767));
    assert!(bm.is_used(32766));
    assert_eq!(bm.to_block()[4095], 0b0111_1111);
}

#[test]
fn is_used_reads_bit_of_byte() {
    let mut block = [0u8; 4096];
    block[2] = 0b0000_0100;
    let bm = Bitmap::from_block(block);
    assert!(bm.is_used(18));
    assert!(!bm.is_used(17));
    assert!(!bm.is_used(19));
}

#[test]
fn count_used_counts_prefix() {
    let mut block = [0u8; 4096];
    block[0] = 0b0000_0111;
    block[1] = 0b1000_0000;
    let bm = Bitmap::from_block(block);
    assert_eq!(bm.count_used(2048), 4);
    assert_eq!(bm.count_used(15), 3);
    assert_eq!(bm.count_used(0), 0);
}
