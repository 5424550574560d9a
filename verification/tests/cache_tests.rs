use libfs::bytes::Block;
use libfs::cache::{BlockCache, CACHE_CAPACITY};

fn block_of(x: u8) -> Block {
    [x; 4096]
}

#[test]
fn read_after_write_hits_cache() {
    let mut c = BlockCache::new();
    assert_eq!(c.lookup(5), None);
    assert_eq!(c.insert(5, block_of(9), true), None);
    assert_eq!(c.lookup(5), Some(block_of(9)));
    assert_eq!(c.insert(5, block_of(3), false), None);
    assert_eq!(c.lookup(5), Some(block_of(3)));
    // still dirty: the earlier write was not stored yet
    assert_eq!(c.take_dirty(), vec![(5, block_of(3))]);
    assert_eq!(c.take_dirty(), vec![]);
}

#[test]
fn full_cache_evicts_least_recently_used() {
    let mut c = BlockCache::new();
    for n in 0..CACHE_CAPACITY as u64 {
        assert_eq!(c.insert(n, block_of(n as u8), n == 0), None);
    }
    // block 0 is the least recently used and dirty: it must be written back
    assert_eq!(c.insert(1000, block_of(7), false), Some((0, block_of(0))));
    assert_eq!(c.lookup(0), None);
    // touching block 1 makes block 2 the next victim; it is clean
    assert_eq!(c.lookup(1), Some(block_of(1)));
    assert_eq!(c.insert(1001, block_of(8), true), None);
    assert_eq!(c.lookup(2), None);
    assert_eq!(c.lookup(1), Some(block_of(1)));
}

#[test]
fn take_dirty_returns_dirty_blocks_in_use_order() {
    let mut c = BlockCache::new();
    c.insert(10, block_of(1), true);
    c.insert(20, block_of(2), false);
    c.insert(30, block_of(3), true);
    c.lookup(10);
    assert_eq!(c.take_dirty(), vec![(30, block_of(3)), (10, block_of(1))]);
    assert_eq!(c.lookup(10), Some(block_of(1)));
}

/// A disk image behind the cache, used as the disk uses it.
struct Disk {
    file: std::collections::HashMap<u64, Block>,
    cache: BlockCache,
}

impl Disk {
    fn read(&mut self, n: u64) -> Block {
        if let Some(b) = self.cache.lookup(n) {
            return b;
        }
        let b = *self.file.get(&n).unwrap_or(&block_of(0));
        if let Some((k, d)) = self.cache.insert(n, b, false) {
            self.file.insert(k, d);
        }
        b
    }
    fn write(&mut self, n: u64, d: Block) {
        if let Some((k, old)) = self.cache.insert(n, d, true) {
            self.file.insert(k, old);
        }
    }
    fn flush(&mut self) {
        for (k, d) in self.cache.take_dirty() {
            self.file.insert(k, d);
        }
    }
}

#[test]
fn a_write_reads_back_across_evictions_and_flushes() {
    let mut d = Disk { file: std::collections::HashMap::new(), cache: BlockCache::new() };
    d.write(7, block_of(42));
    for n in 100..(100 + 2 * CACHE_CAPACITY as u64) {
        d.read(n);
        if n % 50 == 0 {
            d.flush();
        }
        if n % 3 == 0 {
            d.write(n + 1000, block_of(1));
        }
    }
    assert_eq!(d.read(7), block_of(42));
    d.flush();
    assert_eq!(d.file.get(&7), Some(&block_of(42)));
    assert_eq!(d.read(7), block_of(42));
}
