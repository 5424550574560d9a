use libfs::bytes::Block;
use libfs::journal::Journal;
use libfs::layout::{JournalHeader, JOURNAL_MAGIC};

fn block_of(x: u8) -> Block {
    [x; 4096]
}

#[test]
fn transaction_logs_header_then_data() {
    let j = Journal::new(131);
    let writes = vec![(500u64, block_of(1)), (600u64, block_of(2))];
    let blocks = j.begin_transaction(&writes);
    assert_eq!(blocks.len(), 3);
    assert_eq!(blocks[0].0, 131);
    let h = JournalHeader::from_block(&blocks[0].1);
    assert_eq!(h.magic, JOURNAL_MAGIC);
    assert_eq!(h.commited, 1);
    assert_eq!(h.num_blocks, 2);
    assert_eq!(h.block_numbers, [500, 600, 0, 0]);
    assert_eq!(blocks[1].0, 132);
    assert_eq!(blocks[1].1, block_of(1));
    assert_eq!(blocks[2].0, 133);
    assert_eq!(blocks[2].1, block_of(2));
}

#[test]
fn recovery_replays_logged_transaction() {
    let j = Journal::new(131);
    let writes = vec![(500u64, block_of(1)), (7u64, block_of(2)), (900u64, block_of(3))];
    let blocks = j.begin_transaction(&writes);
    let plan = j.recover(&blocks[0].1).unwrap();
    assert!(!plan.overflow);
    assert_eq!(plan.moves, vec![(132, 500), (133, 7), (134, 900)]);
    // replaying onto a model disk gives each target its data
    let mut disk = std::collections::HashMap::new();
    for (n, d) in &blocks {
        disk.insert(*n, *d);
    }
    for (from, to) in &plan.moves {
        let d = disk[from];
        disk.insert(*to, d);
    }
    assert_eq!(disk[&500], block_of(1));
    assert_eq!(disk[&7], block_of(2));
    assert_eq!(disk[&900], block_of(3));
}

#[test]
fn cleared_journal_has_nothing_to_replay() {
    let j = Journal::new(131);
    let (n, b) = j.commit_complete();
    assert_eq!(n, 131);
    assert!(b.iter().all(|&x| x == 0));
    assert!(j.recover(&b).is_none());
}

#[test]
fn uncommitted_header_is_ignored() {
    let j = Journal::new(10);
    let h = JournalHeader {
        magic: JOURNAL_MAGIC,
        commited: 0,
        num_blocks: 2,
        _padding: [0, 0],
        block_numbers: [1, 2, 0, 0],
    };
    assert!(j.recover(&h.to_block()).is_none());
    let wrong_magic = JournalHeader { magic: 1, commited: 1, ..h };
    assert!(j.recover(&wrong_magic.to_block()).is_none());
}

#[test]
fn header_naming_too_many_blocks_overflows() {
    let j = Journal::new(10);
    let h = JournalHeader {
        magic: JOURNAL_MAGIC,
        commited: 1,
        num_blocks: 6,
        _padding: [0, 0],
        block_numbers: [40, 41, 42, 43],
    };
    let plan = j.recover(&h.to_block()).unwrap();
    assert!(plan.overflow);
    assert_eq!(plan.moves, vec![(11, 40), (12, 41), (13, 42), (14, 43)]);
}

#[test]
fn empty_transaction_has_only_header() {
    let j = Journal::new(0);
    let blocks = j.begin_transaction(&[]);
    assert_eq!(blocks.len(), 1);
    let plan = j.recover(&blocks[0].1).unwrap();
    assert!(plan.moves.is_empty());
    assert!(!plan.overflow);
}

#[test]
fn recovery_after_some_writes_gives_all_of_them_and_a_second_does_nothing() {
    let j = Journal::new(131);
    let writes = vec![(500u64, block_of(1)), (500u64, block_of(4)), (900u64, block_of(3))];
    let logged = j.begin_transaction(&writes);
    for k in 0..=writes.len() {
        let mut disk = std::collections::HashMap::new();
        disk.insert(500u64, block_of(9));
        for (n, d) in &logged {
            disk.insert(*n, *d);
        }
        // the crash came after the first k real writes
        for (n, d) in writes.iter().take(k) {
            disk.insert(*n, *d);
        }
        let plan = j.recover(&disk[&131]).unwrap();
        for (from, to) in &plan.moves {
            let d = disk[from];
            disk.insert(*to, d);
        }
        let (h, zero) = j.commit_complete();
        disk.insert(h, zero);
        assert_eq!(disk[&500], block_of(4));
        assert_eq!(disk[&900], block_of(3));
        assert!(j.recover(&disk[&131]).is_none());
    }
}
