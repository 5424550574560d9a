//! The write-ahead journal. A transaction of up to four block writes is first
//! stored in the journal area: a header block naming the target blocks,
//! followed by one block per write. Recovery copies each journalled block to
//! its target.

use vstd::prelude::*;
use crate::bytes::{Block, u32_at, u64_at};
use crate::layout::{JournalHeader, JOURNAL_MAGIC, MAX_JOURNAL_BLOCKS, journal_header_stored};

verus! {

/// The header block of a transaction whose writes target `targets`: magic,
/// committed flag 1, the number of writes and their targets, zeros elsewhere.
pub open spec fn transaction_header_bytes(s: Seq<u8>, targets: Seq<u64>) -> bool {
    &&& s.len() == 4096
    &&& targets.len() <= 4
    &&& u32_at(s, 0) == JOURNAL_MAGIC
    &&& s[4] == 1
    &&& s[5] == targets.len()
    &&& s[6] == 0
    &&& s[7] == 0
    &&& forall|k: int| 0 <= k < 4 ==> #[trigger] u64_at(s, 8 + 8 * k) == (if k < targets.len() {
        targets[k]
    } else {
        0
    })
    &&& forall|i: int| 40 <= i < 4096 ==> s[i] == 0
}

/// The blocks a transaction stores in the journal starting at `start`: the
/// header block first, then the data of each write in order.
pub open spec fn journal_writes(
    start: u64,
    writes: Seq<(u64, Seq<u8>)>,
    header: Seq<u8>,
) -> Seq<(int, Seq<u8>)> {
    seq![(start as int, header)] + Seq::new(
        writes.len(),
        |i: int| (start + 1 + i, writes[i].1),
    )
}

/// What recovery finds in a journal header block at `start`: `None` when no
/// committed transaction is pending; otherwise the copies to make, as
/// (journal block, target block) pairs in order, and whether the header names
/// more blocks than a transaction can hold.
pub open spec fn replay_moves(s: Seq<u8>, start: u64) -> Option<(Seq<(int, int)>, bool)> {
    if u32_at(s, 0) != JOURNAL_MAGIC || s[4] == 0 {
        None
    } else {
        let n = if s[5] <= 4 {
            s[5] as int
        } else {
            4
        };
        Some((Seq::new(n as nat, |i: int| (start + 1 + i, u64_at(s, 8 + 8 * i) as int)), s[5] > 4))
    }
}

/// A pending transaction to replay.
pub struct ReplayPlan {
    /// Copies to make, in order: (journal block, target block).
    pub moves: Vec<(u64, u64)>,
    /// The header names more than four blocks, so replay cannot finish.
    pub overflow: bool,
}

/// The journal area, which starts at block `journal_start_block`.
pub struct Journal {
    pub journal_start_block: u64,
}

impl Journal {

/// The journal area starting at `journal_start_block`.
pub fn new(journal_start_block: u64) -> (j: Journal)
    ensures
        j.journal_start_block == journal_start_block,
{
    Journal { journal_start_block }
}

/// The blocks to store, in this order, to log the transaction `writes`: the
/// header block at the journal start, then the data of write `i` at
/// `journal_start_block + 1 + i`.
pub fn begin_transaction(&self, writes: &[(u64, Block)]) -> (r: Vec<(u64, Block)>)
    requires
        writes@.len() <= MAX_JOURNAL_BLOCKS,
        self.journal_start_block + writes@.len() <= u64::MAX,
    ensures
        r@.len() == writes@.len() + 1,
        r@[0].0 == self.journal_start_block,
        transaction_header_bytes(r@[0].1@, writes@.map_values(|w: (u64, Block)| w.0)),
        forall|i: int|
            0 <= i < writes@.len() ==> #[trigger] r@[i + 1].0 == self.journal_start_block + 1 + i
                && r@[i + 1].1 == writes@[i].1,
{
    let journal_start = self.journal_start_block;
    let mut block_numbers = [0u64; 4];
    let mut i: usize = 0;
    while i < writes.len()
        invariant
            0 <= i <= writes@.len() <= 4,
            forall|k: int| 0 <= k < i ==> block_numbers[k] == writes@[k].0,
            forall|k: int| i <= k < 4 ==> block_numbers[k] == 0,
        decreases writes@.len() - i,
    {
        block_numbers[i] = writes[i].0;
        i = i + 1;
    }
    let header = JournalHeader {
        magic: JOURNAL_MAGIC,
        commited: 1,
        num_blocks: writes.len() as u8,
        _padding: [0u8; 2],
        block_numbers,
    };
    let header_block = header.to_block();
    let ghost targets = writes@.map_values(|w: (u64, Block)| w.0);
    assert forall|k: int| 0 <= k < 4 implies #[trigger] u64_at(header_block@, 8 + 8 * k) == (if k
        < targets.len() {
        targets[k]
    } else {
        0
    }) by {
        assert(header.block_numbers[k] == u64_at(header_block@, 8 + 8 * k));
    }
    let mut r: Vec<(u64, Block)> = Vec::new();
    r.push((journal_start, header_block));
    let mut j: usize = 0;
    while j < writes.len()
        invariant
            0 <= j <= writes@.len() <= 4,
            journal_start == self.journal_start_block,
            journal_start + writes@.len() <= u64::MAX,
            r@.len() == j + 1,
            r@[0] == (journal_start, header_block),
            forall|i: int|
                0 <= i < j ==> #[trigger] r@[i + 1].0 == journal_start + 1 + i && r@[i + 1].1
                    == writes@[i].1,
        decreases writes@.len() - j,
    {
        r.push((journal_start + 1 + j as u64, writes[j].1));
        j = j + 1;
    }
    r
}

/// The block to store once the transaction's writes are done: a cleared
/// header block (all zeros) at the journal start, so no transaction is pending.
pub fn commit_complete(&self) -> (r: (u64, Block))
    ensures
        r.0 == self.journal_start_block,
        r.1@ == Seq::new(4096, |i: int| 0u8),
{
    let b = [0u8; 4096];
    assert(b@ =~= Seq::new(4096, |i: int| 0u8));
    (self.journal_start_block, b)
}

/// Decides what recovery does with the header block found at the journal
/// start: nothing when no committed transaction is pending, else copy journal
/// block `journal_start_block + 1 + i` to the `i`-th named target.
pub fn recover(&self, header_block: &Block) -> (r: Option<ReplayPlan>)
    requires
        self.journal_start_block + 4 <= u64::MAX,
    ensures
        match r {
            None => replay_moves(header_block@, self.journal_start_block) is None,
            Some(p) => replay_moves(header_block@, self.journal_start_block) == Some(
                (p.moves@.map_values(|m: (u64, u64)| (m.0 as int, m.1 as int)), p.overflow),
            ),
        },
{
    let journal_start = self.journal_start_block;
    let header = JournalHeader::from_block(header_block);
    if header.magic != JOURNAL_MAGIC || header.commited == 0 {
        return None;
    }
    let n: usize = if header.num_blocks <= 4 {
        header.num_blocks as usize
    } else {
        4
    };
    let mut moves: Vec<(u64, u64)> = Vec::new();
    let mut i: usize = 0;
    while i < n
        invariant
            0 <= i <= n <= 4,
            journal_start + 4 <= u64::MAX,
            journal_header_stored(header, header_block@),
            moves@.len() == i,
            forall|k: int|
                0 <= k < i ==> #[trigger] moves@[k] == (
                    (journal_start + 1 + k) as u64,
                    u64_at(header_block@, 8 + 8 * k),
                ),
        decreases n - i,
    {
        moves.push((journal_start + 1 + i as u64, header.block_numbers[i]));
        i = i + 1;
    }
    let plan = ReplayPlan { moves, overflow: header.num_blocks > 4 };
    let ghost n_spec = if header_block@[5] <= 4 {
        header_block@[5] as int
    } else {
        4
    };
    assert(plan.moves@.map_values(|m: (u64, u64)| (m.0 as int, m.1 as int)) =~= Seq::new(
        n_spec as nat,
        |i: int| (journal_start + 1 + i, u64_at(header_block@, 8 + 8 * i) as int),
    ));
    Some(plan)
}

}

// ---------------------------------------------------------------- laws

/// A block device as the journal sees it: block number to contents.
pub open spec fn apply_writes(disk: Map<int, Seq<u8>>, ws: Seq<(int, Seq<u8>)>) -> Map<int, Seq<u8>>
    decreases ws.len(),
{
    if ws.len() == 0 {
        disk
    } else {
        apply_writes(disk, ws.drop_last()).insert(ws.last().0, ws.last().1)
    }
}

/// Copies each journal block to its target, in order.
pub open spec fn apply_moves(disk: Map<int, Seq<u8>>, moves: Seq<(int, int)>) -> Map<int, Seq<u8>>
    decreases moves.len(),
{
    if moves.len() == 0 {
        disk
    } else {
        let d = apply_moves(disk, moves.drop_last());
        d.insert(moves.last().1, d[moves.last().0])
    }
}

/// Recovery finds a committed transaction of `targets.len()` writes in a
/// header written for it, with no overflow, and copies journal block
/// `start + 1 + i` to `targets[i]`.
pub proof fn lemma_header_replays_its_targets(s: Seq<u8>, start: u64, targets: Seq<u64>)
    requires
        transaction_header_bytes(s, targets),
    ensures
        replay_moves(s, start) == Some(
            (
                Seq::new(targets.len(), |i: int| (start + 1 + i, targets[i] as int)),
                false,
            ),
        ),
{
    let n = targets.len();
    assert forall|i: int| 0 <= i < n implies u64_at(s, 8 + 8 * i) == targets[i] by {
        assert(u64_at(s, 8 + 8 * i) == (if i < targets.len() {
            targets[i]
        } else {
            0
        }));
    }
    assert(Seq::new(n, |i: int| (start + 1 + i, u64_at(s, 8 + 8 * i) as int)) =~= Seq::new(
        n,
        |i: int| (start + 1 + i, targets[i] as int),
    ));
}

/// A cleared journal header block (all zeros) holds no pending transaction:
/// since a recovery ends by clearing the header (`commit_complete`), a
/// second recovery replays nothing.
pub proof fn lemma_cleared_header_replays_nothing(start: u64)
    ensures
        replay_moves(Seq::new(4096, |i: int| 0u8), start) is None,
{
    let s = Seq::new(4096, |i: int| 0u8);
    assert(u32_at(s, 0) == 0);
}

/// Replaying a transaction that was stored in the journal has the same effect
/// on the block device as performing its writes in order, when no write
/// targets the journal blocks themselves.
pub proof fn lemma_replay_equals_writes(
    disk: Map<int, Seq<u8>>,
    start: u64,
    writes: Seq<(u64, Seq<u8>)>,
    header: Seq<u8>,
)
    requires
        writes.len() <= 4,
        start + writes.len() <= u64::MAX,
        transaction_header_bytes(header, writes.map_values(|w: (u64, Seq<u8>)| w.0)),
        forall|i: int|
            0 <= i < writes.len() ==> !(start <= #[trigger] writes[i].0 <= start + writes.len()),
    ensures
        ({
            let stored = apply_writes(disk, journal_writes(start, writes, header));
            let targets = writes.map_values(|w: (u64, Seq<u8>)| w.0);
            &&& replay_moves(stored[start as int], start) == Some(
                (Seq::new(targets.len(), |i: int| (start + 1 + i, targets[i] as int)), false),
            )
            &&& apply_moves(
                stored,
                Seq::new(targets.len(), |i: int| (start + 1 + i, targets[i] as int)),
            ) == apply_writes(
                stored,
                writes.map_values(|w: (u64, Seq<u8>)| (w.0 as int, w.1)),
            )
        }),
{
    let jw = journal_writes(start, writes, header);
    let stored = apply_writes(disk, jw);
    let targets = writes.map_values(|w: (u64, Seq<u8>)| w.0);
    lemma_journal_area_holds(disk, start, writes, header, writes.len() as int);
    assert(jw.take(writes.len() as int + 1) =~= jw);
    assert(stored[start as int] == header);
    lemma_header_replays_its_targets(header, start, targets);
    lemma_moves_prefix(stored, start, writes, header, disk, writes.len() as int);
    assert(Seq::new(targets.len(), |i: int| (start + 1 + i, targets[i] as int)).take(
        writes.len() as int,
    ) =~= Seq::new(targets.len(), |i: int| (start + 1 + i, targets[i] as int)));
    assert(writes.map_values(|w: (u64, Seq<u8>)| (w.0 as int, w.1)).take(writes.len() as int)
        =~= writes.map_values(|w: (u64, Seq<u8>)| (w.0 as int, w.1)));
}

/// After the journal blocks are written, block `start` holds the header and
/// block `start + 1 + i` holds the data of write `i`.
proof fn lemma_journal_area_holds(
    disk: Map<int, Seq<u8>>,
    start: u64,
    writes: Seq<(u64, Seq<u8>)>,
    header: Seq<u8>,
    m: int,
)
    requires
        0 <= m <= writes.len(),
    ensures
        apply_writes(disk, journal_writes(start, writes, header).take(m + 1)).dom().contains(
            start as int,
        ),
        apply_writes(disk, journal_writes(start, writes, header).take(m + 1))[start as int]
            == header,
        forall|i: int|
            0 <= i < m ==> #[trigger] apply_writes(
                disk,
                journal_writes(start, writes, header).take(m + 1),
            ).dom().contains(start + 1 + i),
        forall|i: int|
            0 <= i < m ==> #[trigger] apply_writes(
                disk,
                journal_writes(start, writes, header).take(m + 1),
            )[start + 1 + i] == writes[i].1,
    decreases m,
{
    let jw = journal_writes(start, writes, header);
    if m == 0 {
        assert(jw.take(1).drop_last() =~= Seq::<(int, Seq<u8>)>::empty());
        assert(jw.take(1).last() == (start as int, header));
        assert(apply_writes(disk, jw.take(1).drop_last()) == disk);
    } else {
        lemma_journal_area_holds(disk, start, writes, header, m - 1);
        assert(jw.take(m + 1).drop_last() =~= jw.take(m));
        assert(jw.take(m + 1).last() == (start + 1 + (m - 1), writes[m - 1].1));
        let d0 = apply_writes(disk, jw.take(m));
        let d = apply_writes(disk, jw.take(m + 1));
        assert(d == d0.insert(start + 1 + (m - 1), writes[m - 1].1));
        assert(d[start as int] == header);
        assert forall|i: int| 0 <= i < m implies #[trigger] d.dom().contains(start + 1 + i) by {
            if i < m - 1 {
                assert(d0.dom().contains(start + 1 + i));
            }
        }
        assert forall|i: int| 0 <= i < m implies #[trigger] d[start + 1 + i] == writes[i].1 by {
            if i < m - 1 {
                assert(d0[start + 1 + i] == writes[i].1);
            }
        }
    }
}

/// Replaying the first `m` moves equals performing the first `m` writes,
/// while the journal blocks still hold what was stored.
proof fn lemma_moves_prefix(
    stored: Map<int, Seq<u8>>,
    start: u64,
    writes: Seq<(u64, Seq<u8>)>,
    header: Seq<u8>,
    disk: Map<int, Seq<u8>>,
    m: int,
)
    requires
        0 <= m <= writes.len(),
        stored == apply_writes(disk, journal_writes(start, writes, header)),
        forall|i: int|
            0 <= i < writes.len() ==> !(start <= #[trigger] writes[i].0 <= start + writes.len()),
    ensures
        ({
            let targets = writes.map_values(|w: (u64, Seq<u8>)| w.0);
            let moves = Seq::new(targets.len(), |i: int| (start + 1 + i, targets[i] as int));
            let ws = writes.map_values(|w: (u64, Seq<u8>)| (w.0 as int, w.1));
            &&& apply_moves(stored, moves.take(m)) == apply_writes(stored, ws.take(m))
            &&& forall|b: int|
                start <= b <= start + writes.len() ==> #[trigger] apply_writes(stored, ws.take(m))[b]
                    == stored[b]
        }),
    decreases m,
{
    let targets = writes.map_values(|w: (u64, Seq<u8>)| w.0);
    let moves = Seq::new(targets.len(), |i: int| (start + 1 + i, targets[i] as int));
    let ws = writes.map_values(|w: (u64, Seq<u8>)| (w.0 as int, w.1));
    if m > 0 {
        lemma_moves_prefix(stored, start, writes, header, disk, m - 1);
        assert(moves.take(m).drop_last() =~= moves.take(m - 1));
        assert(ws.take(m).drop_last() =~= ws.take(m - 1));
        lemma_journal_area_holds(disk, start, writes, header, writes.len() as int);
        let jw = journal_writes(start, writes, header);
        assert(jw.take(writes.len() as int + 1) =~= jw);
        let d = apply_writes(stored, ws.take(m - 1));
        assert(d[start + 1 + (m - 1)] == stored[start + 1 + (m - 1)]);
        assert(stored[start + 1 + (m - 1)] == writes[m - 1].1);
        assert(writes[m - 1].0 == targets[m - 1]);
    }
}


/// Replaying the first `m` moves over a device whose journal blocks hold the
/// data of the writes equals performing the first `m` writes, and keeps the
/// journal area.
proof fn lemma_moves_over(x: Map<int, Seq<u8>>, start: u64, writes: Seq<(u64, Seq<u8>)>, m: int)
    requires
        0 <= m <= writes.len(),
        forall|i: int| 0 <= i < writes.len() ==> #[trigger] x[start + 1 + i] == writes[i].1,
        forall|i: int|
            0 <= i < writes.len() ==> !(start <= #[trigger] writes[i].0 <= start + writes.len()),
    ensures
        ({
            let targets = writes.map_values(|w: (u64, Seq<u8>)| w.0);
            let moves = Seq::new(targets.len(), |i: int| (start + 1 + i, targets[i] as int));
            let ws = writes.map_values(|w: (u64, Seq<u8>)| (w.0 as int, w.1));
            &&& apply_moves(x, moves.take(m)) == apply_writes(x, ws.take(m))
            &&& forall|b: int|
                start <= b <= start + writes.len() ==> #[trigger] apply_writes(x, ws.take(m))[b]
                    == x[b]
        }),
    decreases m,
{
    let targets = writes.map_values(|w: (u64, Seq<u8>)| w.0);
    let moves = Seq::new(targets.len(), |i: int| (start + 1 + i, targets[i] as int));
    let ws = writes.map_values(|w: (u64, Seq<u8>)| (w.0 as int, w.1));
    if m > 0 {
        lemma_moves_over(x, start, writes, m - 1);
        assert(moves.take(m).drop_last() =~= moves.take(m - 1));
        assert(ws.take(m).drop_last() =~= ws.take(m - 1));
        let d = apply_writes(x, ws.take(m - 1));
        assert(d[start + 1 + (m - 1)] == x[start + 1 + (m - 1)]);
        assert(writes[m - 1].0 == targets[m - 1]);
    }
}

/// Some write among `ws` targets block `b`.
pub open spec fn targets_block(ws: Seq<(int, Seq<u8>)>, b: int) -> bool {
    exists|i: int| 0 <= i < ws.len() && ws[i].0 == b
}

/// Writes that target no block `b` leave it as it was.
proof fn lemma_writes_miss(y: Map<int, Seq<u8>>, ws: Seq<(int, Seq<u8>)>, b: int)
    requires
        !targets_block(ws, b),
    ensures
        apply_writes(y, ws).dom().contains(b) == y.dom().contains(b),
        apply_writes(y, ws)[b] == y[b],
    decreases ws.len(),
{
    if ws.len() > 0 {
        assert(!targets_block(ws.drop_last(), b)) by {
            if targets_block(ws.drop_last(), b) {
                let i = choose|i: int| 0 <= i < ws.drop_last().len() && ws.drop_last()[i].0 == b;
                assert(ws[i].0 == b);
            }
        }
        lemma_writes_miss(y, ws.drop_last(), b);
        assert(ws[ws.len() - 1].0 != b);
    }
}

/// The same writes over two devices that agree on a block the writes miss
/// leave them agreeing on every block.
proof fn lemma_writes_agree_at(y: Map<int, Seq<u8>>, z: Map<int, Seq<u8>>, ws: Seq<(int, Seq<u8>)>, b: int)
    requires
        !targets_block(ws, b) ==> (y.dom().contains(b) == z.dom().contains(b) && y[b] == z[b]),
    ensures
        apply_writes(y, ws).dom().contains(b) == apply_writes(z, ws).dom().contains(b),
        apply_writes(y, ws)[b] == apply_writes(z, ws)[b],
    decreases ws.len(),
{
    if ws.len() > 0 && ws.last().0 != b {
        assert(targets_block(ws, b) ==> targets_block(ws.drop_last(), b)) by {
            if targets_block(ws, b) {
                let i = choose|i: int| 0 <= i < ws.len() && ws[i].0 == b;
                assert(i != ws.len() - 1);
                assert(ws.drop_last()[i].0 == b);
            }
        }
        assert(targets_block(ws.drop_last(), b) ==> targets_block(ws, b)) by {
            if targets_block(ws.drop_last(), b) {
                let i = choose|i: int| 0 <= i < ws.drop_last().len() && ws.drop_last()[i].0 == b;
                assert(ws[i].0 == b);
            }
        }
        lemma_writes_agree_at(y, z, ws.drop_last(), b);
    }
}

/// Recovery after a crash that came once the transaction was stored in the
/// journal and its first `k` writes were made (any `k`, none to all) finds
/// the same pending transaction, and replaying it leaves the device as
/// performing all the writes on the stored journal does: replay is
/// idempotent over writes already made.
pub proof fn lemma_replay_after_some_writes(
    disk: Map<int, Seq<u8>>,
    start: u64,
    writes: Seq<(u64, Seq<u8>)>,
    header: Seq<u8>,
    k: int,
)
    requires
        writes.len() <= 4,
        start + writes.len() <= u64::MAX,
        transaction_header_bytes(header, writes.map_values(|w: (u64, Seq<u8>)| w.0)),
        forall|i: int|
            0 <= i < writes.len() ==> !(start <= #[trigger] writes[i].0 <= start + writes.len()),
        0 <= k <= writes.len(),
    ensures
        ({
            let stored = apply_writes(disk, journal_writes(start, writes, header));
            let targets = writes.map_values(|w: (u64, Seq<u8>)| w.0);
            let moves = Seq::new(targets.len(), |i: int| (start + 1 + i, targets[i] as int));
            let ws = writes.map_values(|w: (u64, Seq<u8>)| (w.0 as int, w.1));
            let mid = apply_writes(stored, ws.take(k));
            &&& replay_moves(mid[start as int], start) == Some((moves, false))
            &&& apply_moves(mid, moves) == apply_writes(stored, ws)
        }),
{
    let jw = journal_writes(start, writes, header);
    let stored = apply_writes(disk, jw);
    let targets = writes.map_values(|w: (u64, Seq<u8>)| w.0);
    let moves = Seq::new(targets.len(), |i: int| (start + 1 + i, targets[i] as int));
    let ws = writes.map_values(|w: (u64, Seq<u8>)| (w.0 as int, w.1));
    let n = writes.len() as int;
    lemma_replay_equals_writes(disk, start, writes, header);
    lemma_journal_area_holds(disk, start, writes, header, n);
    assert(jw.take(n + 1) =~= jw);
    lemma_moves_over(stored, start, writes, k);
    let mid = apply_writes(stored, ws.take(k));
    assert(mid[start as int] == stored[start as int]);
    assert forall|i: int| 0 <= i < n implies #[trigger] mid[start + 1 + i] == writes[i].1 by {
        assert(mid[start + 1 + i] == stored[start + 1 + i]);
    }
    lemma_moves_over(mid, start, writes, n);
    assert(moves.take(n) =~= moves);
    assert(ws.take(n) =~= ws);
    assert forall|b: int| true implies #[trigger] apply_writes(mid, ws).dom().contains(b)
        == apply_writes(stored, ws).dom().contains(b) && apply_writes(mid, ws)[b]
        == apply_writes(stored, ws)[b] by {
        if !targets_block(ws, b) {
            assert(!targets_block(ws.take(k), b)) by {
                if targets_block(ws.take(k), b) {
                    let i = choose|i: int| 0 <= i < ws.take(k).len() && ws.take(k)[i].0 == b;
                    assert(ws[i].0 == b);
                }
            }
            lemma_writes_miss(stored, ws.take(k), b);
        }
        lemma_writes_agree_at(mid, stored, ws, b);
    }
    assert(apply_writes(mid, ws) =~= apply_writes(stored, ws));
}

/// After a recovery, which replays the moves it found and then clears the
/// header, a second recovery finds nothing to replay: two recoveries leave
/// the device as one does.
pub proof fn lemma_second_recovery_replays_nothing(
    disk: Map<int, Seq<u8>>,
    start: u64,
    moves: Seq<(int, int)>,
)
    ensures
        replay_moves(
            apply_moves(disk, moves).insert(start as int, Seq::new(4096, |i: int| 0u8))[start as int],
            start,
        ) is None,
{
    lemma_cleared_header_replays_nothing(start);
}

} // verus!
