//! The write-back block cache in front of a disk image. It keeps up to
//! `CACHE_CAPACITY` blocks, remembers which ones were written since they were
//! last stored, and evicts the least recently used block when full. The cache
//! decides; the caller moves bytes to and from the image file.

use vstd::prelude::*;
use std::collections::{HashMap, VecDeque};
use crate::bytes::Block;

verus! {

broadcast use vstd::std_specs::hash::group_hash_axioms;

/// Most blocks the cache holds.
pub const CACHE_CAPACITY: usize = 256;

/// A cached block and whether it differs from the image.
#[derive(Copy, Clone)]
pub struct CacheEntry {
    pub data: Block,
    pub dirty: bool,
}

/// The block cache.
pub struct BlockCache {
    cache: HashMap<u64, CacheEntry>,
    lru_order: VecDeque<u64>,
}

/// What the cache holds, and its blocks from least to most recently used.
pub struct CacheState {
    pub entries: Map<u64, CacheEntry>,
    pub lru: Seq<u64>,
}

/// A cache state that the cache can be in.
pub open spec fn cache_wf(st: CacheState) -> bool {
    &&& st.lru.no_duplicates()
    &&& st.entries.dom().finite()
    &&& forall|k: u64| #[trigger] st.entries.dom().contains(k) <==> st.lru.contains(k)
    &&& st.lru.len() == st.entries.dom().len()
    &&& st.entries.dom().len() <= CACHE_CAPACITY
}

/// `lru` after block `n` was used: `n` moves to (or joins at) the most recent end.
pub open spec fn touched(lru: Seq<u64>, n: u64) -> Seq<u64> {
    if lru.contains(n) {
        lru.remove(lru.index_of(n)).push(n)
    } else {
        lru.push(n)
    }
}

/// Reading block `n` through the cache: a hit returns the cached data and
/// makes `n` the most recently used block; a miss changes nothing.
pub open spec fn lookup_step(st: CacheState, n: u64) -> (CacheState, Option<Block>) {
    if st.entries.dom().contains(n) {
        (CacheState { entries: st.entries, lru: touched(st.lru, n) }, Some(st.entries[n].data))
    } else {
        (st, None)
    }
}

/// Putting `data` for block `n` into the cache, marked `dirty` or not. A new
/// block in a full cache first evicts the least recently used block; when that
/// block is dirty it must be written back, which the second component names.
pub open spec fn insert_step(st: CacheState, n: u64, data: Block, dirty: bool) -> (
    CacheState,
    Option<(u64, Block)>,
) {
    if st.entries.dom().contains(n) {
        (
            CacheState {
                entries: st.entries.insert(
                    n,
                    CacheEntry { data, dirty: st.entries[n].dirty || dirty },
                ),
                lru: touched(st.lru, n),
            },
            None,
        )
    } else if st.entries.dom().len() >= CACHE_CAPACITY {
        let victim = st.lru[0];
        (
            CacheState {
                entries: st.entries.remove(victim).insert(n, CacheEntry { data, dirty }),
                lru: st.lru.drop_first().push(n),
            },
            if st.entries[victim].dirty {
                Some((victim, st.entries[victim].data))
            } else {
                None
            },
        )
    } else {
        (
            CacheState {
                entries: st.entries.insert(n, CacheEntry { data, dirty }),
                lru: st.lru.push(n),
            },
            None,
        )
    }
}

/// The dirty blocks among `lru`, in order, with their data.
pub open spec fn dirty_in(entries: Map<u64, CacheEntry>, lru: Seq<u64>) -> Seq<(u64, Block)>
    decreases lru.len(),
{
    if lru.len() == 0 {
        Seq::empty()
    } else {
        let rest = dirty_in(entries, lru.drop_last());
        let k = lru.last();
        if entries[k].dirty {
            rest.push((k, entries[k].data))
        } else {
            rest
        }
    }
}

/// The entries with every dirty mark cleared.
pub open spec fn cleaned(entries: Map<u64, CacheEntry>) -> Map<u64, CacheEntry> {
    Map::new(
        |k: u64| entries.dom().contains(k),
        |k: u64| CacheEntry { data: entries[k].data, dirty: false },
    )
}

/// Entries cleaned for the blocks among the first `i` of `lru`.
pub open spec fn cleaned_upto(entries: Map<u64, CacheEntry>, lru: Seq<u64>, i: int) -> Map<
    u64,
    CacheEntry,
> {
    Map::new(
        |k: u64| entries.dom().contains(k),
        |k: u64|
            if lru.take(i).contains(k) {
                CacheEntry { data: entries[k].data, dirty: false }
            } else {
                entries[k]
            },
    )
}

impl View for BlockCache {
    type V = CacheState;

    closed spec fn view(&self) -> CacheState {
        CacheState { entries: self.cache@, lru: self.lru_order@ }
    }
}

impl BlockCache {
    /// An empty cache.
    pub fn new() -> (c: BlockCache)
        ensures
            cache_wf(c@),
            c@.entries == Map::<u64, CacheEntry>::empty(),
            c@.lru == Seq::<u64>::empty(),
    {
        let c = BlockCache { cache: HashMap::new(), lru_order: VecDeque::new() };
        assert(c@.entries.dom() =~= Set::<u64>::empty());
        c
    }

    /// Makes block `n` the most recently used one.
    fn touch_lru(&mut self, n: u64)
        requires
            old(self)@.lru.no_duplicates(),
        ensures
            final(self)@.lru == touched(old(self)@.lru, n),
            final(self)@.entries == old(self)@.entries,
    {
        let mut i: usize = 0;
        let len = self.lru_order.len();
        while i < len
            invariant
                0 <= i <= len == self.lru_order@.len(),
                *self == *old(self),
                old(self)@.lru.no_duplicates(),
                forall|j: int| 0 <= j < i ==> self.lru_order@[j] != n,
            decreases len - i,
        {
            if self.lru_order[i] == n {
                let ghost before = self.lru_order@;
                self.lru_order.remove(i);
                self.lru_order.push_back(n);
                proof {
                    assert(before[i as int] == n);
                    assert(before.contains(n));
                    let j = before.index_of(n);
                    assert(before[j] == n);
                    assert(before.no_duplicates());
                    assert(j == i as int);
                }
                return;
            }
            i = i + 1;
        }
        self.lru_order.push_back(n);
    }

    /// Reads block `n` from the cache.
    pub fn lookup(&mut self, n: u64) -> (r: Option<Block>)
        requires
            cache_wf(old(self)@),
        ensures
            (final(self)@, r) == lookup_step(old(self)@, n),
            cache_wf(final(self)@),
    {
        let hit = match self.cache.get(&n) {
            Some(e) => Some(e.data),
            None => None,
        };
        match hit {
            Some(d) => {
                self.touch_lru(n);
                proof {
                    lemma_touched_keeps_keys(old(self)@.lru, n);
                }
                Some(d)
            },
            None => None,
        }
    }

    /// Puts `data` for block `n` into the cache; returns the block that must be
    /// written back to the image because it was evicted while dirty.
    pub fn insert(&mut self, n: u64, data: Block, dirty: bool) -> (r: Option<(u64, Block)>)
        requires
            cache_wf(old(self)@),
        ensures
            (final(self)@, r) == insert_step(old(self)@, n, data, dirty),
            cache_wf(final(self)@),
    {
        let present = match self.cache.get(&n) {
            Some(e) => Some(e.dirty),
            None => None,
        };
        match present {
            Some(was_dirty) => {
                self.cache.insert(n, CacheEntry { data, dirty: was_dirty || dirty });
                self.touch_lru(n);
                proof {
                    lemma_touched_keeps_keys(old(self)@.lru, n);
                    assert(self.cache@.dom() =~= old(self)@.entries.dom());
                }
                None
            },
            None => {
                let mut write_back: Option<(u64, Block)> = None;
                if self.cache.len() >= CACHE_CAPACITY {
                    let ghost st = old(self)@;
                    let victim = match self.lru_order.pop_front() {
                        Some(v) => v,
                        None => {
                            proof {
                                assert(st.lru.len() == st.entries.dom().len());
                            }
                            return None;
                        },
                    };
                    assert(st.lru.contains(victim)) by {
                        assert(st.lru[0] == victim);
                    }
                    let evicted = self.cache.remove(&victim);
                    match evicted {
                        Some(e) => {
                            if e.dirty {
                                write_back = Some((victim, e.data));
                            }
                        },
                        None => {},
                    }
                    self.cache.insert(n, CacheEntry { data, dirty });
                    self.lru_order.push_back(n);
                    proof {
                        lemma_evict_insert_wf(st, n, victim);
                        assert(self.lru_order@ =~= st.lru.drop_first().push(n));
                    }
                } else {
                    self.cache.insert(n, CacheEntry { data, dirty });
                    self.lru_order.push_back(n);
                    proof {
                        lemma_push_new_wf(old(self)@, n);
                    }
                }
                write_back
            },
        }
    }

    /// Every dirty block with its data, from least to most recently used;
    /// afterwards no block is dirty.
    pub fn take_dirty(&mut self) -> (r: Vec<(u64, Block)>)
        requires
            cache_wf(old(self)@),
        ensures
            r@ == dirty_in(old(self)@.entries, old(self)@.lru),
            final(self)@.entries == cleaned(old(self)@.entries),
            final(self)@.lru == old(self)@.lru,
            cache_wf(final(self)@),
    {
        let ghost st = self@;
        let mut out: Vec<(u64, Block)> = Vec::new();
        let len = self.lru_order.len();
        let mut i: usize = 0;
        while i < len
            invariant
                0 <= i <= len == st.lru.len(),
                cache_wf(st),
                self.lru_order@ == st.lru,
                self.cache@ == cleaned_upto(st.entries, st.lru, i as int),
                out@ == dirty_in(st.entries, st.lru.take(i as int)),
            decreases len - i,
        {
            let k = self.lru_order[i];
            proof {
                assert(st.lru.contains(k)) by {
                    assert(st.lru[i as int] == k);
                }
                lemma_not_in_prefix(st.lru, i as int);
            }
            let entry = match self.cache.get(&k) {
                Some(e) => *e,
                None => {
                    proof {
                        assert(false);
                    }
                    return out;
                },
            };
            let ghost before_map = self.cache@;
            if entry.dirty {
                out.push((k, entry.data));
                self.cache.insert(k, CacheEntry { data: entry.data, dirty: false });
            }
            proof {
                assert(st.lru.take(i + 1).drop_last() =~= st.lru.take(i as int));
                assert(st.lru.take(i + 1).last() == k);
                assert forall|x: u64| #[trigger] st.lru.take(i + 1).contains(x) <==> (st.lru.take(
                    i as int,
                ).contains(x) || x == k) by {
                    if st.lru.take(i + 1).contains(x) {
                        let j = choose|j: int| 0 <= j < i + 1 && #[trigger] st.lru.take(i + 1)[j] == x;
                        if j < i {
                            assert(st.lru.take(i as int)[j] == x);
                        }
                    }
                    if st.lru.take(i as int).contains(x) {
                        let j = choose|j: int| 0 <= j < i && #[trigger] st.lru.take(i as int)[j] == x;
                        assert(st.lru.take(i + 1)[j] == x);
                    }
                    if x == k {
                        assert(st.lru.take(i + 1)[i as int] == x);
                    }
                }
                assert(self.cache@ =~= cleaned_upto(st.entries, st.lru, i + 1));
            }
            i = i + 1;
        }
        proof {
            assert(st.lru.take(len as int) =~= st.lru);
            assert(self.cache@ =~= cleaned(st.entries));
            assert(self.cache@.dom() =~= st.entries.dom());
        }
        out
    }
}

/// Moving `n` to the recent end keeps the set of blocks and their uniqueness.
proof fn lemma_touched_keeps_keys(lru: Seq<u64>, n: u64)
    requires
        lru.no_duplicates(),
        lru.contains(n),
    ensures
        touched(lru, n).no_duplicates(),
        forall|k: u64| #[trigger] touched(lru, n).contains(k) <==> lru.contains(k),
        touched(lru, n).len() == lru.len(),
{
    let j = lru.index_of(n);
    let r = lru.remove(j);
    let t = r.push(n);
    assert forall|k: u64| #[trigger] t.contains(k) <==> lru.contains(k) by {
        if lru.contains(k) {
            let a = choose|a: int| 0 <= a < lru.len() && lru[a] == k;
            if a < j {
                assert(t[a] == k);
            } else if a > j {
                assert(t[a - 1] == k);
            } else {
                assert(t[t.len() - 1] == k);
            }
        }
        if t.contains(k) {
            let a = choose|a: int| 0 <= a < t.len() && t[a] == k;
            if a == t.len() - 1 {
                assert(lru[j] == k);
            } else if a < j {
                assert(lru[a] == k);
            } else {
                assert(lru[a + 1] == k);
            }
        }
    }
    assert forall|a: int, b: int| 0 <= a < t.len() && 0 <= b < t.len() && a != b implies t[a]
        != t[b] by {
        let ia = if a == t.len() - 1 {
            j
        } else if a < j {
            a
        } else {
            a + 1
        };
        let ib = if b == t.len() - 1 {
            j
        } else if b < j {
            b
        } else {
            b + 1
        };
        assert(t[a] == lru[ia]);
        assert(t[b] == lru[ib]);
    }
}

/// Adding a new block to a cache that is not full keeps it well formed.
proof fn lemma_push_new_wf(st: CacheState, n: u64)
    requires
        cache_wf(st),
        !st.entries.dom().contains(n),
        st.entries.dom().len() < CACHE_CAPACITY,
    ensures
        forall|e: CacheEntry| cache_wf(CacheState { entries: st.entries.insert(n, e), lru: st.lru.push(n) }),
{
    assert forall|e: CacheEntry| cache_wf(
        CacheState { entries: st.entries.insert(n, e), lru: st.lru.push(n) },
    ) by {
        let t = st.lru.push(n);
        assert(!st.lru.contains(n));
        assert forall|k: u64| #[trigger] st.entries.insert(n, e).dom().contains(k) <==> t.contains(
            k,
        ) by {
            if st.lru.contains(k) {
                let a = choose|a: int| 0 <= a < st.lru.len() && st.lru[a] == k;
                assert(t[a] == k);
            }
            if t.contains(k) {
                let a = choose|a: int| 0 <= a < t.len() && t[a] == k;
                if a < st.lru.len() {
                    assert(st.lru[a] == k);
                }
            }
            if k == n {
                assert(t[st.lru.len() as int] == k);
            }
        }
        assert forall|a: int, b: int| 0 <= a < t.len() && 0 <= b < t.len() && a != b implies t[a]
            != t[b] by {
            if a < st.lru.len() && b == st.lru.len() {
                assert(st.lru.contains(t[a]));
            }
            if b < st.lru.len() && a == st.lru.len() {
                assert(st.lru.contains(t[b]));
            }
        }
    }
}

/// Evicting the least recently used block of a full cache and adding a new
/// block keeps the cache well formed.
proof fn lemma_evict_insert_wf(st: CacheState, n: u64, victim: u64)
    requires
        cache_wf(st),
        !st.entries.dom().contains(n),
        st.lru.len() > 0,
        st.lru[0] == victim,
    ensures
        forall|e: CacheEntry|
            cache_wf(
                CacheState {
                    entries: st.entries.remove(victim).insert(n, e),
                    lru: st.lru.drop_first().push(n),
                },
            ),
{
    assert(st.lru.contains(victim)) by {
        assert(st.lru[0] == victim);
    }
    assert forall|e: CacheEntry|
        cache_wf(
            CacheState {
                entries: st.entries.remove(victim).insert(n, e),
                lru: st.lru.drop_first().push(n),
            },
        ) by {
        let d = st.lru.drop_first();
        let t = d.push(n);
        let m = st.entries.remove(victim).insert(n, e);
        assert(!st.lru.contains(n));
        assert forall|k: u64| #[trigger] m.dom().contains(k) <==> t.contains(k) by {
            if st.lru.contains(k) && k != victim {
                let a = choose|a: int| 0 <= a < st.lru.len() && st.lru[a] == k;
                assert(a != 0);
                assert(t[a - 1] == k);
            }
            if t.contains(k) {
                let a = choose|a: int| 0 <= a < t.len() && t[a] == k;
                if a < d.len() {
                    assert(st.lru[a + 1] == k);
                    assert(st.lru[0] != st.lru[a + 1]);
                }
            }
            if k == n {
                assert(t[d.len() as int] == k);
            }
        }
        assert forall|a: int, b: int| 0 <= a < t.len() && 0 <= b < t.len() && a != b implies t[a]
            != t[b] by {
            if a < d.len() && b < d.len() {
                assert(t[a] == st.lru[a + 1]);
                assert(t[b] == st.lru[b + 1]);
            } else if a < d.len() {
                assert(st.lru.contains(t[a])) by {
                    assert(st.lru[a + 1] == t[a]);
                }
            } else if b < d.len() {
                assert(st.lru.contains(t[b])) by {
                    assert(st.lru[b + 1] == t[b]);
                }
            }
        }
        assert(m.dom() =~= st.entries.dom().remove(victim).insert(n));
    }
}

/// A block at index `i` of a duplicate-free order is not among the blocks before it.
proof fn lemma_not_in_prefix(lru: Seq<u64>, i: int)
    requires
        lru.no_duplicates(),
        0 <= i < lru.len(),
    ensures
        !lru.take(i).contains(lru[i]),
{
    if lru.take(i).contains(lru[i]) {
        let j = choose|j: int| 0 <= j < i && lru.take(i)[j] == lru[i];
        assert(lru[j] == lru[i]);
    }
}

// ---------------------------------------------------------------- what readers see

/// What a reader of the disk sees: the image overlaid with the cached blocks.
pub open spec fn contents(file: Map<u64, Seq<u8>>, st: CacheState) -> Map<u64, Seq<u8>> {
    Map::new(
        |k: u64| file.dom().contains(k) || st.entries.dom().contains(k),
        |k: u64|
            if st.entries.dom().contains(k) {
                st.entries[k].data@
            } else {
                file[k]
            },
    )
}

/// Every clean cached block holds what the image holds.
pub open spec fn coherent(file: Map<u64, Seq<u8>>, st: CacheState) -> bool {
    forall|k: u64|
        #[trigger] st.entries.dom().contains(k) && !st.entries[k].dirty ==> file.dom().contains(k)
            && file[k] == st.entries[k].data@
}

/// The image after an evicted block is written back to it.
pub open spec fn apply_write_back(file: Map<u64, Seq<u8>>, wb: Option<(u64, Block)>) -> Map<
    u64,
    Seq<u8>,
> {
    match wb {
        Some((k, d)) => file.insert(k, d@),
        None => file,
    }
}

/// The image after the blocks `ws` are written to it in order.
pub open spec fn apply_all(file: Map<u64, Seq<u8>>, ws: Seq<(u64, Block)>) -> Map<u64, Seq<u8>>
    decreases ws.len(),
{
    if ws.len() == 0 {
        file
    } else {
        apply_all(file, ws.drop_last()).insert(ws.last().0, ws.last().1@)
    }
}

/// Writing a block through the cache, and writing back whatever it evicts,
/// changes what readers see in exactly that block and keeps clean blocks
/// matching the image.
pub proof fn lemma_write_through_cache(file: Map<u64, Seq<u8>>, st: CacheState, n: u64, d: Block)
    requires
        cache_wf(st),
        coherent(file, st),
    ensures
        ({
            let (st2, wb) = insert_step(st, n, d, true);
            let f2 = apply_write_back(file, wb);
            &&& coherent(f2, st2)
            &&& contents(f2, st2) == contents(file, st).insert(n, d@)
        }),
{
    let (st2, wb) = insert_step(st, n, d, true);
    let f2 = apply_write_back(file, wb);
    if !st.entries.dom().contains(n) && st.entries.dom().len() >= CACHE_CAPACITY {
        let v = st.lru[0];
        assert(st.lru.contains(v)) by {
            assert(st.lru[0] == v);
        }
        assert(st.entries.dom().contains(v));
    }
    assert(contents(f2, st2) =~= contents(file, st).insert(n, d@));
}

/// Filling the cache with a block just read from the image changes nothing
/// that readers see and keeps clean blocks matching the image.
pub proof fn lemma_fill_from_image(file: Map<u64, Seq<u8>>, st: CacheState, n: u64, d: Block)
    requires
        cache_wf(st),
        coherent(file, st),
        !st.entries.dom().contains(n),
        file.dom().contains(n),
        file[n] == d@,
    ensures
        ({
            let (st2, wb) = insert_step(st, n, d, false);
            let f2 = apply_write_back(file, wb);
            &&& coherent(f2, st2)
            &&& contents(f2, st2) == contents(file, st)
        }),
{
    let (st2, wb) = insert_step(st, n, d, false);
    let f2 = apply_write_back(file, wb);
    if st.entries.dom().len() >= CACHE_CAPACITY {
        let v = st.lru[0];
        assert(st.lru.contains(v)) by {
            assert(st.lru[0] == v);
        }
        assert(st.entries.dom().contains(v));
    }
    assert(contents(f2, st2) =~= contents(file, st));
}

/// A cache hit returns what readers see, and changes nothing they see.
pub proof fn lemma_hit_reads_contents(file: Map<u64, Seq<u8>>, st: CacheState, n: u64)
    requires
        st.entries.dom().contains(n),
    ensures
        lookup_step(st, n).1 matches Some(d) && d@ == contents(file, st)[n],
        contents(file, lookup_step(st, n).0) == contents(file, st),
        coherent(file, st) ==> coherent(file, lookup_step(st, n).0),
{
    assert(contents(file, lookup_step(st, n).0) =~= contents(file, st));
}

/// Writing the dirty blocks of `l` to the image, in order, leaves each of them
/// holding its cached data and every other block as it was.
proof fn lemma_apply_dirty(file: Map<u64, Seq<u8>>, e: Map<u64, CacheEntry>, l: Seq<u64>)
    ensures
        forall|k: u64|
            #[trigger] apply_all(file, dirty_in(e, l)).dom().contains(k) <==> (file.dom().contains(
                k,
            ) || (l.contains(k) && e[k].dirty)),
        forall|k: u64|
            l.contains(k) && e[k].dirty ==> #[trigger] apply_all(file, dirty_in(e, l))[k]
                == e[k].data@,
        forall|k: u64|
            !(l.contains(k) && e[k].dirty) ==> #[trigger] apply_all(file, dirty_in(e, l))[k]
                == file[k],
    decreases l.len(),
{
    if l.len() > 0 {
        let p = l.drop_last();
        lemma_apply_dirty(file, e, p);
        let last = l.last();
        assert forall|k: u64| #[trigger] l.contains(k) <==> (p.contains(k) || k == last) by {
            if l.contains(k) {
                let a = choose|a: int| 0 <= a < l.len() && l[a] == k;
                if a < l.len() - 1 {
                    assert(p[a] == k);
                }
            }
            if p.contains(k) {
                let a = choose|a: int| 0 <= a < p.len() && p[a] == k;
                assert(l[a] == k);
            }
            if k == last {
                assert(l[l.len() - 1] == k);
            }
        }
        let rest = dirty_in(e, p);
        let a0 = apply_all(file, rest);
        let a = apply_all(file, dirty_in(e, l));
        if e[last].dirty {
            assert(dirty_in(e, l) == rest.push((last, e[last].data)));
            assert(rest.push((last, e[last].data)).drop_last() =~= rest);
            assert(a == a0.insert(last, e[last].data@));
        } else {
            assert(dirty_in(e, l) == rest);
        }
        assert forall|k: u64| #[trigger] a.dom().contains(k) <==> (file.dom().contains(k) || (
        l.contains(k) && e[k].dirty)) by {
            assert(a0.dom().contains(k) <==> (file.dom().contains(k) || (p.contains(k)
                && e[k].dirty)));
        }
        assert forall|k: u64| l.contains(k) && e[k].dirty implies #[trigger] a[k] == e[k].data@ by {
            if k != last {
                assert(p.contains(k));
                assert(a0[k] == e[k].data@);
            }
        }
        assert forall|k: u64| !(l.contains(k) && e[k].dirty) implies #[trigger] a[k] == file[k] by {
            assert(!(p.contains(k) && e[k].dirty));
            assert(a0[k] == file[k]);
        }
    } else {
        assert(dirty_in(e, l) == Seq::<(u64, Block)>::empty());
    }
}

/// Storing every dirty block leaves what readers see unchanged, with no
/// dirty block left and every cached block matching the image.
pub proof fn lemma_flush_keeps_contents(file: Map<u64, Seq<u8>>, st: CacheState)
    requires
        cache_wf(st),
        coherent(file, st),
    ensures
        ({
            let f2 = apply_all(file, dirty_in(st.entries, st.lru));
            let st2 = CacheState { entries: cleaned(st.entries), lru: st.lru };
            &&& coherent(f2, st2)
            &&& contents(f2, st2) == contents(file, st)
            &&& forall|k: u64| #[trigger] st2.entries.dom().contains(k) ==> !st2.entries[k].dirty
        }),
{
    let f2 = apply_all(file, dirty_in(st.entries, st.lru));
    let st2 = CacheState { entries: cleaned(st.entries), lru: st.lru };
    lemma_apply_dirty(file, st.entries, st.lru);
    assert(contents(f2, st2) =~= contents(file, st));
}


// ---------------------------------------------------------------- many uses in a row

/// Putting a block into the cache keeps it well formed.
proof fn lemma_insert_keeps_wf(st: CacheState, n: u64, d: Block, dirty: bool)
    requires
        cache_wf(st),
    ensures
        cache_wf(insert_step(st, n, d, dirty).0),
{
    if st.entries.dom().contains(n) {
        lemma_touched_keeps_keys(st.lru, n);
        let e2 = st.entries.insert(n, CacheEntry { data: d, dirty: st.entries[n].dirty || dirty });
        assert(e2.dom() =~= st.entries.dom());
    } else if st.entries.dom().len() >= CACHE_CAPACITY {
        lemma_evict_insert_wf(st, n, st.lru[0]);
    } else {
        lemma_push_new_wf(st, n);
    }
}

/// A hit keeps the cache well formed.
proof fn lemma_lookup_keeps_wf(st: CacheState, n: u64)
    requires
        cache_wf(st),
    ensures
        cache_wf(lookup_step(st, n).0),
{
    if st.entries.dom().contains(n) {
        lemma_touched_keeps_keys(st.lru, n);
    }
}

/// One use of the disk through the cache: a read of a block (with the data
/// the image file gives when it is not cached), a write, or a flush.
pub enum DiskUse {
    Read(u64, Block),
    Write(u64, Block),
    Flush,
}

/// The image file and the cache after the use `u`.
pub open spec fn disk_use(file: Map<u64, Seq<u8>>, st: CacheState, u: DiskUse) -> (
    Map<u64, Seq<u8>>,
    CacheState,
) {
    match u {
        DiskUse::Read(n, d) => {
            if st.entries.dom().contains(n) {
                (file, lookup_step(st, n).0)
            } else if file.dom().contains(n) {
                let (st2, wb) = insert_step(st, n, d, false);
                (apply_write_back(file, wb), st2)
            } else {
                (file, st)
            }
        },
        DiskUse::Write(n, d) => {
            let (st2, wb) = insert_step(st, n, d, true);
            (apply_write_back(file, wb), st2)
        },
        DiskUse::Flush => (
            apply_all(file, dirty_in(st.entries, st.lru)),
            CacheState { entries: cleaned(st.entries), lru: st.lru },
        ),
    }
}

/// The image file and the cache after the uses `us`, in order.
pub open spec fn disk_uses(file: Map<u64, Seq<u8>>, st: CacheState, us: Seq<DiskUse>) -> (
    Map<u64, Seq<u8>>,
    CacheState,
)
    decreases us.len(),
{
    if us.len() == 0 {
        (file, st)
    } else {
        let (f, c) = disk_uses(file, st, us.drop_last());
        disk_use(f, c, us.last())
    }
}

/// Every read among `us` that misses the cache is given the data the image
/// file holds at that point.
pub open spec fn reads_from_file(file: Map<u64, Seq<u8>>, st: CacheState, us: Seq<DiskUse>) -> bool
    decreases us.len(),
{
    if us.len() == 0 {
        true
    } else {
        let (f, c) = disk_uses(file, st, us.drop_last());
        &&& reads_from_file(file, st, us.drop_last())
        &&& match us.last() {
            DiskUse::Read(n, d) => !c.entries.dom().contains(n) && f.dom().contains(n) ==> f[n] == d@,
            _ => true,
        }
    }
}

/// What readers see once the writes among `us` are made over `c`.
pub open spec fn after_writes(c: Map<u64, Seq<u8>>, us: Seq<DiskUse>) -> Map<u64, Seq<u8>>
    decreases us.len(),
{
    if us.len() == 0 {
        c
    } else {
        match us.last() {
            DiskUse::Write(n, d) => after_writes(c, us.drop_last()).insert(n, d@),
            _ => after_writes(c, us.drop_last()),
        }
    }
}

/// What a read of block `n` returns: the cached data, else the file's.
pub open spec fn read_value(file: Map<u64, Seq<u8>>, st: CacheState, n: u64) -> Seq<u8> {
    if st.entries.dom().contains(n) {
        st.entries[n].data@
    } else {
        file[n]
    }
}

/// Any run of reads, writes and flushes through the cache shows readers
/// exactly the writes made, in order, over what they saw before; reads,
/// evictions and flushes change nothing they see.
pub proof fn lemma_uses_show_writes(file: Map<u64, Seq<u8>>, st: CacheState, us: Seq<DiskUse>)
    requires
        cache_wf(st),
        coherent(file, st),
        reads_from_file(file, st, us),
    ensures
        cache_wf(disk_uses(file, st, us).1),
        coherent(disk_uses(file, st, us).0, disk_uses(file, st, us).1),
        contents(disk_uses(file, st, us).0, disk_uses(file, st, us).1) == after_writes(
            contents(file, st),
            us,
        ),
    decreases us.len(),
{
    if us.len() > 0 {
        lemma_uses_show_writes(file, st, us.drop_last());
        let (f, c) = disk_uses(file, st, us.drop_last());
        match us.last() {
            DiskUse::Read(n, d) => {
                if c.entries.dom().contains(n) {
                    lemma_hit_reads_contents(f, c, n);
                    lemma_lookup_keeps_wf(c, n);
                } else if f.dom().contains(n) {
                    lemma_fill_from_image(f, c, n, d);
                    lemma_insert_keeps_wf(c, n, d, false);
                }
            },
            DiskUse::Write(n, d) => {
                lemma_write_through_cache(f, c, n, d);
                lemma_insert_keeps_wf(c, n, d, true);
            },
            DiskUse::Flush => {
                lemma_flush_keeps_contents(f, c);
                let c2 = CacheState { entries: cleaned(c.entries), lru: c.lru };
                assert(c2.entries.dom() =~= c.entries.dom());
            },
        }
    }
}

/// A read of a block the disk holds returns what readers see.
pub proof fn lemma_read_value_is_contents(file: Map<u64, Seq<u8>>, st: CacheState, n: u64)
    requires
        contents(file, st).dom().contains(n),
    ensures
        read_value(file, st, n) == contents(file, st)[n],
{
}

/// Uses that write no block `b` keep what readers see of `b`.
proof fn lemma_after_writes_keeps(c: Map<u64, Seq<u8>>, us: Seq<DiskUse>, b: u64)
    requires
        forall|i: int| 0 <= i < us.len() ==> !(#[trigger] us[i] matches DiskUse::Write(n, _) && n == b),
    ensures
        after_writes(c, us)[b] == c[b],
        c.dom().contains(b) ==> after_writes(c, us).dom().contains(b),
    decreases us.len(),
{
    if us.len() > 0 {
        assert forall|i: int| 0 <= i < us.drop_last().len() implies !(
        #[trigger] us.drop_last()[i] matches DiskUse::Write(n, _) && n == b) by {
            assert(us.drop_last()[i] == us[i]);
        }
        lemma_after_writes_keeps(c, us.drop_last(), b);
        assert(!(us[us.len() - 1] matches DiskUse::Write(n, _) && n == b));
    }
}

/// After block `b` is written with `d` through the cache, a read of `b`
/// gives `d` back, whatever reads, flushes and writes of other blocks
/// (evictions included) come in between.
pub proof fn lemma_read_back_through_cache(
    file: Map<u64, Seq<u8>>,
    st: CacheState,
    b: u64,
    d: Block,
    rest: Seq<DiskUse>,
)
    requires
        cache_wf(st),
        coherent(file, st),
        reads_from_file(file, st, seq![DiskUse::Write(b, d)] + rest),
        forall|i: int| 0 <= i < rest.len() ==> !(#[trigger] rest[i] matches DiskUse::Write(n, _) && n == b),
    ensures
        ({
            let (f, c) = disk_uses(file, st, seq![DiskUse::Write(b, d)] + rest);
            read_value(f, c, b) == d@
        }),
{
    let us = seq![DiskUse::Write(b, d)] + rest;
    lemma_uses_show_writes(file, st, us);
    lemma_after_writes_split(contents(file, st), seq![DiskUse::Write(b, d)], rest);
    assert(seq![DiskUse::Write(b, d)].drop_last() =~= Seq::<DiskUse>::empty());
    lemma_after_writes_keeps(after_writes(contents(file, st), seq![DiskUse::Write(b, d)]), rest, b);
    let (f, c) = disk_uses(file, st, us);
    lemma_read_value_is_contents(f, c, b);
}

/// The writes of two runs of uses, one after the other.
proof fn lemma_after_writes_split(c: Map<u64, Seq<u8>>, a: Seq<DiskUse>, r: Seq<DiskUse>)
    ensures
        after_writes(c, a + r) == after_writes(after_writes(c, a), r),
    decreases r.len(),
{
    if r.len() == 0 {
        assert(a + r =~= a);
    } else {
        assert((a + r).drop_last() =~= a + r.drop_last());
        lemma_after_writes_split(c, a, r.drop_last());
    }
}

} // verus!
