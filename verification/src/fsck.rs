//! The consistency rules of the file system checker: which block pointers
//! are valid, who owns which block, what "." and ".." must name, which bits
//! the bitmaps must hold and how many links each inode must have. The
//! checker keeps the tallies and runs the passes over the bitmaps; the caller
//! prints what they find.

use vstd::prelude::*;
use std::collections::{HashMap, HashSet};
use vstd::utf8::{encode_utf8, decode_utf8};
use crate::bytes::{Block, u64_at, get_u64};
use crate::layout::{Inode, ROOT_INODE};
use crate::bitmap::{Bitmap, BITS_PER_BITMAP};
use crate::ops::{Fetched, Step, Fault, need_at, first_need};

verus! {

broadcast use vstd::std_specs::hash::group_hash_axioms;

/// Block pointers held by one indirect block.
pub const PTRS_PER_BLOCK: usize = 512;

/// The block pointers stored in an indirect block, in order.
pub fn block_pointers(block: &Block) -> (r: Vec<u64>)
    ensures
        r@.len() == PTRS_PER_BLOCK,
        forall|i: int| 0 <= i < PTRS_PER_BLOCK ==> #[trigger] r@[i] == u64_at(block@, 8 * i),
{
    let mut r: Vec<u64> = Vec::new();
    let mut i: usize = 0;
    while i < PTRS_PER_BLOCK
        invariant
            0 <= i <= PTRS_PER_BLOCK,
            r@.len() == i,
            forall|k: int| 0 <= k < i ==> #[trigger] r@[k] == u64_at(block@, 8 * k),
        decreases PTRS_PER_BLOCK - i,
    {
        r.push(get_u64(block, 8 * i));
        i = i + 1;
    }
    r
}

/// The block pointers stored in the block `s`.
pub open spec fn pointers_in(s: Seq<u8>) -> Seq<u64> {
    Seq::new(512, |k: int| u64_at(s, 8 * k))
}

/// For each nonzero pointer among `outer`, in order: the pointer, then the
/// pointers in the block it names.
pub open spec fn inner_pointers(img: Map<u64, Seq<u8>>, outer: Seq<u64>) -> Seq<u64>
    decreases outer.len(),
{
    if outer.len() == 0 {
        Seq::empty()
    } else {
        let rest = inner_pointers(img, outer.drop_last());
        let b = outer.last();
        if b == 0 {
            rest
        } else {
            rest + seq![b] + pointers_in(img[b])
        }
    }
}

/// The block pointers of inode `i`, in the order the checker records them:
/// the direct pointers; then, when there is an indirect block, its pointer
/// and the pointers in it; then, when there is a double indirect block, its
/// pointer and the inner pointers it leads to.
pub open spec fn inode_pointers(img: Map<u64, Seq<u8>>, i: Inode) -> Seq<u64> {
    let single = if i.indirect != 0 {
        seq![i.indirect] + pointers_in(img[i.indirect])
    } else {
        Seq::empty()
    };
    let double = if i.double_indirect != 0 {
        seq![i.double_indirect] + inner_pointers(img, pointers_in(img[i.double_indirect]))
    } else {
        Seq::empty()
    };
    i.direct@ + single + double
}

/// The first block missing from `img` among the nonzero pointers `outer`, in order.
pub open spec fn missing_pointer(img: Map<u64, Seq<u8>>, outer: Seq<u64>) -> Option<u64>
    decreases outer.len(),
{
    if outer.len() == 0 {
        None
    } else {
        first_need(
            missing_pointer(img, outer.drop_last()),
            if outer.last() != 0 {
                need_at(img, outer.last())
            } else {
                None
            },
        )
    }
}

/// Once a block is missing among a prefix of the pointers, it is the first
/// missing among every longer prefix.
proof fn lemma_missing_stays(img: Map<u64, Seq<u8>>, s: Seq<u64>, j: int, k: int)
    requires
        0 <= j <= k <= s.len(),
        missing_pointer(img, s.take(j)) is Some,
    ensures
        missing_pointer(img, s.take(k)) == missing_pointer(img, s.take(j)),
    decreases k - j,
{
    if j < k {
        assert(s.take(j + 1).drop_last() =~= s.take(j));
        lemma_missing_stays(img, s, j + 1, k);
    }
}

/// The block asked for to collect the pointers of inode `i`: its indirect
/// block, its double indirect block, then the first block missing among the
/// blocks that one names.
pub open spec fn pointers_need(img: Map<u64, Seq<u8>>, i: Inode) -> Option<u64> {
    first_need(
        if i.indirect != 0 {
            need_at(img, i.indirect)
        } else {
            None
        },
        if i.double_indirect != 0 {
            first_need(
                need_at(img, i.double_indirect),
                missing_pointer(img, pointers_in(img[i.double_indirect])),
            )
        } else {
            None
        },
    )
}

/// The block pointers of inode `i`, reading its indirect blocks from the
/// fetched blocks; asks for a block it needs that has not been read.
pub fn owned_pointers(f: &Fetched, i: &Inode) -> (r: Step<Vec<u64>>)
    ensures
        match r {
            Step::Need(n) => !f@.dom().contains(n) && pointers_need(f@, *i) == Some(n),
            Step::Fault(_) => false,
            Step::Done(log, v) => log@.len() == 0 && v@ == inode_pointers(f@, *i) && pointers_need(
                f@,
                *i,
            ) is None,
        },
{
    let mut v: Vec<u64> = Vec::new();
    let mut k: usize = 0;
    while k < 12
        invariant
            0 <= k <= 12,
            v@ == i.direct@.take(k as int),
        decreases 12 - k,
    {
        v.push(i.direct[k]);
        proof {
            assert(i.direct@.take(k + 1) =~= i.direct@.take(k as int).push(i.direct[k as int]));
        }
        k = k + 1;
    }
    assert(i.direct@.take(12) =~= i.direct@);
    let ghost single = if i.indirect != 0 {
        seq![i.indirect] + pointers_in(f@[i.indirect])
    } else {
        Seq::<u64>::empty()
    };
    if i.indirect != 0 {
        let b = match f.get(i.indirect) {
            Some(b) => b,
            None => return Step::Need(i.indirect),
        };
        v.push(i.indirect);
        let mut ptrs = block_pointers(&b);
        assert(ptrs@ =~= pointers_in(b@));
        v.append(&mut ptrs);
    }
    assert(v@ =~= i.direct@ + single);
    if i.double_indirect != 0 {
        let outer = match f.get(i.double_indirect) {
            Some(b) => b,
            None => return Step::Need(i.double_indirect),
        };
        v.push(i.double_indirect);
        let ptrs = block_pointers(&outer);
        assert(ptrs@ =~= pointers_in(outer@));
        let ghost start = v@;
        let mut j: usize = 0;
        assert(ptrs@.take(0) =~= Seq::<u64>::empty());
        while j < PTRS_PER_BLOCK
            invariant
                0 <= j <= PTRS_PER_BLOCK,
                ptrs@.len() == PTRS_PER_BLOCK,
                v@ == start + inner_pointers(f@, ptrs@.take(j as int)),
                ptrs@ == pointers_in(f@[i.double_indirect]),
                f@.dom().contains(i.double_indirect),
                i.double_indirect != 0,
                i.indirect != 0 ==> f@.dom().contains(i.indirect),
                missing_pointer(f@, ptrs@.take(j as int)) is None,
            decreases PTRS_PER_BLOCK - j,
        {
            let inner = ptrs[j];
            proof {
                assert(ptrs@.take(j + 1).drop_last() =~= ptrs@.take(j as int));
                assert(ptrs@.take(j + 1).last() == inner);
            }
            if inner != 0 {
                let b = match f.get(inner) {
                    Some(b) => b,
                    None => {
                        proof {
                            assert(missing_pointer(f@, ptrs@.take(j + 1)) == Some(inner));
                            lemma_missing_stays(f@, ptrs@, j + 1, PTRS_PER_BLOCK as int);
                            assert(ptrs@.take(PTRS_PER_BLOCK as int) =~= ptrs@);
                        }
                        return Step::Need(inner);
                    },
                };
                v.push(inner);
                let mut more = block_pointers(&b);
                assert(more@ =~= pointers_in(b@));
                v.append(&mut more);
                proof {
                    let rest = inner_pointers(f@, ptrs@.take(j as int));
                    assert(start + rest + seq![inner] + pointers_in(b@) =~= start + (rest + seq![inner]
                        + pointers_in(b@)));
                }
            }
            j = j + 1;
        }
        assert(ptrs@.take(PTRS_PER_BLOCK as int) =~= ptrs@);
    }
    Step::Done(Vec::new(), v)
}

/// The text is ".".
pub fn is_dot(name: &str) -> (r: bool)
    ensures
        r == (name@ == seq!['.']),
{
    let b = name.as_bytes();
    proof {
        lemma_one_dot_bytes();
        vstd::utf8::encode_utf8_decode_utf8(name@);
    }
    let r = b.len() == 1 && b[0] == 46;
    proof {
        if r {
            assert(b@ =~= seq![46u8]);
        }
    }
    r
}

/// The text is "..".
pub fn is_dot_dot(name: &str) -> (r: bool)
    ensures
        r == (name@ == seq!['.', '.']),
{
    let b = name.as_bytes();
    proof {
        lemma_one_dot_bytes();
        vstd::utf8::encode_utf8_decode_utf8(name@);
    }
    let r = b.len() == 2 && b[0] == 46 && b[1] == 46;
    proof {
        if r {
            assert(b@ =~= seq![46u8, 46u8]);
        }
    }
    r
}

/// "." and ".." are stored as one and two bytes 46.
proof fn lemma_one_dot_bytes()
    ensures
        encode_utf8(seq!['.']) == seq![46u8],
        encode_utf8(seq!['.', '.']) == seq![46u8, 46u8],
        decode_utf8(seq![46u8]) == seq!['.'],
        decode_utf8(seq![46u8, 46u8]) == seq!['.', '.'],
{
    assert((46u32 & 0x7Fu32) == 46u32) by (bit_vector);
    let one = seq!['.'];
    let two = seq!['.', '.'];
    assert(encode_utf8(one.drop_first()) =~= Seq::<u8>::empty());
    assert(encode_utf8(one) =~= seq![46u8]);
    assert(two.drop_first() =~= one);
    assert(encode_utf8(two) =~= seq![46u8, 46u8]);
    vstd::utf8::encode_utf8_decode_utf8(one);
    vstd::utf8::encode_utf8_decode_utf8(two);
}

/// What became of a recorded block pointer.
#[derive(Clone, Copy, PartialEq, Eq, Debug)]
pub enum PointerNote {
    /// Pointer 0: no block.
    Hole,
    /// Outside the data area: an error.
    Invalid,
    /// A data block, now recorded as owned.
    Recorded,
}

/// What a directory entry says, as the checker judges it.
#[derive(Clone, Copy, PartialEq, Eq, Debug)]
pub enum EntryNote {
    /// "." naming its own directory.
    SelfOk,
    /// "." naming another inode: an error.
    BadSelf,
    /// ".." naming the parent.
    ParentOk,
    /// ".." naming another inode: an error.
    BadParent,
    /// An ordinary entry, now counted as a link.
    Child,
}

/// What the inode bitmap says of one inode, against the directory tree.
#[derive(Clone, Copy, PartialEq, Eq, Debug)]
pub enum InodeNote {
    Consistent,
    /// Named by a directory but marked free: an error.
    FreeButReferenced,
    /// Marked used but reachable from no directory: an error.
    Orphaned,
}

/// What the data bitmap says of one data block, against the owners found.
#[derive(Clone, Copy, PartialEq, Eq, Debug)]
pub enum BlockNote {
    Consistent,
    /// Marked used but owned by no inode: an error.
    Leaked,
    /// Owned by an inode but marked free: an error.
    FreeButUsed,
}

/// The checker's tallies.
pub struct Checker {
    data_start_block: u64,
    total_blocks: u64,
    errors: u32,
    block_owner: HashMap<u64, Vec<u64>>,
    recorded: Vec<u64>,
    referenced: HashSet<u64>,
    link_counts: HashMap<u64, u32>,
    linked: Vec<u64>,
    subdir_counts: HashMap<u64, u32>,
    visited_dirs: HashSet<u64>,
    collected: HashSet<u64>,
}

/// What the checker has found so far.
pub struct CheckerView {
    pub data_start_block: u64,
    pub total_blocks: u64,
    pub errors: u32,
    /// Owners of each valid data block, in the order they were found.
    pub owners: Map<u64, Seq<u64>>,
    /// The blocks that have owners, in the order first found.
    pub recorded: Seq<u64>,
    /// Inodes named by some directory entry (and the root).
    pub referenced: Set<u64>,
    /// Entries naming each inode, other than "." and "..".
    pub link_counts: Map<u64, u32>,
    /// The inodes with a link count, in the order first found.
    pub linked: Seq<u64>,
    /// Subdirectories found in each directory.
    pub subdir_counts: Map<u64, u32>,
    /// Directories already walked.
    pub visited: Set<u64>,
    /// Inodes whose blocks were already collected.
    pub collected: Set<u64>,
}

impl View for Checker {
    type V = CheckerView;

    closed spec fn view(&self) -> CheckerView {
        CheckerView {
            data_start_block: self.data_start_block,
            total_blocks: self.total_blocks,
            errors: self.errors,
            owners: self.block_owner@.map_values(|v: Vec<u64>| v@),
            recorded: self.recorded@,
            referenced: self.referenced@,
            link_counts: self.link_counts@,
            linked: self.linked@,
            subdir_counts: self.subdir_counts@,
            visited: self.visited_dirs@,
            collected: self.collected@,
        }
    }
}

/// The view with only the error count changed.
pub open spec fn with_errors(v: CheckerView, errors: u32) -> CheckerView {
    CheckerView { errors, ..v }
}

/// Records that have owners are exactly the recorded blocks.
pub open spec fn checker_wf(v: CheckerView) -> bool {
    &&& forall|b: u64| #[trigger] v.owners.dom().contains(b) <==> v.recorded.contains(b)
    &&& forall|k: u64| #[trigger] v.link_counts.dom().contains(k) <==> v.linked.contains(k)
}

/// The checker after recording that `owner` points at `block`.
pub open spec fn recorded_view(v: CheckerView, block: u64, owner: u64) -> CheckerView {
    if block == 0 {
        v
    } else if block < v.data_start_block || block >= v.total_blocks {
        with_errors(v, (v.errors + 1) as u32)
    } else {
        CheckerView {
            owners: v.owners.insert(
                block,
                (if v.owners.dom().contains(block) {
                    v.owners[block]
                } else {
                    Seq::empty()
                }).push(owner),
            ),
            recorded: if v.owners.dom().contains(block) {
                v.recorded
            } else {
                v.recorded.push(block)
            },
            ..v
        }
    }
}

/// How the checker judges the entry (`ino`, `name`) of directory `dir`,
/// whose parent is `parent`.
pub open spec fn entry_note(dir: u64, parent: u64, ino: u64, name: Seq<char>) -> EntryNote {
    if name == seq!['.'] {
        if ino == dir {
            EntryNote::SelfOk
        } else {
            EntryNote::BadSelf
        }
    } else if name == seq!['.', '.'] {
        if ino == parent {
            EntryNote::ParentOk
        } else {
            EntryNote::BadParent
        }
    } else {
        EntryNote::Child
    }
}

/// The checker after judging the entry (`ino`, `name`) of directory `dir`.
pub open spec fn entry_view(v: CheckerView, dir: u64, parent: u64, ino: u64, name: Seq<char>) -> CheckerView {
    match entry_note(dir, parent, ino, name) {
        EntryNote::SelfOk => v,
        EntryNote::ParentOk => v,
        EntryNote::BadSelf => with_errors(v, (v.errors + 1) as u32),
        EntryNote::BadParent => with_errors(v, (v.errors + 1) as u32),
        EntryNote::Child => CheckerView {
            referenced: v.referenced.insert(ino),
            link_counts: v.link_counts.insert(ino, (count_of(v.link_counts, ino) + 1) as u32),
            linked: if v.link_counts.dom().contains(ino) {
                v.linked
            } else {
                v.linked.push(ino)
            },
            ..v
        },
    }
}

/// A count taken from a map of counters, 0 when absent.
pub open spec fn count_of(m: Map<u64, u32>, k: u64) -> u32 {
    if m.dom().contains(k) {
        m[k]
    } else {
        0
    }
}

impl Checker {
    /// A checker for an image whose data area is
    /// `[data_start_block, total_blocks)`; only the root counts as referenced.
    pub fn new(data_start_block: u64, total_blocks: u64) -> (c: Checker)
        ensures
            c@.data_start_block == data_start_block,
            c@.total_blocks == total_blocks,
            c@.errors == 0,
            c@.owners == Map::<u64, Seq<u64>>::empty(),
            c@.recorded == Seq::<u64>::empty(),
            c@.referenced == Set::<u64>::empty().insert(ROOT_INODE as u64),
            c@.link_counts == Map::<u64, u32>::empty(),
            c@.linked == Seq::<u64>::empty(),
            c@.subdir_counts == Map::<u64, u32>::empty(),
            c@.visited == Set::<u64>::empty(),
            c@.collected == Set::<u64>::empty(),
            checker_wf(c@),
    {
        let mut referenced = HashSet::new();
        referenced.insert(ROOT_INODE as u64);
        let c = Checker {
            data_start_block,
            total_blocks,
            errors: 0,
            block_owner: HashMap::new(),
            recorded: Vec::new(),
            referenced,
            link_counts: HashMap::new(),
            linked: Vec::new(),
            subdir_counts: HashMap::new(),
            visited_dirs: HashSet::new(),
            collected: HashSet::new(),
        };
        assert(c@.owners =~= Map::<u64, Seq<u64>>::empty());
        c
    }

    /// First block of the data area.
    pub fn data_start(&self) -> (r: u64)
        ensures
            r == self@.data_start_block,
    {
        self.data_start_block
    }

    /// Blocks of the image; the data area ends here.
    pub fn total_blocks(&self) -> (r: u64)
        ensures
            r == self@.total_blocks,
    {
        self.total_blocks
    }

    /// Errors found so far.
    pub fn errors(&self) -> (r: u32)
        ensures
            r == self@.errors,
    {
        self.errors
    }

    /// Records that `owner` points at `block`: pointer 0 is no block; a
    /// pointer outside the data area is an error; any other is recorded as
    /// owned by `owner`.
    pub fn record_block(&mut self, block: u64, owner: u64) -> (r: PointerNote)
        requires
            block != 0 && (block < old(self)@.data_start_block || block >= old(self)@.total_blocks)
                ==> old(self)@.errors < u32::MAX,
            checker_wf(old(self)@),
        ensures
            checker_wf(final(self)@),
            final(self)@ == recorded_view(old(self)@, block, owner),
            block == 0 ==> r == PointerNote::Hole && final(self)@ == old(self)@,
            block != 0 && (block < old(self)@.data_start_block || block >= old(self)@.total_blocks)
                ==> r == PointerNote::Invalid && final(self)@ == with_errors(
                old(self)@,
                (old(self)@.errors + 1) as u32,
            ),
            block != 0 && old(self)@.data_start_block <= block < old(self)@.total_blocks ==> {
                &&& r == PointerNote::Recorded
                &&& final(self)@ == (CheckerView {
                    owners: old(self)@.owners.insert(
                        block,
                        (if old(self)@.owners.dom().contains(block) {
                            old(self)@.owners[block]
                        } else {
                            Seq::empty()
                        }).push(owner),
                    ),
                    recorded: if old(self)@.owners.dom().contains(block) {
                        old(self)@.recorded
                    } else {
                        old(self)@.recorded.push(block)
                    },
                    ..old(self)@
                })
            },
    {
        if block == 0 {
            return PointerNote::Hole;
        }
        if block < self.data_start_block || block >= self.total_blocks {
            self.errors = self.errors + 1;
            return PointerNote::Invalid;
        }
        let existing = self.block_owner.remove(&block);
        let ghost m0 = old(self).block_owner@;
        let list = match existing {
            Some(mut v) => {
                v.push(owner);
                v
            },
            None => {
                self.recorded.push(block);
                let mut v: Vec<u64> = Vec::new();
                v.push(owner);
                v
            },
        };
        let ghost lv = list@;
        self.block_owner.insert(block, list);
        proof {
            let ov = old(self)@;
            assert(self.block_owner@ == m0.remove(block).insert(block, list));
            assert(self@.owners =~= ov.owners.insert(
                block,
                (if ov.owners.dom().contains(block) {
                    ov.owners[block]
                } else {
                    Seq::empty()
                }).push(owner),
            ));
            assert forall|b: u64| #[trigger] self@.owners.dom().contains(b) <==> self@.recorded.contains(b) by {
                if b == block && !ov.owners.dom().contains(block) {
                    assert(self@.recorded[self@.recorded.len() - 1] == block);
                }
                if self@.recorded.contains(b) && b != block && !ov.owners.dom().contains(block) {
                    let i = choose|i: int| 0 <= i < self@.recorded.len() && self@.recorded[i] == b;
                    assert(ov.recorded[i] == b);
                }
                if ov.recorded.contains(b) && !ov.owners.dom().contains(block) {
                    let i = choose|i: int| 0 <= i < ov.recorded.len() && ov.recorded[i] == b;
                    assert(self@.recorded[i] == b);
                }
            }
        }
        PointerNote::Recorded
    }

    /// Starts walking directory `dir`: `false` when it was walked before
    /// (a cycle), else it is marked as walked.
    pub fn enter_directory(&mut self, dir: u64) -> (r: bool)
        ensures
            r == !old(self)@.visited.contains(dir),
            final(self)@ == (CheckerView { visited: old(self)@.visited.insert(dir), ..old(self)@ }),
    {
        if self.visited_dirs.contains(&dir) {
            assert(old(self)@.visited.insert(dir) =~= old(self)@.visited);
            return false;
        }
        self.visited_dirs.insert(dir);
        true
    }

    /// Whether the blocks of inode `ino` are still to be collected; it is
    /// marked as collected.
    pub fn first_collection(&mut self, ino: u64) -> (r: bool)
        ensures
            r == !old(self)@.collected.contains(ino),
            final(self)@ == (CheckerView {
                collected: old(self)@.collected.insert(ino),
                ..old(self)@
            }),
    {
        self.collected.insert(ino)
    }

    /// Judges the entry (`ino`, `name`) of directory `dir`, whose parent is
    /// `parent`: "." must name `dir`, ".." must name `parent`; any other
    /// entry references `ino` and adds one to its link count.
    pub fn check_entry(&mut self, dir: u64, parent: u64, ino: u64, name: &str) -> (r: EntryNote)
        requires
            entry_note(dir, parent, ino, name@) == EntryNote::BadSelf || entry_note(
                dir,
                parent,
                ino,
                name@,
            ) == EntryNote::BadParent ==> old(self)@.errors < u32::MAX,
            entry_note(dir, parent, ino, name@) == EntryNote::Child ==> count_of(
                old(self)@.link_counts,
                ino,
            ) < u32::MAX,
            checker_wf(old(self)@),
        ensures
            checker_wf(final(self)@),
            r == entry_note(dir, parent, ino, name@),
            final(self)@ == entry_view(old(self)@, dir, parent, ino, name@),
            name@ == seq!['.'] && ino == dir ==> r == EntryNote::SelfOk && final(self)@ == old(
                self,
            )@,
            name@ == seq!['.'] && ino != dir ==> r == EntryNote::BadSelf && final(self)@
                == with_errors(old(self)@, (old(self)@.errors + 1) as u32),
            name@ == seq!['.', '.'] && ino == parent ==> r == EntryNote::ParentOk && final(self)@
                == old(self)@,
            name@ == seq!['.', '.'] && ino != parent ==> r == EntryNote::BadParent && final(self)@
                == with_errors(old(self)@, (old(self)@.errors + 1) as u32),
            name@ != seq!['.'] && name@ != seq!['.', '.'] ==> {
                &&& r == EntryNote::Child
                &&& final(self)@ == (CheckerView {
                    referenced: old(self)@.referenced.insert(ino),
                    link_counts: old(self)@.link_counts.insert(
                        ino,
                        (count_of(old(self)@.link_counts, ino) + 1) as u32,
                    ),
                    linked: if old(self)@.link_counts.dom().contains(ino) {
                        old(self)@.linked
                    } else {
                        old(self)@.linked.push(ino)
                    },
                    ..old(self)@
                })
            },
    {
        if is_dot(name) {
            assert(seq!['.'] != seq!['.', '.']) by {
                assert(seq!['.'].len() == 1);
                assert(seq!['.', '.'].len() == 2);
            }
            if ino != dir {
                self.errors = self.errors + 1;
                return EntryNote::BadSelf;
            }
            return EntryNote::SelfOk;
        }
        if is_dot_dot(name) {
            if ino != parent {
                self.errors = self.errors + 1;
                return EntryNote::BadParent;
            }
            return EntryNote::ParentOk;
        }
        self.referenced.insert(ino);
        let current = match self.link_counts.get(&ino) {
            Some(c) => *c,
            None => {
                self.linked.push(ino);
                0
            },
        };
        self.link_counts.insert(ino, current + 1);
        proof {
            let ov = old(self)@;
            assert forall|k: u64| #[trigger] self@.link_counts.dom().contains(k) <==> self@.linked.contains(k) by {
                if k == ino && !ov.link_counts.dom().contains(ino) {
                    assert(self@.linked[self@.linked.len() - 1] == ino);
                }
                if self@.linked.contains(k) && k != ino && !ov.link_counts.dom().contains(ino) {
                    let i = choose|i: int| 0 <= i < self@.linked.len() && self@.linked[i] == k;
                    assert(ov.linked[i] == k);
                }
                if ov.linked.contains(k) && !ov.link_counts.dom().contains(ino) {
                    let i = choose|i: int| 0 <= i < ov.linked.len() && ov.linked[i] == k;
                    assert(self@.linked[i] == k);
                }
            }
        }
        EntryNote::Child
    }

    /// Counts one more subdirectory of `dir`.
    pub fn count_subdir(&mut self, dir: u64)
        requires
            count_of(old(self)@.subdir_counts, dir) < u32::MAX,
        ensures
            final(self)@ == (CheckerView {
                subdir_counts: old(self)@.subdir_counts.insert(
                    dir,
                    (count_of(old(self)@.subdir_counts, dir) + 1) as u32,
                ),
                ..old(self)@
            }),
    {
        let current = match self.subdir_counts.get(&dir) {
            Some(c) => *c,
            None => 0,
        };
        self.subdir_counts.insert(dir, current + 1);
    }

    /// Entries found so far that name `ino`.
    pub fn link_count(&self, ino: u64) -> (r: u32)
        ensures
            r == count_of(self@.link_counts, ino),
    {
        match self.link_counts.get(&ino) {
            Some(c) => *c,
            None => 0,
        }
    }

    /// Subdirectories found so far in `dir`.
    pub fn subdirectories(&self, dir: u64) -> (r: u32)
        ensures
            r == count_of(self@.subdir_counts, dir),
    {
        match self.subdir_counts.get(&dir) {
            Some(c) => *c,
            None => 0,
        }
    }

    /// The blocks that have owners, in the order first found.
    pub fn recorded_blocks(&self) -> (r: Vec<u64>)
        ensures
            r@ == self@.recorded,
    {
        self.recorded.clone()
    }

    /// The inodes that directory entries name, in the order first found.
    pub fn linked_inodes(&self) -> (r: Vec<u64>)
        ensures
            r@ == self@.linked,
    {
        self.linked.clone()
    }

    /// A block owned by more than one inode is an error; returns its owners then.
    pub fn check_duplicate(&mut self, block: u64) -> (r: Option<Vec<u64>>)
        requires
            old(self)@.errors < u32::MAX,
        ensures
            ({
                let ov = old(self)@;
                let owners = if ov.owners.dom().contains(block) {
                    ov.owners[block]
                } else {
                    Seq::empty()
                };
                if owners.len() > 1 {
                    &&& r matches Some(v)
                    &&& v@ == owners
                    &&& final(self)@ == with_errors(ov, (ov.errors + 1) as u32)
                } else {
                    &&& r is None
                    &&& final(self)@ == ov
                }
            }),
    {
        match self.block_owner.get(&block) {
            Some(v) => {
                if v.len() > 1 {
                    let owners = v.clone();
                    self.errors = self.errors + 1;
                    proof {
                        assert(owners@ == old(self)@.owners[block]);
                    }
                    Some(owners)
                } else {
                    None
                }
            },
            None => None,
        }
    }

    /// Judges the inode bitmap bit of inode `ino` against the directory tree.
    /// Inodes below 3 are reserved and never orphaned.
    pub fn check_inode_bit(&mut self, ino: u64, used: bool) -> (r: InodeNote)
        requires
            old(self)@.errors < u32::MAX,
        ensures
            ({
                let ov = old(self)@;
                let referenced = ov.referenced.contains(ino);
                if !used && referenced {
                    r == InodeNote::FreeButReferenced && final(self)@ == with_errors(
                        ov,
                        (ov.errors + 1) as u32,
                    )
                } else if used && !referenced && ino != ROOT_INODE && ino >= 3 {
                    r == InodeNote::Orphaned && final(self)@ == with_errors(
                        ov,
                        (ov.errors + 1) as u32,
                    )
                } else {
                    r == InodeNote::Consistent && final(self)@ == ov
                }
            }),
    {
        let referenced = self.referenced.contains(&ino);
        if !used && referenced {
            self.errors = self.errors + 1;
            return InodeNote::FreeButReferenced;
        }
        if used && !referenced && ino != ROOT_INODE as u64 && ino >= 3 {
            self.errors = self.errors + 1;
            return InodeNote::Orphaned;
        }
        InodeNote::Consistent
    }

    /// Judges the data bitmap bit of data block `block` against the owners found.
    pub fn check_data_bit(&mut self, block: u64, used: bool) -> (r: BlockNote)
        requires
            old(self)@.errors < u32::MAX,
        ensures
            ({
                let ov = old(self)@;
                let owned = ov.owners.dom().contains(block);
                if used && !owned {
                    r == BlockNote::Leaked && final(self)@ == with_errors(ov, (ov.errors + 1) as u32)
                } else if !used && owned {
                    r == BlockNote::FreeButUsed && final(self)@ == with_errors(
                        ov,
                        (ov.errors + 1) as u32,
                    )
                } else {
                    r == BlockNote::Consistent && final(self)@ == ov
                }
            }),
    {
        let owned = self.block_owner.contains_key(&block);
        if used && !owned {
            self.errors = self.errors + 1;
            return BlockNote::Leaked;
        }
        if !used && owned {
            self.errors = self.errors + 1;
            return BlockNote::FreeButUsed;
        }
        BlockNote::Consistent
    }

    /// The links inode `ino` must have: two plus its subdirectories for a
    /// directory, else the entries that name it.
    pub fn expected_links(&self, ino: u64, is_dir: bool) -> (r: u32)
        requires
            is_dir ==> count_of(self@.subdir_counts, ino) <= u32::MAX - 2,
        ensures
            r == (if is_dir {
                (2 + count_of(self@.subdir_counts, ino)) as u32
            } else {
                count_of(self@.link_counts, ino)
            }),
    {
        if is_dir {
            let subdirs = match self.subdir_counts.get(&ino) {
                Some(c) => *c,
                None => 0,
            };
            2 + subdirs
        } else {
            match self.link_counts.get(&ino) {
                Some(c) => *c,
                None => 0,
            }
        }
    }

    /// Compares the recorded link count of an inode with the expected one;
    /// a mismatch is an error.
    pub fn check_links(&mut self, hard_links: u32, expected: u32) -> (r: bool)
        requires
            old(self)@.errors < u32::MAX,
        ensures
            r == (hard_links == expected),
            r ==> final(self)@ == old(self)@,
            !r ==> final(self)@ == with_errors(old(self)@, (old(self)@.errors + 1) as u32),
    {
        if hard_links != expected {
            self.errors = self.errors + 1;
            return false;
        }
        true
    }

    /// Compares a free count stored in the superblock with the count the
    /// bitmap gives; a mismatch is an error.
    pub fn check_free_count(&mut self, stored: u64, actual: u64) -> (r: bool)
        requires
            old(self)@.errors < u32::MAX,
        ensures
            r == (stored == actual),
            r ==> final(self)@ == old(self)@,
            !r ==> final(self)@ == with_errors(old(self)@, (old(self)@.errors + 1) as u32),
    {
        if stored != actual {
            self.errors = self.errors + 1;
            return false;
        }
        true
    }
}

/// How many of the first `n` items are marked used.
pub open spec fn used_count(bits: Seq<bool>, n: int) -> nat
    decreases n,
{
    if n <= 0 {
        0
    } else {
        used_count(bits, n - 1) + if bits[n - 1] {
            1nat
        } else {
            0
        }
    }
}

/// Marking a free item used adds one to the count of every range holding it.
pub proof fn lemma_used_count_set(bits: Seq<bool>, n: int, t: int)
    requires
        0 <= n < bits.len(),
        !bits[n],
        0 <= t <= bits.len(),
    ensures
        used_count(bits.update(n, true), t) == used_count(bits, t) + if n < t {
            1nat
        } else {
            0nat
        },
    decreases t,
{
    if t > 0 {
        lemma_used_count_set(bits, n, t - 1);
    }
}

/// A range counts at most its own length of used items.
pub proof fn lemma_used_count_bound(bits: Seq<bool>, t: int)
    requires
        0 <= t,
    ensures
        used_count(bits, t) <= t,
    decreases t,
{
    if t > 0 {
        lemma_used_count_bound(bits, t - 1);
    }
}

/// A range whose items are all used counts all of them.
pub proof fn lemma_used_count_all(bits: Seq<bool>, t: int)
    requires
        0 <= t <= bits.len(),
        forall|m: int| 0 <= m < t ==> bits[m],
    ensures
        used_count(bits, t) == t,
    decreases t,
{
    if t > 0 {
        lemma_used_count_all(bits, t - 1);
    }
}

impl Bitmap {
    /// How many of the items `0..limit` are marked used.
    pub fn count_used(&self, limit: u64) -> (r: u64)
        requires
            limit <= BITS_PER_BITMAP,
        ensures
            r == used_count(self@, limit as int),
    {
        let mut count: u64 = 0;
        let mut i: u64 = 0;
        while i < limit
            invariant
                0 <= i <= limit <= BITS_PER_BITMAP,
                count == used_count(self@, i as int),
                count <= i,
            decreases limit - i,
        {
            if self.is_used(i) {
                count = count + 1;
            }
            i = i + 1;
        }
        count
    }
}

/// The number of data blocks on an image: the blocks from the data area on.
pub fn data_block_count(total_blocks: u64, data_start_block: u64) -> (r: u64)
    requires
        data_start_block <= total_blocks,
    ensures
        r == total_blocks - data_start_block,
{
    total_blocks - data_start_block
}

// ---------------------------------------------------------------- the passes after the walk

/// The owners found of `block`.
pub open spec fn owners_of(v: CheckerView, block: u64) -> Seq<u64> {
    if v.owners.dom().contains(block) {
        v.owners[block]
    } else {
        Seq::empty()
    }
}

/// The blocks among `blocks` owned more than once, each with its owners, in order.
pub open spec fn duplicates_in(v: CheckerView, blocks: Seq<u64>) -> Seq<(u64, Seq<u64>)>
    decreases blocks.len(),
{
    if blocks.len() == 0 {
        Seq::empty()
    } else {
        let rest = duplicates_in(v, blocks.drop_last());
        let b = blocks.last();
        if owners_of(v, b).len() > 1 {
            rest.push((b, owners_of(v, b)))
        } else {
            rest
        }
    }
}

/// A list of blocks with their owners, with the owners as sequences.
pub open spec fn owners_view(d: Seq<(u64, Vec<u64>)>) -> Seq<(u64, Seq<u64>)> {
    d.map_values(|e: (u64, Vec<u64>)| (e.0, e.1@))
}

/// More blocks give at least as many duplicates.
proof fn lemma_duplicates_grow(v: CheckerView, s: Seq<u64>, j: int, k: int)
    requires
        0 <= j <= k <= s.len(),
    ensures
        duplicates_in(v, s.take(j)).len() <= duplicates_in(v, s.take(k)).len(),
    decreases k - j,
{
    if j < k {
        assert(s.take(k).drop_last() =~= s.take(k - 1));
        lemma_duplicates_grow(v, s, j, k - 1);
    }
}

/// What the inode bitmap, marking inode `ino` as `used`, says against the tree.
pub open spec fn inode_note(v: CheckerView, ino: u64, used: bool) -> InodeNote {
    let referenced = v.referenced.contains(ino);
    if !used && referenced {
        InodeNote::FreeButReferenced
    } else if used && !referenced && ino != ROOT_INODE && ino >= 3 {
        InodeNote::Orphaned
    } else {
        InodeNote::Consistent
    }
}

/// The inodes below `n` whose bit in `bits` disagrees with the tree, each
/// with what is wrong, in order.
pub open spec fn inode_bit_findings(v: CheckerView, bits: Seq<bool>, n: int) -> Seq<(u64, InodeNote)>
    decreases n,
{
    if n <= 0 {
        Seq::empty()
    } else {
        let rest = inode_bit_findings(v, bits, n - 1);
        let note = inode_note(v, (n - 1) as u64, bits[n - 1]);
        if note == InodeNote::Consistent {
            rest
        } else {
            rest.push(((n - 1) as u64, note))
        }
    }
}

proof fn lemma_inode_findings_grow(v: CheckerView, bits: Seq<bool>, j: int, k: int)
    requires
        0 <= j <= k,
    ensures
        inode_bit_findings(v, bits, j).len() <= inode_bit_findings(v, bits, k).len(),
    decreases k - j,
{
    if j < k {
        lemma_inode_findings_grow(v, bits, j, k - 1);
    }
}

/// What the data bitmap, marking data block `block` as `used`, says against
/// the owners found.
pub open spec fn block_note(v: CheckerView, block: u64, used: bool) -> BlockNote {
    let owned = v.owners.dom().contains(block);
    if used && !owned {
        BlockNote::Leaked
    } else if !used && owned {
        BlockNote::FreeButUsed
    } else {
        BlockNote::Consistent
    }
}

/// The data blocks `start + i`, for `i` below `n`, whose bit `i` in `bits`
/// disagrees with the owners found, each with what is wrong, in order.
pub open spec fn data_bit_findings(v: CheckerView, bits: Seq<bool>, start: u64, n: int) -> Seq<
    (u64, BlockNote),
>
    decreases n,
{
    if n <= 0 {
        Seq::empty()
    } else {
        let rest = data_bit_findings(v, bits, start, n - 1);
        let b = (start + n - 1) as u64;
        let note = block_note(v, b, bits[n - 1]);
        if note == BlockNote::Consistent {
            rest
        } else {
            rest.push((b, note))
        }
    }
}

proof fn lemma_data_findings_grow(v: CheckerView, bits: Seq<bool>, start: u64, j: int, k: int)
    requires
        0 <= j <= k,
    ensures
        data_bit_findings(v, bits, start, j).len() <= data_bit_findings(v, bits, start, k).len(),
    decreases k - j,
{
    if j < k {
        lemma_data_findings_grow(v, bits, start, j, k - 1);
    }
}

/// How far into a bitmap a pass over `n` items gets: the whole of it, or up
/// to its end.
pub open spec fn within_bitmap(n: u64) -> int {
    if n <= BITS_PER_BITMAP {
        n as int
    } else {
        BITS_PER_BITMAP as int
    }
}

impl Checker {
    /// The number of owners found of `block`.
    fn owner_count(&self, block: u64) -> (r: usize)
        ensures
            r == owners_of(self@, block).len(),
    {
        match self.block_owner.get(&block) {
            Some(o) => o.len(),
            None => 0,
        }
    }

    /// Whether a directory entry names inode `ino`, or it is the root.
    fn is_referenced(&self, ino: u64) -> (r: bool)
        ensures
            r == self@.referenced.contains(ino),
    {
        self.referenced.contains(&ino)
    }

    /// Whether an owner of `block` has been found.
    fn is_owned(&self, block: u64) -> (r: bool)
        ensures
            r == self@.owners.dom().contains(block),
    {
        self.block_owner.contains_key(&block)
    }

    /// Every block recorded with more than one owner, with its owners, in
    /// the order first recorded; each is an error. Fails when the error
    /// count would pass its largest value.
    pub fn check_duplicates(&mut self) -> (r: Result<Vec<(u64, Vec<u64>)>, Fault>)
        ensures
            ({
                let v = old(self)@;
                let d = duplicates_in(v, v.recorded);
                match r {
                    Ok(out) => {
                        &&& v.errors + d.len() <= u32::MAX
                        &&& owners_view(out@) == d
                        &&& forall|b: u64|
                            (v.recorded.contains(b) && v.owners.dom().contains(b) && v.owners[b].len()
                                > 1) <==> exists|k: int| 0 <= k < out@.len() && #[trigger] out@[k].0 == b
                        &&& forall|k: int|
                            0 <= k < out@.len() ==> v.owners.dom().contains(#[trigger] out@[k].0)
                                && out@[k].1@ == v.owners[out@[k].0]
                        &&& final(self)@ == with_errors(v, (v.errors + d.len()) as u32)
                    },
                    Err(x) => {
                        &&& x == Fault::Overflow
                        &&& v.errors + d.len() > u32::MAX
                        &&& final(self)@ == with_errors(v, u32::MAX)
                    },
                }
            }),
    {
        let ghost v0 = self@;
        let blocks = self.recorded_blocks();
        let mut out: Vec<(u64, Vec<u64>)> = Vec::new();
        let mut k: usize = 0;
        assert(blocks@.take(0) =~= Seq::<u64>::empty());
        while k < blocks.len()
            invariant
                0 <= k <= blocks@.len(),
                blocks@ == v0.recorded,
                v0 == old(self)@,
                owners_view(out@) == duplicates_in(v0, blocks@.take(k as int)),
                v0.errors + out@.len() <= u32::MAX,
                self@ == with_errors(v0, (v0.errors + out@.len()) as u32),
            decreases blocks@.len() - k,
        {
            let b = blocks[k];
            proof {
                assert(blocks@.take(k + 1).drop_last() =~= blocks@.take(k as int));
                assert(blocks@.take(k + 1).last() == b);
            }
            if self.owner_count(b) > 1 {
                if self.errors() == u32::MAX {
                    proof {
                        assert(owners_of(v0, b).len() > 1);
                        assert(duplicates_in(v0, blocks@.take(k + 1)).len() == out@.len() + 1);
                        lemma_duplicates_grow(v0, blocks@, k + 1, blocks@.len() as int);
                        assert(blocks@.take(blocks@.len() as int) =~= blocks@);
                    }
                    return Err(Fault::Overflow);
                }
                let owners = match self.check_duplicate(b) {
                    Some(o) => o,
                    None => Vec::new(),
                };
                let ghost before = out@;
                out.push((b, owners));
                proof {
                    assert(owners_view(out@) =~= owners_view(before).push((b, owners_of(v0, b))));
                }
            }
            k = k + 1;
        }
        assert(blocks@.take(blocks@.len() as int) =~= blocks@);
        proof {
            lemma_duplicates_exact(v0, blocks@);
            let d = duplicates_in(v0, blocks@);
            assert forall|k: int| 0 <= k < out@.len() implies #[trigger] out@[k].0 == d[k].0
                && out@[k].1@ == d[k].1 by {
                assert(owners_view(out@)[k] == (out@[k].0, out@[k].1@));
            }
            assert forall|b: u64|
                #![trigger v0.owners.dom().contains(b)]
                (v0.recorded.contains(b) && v0.owners.dom().contains(b) && v0.owners[b].len() > 1)
                    implies exists|k: int| 0 <= k < out@.len() && #[trigger] out@[k].0 == b by {
                let k = choose|k: int| 0 <= k < d.len() && #[trigger] d[k].0 == b;
                assert(out@[k].0 == b);
            }
            assert forall|k: int| 0 <= k < out@.len() implies v0.recorded.contains(#[trigger] out@[k].0)
                && v0.owners.dom().contains(out@[k].0) && v0.owners[out@[k].0].len() > 1 by {
                let b = out@[k].0;
                assert(d[k].0 == b);
                assert(exists|j: int| 0 <= j < d.len() && #[trigger] d[j].0 == b);
            }
        }
        Ok(out)
    }

    /// Every inode below `total_inodes` whose bit in `bits` disagrees with
    /// the tree, with what is wrong, in order; each is an error. Fails when
    /// the error count would pass its largest value, or, past the end of the
    /// bitmap, on the first inode it cannot hold.
    pub fn check_inode_bits(&mut self, bits: &Bitmap, total_inodes: u64) -> (r: Result<
        Vec<(u64, InodeNote)>,
        Fault,
    >)
        ensures
            ({
                let v = old(self)@;
                let fs = inode_bit_findings(v, bits@, within_bitmap(total_inodes));
                match r {
                    Ok(out) => {
                        &&& total_inodes <= BITS_PER_BITMAP
                        &&& v.errors + fs.len() <= u32::MAX
                        &&& out@ == fs
                        &&& forall|i: int|
                            0 <= i < total_inodes ==> ((!bits@[i] && v.referenced.contains(i as u64))
                                <==> out@.contains((i as u64, InodeNote::FreeButReferenced)))
                        &&& forall|i: int|
                            0 <= i < total_inodes ==> ((bits@[i] && !v.referenced.contains(i as u64)
                                && i >= 3) <==> out@.contains((i as u64, InodeNote::Orphaned)))
                        &&& final(self)@ == with_errors(v, (v.errors + fs.len()) as u32)
                    },
                    Err(Fault::Overflow) => {
                        &&& v.errors + fs.len() > u32::MAX
                        &&& final(self)@ == with_errors(v, u32::MAX)
                    },
                    Err(Fault::BitOutOfRange) => {
                        &&& total_inodes > BITS_PER_BITMAP
                        &&& v.errors + fs.len() <= u32::MAX
                        &&& final(self)@ == with_errors(v, (v.errors + fs.len()) as u32)
                    },
                    Err(_) => false,
                }
            }),
    {
        proof {
            bits.lemma_view_of_bytes();
        }
        let ghost v0 = self@;
        let ghost k0 = within_bitmap(total_inodes);
        let mut out: Vec<(u64, InodeNote)> = Vec::new();
        let mut n: u64 = 0;
        while n < total_inodes
            invariant
                n <= total_inodes,
                n <= BITS_PER_BITMAP,
                k0 == within_bitmap(total_inodes),
                v0 == old(self)@,
                n <= k0,
                out@ == inode_bit_findings(v0, bits@, n as int),
                v0.errors + out@.len() <= u32::MAX,
                self@ == with_errors(v0, (v0.errors + out@.len()) as u32),
                bits@.len() == BITS_PER_BITMAP,
            decreases total_inodes - n,
        {
            if n >= BITS_PER_BITMAP {
                assert(n as int == k0);
                return Err(Fault::BitOutOfRange);
            }
            let used = bits.is_used(n);
            let referenced = self.is_referenced(n);
            let bad = (!used && referenced) || (used && !referenced && n != ROOT_INODE as u64 && n
                >= 3);
            if bad {
                if self.errors() == u32::MAX {
                    proof {
                        assert(inode_note(v0, n, bits@[n as int]) != InodeNote::Consistent);
                        assert(inode_bit_findings(v0, bits@, n + 1).len() == out@.len() + 1);
                        lemma_inode_findings_grow(v0, bits@, n + 1, k0);
                    }
                    return Err(Fault::Overflow);
                }
                let note = self.check_inode_bit(n, used);
                out.push((n, note));
            }
            n = n + 1;
        }
        proof {
            lemma_inode_findings_exact(v0, bits@, n as int);
        }
        Ok(out)
    }

    /// Every data block `data_start + i`, for `i` below `count`, whose bit
    /// `i` in `bits` disagrees with the owners found, with what is wrong, in
    /// order; each is an error. Fails when the error count would pass its
    /// largest value, or, past the end of the bitmap, on the first block it
    /// cannot hold.
    pub fn check_data_bits(&mut self, bits: &Bitmap, data_start: u64, count: u64) -> (r: Result<
        Vec<(u64, BlockNote)>,
        Fault,
    >)
        requires
            data_start + count <= u64::MAX,
        ensures
            ({
                let v = old(self)@;
                let fs = data_bit_findings(v, bits@, data_start, within_bitmap(count));
                match r {
                    Ok(out) => {
                        &&& count <= BITS_PER_BITMAP
                        &&& v.errors + fs.len() <= u32::MAX
                        &&& out@ == fs
                        &&& forall|i: int|
                            0 <= i < count ==> ((!bits@[i] && v.owners.dom().contains(
                                (data_start + i) as u64,
                            )) <==> out@.contains(((data_start + i) as u64, BlockNote::FreeButUsed)))
                        &&& forall|i: int|
                            0 <= i < count ==> ((bits@[i] && !v.owners.dom().contains(
                                (data_start + i) as u64,
                            )) <==> out@.contains(((data_start + i) as u64, BlockNote::Leaked)))
                        &&& final(self)@ == with_errors(v, (v.errors + fs.len()) as u32)
                    },
                    Err(Fault::Overflow) => {
                        &&& v.errors + fs.len() > u32::MAX
                        &&& final(self)@ == with_errors(v, u32::MAX)
                    },
                    Err(Fault::BitOutOfRange) => {
                        &&& count > BITS_PER_BITMAP
                        &&& v.errors + fs.len() <= u32::MAX
                        &&& final(self)@ == with_errors(v, (v.errors + fs.len()) as u32)
                    },
                    Err(_) => false,
                }
            }),
    {
        proof {
            bits.lemma_view_of_bytes();
        }
        let ghost v0 = self@;
        let ghost k0 = within_bitmap(count);
        let mut out: Vec<(u64, BlockNote)> = Vec::new();
        let mut i: u64 = 0;
        while i < count
            invariant
                i <= count,
                i <= BITS_PER_BITMAP,
                data_start + count <= u64::MAX,
                k0 == within_bitmap(count),
                v0 == old(self)@,
                i <= k0,
                out@ == data_bit_findings(v0, bits@, data_start, i as int),
                v0.errors + out@.len() <= u32::MAX,
                self@ == with_errors(v0, (v0.errors + out@.len()) as u32),
                bits@.len() == BITS_PER_BITMAP,
            decreases count - i,
        {
            if i >= BITS_PER_BITMAP {
                assert(i as int == k0);
                return Err(Fault::BitOutOfRange);
            }
            let block = data_start + i;
            let used = bits.is_used(i);
            let owned = self.is_owned(block);
            if (used && !owned) || (!used && owned) {
                if self.errors() == u32::MAX {
                    proof {
                        assert(block_note(v0, block, bits@[i as int]) != BlockNote::Consistent);
                        assert(data_bit_findings(v0, bits@, data_start, i + 1).len() == out@.len() + 1);
                        lemma_data_findings_grow(v0, bits@, data_start, i + 1, k0);
                    }
                    return Err(Fault::Overflow);
                }
                let note = self.check_data_bit(block, used);
                out.push((block, note));
            }
            i = i + 1;
        }
        proof {
            lemma_data_findings_exact(v0, bits@, data_start, i as int);
        }
        Ok(out)
    }
}


impl Checker {
    /// Counts `k` more errors, found elsewhere; `false`, changing nothing,
    /// when the count would pass its largest value.
    pub fn record_errors(&mut self, k: u64) -> (r: bool)
        ensures
            r == (old(self)@.errors + k <= u32::MAX),
            r ==> final(self)@ == with_errors(old(self)@, (old(self)@.errors + k) as u32),
            !r ==> final(self)@ == old(self)@,
    {
        if k > (u32::MAX - self.errors) as u64 {
            return false;
        }
        self.errors = self.errors + k as u32;
        true
    }

    /// Compares a free count stored in the superblock with the number of the
    /// first `total` items that `bits` leaves free; a mismatch is an error.
    /// Gives whether they agree and the number the bitmap gives. Fails when
    /// `total` passes the end of the bitmap, or when the error count would
    /// pass its largest value.
    pub fn check_free_items(&mut self, stored: u64, bits: &Bitmap, total: u64) -> (r: Result<
        (bool, u64),
        Fault,
    >)
        ensures
            match r {
                Ok((agree, actual)) => {
                    &&& total <= BITS_PER_BITMAP
                    &&& actual == total - used_count(bits@, total as int)
                    &&& agree == (stored == actual)
                    &&& agree ==> final(self)@ == old(self)@
                    &&& !agree ==> final(self)@ == with_errors(
                        old(self)@,
                        (old(self)@.errors + 1) as u32,
                    )
                },
                Err(Fault::BitOutOfRange) => total > BITS_PER_BITMAP && final(self)@ == old(self)@,
                Err(Fault::Overflow) => {
                    &&& total <= BITS_PER_BITMAP
                    &&& stored != total - used_count(bits@, total as int)
                    &&& old(self)@.errors == u32::MAX
                    &&& final(self)@ == old(self)@
                },
                Err(_) => false,
            },
    {
        if total > BITS_PER_BITMAP {
            return Err(Fault::BitOutOfRange);
        }
        let used = bits.count_used(total);
        proof {
            lemma_used_count_bound(bits@, total as int);
        }
        let actual = total - used;
        if stored != actual && self.errors == u32::MAX {
            return Err(Fault::Overflow);
        }
        if stored == actual {
            return Ok((true, actual));
        }
        let agree = self.check_free_count(stored, actual);
        Ok((agree, actual))
    }
}


// ---------------------------------------------------------------- what the passes report

/// The data-bitmap pass over blocks `start + i`, `i < n`, reports a block as
/// leaked exactly when its bit is set and no inode owns it, and as free but
/// used exactly when its bit is clear and some inode owns it; nothing else,
/// and in increasing block order.
pub proof fn lemma_data_findings_exact(v: CheckerView, bits: Seq<bool>, start: u64, n: int)
    requires
        0 <= n <= bits.len(),
        start + n <= u64::MAX,
    ensures
        ({
            let fs = data_bit_findings(v, bits, start, n);
            &&& forall|i: int|
                0 <= i < n ==> ((bits[i] && !v.owners.dom().contains((start + i) as u64)) <==> fs.contains(
                    ((start + i) as u64, BlockNote::Leaked),
                ))
            &&& forall|i: int|
                0 <= i < n ==> ((!bits[i] && v.owners.dom().contains((start + i) as u64))
                    <==> fs.contains(((start + i) as u64, BlockNote::FreeButUsed)))
            &&& forall|k: int|
                0 <= k < fs.len() ==> start <= #[trigger] fs[k].0 < start + n && fs[k].1
                    != BlockNote::Consistent
            &&& forall|k1: int, k2: int| 0 <= k1 < k2 < fs.len() ==> fs[k1].0 < fs[k2].0
        }),
    decreases n,
{
    if n > 0 {
        lemma_data_findings_exact(v, bits, start, n - 1);
        let rest = data_bit_findings(v, bits, start, n - 1);
        let fs = data_bit_findings(v, bits, start, n);
        let b = (start + n - 1) as u64;
        assert forall|x: (u64, BlockNote)| x.0 == b implies !rest.contains(x) by {
            if rest.contains(x) {
                let k = choose|k: int| 0 <= k < rest.len() && rest[k] == x;
                assert(start <= rest[k].0 < start + n - 1);
            }
        }
        assert forall|x: (u64, BlockNote)| #[trigger] fs.contains(x) <==> (rest.contains(x) || (x.0 == b
            && x.1 == block_note(v, b, bits[n - 1]) && x.1 != BlockNote::Consistent)) by {
            if fs.contains(x) {
                let k = choose|k: int| 0 <= k < fs.len() && fs[k] == x;
                if k < rest.len() {
                    assert(rest[k] == x);
                }
            }
            if rest.contains(x) {
                let k = choose|k: int| 0 <= k < rest.len() && rest[k] == x;
                assert(fs[k] == x);
            }
            if x.0 == b && x.1 == block_note(v, b, bits[n - 1]) && x.1 != BlockNote::Consistent {
                assert(fs[fs.len() - 1] == x);
            }
        }
    }
}

/// The inode-bitmap pass over inodes `i < n` reports an inode as free but
/// referenced exactly when its bit is clear and an entry names it, and as
/// orphaned exactly when its bit is set, nothing names it and it is neither
/// reserved nor the root (numbers 0 to 2); nothing else, and in increasing
/// order.
pub proof fn lemma_inode_findings_exact(v: CheckerView, bits: Seq<bool>, n: int)
    requires
        0 <= n <= bits.len(),
        n <= u64::MAX,
    ensures
        ({
            let fs = inode_bit_findings(v, bits, n);
            &&& forall|i: int|
                0 <= i < n ==> ((!bits[i] && v.referenced.contains(i as u64)) <==> fs.contains(
                    (i as u64, InodeNote::FreeButReferenced),
                ))
            &&& forall|i: int|
                0 <= i < n ==> ((bits[i] && !v.referenced.contains(i as u64) && i >= 3)
                    <==> fs.contains((i as u64, InodeNote::Orphaned)))
            &&& forall|k: int|
                0 <= k < fs.len() ==> #[trigger] fs[k].0 < n && fs[k].1 != InodeNote::Consistent
            &&& forall|k1: int, k2: int| 0 <= k1 < k2 < fs.len() ==> fs[k1].0 < fs[k2].0
        }),
    decreases n,
{
    if n > 0 {
        lemma_inode_findings_exact(v, bits, n - 1);
        let rest = inode_bit_findings(v, bits, n - 1);
        let fs = inode_bit_findings(v, bits, n);
        let b = (n - 1) as u64;
        assert forall|x: (u64, InodeNote)| x.0 == b implies !rest.contains(x) by {
            if rest.contains(x) {
                let k = choose|k: int| 0 <= k < rest.len() && rest[k] == x;
                assert(rest[k].0 < n - 1);
            }
        }
        assert forall|x: (u64, InodeNote)| #[trigger] fs.contains(x) <==> (rest.contains(x) || (x.0 == b
            && x.1 == inode_note(v, b, bits[n - 1]) && x.1 != InodeNote::Consistent)) by {
            if fs.contains(x) {
                let k = choose|k: int| 0 <= k < fs.len() && fs[k] == x;
                if k < rest.len() {
                    assert(rest[k] == x);
                }
            }
            if rest.contains(x) {
                let k = choose|k: int| 0 <= k < rest.len() && rest[k] == x;
                assert(fs[k] == x);
            }
            if x.0 == b && x.1 == inode_note(v, b, bits[n - 1]) && x.1 != InodeNote::Consistent {
                assert(fs[fs.len() - 1] == x);
            }
        }
    }
}

/// The duplicate pass over `blocks` reports, in order, each of them that
/// more than one inode owns, with all its owners in the order found.
pub proof fn lemma_duplicates_exact(v: CheckerView, blocks: Seq<u64>)
    ensures
        ({
            let d = duplicates_in(v, blocks);
            &&& forall|b: u64|
                (blocks.contains(b) && v.owners.dom().contains(b) && v.owners[b].len() > 1) <==> exists|
                    k: int,
                | 0 <= k < d.len() && #[trigger] d[k].0 == b
            &&& forall|k: int|
                0 <= k < d.len() ==> v.owners.dom().contains(#[trigger] d[k].0) && d[k].1
                    == v.owners[d[k].0] && d[k].1.len() > 1
        }),
    decreases blocks.len(),
{
    if blocks.len() > 0 {
        let p = blocks.drop_last();
        lemma_duplicates_exact(v, p);
        let rest = duplicates_in(v, p);
        let d = duplicates_in(v, blocks);
        let last = blocks.last();
        assert forall|b: u64| #[trigger] blocks.contains(b) <==> (p.contains(b) || b == last) by {
            if blocks.contains(b) {
                let a = choose|a: int| 0 <= a < blocks.len() && blocks[a] == b;
                if a < blocks.len() - 1 {
                    assert(p[a] == b);
                }
            }
            if p.contains(b) {
                let a = choose|a: int| 0 <= a < p.len() && p[a] == b;
                assert(blocks[a] == b);
            }
            if b == last {
                assert(blocks[blocks.len() - 1] == b);
            }
        }
        assert forall|b: u64|
            (blocks.contains(b) && v.owners.dom().contains(b) && v.owners[b].len() > 1) <==> exists|
                k: int,
            | 0 <= k < d.len() && #[trigger] d[k].0 == b by {
            if exists|k: int| 0 <= k < d.len() && #[trigger] d[k].0 == b {
                let k = choose|k: int| 0 <= k < d.len() && #[trigger] d[k].0 == b;
                if k < rest.len() {
                    assert(rest[k] == d[k]);
                }
            }
            if blocks.contains(b) && v.owners.dom().contains(b) && v.owners[b].len() > 1 {
                if p.contains(b) {
                    let k = choose|k: int| 0 <= k < rest.len() && #[trigger] rest[k].0 == b;
                    assert(d[k] == rest[k]);
                } else {
                    assert(d[d.len() - 1].0 == b);
                }
            }
        }
        assert forall|k: int| 0 <= k < d.len() implies v.owners.dom().contains(#[trigger] d[k].0)
            && d[k].1 == v.owners[d[k].0] && d[k].1.len() > 1 by {
            if k < rest.len() {
                assert(rest[k] == d[k]);
            }
        }
    }
}

} // verus!
