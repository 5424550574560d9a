//! The directory walk of the checker. From the root, each directory is
//! entered once (meeting it again is a cycle); the blocks of every inode met
//! are recorded once; every entry is judged; and each subdirectory is walked
//! as soon as its entry is met. The walk runs on the blocks read from the
//! image so far and asks for the next one it needs.

use vstd::prelude::*;
use crate::layout::{Superblock, Inode, ROOT_INODE};
use crate::fs::{is_directory, spec_is_directory};
use crate::fsck::{
    Checker, CheckerView, EntryNote, checker_wf, count_of, recorded_view, entry_note, entry_view,
    inode_pointers, owned_pointers, is_dot, is_dot_dot, pointers_need,
};
use crate::ops::{Fetched, Step, Fault, Stop, Run, table_ok, inode_in, listing_of, load_inode, list,
    first_need, inode_need, entries_need, stop_step};
use crate::dir::pairs_view;

verus! {

/// What the walk reports, in the order it finds it.
#[derive(Clone, Copy, PartialEq, Eq, Debug)]
pub enum Finding {
    /// Inode `inode` points at `block`, outside the data area.
    InvalidPointer { inode: u64, block: u64 },
    /// Directory `dir` is met again.
    Cycle { dir: u64 },
    /// The "." entry of `dir` names `ino`.
    BadSelf { dir: u64, ino: u64 },
    /// The ".." entry of `dir` names `ino` rather than `parent`.
    BadParent { dir: u64, ino: u64, parent: u64 },
}

/// The checker with `dir` marked as walked.
pub open spec fn entered(v: CheckerView, dir: u64) -> CheckerView {
    CheckerView { visited: v.visited.insert(dir), ..v }
}

/// The checker with the blocks of `ino` marked as collected.
pub open spec fn marked_collected(v: CheckerView, ino: u64) -> CheckerView {
    CheckerView { collected: v.collected.insert(ino), ..v }
}

/// The checker with one more subdirectory counted in `dir`.
pub open spec fn subdir_counted(v: CheckerView, dir: u64) -> CheckerView {
    CheckerView {
        subdir_counts: v.subdir_counts.insert(dir, (count_of(v.subdir_counts, dir) + 1) as u32),
        ..v
    }
}

/// The checker after recording each of `ptrs` as owned by `owner`, with the
/// invalid pointers found; a fault when the error count would overflow.
pub open spec fn record_all(v: CheckerView, ptrs: Seq<u64>, owner: u64) -> Result<
    (CheckerView, Seq<Finding>),
    Fault,
>
    decreases ptrs.len(),
{
    if ptrs.len() == 0 {
        Ok((v, Seq::empty()))
    } else {
        match record_all(v, ptrs.drop_last(), owner) {
            Err(f) => Err(f),
            Ok((v1, fs)) => {
                let b = ptrs.last();
                let invalid = b != 0 && (b < v1.data_start_block || b >= v1.total_blocks);
                if invalid && v1.errors == u32::MAX {
                    Err(Fault::Overflow)
                } else {
                    Ok(
                        (
                            recorded_view(v1, b, owner),
                            if invalid {
                                fs.push(Finding::InvalidPointer { inode: owner, block: b })
                            } else {
                                fs
                            },
                        ),
                    )
                }
            },
        }
    }
}

/// Collecting the blocks of inode `ino`, held as `i`: nothing when they were
/// collected before; else they are marked as collected and recorded.
pub open spec fn collect_view(img: Map<u64, Seq<u8>>, v: CheckerView, ino: u64, i: Inode) -> Result<
    (CheckerView, Seq<Finding>),
    Fault,
> {
    if v.collected.contains(ino) {
        Ok((v, Seq::empty()))
    } else {
        record_all(marked_collected(v, ino), inode_pointers(img, i), ino)
    }
}

/// The block asked for to collect the blocks of inode `ino`, held as `i`:
/// none when they were collected before.
pub open spec fn collect_need(img: Map<u64, Seq<u8>>, v: CheckerView, ino: u64, i: Inode) -> Option<u64> {
    if v.collected.contains(ino) {
        None
    } else {
        pointers_need(img, i)
    }
}

/// Records the blocks of inode `ino`, held as `i`, unless they were collected before.
fn collect(c: &mut Checker, out: &mut Vec<Finding>, f: &Fetched, ino: u64, i: &Inode) -> (r: Result<
    (),
    Stop,
>)
    requires
        checker_wf(old(c)@),
    ensures
        match r {
            Ok(()) => {
                &&& collect_view(f@, old(c)@, ino, *i) is Ok
                &&& final(c)@ == collect_view(f@, old(c)@, ino, *i)->Ok_0.0
                &&& final(out)@ == old(out)@ + collect_view(f@, old(c)@, ino, *i)->Ok_0.1
                &&& checker_wf(final(c)@)
                &&& final(c)@.visited == old(c)@.visited
                &&& collect_need(f@, old(c)@, ino, *i) is None
            },
            Err(Stop::Need(n)) => !f@.dom().contains(n) && collect_need(f@, old(c)@, ino, *i) == Some(n),
            Err(Stop::Fault(x)) => collect_view(f@, old(c)@, ino, *i) == Err::<
                (CheckerView, Seq<Finding>),
                Fault,
            >(x),
        },
{
    let ghost v0 = c@;
    let ghost out0 = out@;
    if !c.first_collection(ino) {
        assert(v0.collected.insert(ino) =~= v0.collected);
        assert(c@ == v0);
        assert(out@ == out0 + Seq::<Finding>::empty());
        return Ok(());
    }
    let ptrs = match owned_pointers(f, i) {
        Step::Done(_, v) => v,
        Step::Need(n) => return Err(Stop::Need(n)),
        Step::Fault(x) => return Err(Stop::Fault(x)),
    };
    let ghost v1 = c@;
    let ghost ps = ptrs@;
    let mut k: usize = 0;
    assert(ps.take(0) =~= Seq::<u64>::empty());
    assert(out@.subrange(out0.len() as int, out@.len() as int) =~= Seq::<Finding>::empty());
    assert(out@.subrange(0, out0.len() as int) =~= out0);
    while k < ptrs.len()
        invariant
            0 <= k <= ptrs@.len(),
            ps == ptrs@,
            v0 == old(c)@,
            out0 == old(out)@,
            !v0.collected.contains(ino),
            v1 == marked_collected(v0, ino),
            ps == inode_pointers(f@, *i),
            c@.visited == v0.visited,
            checker_wf(c@),
            record_all(v1, ps.take(k as int), ino) == Ok::<(CheckerView, Seq<Finding>), Fault>(
                (c@, out@.subrange(out0.len() as int, out@.len() as int)),
            ),
            out@.subrange(0, out0.len() as int) == out0,
            out0.len() <= out@.len(),
        decreases ptrs@.len() - k,
    {
        let b = ptrs[k];
        proof {
            assert(ps.take(k + 1).drop_last() =~= ps.take(k as int));
            assert(ps.take(k + 1).last() == b);
        }
        let invalid = b != 0 && (b < c.data_start() || b >= c.total_blocks());
        if invalid && c.errors() == u32::MAX {
            proof {
                lemma_record_error_stays(v1, ps, ino, k + 1, ps.len() as int);
                assert(ps.take(ps.len() as int) =~= ps);
            }
            return Err(Stop::Fault(Fault::Overflow));
        }
        let ghost before = out@;
        c.record_block(b, ino);
        if invalid {
            out.push(Finding::InvalidPointer { inode: ino, block: b });
        }
        proof {
            assert(out@.subrange(0, out0.len() as int) =~= out0);
            if invalid {
                assert(out@.subrange(out0.len() as int, out@.len() as int) =~= before.subrange(
                    out0.len() as int,
                    before.len() as int,
                ).push(Finding::InvalidPointer { inode: ino, block: b }));
            } else {
                assert(out@ == before);
            }
        }
        k = k + 1;
    }
    proof {
        assert(ps.take(ps.len() as int) =~= ps);
        assert(out@ =~= out0 + out@.subrange(out0.len() as int, out@.len() as int));
    }
    Ok(())
}

/// Once recording fails on a prefix of the pointers, it fails the same way
/// on every longer prefix.
proof fn lemma_record_error_stays(v: CheckerView, ps: Seq<u64>, owner: u64, j: int, k: int)
    requires
        0 <= j <= k <= ps.len(),
        record_all(v, ps.take(j), owner) is Err,
    ensures
        record_all(v, ps.take(k), owner) == record_all(v, ps.take(j), owner),
    decreases k - j,
{
    if j < k {
        assert(ps.take(j + 1).drop_last() =~= ps.take(j));
        lemma_record_error_stays(v, ps, owner, j + 1, k);
    }
}

/// Levels of directories enough for any walk: each level enters a directory
/// not entered before, and directories are numbered below 2^32.
pub open spec fn walk_fuel() -> nat {
    0x1_0000_0001
}

/// `r` with the findings `fs` in front of its own.
pub open spec fn after_findings(fs: Seq<Finding>, r: Result<(CheckerView, Seq<Finding>), Fault>) -> Result<
    (CheckerView, Seq<Finding>),
    Fault,
> {
    match r {
        Ok((v, more)) => Ok((v, fs + more)),
        Err(f) => Err(f),
    }
}

/// Walking directory `dir`, whose parent is `parent`, from checker state
/// `v` with `fuel` levels left: a directory met again is a cycle; else it is
/// marked as walked, its blocks are collected and its entries are walked.
pub open spec fn walk_dir_spec(
    img: Map<u64, Seq<u8>>,
    sb: Superblock,
    v: CheckerView,
    dir: u64,
    parent: u64,
    fuel: nat,
) -> Result<(CheckerView, Seq<Finding>), Fault>
    decreases fuel, 1int, 0int,
{
    if v.visited.contains(dir) {
        Ok((v, seq![Finding::Cycle { dir }]))
    } else if fuel == 0 {
        Err(Fault::Overflow)
    } else if !table_ok(sb, dir) {
        Err(Fault::Overflow)
    } else {
        match collect_view(img, entered(v, dir), dir, inode_in(img, sb, dir)) {
            Err(f) => Err(f),
            Ok((v2, fs2)) => match listing_of(img, sb, dir) {
                Err(f) => Err(f),
                Ok(es) => after_findings(fs2, walk_entries_spec(img, sb, v2, dir, parent, es, 0, fuel)),
            },
        }
    }
}

/// Walking the entries of `dir` from the `k`-th on: each is judged; an entry
/// naming an inode gets that inode's blocks collected, and a subdirectory is
/// counted and walked before the next entry.
pub open spec fn walk_entries_spec(
    img: Map<u64, Seq<u8>>,
    sb: Superblock,
    v: CheckerView,
    dir: u64,
    parent: u64,
    es: Seq<(u32, Seq<char>)>,
    k: int,
    fuel: nat,
) -> Result<(CheckerView, Seq<Finding>), Fault>
    decreases fuel, 0int, es.len() - k,
{
    if k < 0 || k >= es.len() {
        Ok((v, Seq::empty()))
    } else {
        let ino = es[k].0 as u64;
        let name = es[k].1;
        let note = entry_note(dir, parent, ino, name);
        if (note == EntryNote::BadSelf || note == EntryNote::BadParent) && v.errors == u32::MAX {
            Err(Fault::Overflow)
        } else if note == EntryNote::Child && count_of(v.link_counts, ino) == u32::MAX {
            Err(Fault::Overflow)
        } else {
            let v1 = entry_view(v, dir, parent, ino, name);
            if note != EntryNote::Child {
                let f1 = if note == EntryNote::BadSelf {
                    seq![Finding::BadSelf { dir, ino }]
                } else if note == EntryNote::BadParent {
                    seq![Finding::BadParent { dir, ino, parent }]
                } else {
                    Seq::empty()
                };
                after_findings(f1, walk_entries_spec(img, sb, v1, dir, parent, es, k + 1, fuel))
            } else if !table_ok(sb, ino) {
                Err(Fault::Overflow)
            } else {
                let ci = inode_in(img, sb, ino);
                match collect_view(img, v1, ino, ci) {
                    Err(f) => Err(f),
                    Ok((v2, fs2)) => {
                        if !spec_is_directory(ci.mode) {
                            after_findings(fs2, walk_entries_spec(img, sb, v2, dir, parent, es, k + 1, fuel))
                        } else if count_of(v2.subdir_counts, dir) == u32::MAX {
                            Err(Fault::Overflow)
                        } else if fuel == 0 {
                            Err(Fault::Overflow)
                        } else {
                            match walk_dir_spec(img, sb, subdir_counted(v2, dir), ino, dir, (fuel - 1) as nat) {
                                Err(f) => Err(f),
                                Ok((v4, fs4)) => after_findings(
                                    fs2 + fs4,
                                    walk_entries_spec(img, sb, v4, dir, parent, es, k + 1, fuel),
                                ),
                            }
                        }
                    },
                }
            }
        }
    }
}

/// The block the walk of directory `dir` asks for first, from checker state
/// `v` with `fuel` levels left: that of its inode, of its blocks, of its
/// entries, then of the walk of its entries.
pub open spec fn walk_dir_need(
    img: Map<u64, Seq<u8>>,
    sb: Superblock,
    v: CheckerView,
    dir: u64,
    parent: u64,
    fuel: nat,
) -> Option<u64>
    decreases fuel, 1int, 0int,
{
    if v.visited.contains(dir) || fuel == 0 || !table_ok(sb, dir) {
        None
    } else {
        let i = inode_in(img, sb, dir);
        first_need(
            inode_need(img, sb, dir),
            first_need(
                collect_need(img, entered(v, dir), dir, i),
                match collect_view(img, entered(v, dir), dir, i) {
                    Err(_) => None,
                    Ok((v2, fs2)) => first_need(
                        entries_need(img, sb, dir),
                        match listing_of(img, sb, dir) {
                            Err(_) => None,
                            Ok(es) => walk_entries_need(img, sb, v2, dir, parent, es, 0, fuel),
                        },
                    ),
                },
            ),
        )
    }
}

/// The block the walk of the entries of `dir` from the `k`-th on asks for
/// first: for each entry naming an inode, that of the inode, of its blocks,
/// and, for a subdirectory, of its walk.
pub open spec fn walk_entries_need(
    img: Map<u64, Seq<u8>>,
    sb: Superblock,
    v: CheckerView,
    dir: u64,
    parent: u64,
    es: Seq<(u32, Seq<char>)>,
    k: int,
    fuel: nat,
) -> Option<u64>
    decreases fuel, 0int, es.len() - k,
{
    if k < 0 || k >= es.len() {
        None
    } else {
        let ino = es[k].0 as u64;
        let name = es[k].1;
        let note = entry_note(dir, parent, ino, name);
        if (note == EntryNote::BadSelf || note == EntryNote::BadParent) && v.errors == u32::MAX {
            None
        } else if note == EntryNote::Child && count_of(v.link_counts, ino) == u32::MAX {
            None
        } else {
            let v1 = entry_view(v, dir, parent, ino, name);
            if note != EntryNote::Child {
                walk_entries_need(img, sb, v1, dir, parent, es, k + 1, fuel)
            } else if !table_ok(sb, ino) {
                None
            } else {
                let ci = inode_in(img, sb, ino);
                first_need(
                    inode_need(img, sb, ino),
                    first_need(
                        collect_need(img, v1, ino, ci),
                        match collect_view(img, v1, ino, ci) {
                            Err(_) => None,
                            Ok((v2, fs2)) => {
                                if !spec_is_directory(ci.mode) {
                                    walk_entries_need(img, sb, v2, dir, parent, es, k + 1, fuel)
                                } else if count_of(v2.subdir_counts, dir) == u32::MAX || fuel == 0 {
                                    None
                                } else {
                                    let vs = subdir_counted(v2, dir);
                                    first_need(
                                        walk_dir_need(img, sb, vs, ino, dir, (fuel - 1) as nat),
                                        match walk_dir_spec(img, sb, vs, ino, dir, (fuel - 1) as nat) {
                                            Err(_) => None,
                                            Ok((v4, fs4)) => walk_entries_need(
                                                img,
                                                sb,
                                                v4,
                                                dir,
                                                parent,
                                                es,
                                                k + 1,
                                                fuel,
                                            ),
                                        },
                                    )
                                }
                            },
                        },
                    ),
                )
            }
        }
    }
}

/// Every directory walked is numbered below 2^32.
pub open spec fn visited_ok(v: CheckerView) -> bool {
    forall|x: u64| v.visited.contains(x) ==> x < 0x1_0000_0000
}

/// At most 2^32 directories can be walked.
proof fn lemma_visited_len(vis: Set<u64>)
    requires
        forall|x: u64| vis.contains(x) ==> x < 0x1_0000_0000,
    ensures
        vis.finite(),
        vis.len() <= 0x1_0000_0000,
{
    let r = Set::<u64>::range(0, 0x1_0000_0000);
    vstd::set_lib::range_set_properties::<u64>(0, 0x1_0000_0000);
    assert(vis.subset_of(r));
    vstd::set_lib::lemma_len_subset(vis, r);
}

/// Findings in front of findings in front of a result are their
/// concatenation in front of it.
proof fn lemma_after_findings_join(a: Seq<Finding>, b: Seq<Finding>, r: Result<(CheckerView, Seq<Finding>), Fault>)
    ensures
        after_findings(a, after_findings(b, r)) == after_findings(a + b, r),
{
    match r {
        Ok((v, more)) => {
            assert(a + (b + more) =~= (a + b) + more);
        },
        Err(_) => {},
    }
}

/// What `out` holds past its first `n` items.
pub open spec fn tail_of(out: Seq<Finding>, n: int) -> Seq<Finding> {
    out.subrange(n, out.len() as int)
}

/// Walks directory `dir`, whose parent is `parent`, appending what it finds.
#[verifier::rlimit(80)]
#[verifier::spinoff_prover]
fn walk_dir(
    c: &mut Checker,
    out: &mut Vec<Finding>,
    f: &Fetched,
    sb: &Superblock,
    dir: u64,
    parent: u64,
    Ghost(fuel): Ghost<nat>,
) -> (r: Result<(), Stop>)
    requires
        checker_wf(old(c)@),
        visited_ok(old(c)@),
        fuel + old(c)@.visited.len() > 0x1_0000_0000,
        dir < 0x1_0000_0000,
    ensures
        match r {
            Ok(()) => {
                &&& walk_dir_spec(f@, *sb, old(c)@, dir, parent, fuel) is Ok
                &&& final(c)@ == walk_dir_spec(f@, *sb, old(c)@, dir, parent, fuel)->Ok_0.0
                &&& final(out)@ == old(out)@ + walk_dir_spec(f@, *sb, old(c)@, dir, parent, fuel)->Ok_0.1
                &&& checker_wf(final(c)@)
                &&& visited_ok(final(c)@)
                &&& old(c)@.visited.subset_of(final(c)@.visited)
                &&& walk_dir_need(f@, *sb, old(c)@, dir, parent, fuel) is None
            },
            Err(Stop::Need(n)) => !f@.dom().contains(n) && walk_dir_need(
                f@,
                *sb,
                old(c)@,
                dir,
                parent,
                fuel,
            ) == Some(n),
            Err(Stop::Fault(x)) => walk_dir_spec(f@, *sb, old(c)@, dir, parent, fuel) == Err::<
                (CheckerView, Seq<Finding>),
                Fault,
            >(x),
        },
    decreases fuel,
{
    let ghost v0 = c@;
    let ghost out0 = out@;
    proof {
        lemma_visited_len(v0.visited);
    }
    if !c.enter_directory(dir) {
        assert(v0.visited.insert(dir) =~= v0.visited);
        assert(c@ == v0);
        out.push(Finding::Cycle { dir });
        assert(out@ == out0 + seq![Finding::Cycle { dir }]);
        return Ok(());
    }
    let ghost ve = c@;
    proof {
        assert(ve == entered(v0, dir));
        lemma_visited_len(c@.visited);
        assert(c@.visited.len() == v0.visited.len() + 1);
        assert(fuel > 0);
    }
    let run = Run::new();
    let i = match load_inode(&run, f, sb, dir) {
        Ok(i) => i,
        Err(e) => {
            proof {
                assert(run.image(f@) == f@);
            }
            return Err(e);
        },
    };
    proof {
        assert(run.image(f@) == f@);
        assert(i == inode_in(f@, *sb, dir));
    }
    match collect(c, out, f, dir, &i) {
        Ok(()) => {},
        Err(e) => return Err(e),
    }
    let ghost v2 = c@;
    let ghost out2 = out@;
    let ghost fs2 = tail_of(out2, out0.len() as int);
    proof {
        assert(out2 == out0 + collect_view(f@, ve, dir, i)->Ok_0.1);
        assert(fs2 =~= collect_view(f@, ve, dir, i)->Ok_0.1);
        assert(out2 =~= out0 + fs2);
    }
    let entries = match list(&run, f, sb, dir) {
        Ok(v) => v,
        Err(e) => return Err(e),
    };
    let ghost es = pairs_view(entries@);
    let ghost whole = walk_entries_spec(f@, *sb, v2, dir, parent, es, 0, fuel);
    proof {
        assert(listing_of(f@, *sb, dir) == Ok::<Seq<(u32, Seq<char>)>, Fault>(es));
        assert(walk_dir_spec(f@, *sb, v0, dir, parent, fuel) == after_findings(fs2, whole));
    }
    let mut k: usize = 0;
    assert(tail_of(out@, out2.len() as int) =~= Seq::<Finding>::empty());
    assert(out@.subrange(0, out2.len() as int) =~= out2);
    while k < entries.len()
        invariant
            0 <= k <= entries@.len(),
            es == pairs_view(entries@),
            es.len() == entries@.len(),
            run.image(f@) == f@,
            fuel > 0,
            fuel + v0.visited.len() > 0x1_0000_0000,
            v0.visited.insert(dir).subset_of(c@.visited),
            !v0.visited.contains(dir),
            v0.visited.len() + 1 == v0.visited.insert(dir).len(),
            v0.visited.insert(dir).finite(),
            dir < 0x1_0000_0000,
            checker_wf(c@),
            visited_ok(c@),
            whole == walk_entries_spec(f@, *sb, v2, dir, parent, es, 0, fuel),
            v0 == old(c)@,
            out0 == old(out)@,
            out2 == out0 + fs2,
            walk_dir_spec(f@, *sb, v0, dir, parent, fuel) == after_findings(fs2, whole),
            whole == after_findings(
                tail_of(out@, out2.len() as int),
                walk_entries_spec(f@, *sb, c@, dir, parent, es, k as int, fuel),
            ),
            out@.subrange(0, out2.len() as int) == out2,
            out2.len() <= out@.len(),
            walk_dir_need(f@, *sb, v0, dir, parent, fuel) == walk_entries_need(
                f@,
                *sb,
                c@,
                dir,
                parent,
                es,
                k as int,
                fuel,
            ),
        decreases entries@.len() - k,
    {
        let ino32 = entries[k].0;
        let ino = ino32 as u64;
        let name = &entries[k].1;
        let ghost vk = c@;
        let ghost outk = out@;
        let ghost wk = walk_entries_spec(f@, *sb, vk, dir, parent, es, k as int, fuel);
        let ghost note = entry_note(dir, parent, ino, name@);
        proof {
            assert(es[k as int].0 == ino32);
            assert(es[k as int].1 == name@);
        }
        let dot = is_dot(name);
        let dot_dot = is_dot_dot(name);
        let bad = (dot && ino != dir) || (!dot && dot_dot && ino != parent);
        if bad && c.errors() == u32::MAX {
            proof {
                assert(wk == Err::<(CheckerView, Seq<Finding>), Fault>(Fault::Overflow));
            }
            return Err(Stop::Fault(Fault::Overflow));
        }
        if !dot && !dot_dot && c.link_count(ino) == u32::MAX {
            proof {
                assert(wk == Err::<(CheckerView, Seq<Finding>), Fault>(Fault::Overflow));
            }
            return Err(Stop::Fault(Fault::Overflow));
        }
        let got = c.check_entry(dir, parent, ino, name);
        let ghost v1 = c@;
        let ghost mut step: Seq<Finding> = Seq::empty();
        match got {
            EntryNote::BadSelf => {
                out.push(Finding::BadSelf { dir, ino });
                proof {
                    step = seq![Finding::BadSelf { dir, ino }];
                }
            },
            EntryNote::BadParent => {
                out.push(Finding::BadParent { dir, ino, parent });
                proof {
                    step = seq![Finding::BadParent { dir, ino, parent }];
                }
            },
            EntryNote::SelfOk => {},
            EntryNote::ParentOk => {},
            EntryNote::Child => {
                let ci = match load_inode(&run, f, sb, ino) {
                    Ok(i) => i,
                    Err(e) => {
                        proof {
                            if e is Fault {
                                assert(wk == Err::<(CheckerView, Seq<Finding>), Fault>(Fault::Overflow));
                            }
                        }
                        return Err(e);
                    },
                };
                proof {
                    assert(run.image(f@) == f@);
                    assert(ci == inode_in(f@, *sb, ino));
                }
                match collect(c, out, f, ino, &ci) {
                    Ok(()) => {},
                    Err(e) => return Err(e),
                }
                let ghost v3 = c@;
                let ghost fs3 = collect_view(f@, v1, ino, ci)->Ok_0.1;
                if is_directory(ci.mode) {
                    if c.subdirectories(dir) == u32::MAX {
                        proof {
                            assert(wk == Err::<(CheckerView, Seq<Finding>), Fault>(Fault::Overflow));
                        }
                        return Err(Stop::Fault(Fault::Overflow));
                    }
                    c.count_subdir(dir);
                    proof {
                        assert(c@ == subdir_counted(v3, dir));
                        lemma_visited_len(c@.visited);
                        vstd::set_lib::lemma_len_subset(v0.visited.insert(dir), c@.visited);
                    }
                    let ghost outs = out@;
                    let ghost vs = c@;
                    match walk_dir(c, out, f, sb, ino, dir, Ghost((fuel - 1) as nat)) {
                        Ok(()) => {},
                        Err(e) => {
                            return Err(e);
                        },
                    }
                    proof {
                        let fs4 = walk_dir_spec(f@, *sb, vs, ino, dir, (fuel - 1) as nat)->Ok_0.1;
                        step = fs3 + fs4;
                        assert(out@ =~= outk + step);
                    }
                } else {
                    proof {
                        step = fs3;
                        assert(out@ =~= outk + step);
                    }
                }
            },
        }
        proof {
            assert(out@ =~= outk + step);
            assert(wk == after_findings(step, walk_entries_spec(f@, *sb, c@, dir, parent, es, k + 1, fuel)));
            lemma_after_findings_join(
                tail_of(outk, out2.len() as int),
                step,
                walk_entries_spec(f@, *sb, c@, dir, parent, es, k + 1, fuel),
            );
            assert(out@.subrange(0, out2.len() as int) =~= out2);
            assert(tail_of(out@, out2.len() as int) =~= tail_of(outk, out2.len() as int) + step);
        }
        k = k + 1;
    }
    proof {
        assert(out@ =~= out2 + tail_of(out@, out2.len() as int));
        assert(out@ =~= out0 + (fs2 + tail_of(out@, out2.len() as int)));
    }
    Ok(())
}

/// The checker before the walk: nothing recorded, only the root referenced.
pub open spec fn initial_view(sb: Superblock) -> CheckerView {
    CheckerView {
        data_start_block: sb.data_start_block,
        total_blocks: sb.total_blocks,
        errors: 0,
        owners: Map::empty(),
        recorded: Seq::empty(),
        referenced: Set::empty().insert(ROOT_INODE as u64),
        link_counts: Map::empty(),
        linked: Seq::empty(),
        subdir_counts: Map::empty(),
        visited: Set::empty(),
        collected: Set::empty(),
    }
}

/// The walk of the whole tree of `img` from the root, which is its own parent.
pub open spec fn tree_walk(img: Map<u64, Seq<u8>>, sb: Superblock) -> Result<
    (CheckerView, Seq<Finding>),
    Fault,
> {
    walk_dir_spec(img, sb, initial_view(sb), ROOT_INODE as u64, ROOT_INODE as u64, walk_fuel())
}

/// The block the walk of the whole tree asks for first.
pub open spec fn tree_need(img: Map<u64, Seq<u8>>, sb: Superblock) -> Option<u64> {
    walk_dir_need(img, sb, initial_view(sb), ROOT_INODE as u64, ROOT_INODE as u64, walk_fuel())
}

/// The checker after the walk, and what the walk found, in order.
pub struct Walked {
    pub checker: Checker,
    pub findings: Vec<Finding>,
}

/// Walks the tree of the image from the root, on the blocks fetched so far.
pub fn walk_tree(f: &Fetched, sb: &Superblock) -> (r: Step<Walked>)
    ensures
        match r {
            Step::Done(writes, w) => {
                &&& writes@.len() == 0
                &&& tree_walk(f@, *sb) == Ok::<(CheckerView, Seq<Finding>), Fault>(
                    (w.checker@, w.findings@),
                )
                &&& checker_wf(w.checker@)
                &&& tree_need(f@, *sb) is None
            },
            Step::Need(n) => !f@.dom().contains(n) && tree_need(f@, *sb) == Some(n),
            Step::Fault(x) => tree_walk(f@, *sb) == Err::<(CheckerView, Seq<Finding>), Fault>(x),
        },
{
    let mut c = Checker::new(sb.data_start_block, sb.total_blocks);
    let mut out: Vec<Finding> = Vec::new();
    proof {
        assert(c@ == initial_view(*sb));
        assert(out@ == Seq::<Finding>::empty());
    }
    let root = ROOT_INODE as u64;
    match walk_dir(&mut c, &mut out, f, sb, root, root, Ghost(walk_fuel())) {
        Ok(()) => {
            proof {
                assert(out@ =~= tree_walk(f@, *sb)->Ok_0.1);
            }
            Step::Done(Vec::new(), Walked { checker: c, findings: out })
        },
        Err(Stop::Need(n)) => Step::Need(n),
        Err(Stop::Fault(x)) => Step::Fault(x),
    }
}

/// How many of `fs` are errors: every finding but a cycle, which is a warning.
pub open spec fn errors_in(fs: Seq<Finding>) -> nat
    decreases fs.len(),
{
    if fs.len() == 0 {
        0
    } else {
        errors_in(fs.drop_last()) + if fs.last() is Cycle {
            0nat
        } else {
            1nat
        }
    }
}

/// The errors of two runs of findings add up.
proof fn lemma_errors_in_join(a: Seq<Finding>, b: Seq<Finding>)
    ensures
        errors_in(a + b) == errors_in(a) + errors_in(b),
    decreases b.len(),
{
    if b.len() == 0 {
        assert(a + b =~= a);
    } else {
        assert((a + b).drop_last() =~= a + b.drop_last());
        lemma_errors_in_join(a, b.drop_last());
    }
}

/// When `r` is a checker state with findings, reached from `v`, its error
/// count grew by the errors among the findings.
pub open spec fn counts_errors(v: CheckerView, r: Result<(CheckerView, Seq<Finding>), Fault>) -> bool {
    r is Ok ==> r->Ok_0.0.errors == v.errors + errors_in(r->Ok_0.1)
}

proof fn lemma_after_findings_counts(v: CheckerView, w: CheckerView, fs: Seq<Finding>, r: Result<(CheckerView, Seq<Finding>), Fault>)
    requires
        w.errors == v.errors + errors_in(fs),
        counts_errors(w, r),
    ensures
        counts_errors(v, after_findings(fs, r)),
{
    if let Ok((x, more)) = r {
        lemma_errors_in_join(fs, more);
    }
}

proof fn lemma_record_all_errors(v: CheckerView, ptrs: Seq<u64>, owner: u64)
    ensures
        counts_errors(v, record_all(v, ptrs, owner)),
    decreases ptrs.len(),
{
    if ptrs.len() > 0 {
        lemma_record_all_errors(v, ptrs.drop_last(), owner);
        if let Ok((v1, fs)) = record_all(v, ptrs.drop_last(), owner) {
            let b = ptrs.last();
            let f = Finding::InvalidPointer { inode: owner, block: b };
            assert(fs.push(f).drop_last() =~= fs);
        }
    }
}

proof fn lemma_walk_dir_errors(
    img: Map<u64, Seq<u8>>,
    sb: Superblock,
    v: CheckerView,
    dir: u64,
    parent: u64,
    fuel: nat,
)
    ensures
        counts_errors(v, walk_dir_spec(img, sb, v, dir, parent, fuel)),
    decreases fuel, 1int, 0int,
{
    if v.visited.contains(dir) {
        let one = seq![Finding::Cycle { dir }];
        assert(errors_in(Seq::<Finding>::empty()) == 0);
        assert(one.drop_last() =~= Seq::<Finding>::empty());
        assert(one.last() is Cycle);
        assert(errors_in(one) == 0);
    } else if fuel > 0 && table_ok(sb, dir) {
        assert(errors_in(Seq::<Finding>::empty()) == 0);
        let ve = entered(v, dir);
        let i = inode_in(img, sb, dir);
        if !ve.collected.contains(dir) {
            lemma_record_all_errors(marked_collected(ve, dir), inode_pointers(img, i), dir);
        }
        if let Ok((v2, fs2)) = collect_view(img, ve, dir, i) {
            if let Ok(es) = listing_of(img, sb, dir) {
                lemma_walk_entries_errors(img, sb, v2, dir, parent, es, 0, fuel);
                lemma_after_findings_counts(v, v2, fs2, walk_entries_spec(img, sb, v2, dir, parent, es, 0, fuel));
            }
        }
    }
}

proof fn lemma_walk_entries_errors(
    img: Map<u64, Seq<u8>>,
    sb: Superblock,
    v: CheckerView,
    dir: u64,
    parent: u64,
    es: Seq<(u32, Seq<char>)>,
    k: int,
    fuel: nat,
)
    ensures
        counts_errors(v, walk_entries_spec(img, sb, v, dir, parent, es, k, fuel)),
    decreases fuel, 0int, es.len() - k,
{
    if 0 <= k < es.len() {
        let ino = es[k].0 as u64;
        let name = es[k].1;
        let note = entry_note(dir, parent, ino, name);
        let v1 = entry_view(v, dir, parent, ino, name);
        lemma_walk_entries_errors(img, sb, v1, dir, parent, es, k + 1, fuel);
        if note != EntryNote::Child {
            if note == EntryNote::BadSelf || note == EntryNote::BadParent {
                let f1 = if note == EntryNote::BadSelf {
                    seq![Finding::BadSelf { dir, ino }]
                } else {
                    seq![Finding::BadParent { dir, ino, parent }]
                };
                assert(errors_in(Seq::<Finding>::empty()) == 0);
                assert(f1.drop_last() =~= Seq::<Finding>::empty());
                assert(!(f1.last() is Cycle));
                assert(errors_in(f1) == 1);
                if v.errors < u32::MAX {
                    lemma_after_findings_counts(v, v1, f1, walk_entries_spec(img, sb, v1, dir, parent, es, k + 1, fuel));
                }
            } else {
                assert(errors_in(Seq::<Finding>::empty()) == 0);
                lemma_after_findings_counts(v, v1, Seq::empty(), walk_entries_spec(img, sb, v1, dir, parent, es, k + 1, fuel));
            }
        } else if table_ok(sb, ino) {
            assert(errors_in(Seq::<Finding>::empty()) == 0);
            let ci = inode_in(img, sb, ino);
            if !v1.collected.contains(ino) {
                lemma_record_all_errors(marked_collected(v1, ino), inode_pointers(img, ci), ino);
            }
            if let Ok((v2, fs2)) = collect_view(img, v1, ino, ci) {
                lemma_walk_entries_errors(img, sb, v2, dir, parent, es, k + 1, fuel);
                if !spec_is_directory(ci.mode) {
                    lemma_after_findings_counts(v, v2, fs2, walk_entries_spec(img, sb, v2, dir, parent, es, k + 1, fuel));
                } else if fuel > 0 {
                    let vs = subdir_counted(v2, dir);
                    lemma_walk_dir_errors(img, sb, vs, ino, dir, (fuel - 1) as nat);
                    if let Ok((v4, fs4)) = walk_dir_spec(img, sb, vs, ino, dir, (fuel - 1) as nat) {
                        lemma_walk_entries_errors(img, sb, v4, dir, parent, es, k + 1, fuel);
                        lemma_errors_in_join(fs2, fs4);
                        lemma_after_findings_counts(v, v4, fs2 + fs4, walk_entries_spec(img, sb, v4, dir, parent, es, k + 1, fuel));
                    }
                }
            }
        }
    }
}

/// The error count that the walk leaves is the number of errors among the
/// findings it reports: each invalid pointer and each bad "." or ".." entry
/// is counted once, and a cycle is reported without being counted.
pub proof fn lemma_walk_counts_its_errors(img: Map<u64, Seq<u8>>, sb: Superblock)
    ensures
        tree_walk(img, sb) is Ok ==> tree_walk(img, sb)->Ok_0.0.errors == errors_in(
            tree_walk(img, sb)->Ok_0.1,
        ),
{
    lemma_walk_dir_errors(img, sb, initial_view(sb), ROOT_INODE as u64, ROOT_INODE as u64, walk_fuel());
}


// ---------------------------------------------------------------- the link-count pass

/// The links inode `n` must have by the tallies `v`: two plus its
/// subdirectories for a directory, else the entries that name it.
pub open spec fn links_expected(v: CheckerView, n: u64, is_dir: bool) -> int {
    if is_dir {
        2 + count_of(v.subdir_counts, n)
    } else {
        count_of(v.link_counts, n) as int
    }
}

/// Checking the link count of inode `n` against the tallies `v`, taking it
/// as a directory when `as_dir` or when its mode says so: the mismatch, if
/// any, as (inode, links recorded, links expected, `as_dir`).
pub open spec fn link_check(img: Map<u64, Seq<u8>>, sb: Superblock, v: CheckerView, n: u64, as_dir: bool) -> Result<
    Seq<(u64, u32, u32, bool)>,
    Fault,
> {
    if !table_ok(sb, n) {
        Err(Fault::Overflow)
    } else {
        let i = inode_in(img, sb, n);
        let d = as_dir || spec_is_directory(i.mode);
        if d && count_of(v.subdir_counts, n) > u32::MAX - 2 {
            Err(Fault::Overflow)
        } else {
            let e = links_expected(v, n, d) as u32;
            Ok(
                if i.hard_links != e {
                    seq![(n, i.hard_links, e, as_dir)]
                } else {
                    Seq::empty()
                },
            )
        }
    }
}

/// Findings `a` in front of the findings of `r`.
pub open spec fn joined(a: Seq<(u64, u32, u32, bool)>, r: Result<Seq<(u64, u32, u32, bool)>, Fault>) -> Result<
    Seq<(u64, u32, u32, bool)>,
    Fault,
> {
    match r {
        Ok(b) => Ok(a + b),
        Err(f) => Err(f),
    }
}

/// Checking the link counts of the inodes `ns` from the `k`-th on, in order.
pub open spec fn links_from(
    img: Map<u64, Seq<u8>>,
    sb: Superblock,
    v: CheckerView,
    ns: Seq<u64>,
    k: int,
) -> Result<Seq<(u64, u32, u32, bool)>, Fault>
    decreases ns.len() - k,
{
    if k < 0 || k >= ns.len() {
        Ok(Seq::empty())
    } else {
        match link_check(img, sb, v, ns[k], false) {
            Err(f) => Err(f),
            Ok(a) => joined(a, links_from(img, sb, v, ns, k + 1)),
        }
    }
}

/// The link-count pass: the root, always taken as a directory, then every
/// inode an entry names, in the order first found.
pub open spec fn link_pass_spec(img: Map<u64, Seq<u8>>, sb: Superblock, v: CheckerView) -> Result<
    Seq<(u64, u32, u32, bool)>,
    Fault,
> {
    match link_check(img, sb, v, ROOT_INODE as u64, true) {
        Err(f) => Err(f),
        Ok(a) => joined(a, links_from(img, sb, v, v.linked, 0)),
    }
}

/// The first table block missing among the inodes `ns` from the `k`-th on.
pub open spec fn links_need(img: Map<u64, Seq<u8>>, sb: Superblock, ns: Seq<u64>, k: int) -> Option<u64>
    decreases ns.len() - k,
{
    if k < 0 || k >= ns.len() {
        None
    } else {
        first_need(inode_need(img, sb, ns[k]), links_need(img, sb, ns, k + 1))
    }
}

/// The block the link-count pass asks for: the root's table block, then
/// those of the inodes named by entries.
pub open spec fn link_pass_need(img: Map<u64, Seq<u8>>, sb: Superblock, v: CheckerView) -> Option<u64> {
    first_need(inode_need(img, sb, ROOT_INODE as u64), links_need(img, sb, v.linked, 0))
}

/// Runs the link-count pass on the blocks fetched so far: each inode whose
/// recorded links disagree with the tallies, as (inode, links recorded,
/// links expected, whether it is the root's check), in order. Counts no
/// error itself.
pub fn link_pass(c: &Checker, f: &Fetched, sb: &Superblock) -> (r: Step<Vec<(u64, u32, u32, bool)>>)
    ensures
        match r {
            Step::Need(n) => !f@.dom().contains(n) && link_pass_need(f@, *sb, c@) == Some(n),
            Step::Fault(x) => link_pass_spec(f@, *sb, c@) == Err::<Seq<(u64, u32, u32, bool)>, Fault>(x),
            Step::Done(log, out) => log@.len() == 0 && link_pass_spec(f@, *sb, c@) == Ok::<
                Seq<(u64, u32, u32, bool)>,
                Fault,
            >(out@),
        },
{
    let run = Run::new();
    let root = ROOT_INODE as u64;
    let ri = match load_inode(&run, f, sb, root) {
        Ok(i) => i,
        Err(e) => return stop_step(e),
    };
    if c.subdirectories(root) > u32::MAX - 2 {
        return Step::Fault(Fault::Overflow);
    }
    let e = c.expected_links(root, true);
    let mut out: Vec<(u64, u32, u32, bool)> = Vec::new();
    if ri.hard_links != e {
        out.push((root, ri.hard_links, e, true));
    }
    let ns = c.linked_inodes();
    let ghost a = out@;
    assert(a + Seq::<(u64, u32, u32, bool)>::empty() =~= a);
    let mut k: usize = 0;
    while k < ns.len()
        invariant
            0 <= k <= ns@.len(),
            ns@ == c@.linked,
            run.image(f@) == f@,
            link_pass_spec(f@, *sb, c@) == joined(out@, links_from(f@, *sb, c@, ns@, k as int)),
            link_pass_need(f@, *sb, c@) == links_need(f@, *sb, ns@, k as int),
        decreases ns@.len() - k,
    {
        let n = ns[k];
        let i = match load_inode(&run, f, sb, n) {
            Ok(i) => i,
            Err(e) => return stop_step(e),
        };
        let d = is_directory(i.mode);
        if d && c.subdirectories(n) > u32::MAX - 2 {
            return Step::Fault(Fault::Overflow);
        }
        let e = c.expected_links(n, d);
        let ghost before = out@;
        if i.hard_links != e {
            out.push((n, i.hard_links, e, false));
        }
        proof {
            let chk = link_check(f@, *sb, c@, n, false)->Ok_0;
            assert(out@ == before + chk);
            let rest = links_from(f@, *sb, c@, ns@, k + 1);
            if let Ok(b) = rest {
                assert(before + (chk + b) =~= (before + chk) + b);
            }
        }
        k = k + 1;
    }
    Step::Done(Vec::new(), out)
}


// ---------------------------------------------------------------- the walk reaches every subdirectory

/// The entry `e` of a directory is an ordinary entry naming a directory.
pub open spec fn names_subdirectory(img: Map<u64, Seq<u8>>, sb: Superblock, e: (u32, Seq<char>)) -> bool {
    &&& e.1 != seq!['.']
    &&& e.1 != seq!['.', '.']
    &&& table_ok(sb, e.0 as u64)
    &&& spec_is_directory(inode_in(img, sb, e.0 as u64).mode)
}

/// Every directory that checker state `v` has walked, and `v0` had not,
/// has each subdirectory it names walked in `v` too.
pub open spec fn subdirectories_walked(img: Map<u64, Seq<u8>>, sb: Superblock, v0: CheckerView, v: CheckerView) -> bool {
    forall|d: u64, k: int|
        #![trigger v.visited.contains(d), listing_of(img, sb, d)->Ok_0[k]]
        v.visited.contains(d) && !v0.visited.contains(d) && listing_of(img, sb, d) is Ok && 0 <= k
            < listing_of(img, sb, d)->Ok_0.len() && names_subdirectory(
            img,
            sb,
            listing_of(img, sb, d)->Ok_0[k],
        ) ==> v.visited.contains(listing_of(img, sb, d)->Ok_0[k].0 as u64)
}

/// Recording pointers leaves the walked directories as they were.
proof fn lemma_record_all_keeps_visited(v: CheckerView, ptrs: Seq<u64>, owner: u64)
    ensures
        record_all(v, ptrs, owner) is Ok ==> record_all(v, ptrs, owner)->Ok_0.0.visited == v.visited,
    decreases ptrs.len(),
{
    if ptrs.len() > 0 {
        lemma_record_all_keeps_visited(v, ptrs.drop_last(), owner);
    }
}

/// Collecting blocks leaves the walked directories as they were.
proof fn lemma_collect_keeps_visited(img: Map<u64, Seq<u8>>, v: CheckerView, ino: u64, i: Inode)
    ensures
        collect_view(img, v, ino, i) is Ok ==> collect_view(img, v, ino, i)->Ok_0.0.visited == v.visited,
{
    if !v.collected.contains(ino) {
        lemma_record_all_keeps_visited(marked_collected(v, ino), inode_pointers(img, i), ino);
    }
}

/// Walking directory `dir` leaves it and every directory walked before
/// walked, and each directory it walks has its subdirectories walked.
proof fn lemma_walk_dir_closed(
    img: Map<u64, Seq<u8>>,
    sb: Superblock,
    v: CheckerView,
    dir: u64,
    parent: u64,
    fuel: nat,
)
    ensures
        walk_dir_spec(img, sb, v, dir, parent, fuel) is Ok ==> {
            let w = walk_dir_spec(img, sb, v, dir, parent, fuel)->Ok_0.0;
            &&& v.visited.subset_of(w.visited)
            &&& w.visited.contains(dir)
            &&& subdirectories_walked(img, sb, v, w)
        },
    decreases fuel, 1int, 0int,
{
    if !v.visited.contains(dir) && fuel > 0 && table_ok(sb, dir) {
        let ve = entered(v, dir);
        let i = inode_in(img, sb, dir);
        lemma_collect_keeps_visited(img, ve, dir, i);
        if let Ok((v2, fs2)) = collect_view(img, ve, dir, i) {
            if let Ok(es) = listing_of(img, sb, dir) {
                lemma_walk_entries_closed(img, sb, v2, dir, parent, es, 0, fuel);
                if let Ok((w, more)) = walk_entries_spec(img, sb, v2, dir, parent, es, 0, fuel) {
                    assert(subdirectories_walked(img, sb, v, w)) by {
                        assert forall|d: u64, k: int|
                            w.visited.contains(d) && !v.visited.contains(d) && listing_of(img, sb, d) is Ok
                                && 0 <= k < listing_of(img, sb, d)->Ok_0.len() && names_subdirectory(
                                img,
                                sb,
                                listing_of(img, sb, d)->Ok_0[k],
                            ) implies w.visited.contains(listing_of(img, sb, d)->Ok_0[k].0 as u64) by {
                            if d == dir {
                                assert(listing_of(img, sb, d)->Ok_0 == es);
                            } else {
                                assert(!v2.visited.contains(d));
                            }
                        }
                    }
                }
            }
        }
    }
}

/// Walking the entries of `dir` from the `k`-th on leaves every directory
/// walked before walked, walks each subdirectory those entries name, and
/// each directory it walks has its subdirectories walked.
proof fn lemma_walk_entries_closed(
    img: Map<u64, Seq<u8>>,
    sb: Superblock,
    v: CheckerView,
    dir: u64,
    parent: u64,
    es: Seq<(u32, Seq<char>)>,
    k: int,
    fuel: nat,
)
    requires
        0 <= k,
    ensures
        walk_entries_spec(img, sb, v, dir, parent, es, k, fuel) is Ok ==> {
            let w = walk_entries_spec(img, sb, v, dir, parent, es, k, fuel)->Ok_0.0;
            &&& v.visited.subset_of(w.visited)
            &&& forall|j: int|
                k <= j < es.len() && names_subdirectory(img, sb, #[trigger] es[j]) ==> w.visited.contains(
                    es[j].0 as u64,
                )
            &&& subdirectories_walked(img, sb, v, w)
        },
    decreases fuel, 0int, es.len() - k,
{
    if k < es.len() {
        let ino = es[k].0 as u64;
        let name = es[k].1;
        let note = entry_note(dir, parent, ino, name);
        let v1 = entry_view(v, dir, parent, ino, name);
        assert(v1.visited == v.visited);
        lemma_walk_entries_closed(img, sb, v1, dir, parent, es, k + 1, fuel);
        if note == EntryNote::Child && table_ok(sb, ino) {
            let ci = inode_in(img, sb, ino);
            lemma_collect_keeps_visited(img, v1, ino, ci);
            if let Ok((v2, fs2)) = collect_view(img, v1, ino, ci) {
                lemma_walk_entries_closed(img, sb, v2, dir, parent, es, k + 1, fuel);
                if spec_is_directory(ci.mode) && fuel > 0 {
                    let vs = subdir_counted(v2, dir);
                    lemma_walk_dir_closed(img, sb, vs, ino, dir, (fuel - 1) as nat);
                    if let Ok((v4, fs4)) = walk_dir_spec(img, sb, vs, ino, dir, (fuel - 1) as nat) {
                        lemma_walk_entries_closed(img, sb, v4, dir, parent, es, k + 1, fuel);
                        if let Ok((w, m)) = walk_entries_spec(img, sb, v4, dir, parent, es, k + 1, fuel) {
                            assert(subdirectories_walked(img, sb, v, w)) by {
                                assert forall|d: u64, j: int|
                                    w.visited.contains(d) && !v.visited.contains(d) && listing_of(
                                        img,
                                        sb,
                                        d,
                                    ) is Ok && 0 <= j < listing_of(img, sb, d)->Ok_0.len()
                                        && names_subdirectory(img, sb, listing_of(img, sb, d)->Ok_0[j])
                                        implies w.visited.contains(
                                    listing_of(img, sb, d)->Ok_0[j].0 as u64,
                                ) by {
                                    if v4.visited.contains(d) {
                                        assert(v4.visited.contains(listing_of(img, sb, d)->Ok_0[j].0 as u64));
                                    }
                                }
                            }
                            assert forall|j: int|
                                k <= j < es.len() && names_subdirectory(img, sb, #[trigger] es[j])
                                    implies w.visited.contains(es[j].0 as u64) by {
                                if j == k {
                                    assert(v4.visited.contains(ino));
                                }
                            }
                        }
                    }
                } else if !spec_is_directory(ci.mode) {
                    if let Ok((w, m)) = walk_entries_spec(img, sb, v2, dir, parent, es, k + 1, fuel) {
                        assert forall|j: int|
                            k <= j < es.len() && names_subdirectory(img, sb, #[trigger] es[j])
                                implies w.visited.contains(es[j].0 as u64) by {
                            if j == k {
                                assert(!spec_is_directory(ci.mode));
                            }
                        }
                    }
                }
            }
        } else {
            if let Ok((w, m)) = walk_entries_spec(img, sb, v1, dir, parent, es, k + 1, fuel) {
                assert forall|j: int|
                    k <= j < es.len() && names_subdirectory(img, sb, #[trigger] es[j]) implies w.visited.contains(
                    es[j].0 as u64,
                ) by {
                    if j == k {
                        assert(note != EntryNote::Child || !table_ok(sb, ino));
                    }
                }
            }
        }
    }
}

/// The walk of the tree walks the root and every subdirectory named by an
/// ordinary entry of a directory it walks: every directory reachable from
/// the root is walked (and, since a directory met again is reported as a
/// cycle and not entered, each is walked once).
pub proof fn lemma_walk_reaches_every_subdirectory(img: Map<u64, Seq<u8>>, sb: Superblock)
    ensures
        tree_walk(img, sb) is Ok ==> {
            let v = tree_walk(img, sb)->Ok_0.0;
            &&& v.visited.contains(ROOT_INODE as u64)
            &&& forall|d: u64, k: int|
                #![trigger v.visited.contains(d), listing_of(img, sb, d)->Ok_0[k]]
                v.visited.contains(d) && listing_of(img, sb, d) is Ok && 0 <= k < listing_of(
                    img,
                    sb,
                    d,
                )->Ok_0.len() && names_subdirectory(img, sb, listing_of(img, sb, d)->Ok_0[k])
                    ==> v.visited.contains(listing_of(img, sb, d)->Ok_0[k].0 as u64)
        },
{
    lemma_walk_dir_closed(
        img,
        sb,
        initial_view(sb),
        ROOT_INODE as u64,
        ROOT_INODE as u64,
        walk_fuel(),
    );
}

} // verus!
