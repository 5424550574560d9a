//! The file system operations of a mounted image. An operation runs on the
//! blocks read from the image so far: when the first block it reads has not
//! been read yet it asks for that one (each contract names it), and once it
//! has all it needs it returns the block
//! writes to perform, in order, and the answer to give. Each operation's
//! contract is a function of the image: what the image becomes and what is
//! answered.

use vstd::prelude::*;
use std::collections::HashMap;
use vstd::utf8::encode_utf8;
use crate::bytes::{Block, u32_at, with_u32, with_bytes};
use crate::bitmap::{Bitmap, bitmap_alloc, clear_bit_bytes};
use crate::layout::{Superblock, Inode, decoded_inode, inode_written, lemma_decoded_inode,
    lemma_inode_written, superblock_stored, superblock_bytes, MAGIC, ROOT_INODE, FT_REGULAR,
    FT_DIRECTORY};
use crate::fs::{Attr, FsError, ReadPlan, WritePlan, fuse_ino, inode_to_attr, inode_to_attr_spec,
    plan_read, read_plan, plan_write, write_plan, write_into_block, file_inode, inode_after_write,
    directory_inode, new_directory_bytes, new_directory_block, FileKind, is_directory,
    spec_is_directory};
use crate::inode::{InodeStore, inode_offset};
use crate::dir::{DirError, dir_lookup, dir_list, dir_find, insert_status, block_after_insert,
    lemma_block_after_insert, look_up_in_block, list_block, insert_into_block, remove_from_block,
    pairs_view};

verus! {

broadcast use vstd::std_specs::hash::group_hash_axioms;

// ---------------------------------------------------------------- images and logs

/// The blocks of the image after the writes of `log`, in order, over `img`.
pub open spec fn apply_log(img: Map<u64, Seq<u8>>, log: Seq<(u64, Seq<u8>)>) -> Map<u64, Seq<u8>>
    decreases log.len(),
{
    if log.len() == 0 {
        img
    } else {
        apply_log(img, log.drop_last()).insert(log.last().0, log.last().1)
    }
}

/// A list of block writes, with the blocks as byte sequences.
pub open spec fn log_view(log: Seq<(u64, Block)>) -> Seq<(u64, Seq<u8>)> {
    log.map_values(|w: (u64, Block)| (w.0, w.1@))
}

/// Blocks read from the image.
pub struct Fetched {
    blocks: HashMap<u64, Block>,
}

impl View for Fetched {
    type V = Map<u64, Seq<u8>>;

    closed spec fn view(&self) -> Map<u64, Seq<u8>> {
        Map::new(|n: u64| self.blocks@.dom().contains(n), |n: u64| self.blocks@[n]@)
    }
}

impl Fetched {
    /// No block read yet.
    pub fn new() -> (f: Fetched)
        ensures
            f@ == Map::<u64, Seq<u8>>::empty(),
    {
        let f = Fetched { blocks: HashMap::new() };
        assert(f@ =~= Map::<u64, Seq<u8>>::empty());
        f
    }

    /// Records that block `n` of the image holds `data`.
    pub fn add(&mut self, n: u64, data: Block)
        ensures
            final(self)@ == old(self)@.insert(n, data@),
    {
        self.blocks.insert(n, data);
        assert(self@ =~= old(self)@.insert(n, data@));
    }

    /// Whether block `n` has been read.
    pub fn has(&self, n: u64) -> (r: bool)
        ensures
            r == self@.dom().contains(n),
    {
        self.blocks.contains_key(&n)
    }

    /// Block `n`, when it has been read.
    pub fn get(&self, n: u64) -> (r: Option<Block>)
        ensures
            match r {
                Some(b) => self@.dom().contains(n) && b@ == self@[n],
                None => !self@.dom().contains(n),
            },
    {
        match self.blocks.get(&n) {
            Some(b) => Some(*b),
            None => None,
        }
    }
}

/// The writes an operation has made so far, in order.
pub(crate) struct Run {
    pub(crate) log: Vec<(u64, Block)>,
}

impl Run {
    /// The image as the operation sees it now.
    pub(crate) closed spec fn image(&self, img: Map<u64, Seq<u8>>) -> Map<u64, Seq<u8>> {
        apply_log(img, log_view(self.log@))
    }

    pub(crate) fn new() -> (r: Run)
        ensures
            r.log@.len() == 0,
            forall|img: Map<u64, Seq<u8>>| #[trigger] r.image(img) == img,
    {
        let r = Run { log: Vec::new() };
        assert forall|img: Map<u64, Seq<u8>>| #[trigger] r.image(img) == img by {
            assert(log_view(r.log@).len() == 0);
        }
        r
    }

    /// Reads block `n`: the last write to it, else the fetched block.
    fn read(&self, f: &Fetched, n: u64) -> (r: Option<Block>)
        ensures
            match r {
                Some(b) => self.image(f@).dom().contains(n) && b@ == self.image(f@)[n],
                None => !f@.dom().contains(n) && !self.image(f@).dom().contains(n),
            },
    {
        let ghost lv = log_view(self.log@);
        let mut i = self.log.len();
        assert(lv.take(lv.len() as int) =~= lv);
        while i > 0
            invariant
                0 <= i <= self.log@.len(),
                lv == log_view(self.log@),
                forall|j: int| i <= j < lv.len() ==> lv[j].0 != n,
                apply_log(f@, lv.take(i as int)).dom().contains(n) == apply_log(f@, lv).dom().contains(n),
                apply_log(f@, lv.take(i as int))[n] == apply_log(f@, lv)[n],
            decreases i,
        {
            i = i - 1;
            proof {
                assert(lv.take(i + 1).drop_last() =~= lv.take(i as int));
                assert(lv.take(i + 1).last() == lv[i as int]);
            }
            if self.log[i].0 == n {
                return Some(self.log[i].1);
            }
        }
        proof {
            assert(lv.take(0) =~= Seq::<(u64, Seq<u8>)>::empty());
        }
        f.get(n)
    }

    /// Writes `data` to block `n`.
    fn write(&mut self, n: u64, data: Block)
        ensures
            final(self).log@ == old(self).log@.push((n, data)),
            forall|img: Map<u64, Seq<u8>>|
                #[trigger] final(self).image(img) == old(self).image(img).insert(n, data@),
    {
        let ghost before = self.log@;
        self.log.push((n, data));
        assert(log_view(self.log@).drop_last() =~= log_view(before));
    }
}

// ---------------------------------------------------------------- outcomes

/// Why an operation cannot go on: each is a state of the image that the
/// operation has no answer for.
#[derive(Clone, Copy, PartialEq, Eq, Debug)]
pub enum Fault {
    /// A block number, size, link count or free count leaves its range.
    Overflow,
    /// A bit number lies past the end of its bitmap block.
    BitOutOfRange,
    /// The bytes to write run past the end of their block.
    PastBlockEnd,
    /// A directory block cannot be walked.
    Directory(DirError),
}

/// Where an operation stopped short of an answer.
pub(crate) enum Stop {
    /// Block `n` must be read first.
    Need(u64),
    Fault(Fault),
}

/// What one run of an operation gives.
pub enum Step<T> {
    /// Read block `n` of the image, add it to the fetched blocks, and run again.
    Need(u64),
    /// The operation cannot be done on this image.
    Fault(Fault),
    /// Perform these block writes in order, then give this answer.
    Done(Vec<(u64, Block)>, T),
}

/// What an operation does to an image: it cannot be done, or it leaves this
/// image and superblock and gives this answer.
pub enum Effect<T> {
    Fault(Fault),
    Done(Map<u64, Seq<u8>>, Superblock, T),
}

/// The step `r`, taken on the fetched blocks `img`, carries out the effect `e`,
/// asking for a block only when `need` names one, and then for that one;
/// `sb` is the superblock afterwards.
pub open spec fn carries_out<T>(
    r: Step<T>,
    img: Map<u64, Seq<u8>>,
    e: Effect<T>,
    need: Option<u64>,
    sb: Superblock,
) -> bool {
    match r {
        Step::Need(n) => !img.dom().contains(n) && need == Some(n),
        Step::Fault(f) => e == Effect::<T>::Fault(f),
        Step::Done(log, answer) => e == Effect::Done(apply_log(img, log_view(log@)), sb, answer),
    }
}


// ---------------------------------------------------------------- inodes in an image

/// The inode table block of inode `n` has a number.
pub open spec fn table_ok(sb: Superblock, n: u64) -> bool {
    sb.inode_table_block + n / 16 <= u64::MAX
}

/// The block of the inode table that holds inode `n`.
pub open spec fn table_block(sb: Superblock, n: u64) -> u64 {
    (sb.inode_table_block + n / 16) as u64
}

/// Inode `n` as `img` holds it.
pub open spec fn inode_in(img: Map<u64, Seq<u8>>, sb: Superblock, n: u64) -> Inode {
    decoded_inode(img[table_block(sb, n)], inode_offset(n))
}

/// `img` with `ino` stored as inode `n`.
pub open spec fn with_inode(img: Map<u64, Seq<u8>>, sb: Superblock, n: u64, ino: Inode) -> Map<
    u64,
    Seq<u8>,
> {
    let b = table_block(sb, n);
    img.insert(b, inode_written(img[b], inode_offset(n), ino))
}

/// Reads inode `n`.
pub(crate) fn load_inode(run: &Run, f: &Fetched, sb: &Superblock, n: u64) -> (r: Result<Inode, Stop>)
    ensures
        match r {
            Ok(i) => table_ok(*sb, n) && i == inode_in(run.image(f@), *sb, n) && inode_need(
                run.image(f@),
                *sb,
                n,
            ) is None,
            Err(Stop::Need(b)) => !f@.dom().contains(b) && table_ok(*sb, n) && inode_need(
                run.image(f@),
                *sb,
                n,
            ) == Some(b),
            Err(Stop::Fault(ft)) => ft == Fault::Overflow && !table_ok(*sb, n),
        },
{
    if n / 16 > u64::MAX - sb.inode_table_block {
        return Err(Stop::Fault(Fault::Overflow));
    }
    let table = InodeStore::new(sb.inode_table_block);
    let (bn, _) = table.location(n);
    let block = match run.read(f, bn) {
        Some(b) => b,
        None => return Err(Stop::Need(bn)),
    };
    let i = table.read_inode(n, &block);
    proof {
        lemma_decoded_inode(i, block@, inode_offset(n));
    }
    Ok(i)
}

/// Block `b`, asked for when `img` lacks it.
pub open spec fn need_at(img: Map<u64, Seq<u8>>, b: u64) -> Option<u64> {
    if img.dom().contains(b) {
        None
    } else {
        Some(b)
    }
}

/// The first of two requests for a block: `a` when it asks for one, else `b`.
pub open spec fn first_need(a: Option<u64>, b: Option<u64>) -> Option<u64> {
    if a is Some {
        a
    } else {
        b
    }
}

/// The block asked for to read inode `n`: its table block, when missing.
pub open spec fn inode_need(img: Map<u64, Seq<u8>>, sb: Superblock, n: u64) -> Option<u64> {
    need_at(img, table_block(sb, n))
}

/// The block asked for to read the entries of directory `dir`: its inode's
/// table block, else its entry block, when missing.
pub open spec fn entries_need(img: Map<u64, Seq<u8>>, sb: Superblock, dir: u64) -> Option<u64> {
    first_need(inode_need(img, sb, dir), need_at(img, dir_block(img, sb, dir)))
}

/// The block a step asks for, if it asks for one.
pub open spec fn step_need<T>(r: Step<T>) -> Option<u64> {
    match r {
        Step::Need(n) => Some(n),
        _ => None,
    }
}

/// Stores `ino` as inode `n`.
fn store_inode(run: &mut Run, f: &Fetched, sb: &Superblock, n: u64, ino: &Inode) -> (r: Result<
    (),
    Stop,
>)
    ensures
        match r {
            Ok(()) => table_ok(*sb, n) && final(run).image(f@) == with_inode(
                old(run).image(f@),
                *sb,
                n,
                *ino,
            ) && inode_need(old(run).image(f@), *sb, n) is None,
            Err(Stop::Need(b)) => !f@.dom().contains(b) && inode_need(old(run).image(f@), *sb, n)
                == Some(b),
            Err(Stop::Fault(ft)) => ft == Fault::Overflow && !table_ok(*sb, n),
        },
{
    if n / 16 > u64::MAX - sb.inode_table_block {
        return Err(Stop::Fault(Fault::Overflow));
    }
    let table = InodeStore::new(sb.inode_table_block);
    let (bn, _) = table.location(n);
    let mut block = match run.read(f, bn) {
        Some(b) => b,
        None => return Err(Stop::Need(bn)),
    };
    let ghost before = block@;
    table.write_inode(n, ino, &mut block);
    proof {
        lemma_inode_written(before, block@, inode_offset(n), *ino);
    }
    run.write(bn, block);
    Ok(())
}

// ---------------------------------------------------------------- directories in an image

/// The block that holds the entries of directory `dir`: its first direct block.
pub open spec fn dir_block(img: Map<u64, Seq<u8>>, sb: Superblock, dir: u64) -> u64 {
    inode_in(img, sb, dir).direct[0]
}

/// The inode that directory `dir` gives for `name`.
pub open spec fn lookup_in(img: Map<u64, Seq<u8>>, sb: Superblock, dir: u64, name: Seq<char>) -> Result<
    Option<u32>,
    Fault,
> {
    if !table_ok(sb, dir) {
        Err(Fault::Overflow)
    } else {
        match dir_lookup(img[dir_block(img, sb, dir)], name) {
            Ok(found) => Ok(found),
            Err(e) => Err(Fault::Directory(e)),
        }
    }
}

/// The (inode, name) pairs that directory `dir` lists.
pub open spec fn listing_of(img: Map<u64, Seq<u8>>, sb: Superblock, dir: u64) -> Result<
    Seq<(u32, Seq<char>)>,
    Fault,
> {
    if !table_ok(sb, dir) {
        Err(Fault::Overflow)
    } else {
        match dir_list(img[dir_block(img, sb, dir)]) {
            Ok(v) => Ok(v),
            Err(e) => Err(Fault::Directory(e)),
        }
    }
}

/// `img` after adding the entry (`ino`, `name`, `ft`) to directory `dir`;
/// when the directory block has no room the image stays as it is.
pub open spec fn with_entry(
    img: Map<u64, Seq<u8>>,
    sb: Superblock,
    dir: u64,
    name: Seq<char>,
    ino: u32,
    ft: u8,
) -> Result<Map<u64, Seq<u8>>, Fault> {
    if !table_ok(sb, dir) {
        Err(Fault::Overflow)
    } else {
        let p = dir_block(img, sb, dir);
        let nb = encode_utf8(name);
        if nb.len() + 11 > usize::MAX {
            Err(Fault::Overflow)
        } else {
            match insert_status(img[p], nb.len() as int) {
                Err(e) => Err(Fault::Directory(e)),
                Ok(false) => Ok(img),
                Ok(true) => Ok(img.insert(p, block_after_insert(img[p], nb, ino, ft))),
            }
        }
    }
}

/// `img` after freeing the entry named `name` in directory `dir`, and whether
/// there was one.
pub open spec fn without_entry(img: Map<u64, Seq<u8>>, sb: Superblock, dir: u64, name: Seq<char>) -> Result<
    (Map<u64, Seq<u8>>, bool),
    Fault,
> {
    if !table_ok(sb, dir) {
        Err(Fault::Overflow)
    } else {
        let p = dir_block(img, sb, dir);
        match dir_find(img[p], name) {
            Ok(Some(off)) => Ok((img.insert(p, with_u32(img[p], off, 0)), true)),
            Ok(None) => Ok((img, false)),
            Err(e) => Err(Fault::Directory(e)),
        }
    }
}

/// Looks `name` up in directory `dir`.
fn look_up(run: &Run, f: &Fetched, sb: &Superblock, dir: u64, name: &str) -> (r: Result<
    Option<u32>,
    Stop,
>)
    ensures
        match r {
            Ok(found) => lookup_in(run.image(f@), *sb, dir, name@) == Ok::<Option<u32>, Fault>(found)
                && entries_need(run.image(f@), *sb, dir) is None,
            Err(Stop::Need(b)) => !f@.dom().contains(b) && entries_need(run.image(f@), *sb, dir)
                == Some(b),
            Err(Stop::Fault(ft)) => lookup_in(run.image(f@), *sb, dir, name@) == Err::<
                Option<u32>,
                Fault,
            >(ft),
        },
{
    let d = match load_inode(run, f, sb, dir) {
        Ok(i) => i,
        Err(e) => return Err(e),
    };
    let p = d.direct[0];
    let block = match run.read(f, p) {
        Some(b) => b,
        None => return Err(Stop::Need(p)),
    };
    match look_up_in_block(&block, name) {
        Ok(found) => Ok(found),
        Err(e) => Err(Stop::Fault(Fault::Directory(e))),
    }
}

/// The entries of directory `dir`.
pub(crate) fn list(run: &Run, f: &Fetched, sb: &Superblock, dir: u64) -> (r: Result<Vec<(u32, String)>, Stop>)
    ensures
        match r {
            Ok(v) => listing_of(run.image(f@), *sb, dir) == Ok::<Seq<(u32, Seq<char>)>, Fault>(
                pairs_view(v@),
            ) && entries_need(run.image(f@), *sb, dir) is None,
            Err(Stop::Need(b)) => !f@.dom().contains(b) && entries_need(run.image(f@), *sb, dir)
                == Some(b),
            Err(Stop::Fault(ft)) => listing_of(run.image(f@), *sb, dir) == Err::<
                Seq<(u32, Seq<char>)>,
                Fault,
            >(ft),
        },
{
    let d = match load_inode(run, f, sb, dir) {
        Ok(i) => i,
        Err(e) => return Err(e),
    };
    let p = d.direct[0];
    let block = match run.read(f, p) {
        Some(b) => b,
        None => return Err(Stop::Need(p)),
    };
    match list_block(&block) {
        Ok(v) => Ok(v),
        Err(e) => Err(Stop::Fault(Fault::Directory(e))),
    }
}

/// Adds the entry (`ino`, `name`, `ft`) to directory `dir`.
fn add_entry(run: &mut Run, f: &Fetched, sb: &Superblock, dir: u64, name: &str, ino: u32, ft: u8) -> (r:
    Result<(), Stop>)
    ensures
        match r {
            Ok(()) => with_entry(old(run).image(f@), *sb, dir, name@, ino, ft) == Ok::<
                Map<u64, Seq<u8>>,
                Fault,
            >(final(run).image(f@)) && entries_need(old(run).image(f@), *sb, dir) is None,
            Err(Stop::Need(b)) => !f@.dom().contains(b) && entries_need(old(run).image(f@), *sb, dir)
                == Some(b),
            Err(Stop::Fault(x)) => with_entry(old(run).image(f@), *sb, dir, name@, ino, ft) == Err::<
                Map<u64, Seq<u8>>,
                Fault,
            >(x),
        },
{
    let d = match load_inode(run, f, sb, dir) {
        Ok(i) => i,
        Err(e) => return Err(e),
    };
    let p = d.direct[0];
    let mut block = match run.read(f, p) {
        Some(b) => b,
        None => return Err(Stop::Need(p)),
    };
    if name.as_bytes().len() > usize::MAX - 11 {
        return Err(Stop::Fault(Fault::Overflow));
    }
    let ghost before = block@;
    match insert_into_block(&mut block, name, ino, ft) {
        Ok(true) => {
            proof {
                lemma_block_after_insert(before, block@, encode_utf8(name@), ino, ft);
            }
            run.write(p, block);
            Ok(())
        },
        Ok(false) => Ok(()),
        Err(e) => Err(Stop::Fault(Fault::Directory(e))),
    }
}

/// Frees the entry named `name` in directory `dir`; `false` when there is none.
fn remove_entry(run: &mut Run, f: &Fetched, sb: &Superblock, dir: u64, name: &str) -> (r: Result<
    bool,
    Stop,
>)
    ensures
        match r {
            Ok(found) => without_entry(old(run).image(f@), *sb, dir, name@) == Ok::<
                (Map<u64, Seq<u8>>, bool),
                Fault,
            >((final(run).image(f@), found)) && entries_need(old(run).image(f@), *sb, dir) is None,
            Err(Stop::Need(b)) => !f@.dom().contains(b) && entries_need(old(run).image(f@), *sb, dir)
                == Some(b),
            Err(Stop::Fault(x)) => without_entry(old(run).image(f@), *sb, dir, name@) == Err::<
                (Map<u64, Seq<u8>>, bool),
                Fault,
            >(x),
        },
{
    let d = match load_inode(run, f, sb, dir) {
        Ok(i) => i,
        Err(e) => return Err(e),
    };
    let p = d.direct[0];
    let mut block = match run.read(f, p) {
        Some(b) => b,
        None => return Err(Stop::Need(p)),
    };
    proof {
        crate::dir::lemma_find_not_notfound(
            block@,
            crate::dir::walk_from(block@, 0).0,
            crate::dir::walk_from(block@, 0).1,
            name@,
        );
    }
    match remove_from_block(&mut block, name) {
        Ok(()) => {
            run.write(p, block);
            Ok(true)
        },
        Err(DirError::NotFound) => Ok(false),
        Err(e) => Err(Stop::Fault(Fault::Directory(e))),
    }
}

// ---------------------------------------------------------------- the operations

/// The inode that a FUSE inode number names.
pub open spec fn real_ino(ino: u64) -> u64 {
    if ino == 1 {
        ROOT_INODE as u64
    } else {
        ino
    }
}

/// The attributes of an inode can be reported: its size in 512-byte blocks can be counted.
pub open spec fn attr_ok(i: Inode) -> bool {
    i.size + 511 <= u64::MAX
}

/// What `getattr` does: the attributes of the inode, or `NotFound` for an unused one.
pub open spec fn getattr_effect(img: Map<u64, Seq<u8>>, sb: Superblock, ino: u64) -> Effect<
    Result<Attr, FsError>,
> {
    let n = real_ino(ino);
    if !table_ok(sb, n) {
        Effect::Fault(Fault::Overflow)
    } else {
        let i = inode_in(img, sb, n);
        if i.mode == 0 {
            Effect::Done(img, sb, Err(FsError::NotFound))
        } else if !attr_ok(i) {
            Effect::Fault(Fault::Overflow)
        } else {
            Effect::Done(img, sb, Ok(inode_to_attr_spec(ino, i)))
        }
    }
}

/// What `lookup` does: the attributes of the inode that `parent` names `name`.
pub open spec fn lookup_effect(img: Map<u64, Seq<u8>>, sb: Superblock, parent: u64, name: Seq<char>) -> Effect<
    Result<Attr, FsError>,
> {
    match lookup_in(img, sb, real_ino(parent), name) {
        Err(f) => Effect::Fault(f),
        Ok(None) => Effect::Done(img, sb, Err(FsError::NotFound)),
        Ok(Some(n)) => {
            if !table_ok(sb, n as u64) {
                Effect::Fault(Fault::Overflow)
            } else if !attr_ok(inode_in(img, sb, n as u64)) {
                Effect::Fault(Fault::Overflow)
            } else {
                Effect::Done(img, sb, Ok(inode_to_attr_spec(n as u64, inode_in(img, sb, n as u64))))
            }
        },
    }
}

/// What `read` returns: the bytes the read plan of the inode names.
pub open spec fn read_effect(img: Map<u64, Seq<u8>>, sb: Superblock, ino: u64, offset: i64, size: u32) -> Effect<
    Seq<u8>,
> {
    if !table_ok(sb, ino) {
        Effect::Fault(Fault::Overflow)
    } else {
        match read_plan(inode_in(img, sb, ino), offset, size) {
            ReadPlan::Empty => Effect::Done(img, sb, Seq::empty()),
            ReadPlan::Range { block_num, start, len } => Effect::Done(
                img,
                sb,
                img[block_num].subrange(start as int, start + len),
            ),
        }
    }
}

/// The inode after `setattr` sets the times given.
pub open spec fn with_times(i: Inode, atime: Option<u64>, mtime: Option<u64>) -> Inode {
    Inode {
        atime: match atime {
            Some(t) => t,
            None => i.atime,
        },
        mtime: match mtime {
            Some(t) => t,
            None => i.mtime,
        },
        ..i
    }
}

/// What `setattr` does: sets the access and modification times given and
/// reports the attributes.
pub open spec fn setattr_effect(
    img: Map<u64, Seq<u8>>,
    sb: Superblock,
    ino: u64,
    atime: Option<u64>,
    mtime: Option<u64>,
) -> Effect<Attr> {
    if !table_ok(sb, ino) {
        Effect::Fault(Fault::Overflow)
    } else {
        let i = with_times(inode_in(img, sb, ino), atime, mtime);
        if !attr_ok(i) {
            Effect::Fault(Fault::Overflow)
        } else {
            Effect::Done(with_inode(img, sb, ino, i), sb, inode_to_attr_spec(ino, i))
        }
    }
}

/// `sb` with one inode fewer counted as free.
pub open spec fn one_inode_taken(sb: Superblock) -> Superblock {
    Superblock { free_inodes: (sb.free_inodes - 1) as u64, ..sb }
}

/// What `create` does: takes the lowest free inode, counts it in the
/// superblock, stores a new empty file there and adds it to `parent` under
/// `name`; `NoSpace` when no inode is free.
pub open spec fn create_effect(
    img: Map<u64, Seq<u8>>,
    sb: Superblock,
    parent: u64,
    name: Seq<char>,
    mode: u32,
    uid: u32,
    gid: u32,
    now: u64,
) -> Effect<Result<Attr, FsError>> {
    match bitmap_alloc(img[sb.inode_bitmap_block]) {
        None => Effect::Done(img, sb, Err(FsError::NoSpace)),
        Some((n, bits)) => {
            if sb.free_inodes == 0 {
                Effect::Fault(Fault::Overflow)
            } else if !table_ok(sb, n) {
                Effect::Fault(Fault::Overflow)
            } else {
                let sb2 = one_inode_taken(sb);
                let img2 = img.insert(sb.inode_bitmap_block, bits).insert(0, superblock_bytes(sb2));
                let ino = file_inode(mode, uid, gid, now);
                match with_entry(
                    with_inode(img2, sb2, n, ino),
                    sb2,
                    real_ino(parent),
                    name,
                    n as u32,
                    FT_REGULAR,
                ) {
                    Err(f) => Effect::Fault(f),
                    Ok(img3) => Effect::Done(img3, sb2, Ok(inode_to_attr_spec(n, ino))),
                }
            }
        },
    }
}

/// The rest of a write once its block `bn` is known: the bytes go into the
/// block, and the inode records the block, the new size and the time.
pub open spec fn write_data_effect(
    img: Map<u64, Seq<u8>>,
    sb: Superblock,
    ino: u64,
    i: Inode,
    plan: WritePlan,
    bn: u64,
    offset: i64,
    data: Seq<u8>,
    now: u64,
) -> Effect<Result<u32, FsError>> {
    if plan.offset_in_block + data.len() > 4096 {
        Effect::Fault(Fault::PastBlockEnd)
    } else if (offset as u64) + data.len() > u64::MAX {
        Effect::Fault(Fault::Overflow)
    } else {
        let img2 = img.insert(bn, with_bytes(img[bn], plan.offset_in_block as int, data));
        Effect::Done(
            with_inode(
                img2,
                sb,
                ino,
                inode_after_write(i, plan.block_index as int, bn, offset, data.len() as int, now),
            ),
            sb,
            Ok(data.len() as u32),
        )
    }
}

/// What `write` does: stores `data` at `offset` of inode `ino`, first taking
/// the lowest free data block when the direct block there is unused.
pub open spec fn write_effect(
    img: Map<u64, Seq<u8>>,
    sb: Superblock,
    ino: u64,
    offset: i64,
    data: Seq<u8>,
    now: u64,
) -> Effect<Result<u32, FsError>> {
    if !table_ok(sb, ino) {
        Effect::Fault(Fault::Overflow)
    } else {
        let i = inode_in(img, sb, ino);
        match write_plan(i, offset) {
            Err(e) => Effect::Done(img, sb, Err(e)),
            Ok(plan) => {
                if plan.needs_block {
                    match bitmap_alloc(img[sb.data_bitmap_block]) {
                        None => Effect::Done(img, sb, Err(FsError::NoSpace)),
                        Some((bit, bits)) => {
                            if sb.data_start_block + bit > u64::MAX {
                                Effect::Fault(Fault::Overflow)
                            } else {
                                write_data_effect(
                                    img.insert(sb.data_bitmap_block, bits),
                                    sb,
                                    ino,
                                    i,
                                    plan,
                                    (sb.data_start_block + bit) as u64,
                                    offset,
                                    data,
                                    now,
                                )
                            }
                        },
                    }
                } else {
                    write_data_effect(
                        img,
                        sb,
                        ino,
                        i,
                        plan,
                        i.direct[plan.block_index as int],
                        offset,
                        data,
                        now,
                    )
                }
            },
        }
    }
}

/// The rest of `mkdir` once the new directory's inode `n` and block are
/// chosen: store its inode, add it to `parent` under `name`, and count one
/// more link of `parent`.
pub open spec fn mkdir_link_effect(
    img: Map<u64, Seq<u8>>,
    sb: Superblock,
    n: u64,
    ino: Inode,
    parent: u64,
    name: Seq<char>,
) -> Effect<Result<Attr, FsError>> {
    if !table_ok(sb, n) {
        Effect::Fault(Fault::Overflow)
    } else {
        match with_entry(with_inode(img, sb, n, ino), sb, parent, name, n as u32, FT_DIRECTORY) {
            Err(f) => Effect::Fault(f),
            Ok(img2) => {
                let p = inode_in(img2, sb, parent);
                if p.hard_links == u32::MAX {
                    Effect::Fault(Fault::Overflow)
                } else {
                    Effect::Done(
                        with_inode(img2, sb, parent, Inode { hard_links: (p.hard_links + 1) as u32, ..p }),
                        sb,
                        Ok(inode_to_attr_spec(n, ino)),
                    )
                }
            },
        }
    }
}

/// What `mkdir` does: takes the lowest free inode and counts it in the
/// superblock, takes the lowest free data block and writes "." and ".." into
/// it, stores the directory's inode, adds it to `parent` under `name` and
/// counts one more link of `parent`; `NoSpace` when no inode, or no data
/// block, is free.
pub open spec fn mkdir_effect(
    img: Map<u64, Seq<u8>>,
    sb: Superblock,
    parent: u64,
    name: Seq<char>,
    mode: u32,
    uid: u32,
    gid: u32,
    now: u64,
) -> Effect<Result<Attr, FsError>> {
    match bitmap_alloc(img[sb.inode_bitmap_block]) {
        None => Effect::Done(img, sb, Err(FsError::NoSpace)),
        Some((n, ibits)) => {
            if sb.free_inodes == 0 {
                Effect::Fault(Fault::Overflow)
            } else {
                let sb2 = one_inode_taken(sb);
                let img2 = img.insert(sb.inode_bitmap_block, ibits).insert(0, superblock_bytes(sb2));
                match bitmap_alloc(img2[sb.data_bitmap_block]) {
                    None => Effect::Done(img2, sb2, Err(FsError::NoSpace)),
                    Some((bit, dbits)) => {
                        if sb.data_start_block + bit > u64::MAX {
                            Effect::Fault(Fault::Overflow)
                        } else {
                            let blk = (sb.data_start_block + bit) as u64;
                            let rp = real_ino(parent);
                            let img3 = img2.insert(sb.data_bitmap_block, dbits).insert(
                                blk,
                                new_directory_bytes(n as u32, rp as u32),
                            );
                            mkdir_link_effect(
                                img3,
                                sb2,
                                n,
                                directory_inode(mode, uid, gid, now, blk),
                                rp,
                                name,
                            )
                        }
                    },
                }
            }
        },
    }
}

/// The data bitmap after freeing the bit of every block in use among `direct`,
/// in order.
pub open spec fn free_data_bits(img: Map<u64, Seq<u8>>, sb: Superblock, direct: Seq<u64>) -> Result<
    Map<u64, Seq<u8>>,
    Fault,
>
    decreases direct.len(),
{
    if direct.len() == 0 {
        Ok(img)
    } else {
        match free_data_bits(img, sb, direct.drop_last()) {
            Err(f) => Err(f),
            Ok(m) => {
                let b = direct.last();
                if b == 0 {
                    Ok(m)
                } else if b < sb.data_start_block {
                    Err(Fault::Overflow)
                } else if b - sb.data_start_block >= 32768 {
                    Err(Fault::BitOutOfRange)
                } else {
                    Ok(
                        m.insert(
                            sb.data_bitmap_block,
                            clear_bit_bytes(
                                m[sb.data_bitmap_block],
                                (b - sb.data_start_block) as u64,
                            ),
                        ),
                    )
                }
            },
        }
    }
}

/// Once freeing fails on a prefix of the pointers, it fails the same way on
/// every longer prefix.
proof fn lemma_free_error_stays(img: Map<u64, Seq<u8>>, sb: Superblock, d: Seq<u64>, j: int, k: int)
    requires
        0 <= j <= k <= d.len(),
        free_data_bits(img, sb, d.take(j)) is Err,
    ensures
        free_data_bits(img, sb, d.take(k)) == free_data_bits(img, sb, d.take(j)),
    decreases k - j,
{
    if j < k {
        assert(d.take(j + 1).drop_last() =~= d.take(j));
        lemma_free_error_stays(img, sb, d, j + 1, k);
    }
}

/// What dropping one link of inode `n` does to the image: with links left,
/// the inode is stored with one link fewer; with none left, the bits of its
/// blocks are freed in the data bitmap and its own bit in the inode bitmap.
pub open spec fn drop_link(img: Map<u64, Seq<u8>>, sb: Superblock, n: u64, i: Inode) -> Result<
    Map<u64, Seq<u8>>,
    Fault,
> {
    let links = (i.hard_links - 1) as u32;
    if links != 0 {
        Ok(with_inode(img, sb, n, Inode { hard_links: links, ..i }))
    } else {
        match free_data_bits(img, sb, i.direct@) {
            Err(f) => Err(f),
            Ok(m) => {
                if n >= 32768 {
                    Err(Fault::BitOutOfRange)
                } else {
                    Ok(m.insert(sb.inode_bitmap_block, clear_bit_bytes(m[sb.inode_bitmap_block], n)))
                }
            },
        }
    }
}

/// What `unlink` does: finds the inode `parent` names `name`, drops one of
/// its links, and frees the entry.
pub open spec fn unlink_effect(img: Map<u64, Seq<u8>>, sb: Superblock, parent: u64, name: Seq<char>) -> Effect<
    Result<(), FsError>,
> {
    let rp = real_ino(parent);
    match lookup_in(img, sb, rp, name) {
        Err(f) => Effect::Fault(f),
        Ok(None) => Effect::Done(img, sb, Err(FsError::NotFound)),
        Ok(Some(x)) => {
            let n = x as u64;
            if !table_ok(sb, n) {
                Effect::Fault(Fault::Overflow)
            } else if inode_in(img, sb, n).hard_links == 0 {
                Effect::Fault(Fault::Overflow)
            } else {
                match drop_link(img, sb, n, inode_in(img, sb, n)) {
                    Err(f) => Effect::Fault(f),
                    Ok(m) => match without_entry(m, sb, rp, name) {
                        Err(f) => Effect::Fault(f),
                        Ok((m2, found)) => Effect::Done(
                            m2,
                            sb,
                            if found {
                                Ok(())
                            } else {
                                Err(FsError::NotFound)
                            },
                        ),
                    },
                }
            }
        },
    }
}

/// One entry of a directory listing as FUSE takes it: the inode, the offset
/// of the next entry, the kind of file and the name.
pub struct DirItem {
    pub ino: u64,
    pub next_offset: i64,
    pub kind: FileKind,
    pub name: String,
}

/// The kind of file a mode says.
pub open spec fn kind_of(mode: u32) -> FileKind {
    if spec_is_directory(mode) {
        FileKind::Directory
    } else {
        FileKind::RegularFile
    }
}

/// What `readdir` lists from position `offset` on: each entry of the
/// directory with the position after it and the kind of its inode, for every
/// entry to the end of the listing.
pub open spec fn readdir_effect(img: Map<u64, Seq<u8>>, sb: Superblock, ino: u64, offset: i64) -> Effect<
    Seq<(u64, i64, FileKind, Seq<char>)>,
> {
    match listing_of(img, sb, real_ino(ino)) {
        Err(f) => Effect::Fault(f),
        Ok(v) => {
            let skip = offset as usize as int;
            if exists|j: int| skip <= j < v.len() && !table_ok(sb, #[trigger] v[j].0 as u64) {
                Effect::Fault(Fault::Overflow)
            } else {
                Effect::Done(
                    img,
                    sb,
                    Seq::new(
                        if skip < v.len() {
                            (v.len() - skip) as nat
                        } else {
                            0
                        },
                        |j: int|
                            (
                                v[skip + j].0 as u64,
                                (skip + j + 1) as i64,
                                kind_of(inode_in(img, sb, v[skip + j].0 as u64).mode),
                                v[skip + j].1,
                            ),
                    ),
                )
            }
        },
    }
}


// ---------------------------------------------------------------- the blocks each operation asks for

/// The block `getattr` asks for: the table block of the inode.
pub open spec fn getattr_need(img: Map<u64, Seq<u8>>, sb: Superblock, ino: u64) -> Option<u64> {
    inode_need(img, sb, real_ino(ino))
}

/// The block `lookup` asks for: those of the directory's entries, then the
/// table block of the inode found.
pub open spec fn lookup_need(img: Map<u64, Seq<u8>>, sb: Superblock, parent: u64, name: Seq<char>) -> Option<u64> {
    first_need(
        entries_need(img, sb, real_ino(parent)),
        match lookup_in(img, sb, real_ino(parent), name) {
            Ok(Some(n)) => inode_need(img, sb, n as u64),
            _ => None,
        },
    )
}

/// The block `read` asks for: the inode's table block, then the data block read.
pub open spec fn read_need(img: Map<u64, Seq<u8>>, sb: Superblock, ino: u64, offset: i64, size: u32) -> Option<u64> {
    first_need(
        inode_need(img, sb, ino),
        match read_plan(inode_in(img, sb, ino), offset, size) {
            ReadPlan::Range { block_num, start, len } => need_at(img, block_num),
            ReadPlan::Empty => None,
        },
    )
}

/// The block `setattr` asks for: the inode's table block.
pub open spec fn setattr_need(img: Map<u64, Seq<u8>>, sb: Superblock, ino: u64) -> Option<u64> {
    inode_need(img, sb, ino)
}

/// The block `create` asks for: the inode bitmap, the table block of the
/// inode taken, then those of the parent's entries.
pub open spec fn create_need(
    img: Map<u64, Seq<u8>>,
    sb: Superblock,
    parent: u64,
    mode: u32,
    uid: u32,
    gid: u32,
    now: u64,
) -> Option<u64> {
    first_need(
        need_at(img, sb.inode_bitmap_block),
        match bitmap_alloc(img[sb.inode_bitmap_block]) {
            None => None,
            Some((n, bits)) => {
                let sb2 = one_inode_taken(sb);
                let img2 = img.insert(sb.inode_bitmap_block, bits).insert(0, superblock_bytes(sb2));
                first_need(
                    inode_need(img2, sb2, n),
                    entries_need(
                        with_inode(img2, sb2, n, file_inode(mode, uid, gid, now)),
                        sb2,
                        real_ino(parent),
                    ),
                )
            },
        },
    )
}

/// The block `write` asks for: the inode's table block, the data bitmap when
/// a block must be taken, then the data block written.
pub open spec fn write_need(img: Map<u64, Seq<u8>>, sb: Superblock, ino: u64, offset: i64) -> Option<u64> {
    first_need(
        inode_need(img, sb, ino),
        match write_plan(inode_in(img, sb, ino), offset) {
            Err(_) => None,
            Ok(plan) => {
                if plan.needs_block {
                    first_need(
                        need_at(img, sb.data_bitmap_block),
                        match bitmap_alloc(img[sb.data_bitmap_block]) {
                            None => None,
                            Some((bit, bits)) => need_at(
                                img.insert(sb.data_bitmap_block, bits),
                                (sb.data_start_block + bit) as u64,
                            ),
                        },
                    )
                } else {
                    need_at(img, inode_in(img, sb, ino).direct[plan.block_index as int])
                }
            },
        },
    )
}

/// The block `mkdir` asks for: the inode bitmap, the data bitmap, the table
/// block of the inode taken, those of the parent's entries, then the
/// parent's table block.
pub open spec fn mkdir_need(
    img: Map<u64, Seq<u8>>,
    sb: Superblock,
    parent: u64,
    name: Seq<char>,
    mode: u32,
    uid: u32,
    gid: u32,
    now: u64,
) -> Option<u64> {
    first_need(
        need_at(img, sb.inode_bitmap_block),
        match bitmap_alloc(img[sb.inode_bitmap_block]) {
            None => None,
            Some((n, ibits)) => {
                let sb2 = one_inode_taken(sb);
                let img2 = img.insert(sb.inode_bitmap_block, ibits).insert(0, superblock_bytes(sb2));
                first_need(
                    need_at(img2, sb.data_bitmap_block),
                    match bitmap_alloc(img2[sb.data_bitmap_block]) {
                        None => None,
                        Some((bit, dbits)) => {
                            let blk = (sb.data_start_block + bit) as u64;
                            let rp = real_ino(parent);
                            let img3 = img2.insert(sb.data_bitmap_block, dbits).insert(
                                blk,
                                new_directory_bytes(n as u32, rp as u32),
                            );
                            let img4 = with_inode(img3, sb2, n, directory_inode(mode, uid, gid, now, blk));
                            first_need(
                                inode_need(img3, sb2, n),
                                first_need(
                                    entries_need(img4, sb2, rp),
                                    match with_entry(img4, sb2, rp, name, n as u32, FT_DIRECTORY) {
                                        Ok(img5) => inode_need(img5, sb2, rp),
                                        Err(_) => None,
                                    },
                                ),
                            )
                        },
                    },
                )
            },
        },
    )
}

/// Whether any of the direct pointers is in use.
pub open spec fn any_block(direct: Seq<u64>) -> bool {
    exists|k: int| 0 <= k < direct.len() && direct[k] != 0
}

/// The block `unlink` asks for: those of the parent's entries, the table
/// block of the inode found, then, when its last link goes, the data bitmap
/// (if it has blocks) and the inode bitmap, and last those of the parent's
/// entries again.
pub open spec fn unlink_need(img: Map<u64, Seq<u8>>, sb: Superblock, parent: u64, name: Seq<char>) -> Option<u64> {
    let rp = real_ino(parent);
    first_need(
        entries_need(img, sb, rp),
        match lookup_in(img, sb, rp, name) {
            Ok(Some(x)) => {
                let n = x as u64;
                let i = inode_in(img, sb, n);
                let links = (i.hard_links - 1) as u32;
                first_need(
                    inode_need(img, sb, n),
                    if links != 0 {
                        entries_need(with_inode(img, sb, n, Inode { hard_links: links, ..i }), sb, rp)
                    } else {
                        first_need(
                            if any_block(i.direct@) {
                                need_at(img, sb.data_bitmap_block)
                            } else {
                                None
                            },
                            match free_data_bits(img, sb, i.direct@) {
                                Ok(m) => first_need(
                                    need_at(m, sb.inode_bitmap_block),
                                    entries_need(
                                        m.insert(
                                            sb.inode_bitmap_block,
                                            clear_bit_bytes(m[sb.inode_bitmap_block], n),
                                        ),
                                        sb,
                                        rp,
                                    ),
                                ),
                                Err(_) => None,
                            },
                        )
                    },
                )
            },
            _ => None,
        },
    )
}

/// The first table block missing among the inodes of entries `j` on.
pub open spec fn listed_inodes_need(img: Map<u64, Seq<u8>>, sb: Superblock, v: Seq<(u32, Seq<char>)>, j: int) -> Option<u64>
    decreases v.len() - j,
{
    if j < 0 || j >= v.len() {
        None
    } else {
        first_need(inode_need(img, sb, v[j].0 as u64), listed_inodes_need(img, sb, v, j + 1))
    }
}

/// The block `readdir` asks for: those of the directory's entries, then the
/// table blocks of the inodes listed from `offset` on.
pub open spec fn readdir_need(img: Map<u64, Seq<u8>>, sb: Superblock, ino: u64, offset: i64) -> Option<u64> {
    first_need(
        entries_need(img, sb, real_ino(ino)),
        match listing_of(img, sb, real_ino(ino)) {
            Ok(v) => listed_inodes_need(img, sb, v, offset as usize as int),
            Err(_) => None,
        },
    )
}


/// What reading the entry at position `j` of directory `ino` gives: the
/// entry with the position after it and the kind of its inode, or nothing
/// past the end of the listing.
pub open spec fn readdir_entry_effect(img: Map<u64, Seq<u8>>, sb: Superblock, ino: u64, j: int) -> Effect<
    Option<(u64, i64, FileKind, Seq<char>)>,
> {
    match listing_of(img, sb, real_ino(ino)) {
        Err(f) => Effect::Fault(f),
        Ok(v) => {
            if j < 0 || j >= v.len() {
                Effect::Done(img, sb, None)
            } else if !table_ok(sb, v[j].0 as u64) {
                Effect::Fault(Fault::Overflow)
            } else {
                Effect::Done(
                    img,
                    sb,
                    Some(
                        (
                            v[j].0 as u64,
                            (j + 1) as i64,
                            kind_of(inode_in(img, sb, v[j].0 as u64).mode),
                            v[j].1,
                        ),
                    ),
                )
            }
        },
    }
}

/// The block reading the entry at position `j` asks for: those of the
/// directory's entries, then the table block of the inode of that entry.
pub open spec fn readdir_entry_need(img: Map<u64, Seq<u8>>, sb: Superblock, ino: u64, j: int) -> Option<u64> {
    first_need(
        entries_need(img, sb, real_ino(ino)),
        match listing_of(img, sb, real_ino(ino)) {
            Ok(v) => if 0 <= j < v.len() {
                inode_need(img, sb, v[j].0 as u64)
            } else {
                None
            },
            Err(_) => None,
        },
    )
}

/// Takes the lowest free item of the bitmap in block `bmb`.
fn allocate_in(run: &mut Run, f: &Fetched, bmb: u64) -> (r: Result<Option<u64>, Stop>)
    ensures
        match r {
            Ok(Some(n)) => bitmap_alloc(old(run).image(f@)[bmb]) == Some(
                (n, final(run).image(f@)[bmb]),
            ) && final(run).image(f@) == old(run).image(f@).insert(bmb, final(run).image(f@)[bmb])
                && n < 32768 && old(run).image(f@).dom().contains(bmb),
            Ok(None) => bitmap_alloc(old(run).image(f@)[bmb]) is None && *final(run) == *old(run)
                && old(run).image(f@).dom().contains(bmb),
            Err(Stop::Need(b)) => !f@.dom().contains(b) && b == bmb && !old(run).image(f@).dom().contains(
                bmb,
            ),
            Err(Stop::Fault(_)) => false,
        },
{
    let block = match run.read(f, bmb) {
        Some(b) => b,
        None => return Err(Stop::Need(bmb)),
    };
    let mut bm = Bitmap::from_block(block);
    match bm.allocate() {
        Some(n) => {
            let bytes = bm.to_block();
            run.write(bmb, bytes);
            Ok(Some(n))
        },
        None => Ok(None),
    }
}

/// The step for a stop.
pub(crate) fn stop_step<T>(e: Stop) -> (r: Step<T>)
    ensures
        match e {
            Stop::Need(n) => r == Step::<T>::Need(n),
            Stop::Fault(f) => r == Step::<T>::Fault(f),
        },
{
    match e {
        Stop::Need(n) => Step::Need(n),
        Stop::Fault(f) => Step::Fault(f),
    }
}

/// A mounted image: its superblock, kept in memory while mounted.
pub struct RustFS {
    pub superblock: Superblock,
}

impl RustFS {
    /// Mounts the image whose block 0 is `block0`; `None` when block 0 does
    /// not hold the magic number of a formatted image.
    pub fn new(block0: &Block) -> (r: Option<RustFS>)
        ensures
            match r {
                Some(fs) => superblock_stored(fs.superblock, block0@) && u32_at(block0@, 0) == MAGIC,
                None => u32_at(block0@, 0) != MAGIC,
            },
    {
        let sb = Superblock::from_block(block0);
        if sb.magic == MAGIC {
            Some(RustFS { superblock: sb })
        } else {
            None
        }
    }

    /// The attributes of inode `ino` (FUSE numbering).
    pub fn getattr(&self, f: &Fetched, ino: u64) -> (r: Step<Result<Attr, FsError>>)
        ensures
            carries_out(
                r,
                f@,
                getattr_effect(f@, self.superblock, ino),
                getattr_need(f@, self.superblock, ino),
                self.superblock,
            ),
    {
        let run = Run::new();
        let i = match load_inode(&run, f, &self.superblock, fuse_ino(ino)) {
            Ok(i) => i,
            Err(e) => return stop_step(e),
        };
        if i.mode == 0 {
            return Step::Done(run.log, Err(FsError::NotFound));
        }
        if i.size > u64::MAX - 511 {
            return Step::Fault(Fault::Overflow);
        }
        Step::Done(run.log, Ok(inode_to_attr(ino, &i)))
    }

    /// The attributes of the entry `name` of directory `parent` (FUSE numbering).
    pub fn lookup(&self, f: &Fetched, parent: u64, name: &str) -> (r: Step<Result<Attr, FsError>>)
        ensures
            carries_out(
                r,
                f@,
                lookup_effect(f@, self.superblock, parent, name@),
                lookup_need(f@, self.superblock, parent, name@),
                self.superblock,
            ),
    {
        let run = Run::new();
        let found = match look_up(&run, f, &self.superblock, fuse_ino(parent), name) {
            Ok(found) => found,
            Err(e) => return stop_step(e),
        };
        match found {
            None => Step::Done(run.log, Err(FsError::NotFound)),
            Some(n) => {
                let i = match load_inode(&run, f, &self.superblock, n as u64) {
                    Ok(i) => i,
                    Err(e) => return stop_step(e),
                };
                if i.size > u64::MAX - 511 {
                    return Step::Fault(Fault::Overflow);
                }
                Step::Done(run.log, Ok(inode_to_attr(n as u64, &i)))
            },
        }
    }

    /// Up to `size` bytes of inode `ino` from byte `offset` on, within one block.
    pub fn read(&self, f: &Fetched, ino: u64, offset: i64, size: u32) -> (r: Step<Vec<u8>>)
        ensures
            match r {
                Step::Need(n) => !f@.dom().contains(n) && read_need(
                    f@,
                    self.superblock,
                    ino,
                    offset,
                    size,
                ) == Some(n),
                Step::Fault(x) => read_effect(f@, self.superblock, ino, offset, size) == Effect::<
                    Seq<u8>,
                >::Fault(x),
                Step::Done(log, data) => log@.len() == 0 && read_effect(
                    f@,
                    self.superblock,
                    ino,
                    offset,
                    size,
                ) == Effect::Done(f@, self.superblock, data@),
            },
    {
        let run = Run::new();
        let i = match load_inode(&run, f, &self.superblock, ino) {
            Ok(i) => i,
            Err(e) => return stop_step(e),
        };
        match plan_read(&i, offset, size) {
            ReadPlan::Empty => Step::Done(run.log, Vec::new()),
            ReadPlan::Range { block_num, start, len } => {
                let block = match run.read(f, block_num) {
                    Some(b) => b,
                    None => return Step::Need(block_num),
                };
                let data = vstd::slice::slice_to_vec(
                    vstd::slice::slice_subrange(block.as_slice(), start, start + len),
                );
                Step::Done(run.log, data)
            },
        }
    }

    /// Sets the access and modification times of inode `ino` that are given,
    /// and reports its attributes.
    pub fn setattr(&self, f: &Fetched, ino: u64, atime: Option<u64>, mtime: Option<u64>) -> (r: Step<
        Attr,
    >)
        ensures
            carries_out(
                r,
                f@,
                setattr_effect(f@, self.superblock, ino, atime, mtime),
                setattr_need(f@, self.superblock, ino),
                self.superblock,
            ),
    {
        let mut run = Run::new();
        let mut i = match load_inode(&run, f, &self.superblock, ino) {
            Ok(i) => i,
            Err(e) => return stop_step(e),
        };
        match atime {
            Some(t) => i.atime = t,
            None => {},
        }
        match mtime {
            Some(t) => i.mtime = t,
            None => {},
        }
        match store_inode(&mut run, f, &self.superblock, ino, &i) {
            Ok(()) => {},
            Err(e) => return stop_step(e),
        }
        if i.size > u64::MAX - 511 {
            return Step::Fault(Fault::Overflow);
        }
        Step::Done(run.log, inode_to_attr(ino, &i))
    }

    /// Creates an empty regular file named `name` in directory `parent`
    /// (FUSE numbering) and reports its attributes.
    pub fn create(
        &mut self,
        f: &Fetched,
        parent: u64,
        name: &str,
        mode: u32,
        uid: u32,
        gid: u32,
        now: u64,
    ) -> (r: Step<Result<Attr, FsError>>)
        ensures
            carries_out(
                r,
                f@,
                create_effect(f@, old(self).superblock, parent, name@, mode, uid, gid, now),
                create_need(f@, old(self).superblock, parent, mode, uid, gid, now),
                final(self).superblock,
            ),
            !(r is Done) ==> final(self).superblock == old(self).superblock,
    {
        let sb = self.superblock;
        let mut run = Run::new();
        let n = match allocate_in(&mut run, f, sb.inode_bitmap_block) {
            Ok(Some(n)) => n,
            Ok(None) => return Step::Done(run.log, Err(FsError::NoSpace)),
            Err(e) => return stop_step(e),
        };
        if sb.free_inodes == 0 {
            return Step::Fault(Fault::Overflow);
        }
        let mut sb2 = sb;
        sb2.free_inodes = sb.free_inodes - 1;
        run.write(0, sb2.to_block());
        let ino = Inode::new_file(mode, uid, gid, now);
        match store_inode(&mut run, f, &sb2, n, &ino) {
            Ok(()) => {},
            Err(e) => return stop_step(e),
        }
        match add_entry(&mut run, f, &sb2, fuse_ino(parent), name, n as u32, FT_REGULAR) {
            Ok(()) => {},
            Err(e) => return stop_step(e),
        }
        self.superblock = sb2;
        Step::Done(run.log, Ok(inode_to_attr(n, &ino)))
    }

    /// Writes `data` at byte `offset` of inode `ino` and reports how many
    /// bytes were written.
    pub fn write(&self, f: &Fetched, ino: u64, offset: i64, data: &[u8], now: u64) -> (r: Step<
        Result<u32, FsError>,
    >)
        ensures
            carries_out(
                r,
                f@,
                write_effect(f@, self.superblock, ino, offset, data@, now),
                write_need(f@, self.superblock, ino, offset),
                self.superblock,
            ),
    {
        let sb = self.superblock;
        let mut run = Run::new();
        let mut i = match load_inode(&run, f, &sb, ino) {
            Ok(i) => i,
            Err(e) => return stop_step(e),
        };
        let ghost i0 = i;
        let plan = match plan_write(&i, offset) {
            Ok(p) => p,
            Err(e) => return Step::Done(run.log, Err(e)),
        };
        let bn = if plan.needs_block {
            match allocate_in(&mut run, f, sb.data_bitmap_block) {
                Ok(Some(bit)) => {
                    if bit > u64::MAX - sb.data_start_block {
                        return Step::Fault(Fault::Overflow);
                    }
                    sb.data_start_block + bit
                },
                Ok(None) => return Step::Done(run.log, Err(FsError::NoSpace)),
                Err(e) => return stop_step(e),
            }
        } else {
            i.direct[plan.block_index]
        };
        let mut block = match run.read(f, bn) {
            Some(b) => b,
            None => return Step::Need(bn),
        };
        if data.len() > 4096 - plan.offset_in_block {
            return Step::Fault(Fault::PastBlockEnd);
        }
        write_into_block(&mut block, plan.offset_in_block, data);
        run.write(bn, block);
        if data.len() as u64 > u64::MAX - offset as u64 {
            return Step::Fault(Fault::Overflow);
        }
        i.record_write(plan.block_index, bn, offset, data.len(), now);
        match store_inode(&mut run, f, &sb, ino, &i) {
            Ok(()) => {},
            Err(e) => return stop_step(e),
        }
        Step::Done(run.log, Ok(data.len() as u32))
    }


    /// Creates the directory `name` in directory `parent` (FUSE numbering),
    /// holding "." and "..", and reports its attributes.
    pub fn mkdir(
        &mut self,
        f: &Fetched,
        parent: u64,
        name: &str,
        mode: u32,
        uid: u32,
        gid: u32,
        now: u64,
    ) -> (r: Step<Result<Attr, FsError>>)
        ensures
            carries_out(
                r,
                f@,
                mkdir_effect(f@, old(self).superblock, parent, name@, mode, uid, gid, now),
                mkdir_need(f@, old(self).superblock, parent, name@, mode, uid, gid, now),
                final(self).superblock,
            ),
            !(r is Done) ==> final(self).superblock == old(self).superblock,
    {
        let sb = self.superblock;
        let mut run = Run::new();
        let n = match allocate_in(&mut run, f, sb.inode_bitmap_block) {
            Ok(Some(n)) => n,
            Ok(None) => return Step::Done(run.log, Err(FsError::NoSpace)),
            Err(e) => return stop_step(e),
        };
        if sb.free_inodes == 0 {
            return Step::Fault(Fault::Overflow);
        }
        let mut sb2 = sb;
        sb2.free_inodes = sb.free_inodes - 1;
        run.write(0, sb2.to_block());
        let bit = match allocate_in(&mut run, f, sb.data_bitmap_block) {
            Ok(Some(b)) => b,
            Ok(None) => {
                self.superblock = sb2;
                return Step::Done(run.log, Err(FsError::NoSpace));
            },
            Err(e) => return stop_step(e),
        };
        if bit > u64::MAX - sb.data_start_block {
            return Step::Fault(Fault::Overflow);
        }
        let blk = sb.data_start_block + bit;
        let rp = fuse_ino(parent);
        run.write(blk, new_directory_block(n as u32, rp as u32));
        let ino = Inode::new_directory(mode, uid, gid, now, blk);
        match store_inode(&mut run, f, &sb2, n, &ino) {
            Ok(()) => {},
            Err(e) => return stop_step(e),
        }
        match add_entry(&mut run, f, &sb2, rp, name, n as u32, FT_DIRECTORY) {
            Ok(()) => {},
            Err(e) => return stop_step(e),
        }
        let mut p = match load_inode(&run, f, &sb2, rp) {
            Ok(i) => i,
            Err(e) => return stop_step(e),
        };
        if p.hard_links == u32::MAX {
            return Step::Fault(Fault::Overflow);
        }
        p.hard_links = p.hard_links + 1;
        match store_inode(&mut run, f, &sb2, rp, &p) {
            Ok(()) => {},
            Err(e) => return stop_step(e),
        }
        self.superblock = sb2;
        Step::Done(run.log, Ok(inode_to_attr(n, &ino)))
    }

    /// Removes the entry `name` of directory `parent` (FUSE numbering) and
    /// drops one link of its inode.
    #[verifier::loop_isolation(false)]
    pub fn unlink(&self, f: &Fetched, parent: u64, name: &str) -> (r: Step<Result<(), FsError>>)
        ensures
            carries_out(
                r,
                f@,
                unlink_effect(f@, self.superblock, parent, name@),
                unlink_need(f@, self.superblock, parent, name@),
                self.superblock,
            ),
    {
        let sb = self.superblock;
        let mut run = Run::new();
        let rp = fuse_ino(parent);
        let found = match look_up(&run, f, &sb, rp, name) {
            Ok(found) => found,
            Err(e) => return stop_step(e),
        };
        let n = match found {
            None => return Step::Done(run.log, Err(FsError::NotFound)),
            Some(x) => x as u64,
        };
        let mut i = match load_inode(&run, f, &sb, n) {
            Ok(i) => i,
            Err(e) => return stop_step(e),
        };
        if i.hard_links == 0 {
            return Step::Fault(Fault::Overflow);
        }
        let ghost i0 = i;
        i.hard_links = i.hard_links - 1;
        if i.hard_links == 0 {
            let ghost img0 = run.image(f@);
            let mut k: usize = 0;
            while k < 12
                invariant
                    0 <= k <= 12,
                    i.direct == i0.direct,
                    img0 == f@,
                    free_data_bits(img0, sb, i0.direct@.take(k as int)) == Ok::<
                        Map<u64, Seq<u8>>,
                        Fault,
                    >(run.image(f@)),
                    (exists|j: int| 0 <= j < k && #[trigger] i0.direct@[j] != 0) ==> f@.dom().contains(
                        sb.data_bitmap_block,
                    ),
                    (forall|j: int| 0 <= j < k ==> #[trigger] i0.direct@[j] == 0) ==> run.image(f@)
                        == img0,
                decreases 12 - k,
            {
                let b = i.direct[k];
                proof {
                    assert(i0.direct@.take(k + 1).drop_last() =~= i0.direct@.take(k as int));
                    assert(i0.direct@.take(k + 1).last() == b);
                }
                if b != 0 {
                    if b < sb.data_start_block {
                        proof {
                            lemma_free_error_stays(img0, sb, i0.direct@, k + 1, 12);
                            assert(i0.direct@.take(12) =~= i0.direct@);
                        }
                        return Step::Fault(Fault::Overflow);
                    }
                    let bit = b - sb.data_start_block;
                    if bit >= 32768 {
                        proof {
                            lemma_free_error_stays(img0, sb, i0.direct@, k + 1, 12);
                            assert(i0.direct@.take(12) =~= i0.direct@);
                        }
                        return Step::Fault(Fault::BitOutOfRange);
                    }
                    let block = match run.read(f, sb.data_bitmap_block) {
                        Some(b) => b,
                        None => return Step::Need(sb.data_bitmap_block),
                    };
                    proof {
                        if !(exists|j: int| 0 <= j < k && #[trigger] i0.direct@[j] != 0) {
                            assert(run.image(f@) == img0);
                        }
                    }
                    let mut bm = Bitmap::from_block(block);
                    bm.free(bit);
                    run.write(sb.data_bitmap_block, bm.to_block());
                }
                proof {
                    if b != 0 {
                        assert(i0.direct@[k as int] != 0);
                    }
                }
                k = k + 1;
            }
            proof {
                assert(i0.direct@.take(12) =~= i0.direct@);
            }
            if n >= 32768 {
                return Step::Fault(Fault::BitOutOfRange);
            }
            proof {
                if any_block(i0.direct@) {
                    let j = choose|j: int| 0 <= j < 12 && i0.direct@[j] != 0;
                    assert(i0.direct@[j] != 0);
                }
            }
            let block = match run.read(f, sb.inode_bitmap_block) {
                Some(b) => b,
                None => return Step::Need(sb.inode_bitmap_block),
            };
            let mut bm = Bitmap::from_block(block);
            bm.free(n);
            run.write(sb.inode_bitmap_block, bm.to_block());
        } else {
            match store_inode(&mut run, f, &sb, n, &i) {
                Ok(()) => {},
                Err(e) => return stop_step(e),
            }
        }
        let removed = match remove_entry(&mut run, f, &sb, rp, name) {
            Ok(removed) => removed,
            Err(e) => return stop_step(e),
        };
        Step::Done(
            run.log,
            if removed {
                Ok(())
            } else {
                Err(FsError::NotFound)
            },
        )
    }

    /// The entry at position `index` of directory `ino` (FUSE numbering),
    /// with the kind of its inode and the position after it; nothing past the
    /// end of the listing. Reads only the inode of that entry.
    pub fn readdir_entry(&self, f: &Fetched, ino: u64, index: usize) -> (r: Step<Option<DirItem>>)
        ensures
            match r {
                Step::Need(n) => !f@.dom().contains(n) && readdir_entry_need(
                    f@,
                    self.superblock,
                    ino,
                    index as int,
                ) == Some(n),
                Step::Fault(x) => readdir_entry_effect(f@, self.superblock, ino, index as int)
                    == Effect::<Option<(u64, i64, FileKind, Seq<char>)>>::Fault(x),
                Step::Done(log, item) => log@.len() == 0 && readdir_entry_effect(
                    f@,
                    self.superblock,
                    ino,
                    index as int,
                ) == Effect::Done(
                    f@,
                    self.superblock,
                    match item {
                        Some(d) => Some((d.ino, d.next_offset, d.kind, d.name@)),
                        None => None,
                    },
                ),
            },
    {
        let sb = self.superblock;
        let run = Run::new();
        let entries = match list(&run, f, &sb, fuse_ino(ino)) {
            Ok(v) => v,
            Err(e) => return stop_step(e),
        };
        let ghost v = pairs_view(entries@);
        if index >= entries.len() {
            return Step::Done(run.log, None);
        }
        let inum = entries[index].0;
        proof {
            assert(v[index as int].0 == inum);
        }
        let i = match load_inode(&run, f, &sb, inum as u64) {
            Ok(i) => i,
            Err(e) => return stop_step(e),
        };
        let kind = if is_directory(i.mode) {
            FileKind::Directory
        } else {
            FileKind::RegularFile
        };
        let name = entries[index].1.clone();
        Step::Done(
            run.log,
            Some(DirItem { ino: inum as u64, next_offset: (index + 1) as i64, kind, name }),
        )
    }

    /// The entries of directory `ino` (FUSE numbering) from position `offset`
    /// on, each with the kind of its inode and the offset of the entry after it.
    pub fn readdir(&self, f: &Fetched, ino: u64, offset: i64) -> (r: Step<Vec<DirItem>>)
        ensures
            match r {
                Step::Need(n) => !f@.dom().contains(n) && readdir_need(f@, self.superblock, ino, offset)
                    == Some(n),
                Step::Fault(x) => readdir_effect(f@, self.superblock, ino, offset) == Effect::<
                    Seq<(u64, i64, FileKind, Seq<char>)>,
                >::Fault(x),
                Step::Done(log, items) => log@.len() == 0 && readdir_effect(
                    f@,
                    self.superblock,
                    ino,
                    offset,
                ) == Effect::Done(
                    f@,
                    self.superblock,
                    items@.map_values(|d: DirItem| (d.ino, d.next_offset, d.kind, d.name@)),
                ),
            },
    {
        let sb = self.superblock;
        let run = Run::new();
        let entries = match list(&run, f, &sb, fuse_ino(ino)) {
            Ok(v) => v,
            Err(e) => return stop_step(e),
        };
        let ghost v = pairs_view(entries@);
        let skip = offset as usize;
        let mut items: Vec<DirItem> = Vec::new();
        let mut j = skip;
        while j < entries.len()
            invariant
                skip <= j,
                skip == offset as usize,
                v == pairs_view(entries@),
                v.len() == entries@.len(),
                sb == self.superblock,
                listing_of(f@, sb, real_ino(ino)) == Ok::<Seq<(u32, Seq<char>)>, Fault>(v),
                skip <= entries@.len() ==> j <= entries@.len(),
                skip > entries@.len() ==> j == skip,
                run.image(f@) == f@,
                readdir_need(f@, sb, ino, offset) == listed_inodes_need(f@, sb, v, j as int),
                items@.len() == j - skip,
                forall|t: int| skip <= t < j ==> table_ok(sb, #[trigger] v[t].0 as u64),
                forall|t: int|
                    0 <= t < items@.len() ==> (#[trigger] items@[t]).ino == v[skip + t].0 as u64
                        && items@[t].next_offset == (skip + t + 1) as i64 && items@[t].kind
                        == kind_of(inode_in(f@, sb, v[skip + t].0 as u64).mode) && items@[t].name@
                        == v[skip + t].1,
            decreases entries@.len() - j,
        {
            let inum = entries[j].0;
            let i = match load_inode(&run, f, &sb, inum as u64) {
                Ok(i) => i,
                Err(e) => {
                    proof {
                        assert(v[j as int].0 == inum);
                        if e is Fault {
                            assert(!table_ok(sb, v[j as int].0 as u64));
                        }
                    }
                    return stop_step(e);
                },
            };
            let kind = if is_directory(i.mode) {
                FileKind::Directory
            } else {
                FileKind::RegularFile
            };
            let name = entries[j].1.clone();
            items.push(DirItem { ino: inum as u64, next_offset: (j + 1) as i64, kind, name });
            j = j + 1;
        }
        proof {
            let w = items@.map_values(|d: DirItem| (d.ino, d.next_offset, d.kind, d.name@));
            assert(!(exists|t: int| skip <= t < v.len() && !table_ok(sb, #[trigger] v[t].0 as u64)));
            assert(w =~= Seq::new(
                if skip < v.len() {
                    (v.len() - skip) as nat
                } else {
                    0
                },
                |t: int|
                    (
                        v[skip + t].0 as u64,
                        (skip + t + 1) as i64,
                        kind_of(inode_in(f@, sb, v[skip + t].0 as u64).mode),
                        v[skip + t].1,
                    ),
            ));
        }
        Step::Done(run.log, items)
    }

}

} // verus!
