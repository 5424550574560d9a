//! The rules of the file system operations: how FUSE inode numbers map to
//! inodes, what attributes an inode reports, what new files and directories
//! look like, and how reads and writes are planned.

use vstd::prelude::*;
use crate::bytes::{Block, BLOCK_SIZE, copy_into, same_outside, with_bytes, lemma_with_bytes};
use crate::layout::{Inode, DirEntryHeader, FT_DIRECTORY, ROOT_INODE, dir_header_stored};
use crate::dir::{DirError, dir_list, walk_from, lemma_walk_step, name_bytes_at, live_entries, entry_name, inode_at,
    lemma_text_of_encoded};
use vstd::utf8::encode_utf8;

verus! {

/// Mask of the file type bits of a mode.
pub const S_IFMT: u32 = 0o170000;
/// File type bits of a directory.
pub const S_IFDIR: u32 = 0o040000;
/// Direct block pointers an inode has.
pub const DIRECT_BLOCKS: u64 = 12;

/// Why an operation is refused.
#[derive(Clone, Copy, PartialEq, Eq, Debug)]
pub enum FsError {
    /// No such file or directory.
    NotFound,
    /// No free inode or data block is left.
    NoSpace,
    /// The offset lies beyond what the direct blocks can hold.
    FileTooBig,
}

/// The mode says "directory".
pub open spec fn spec_is_directory(mode: u32) -> bool {
    mode & 0o170000u32 == 0o040000u32
}

/// Whether the mode says "directory".
pub fn is_directory(mode: u32) -> (r: bool)
    ensures
        r == spec_is_directory(mode),
{
    mode & S_IFMT == S_IFDIR
}

/// The inode that a FUSE inode number names: FUSE calls the root 1.
pub fn fuse_ino(ino: u64) -> (r: u64)
    ensures
        r == (if ino == 1 {
            ROOT_INODE as u64
        } else {
            ino
        }),
{
    if ino == 1 {
        ROOT_INODE as u64
    } else {
        ino
    }
}

/// The kind of file an inode holds, as reported to FUSE.
#[derive(Clone, Copy, PartialEq, Eq, Debug)]
pub enum FileKind {
    Directory,
    RegularFile,
}

/// The attributes reported for an inode; times are seconds since the epoch.
#[derive(Clone, Copy, Debug)]
pub struct Attr {
    pub ino: u64,
    pub size: u64,
    pub blocks: u64,
    pub atime: u64,
    pub mtime: u64,
    pub ctime: u64,
    pub crtime: u64,
    pub kind: FileKind,
    pub perm: u16,
    pub nlink: u32,
    pub uid: u32,
    pub gid: u32,
    pub rdev: u32,
    pub blksize: u32,
    pub flags: u32,
}

/// The attributes of `inode`, reported under the number `ino`.
pub fn inode_to_attr(ino: u64, inode: &Inode) -> (a: Attr)
    requires
        inode.size + 511 <= u64::MAX,
    ensures
        a == inode_to_attr_spec(ino, *inode),
        attr_reports(a, ino, *inode),
{
    proof {
        lemma_attr_reports(ino, *inode);
    }
    let kind = if is_directory(inode.mode) {
        FileKind::Directory
    } else {
        FileKind::RegularFile
    };
    Attr {
        ino,
        size: inode.size,
        blocks: (inode.size + 511) / 512,
        atime: inode.atime,
        mtime: inode.mtime,
        ctime: inode.ctime,
        crtime: 0,
        kind,
        perm: (inode.mode & 0o777) as u16,
        nlink: inode.hard_links,
        uid: inode.uid,
        gid: inode.gid,
        rdev: 0,
        blksize: BLOCK_SIZE as u32,
        flags: 0,
    }
}

/// The attributes `inode_to_attr` reports.
pub open spec fn inode_to_attr_spec(ino: u64, inode: Inode) -> Attr {
    Attr {
        ino,
        size: inode.size,
        blocks: ((inode.size + 511) / 512) as u64,
        atime: inode.atime,
        mtime: inode.mtime,
        ctime: inode.ctime,
        crtime: 0,
        kind: if spec_is_directory(inode.mode) {
            FileKind::Directory
        } else {
            FileKind::RegularFile
        },
        perm: (inode.mode & 0o777u32) as u16,
        nlink: inode.hard_links,
        uid: inode.uid,
        gid: inode.gid,
        rdev: 0,
        blksize: 4096,
        flags: 0,
    }
}

impl Inode {
    /// A new empty regular file with one link, all times `now`.
    pub fn new_file(mode: u32, uid: u32, gid: u32, now: u64) -> (i: Inode)
        ensures
            i == file_inode(mode, uid, gid, now),
            i.mode == mode,
            i.uid == uid,
            i.gid == gid,
            i.hard_links == 1,
            i.size == 0,
            i.atime == now && i.mtime == now && i.ctime == now,
            forall|k: int| 0 <= k < 12 ==> i.direct[k] == 0,
            i.indirect == 0,
            i.double_indirect == 0,
            forall|k: int| 0 <= k < 88 ==> i._padding[k] == 0,
    {
        Inode {
            mode,
            uid,
            gid,
            size: 0,
            ctime: now,
            atime: now,
            mtime: now,
            hard_links: 1,
            direct: [0u64; 12],
            indirect: 0,
            double_indirect: 0,
            _padding: [0u8; 88],
        }
    }

    /// A new directory whose entries live in `data_block`: its mode gets the
    /// directory type bits, it has two links ("." and the parent's entry) and
    /// it is one block long.
    pub fn new_directory(mode: u32, uid: u32, gid: u32, now: u64, data_block: u64) -> (i: Inode)
        ensures
            i == directory_inode(mode, uid, gid, now, data_block),
            i.mode == mode | 0o040000u32,
            i.uid == uid,
            i.gid == gid,
            i.hard_links == 2,
            i.size == BLOCK_SIZE,
            i.atime == now && i.mtime == now && i.ctime == now,
            i.direct[0] == data_block,
            forall|k: int| 1 <= k < 12 ==> i.direct[k] == 0,
            i.indirect == 0,
            i.double_indirect == 0,
            forall|k: int| 0 <= k < 88 ==> i._padding[k] == 0,
    {
        let mut direct = [0u64; 12];
        direct[0] = data_block;
        let i = Inode {
            mode: mode | S_IFDIR,
            uid,
            gid,
            size: BLOCK_SIZE,
            ctime: now,
            atime: now,
            mtime: now,
            hard_links: 2,
            direct,
            indirect: 0,
            double_indirect: 0,
            _padding: [0u8; 88],
        };
        assert(i.direct =~= vstd::array::spec_array_update(vstd::array::spec_array_fill_for_copy_type::<u64, 12>(0), 0, data_block));
        i
    }
}

/// The inode of a new empty regular file: one link, all times `now`.
pub open spec fn file_inode(mode: u32, uid: u32, gid: u32, now: u64) -> Inode {
    Inode {
        mode,
        uid,
        gid,
        size: 0,
        ctime: now,
        atime: now,
        mtime: now,
        hard_links: 1,
        direct: vstd::array::spec_array_fill_for_copy_type::<u64, 12>(0),
        indirect: 0,
        double_indirect: 0,
        _padding: vstd::array::spec_array_fill_for_copy_type::<u8, 88>(0),
    }
}

/// The inode of a new directory whose entries live in `data_block`.
pub open spec fn directory_inode(mode: u32, uid: u32, gid: u32, now: u64, data_block: u64) -> Inode {
    Inode {
        mode: mode | 0o040000u32,
        uid,
        gid,
        size: 4096,
        ctime: now,
        atime: now,
        mtime: now,
        hard_links: 2,
        direct: vstd::array::spec_array_update(vstd::array::spec_array_fill_for_copy_type::<u64, 12>(0), 0, data_block),
        indirect: 0,
        double_indirect: 0,
        _padding: vstd::array::spec_array_fill_for_copy_type::<u8, 88>(0),
    }
}

/// `s` is the first block of a new directory: "." naming `self_ino` in a
/// 12-byte record, then ".." naming `parent` in a record that runs to the end
/// of the block, and zeros elsewhere.
pub open spec fn is_new_directory_block(s: Seq<u8>, self_ino: u32, parent: u32) -> bool {
    &&& s.len() == 4096
    &&& dir_header_stored(
        DirEntryHeader { inode: self_ino, rec_len: 12, name_len: 1, file_type: FT_DIRECTORY },
        s,
        0,
    )
    &&& s[8] == 46
    &&& dir_header_stored(
        DirEntryHeader { inode: parent, rec_len: 4084, name_len: 2, file_type: FT_DIRECTORY },
        s,
        12,
    )
    &&& s[20] == 46 && s[21] == 46
    &&& forall|i: int| (9 <= i < 12 || 22 <= i < 4096) ==> s[i] == 0
}

/// The bytes of the first block of a new directory.
pub open spec fn new_directory_bytes(self_ino: u32, parent: u32) -> Seq<u8> {
    choose|s: Seq<u8>| is_new_directory_block(s, self_ino, parent)
}

/// The first block of a new directory is fixed byte for byte.
pub proof fn lemma_new_directory_block_unique(s: Seq<u8>, t: Seq<u8>, self_ino: u32, parent: u32)
    requires
        is_new_directory_block(s, self_ino, parent),
        is_new_directory_block(t, self_ino, parent),
    ensures
        s == t,
{
    crate::layout::lemma_dir_header_bytes_equal(
        DirEntryHeader { inode: self_ino, rec_len: 12, name_len: 1, file_type: FT_DIRECTORY },
        s,
        t,
        0,
    );
    crate::layout::lemma_dir_header_bytes_equal(
        DirEntryHeader { inode: parent, rec_len: 4084, name_len: 2, file_type: FT_DIRECTORY },
        s,
        t,
        12,
    );
    assert forall|i: int| 0 <= i < 4096 implies s[i] == t[i] by {
        if (9 <= i < 12 || 22 <= i < 4096) {
            assert(s[i] == 0 && t[i] == 0);
        }
    }
    assert(s =~= t);
}

/// `new_directory_bytes` is the first block of a new directory.
pub proof fn lemma_new_directory_bytes_holds(self_ino: u32, parent: u32)
    ensures
        is_new_directory_block(new_directory_bytes(self_ino, parent), self_ino, parent),
{
    let dot = DirEntryHeader { inode: self_ino, rec_len: 12, name_len: 1, file_type: FT_DIRECTORY };
    let dotdot = DirEntryHeader {
        inode: parent,
        rec_len: 4084,
        name_len: 2,
        file_type: FT_DIRECTORY,
    };
    let z = Seq::new(4096, |i: int| 0u8);
    let t1 = crate::dir::header_encoded(z, 0, dot);
    crate::dir::lemma_header_encoded(z, 0, dot);
    let t2 = t1.update(8, 46u8);
    crate::dir::lemma_header_frame(dot, t1, t2, 0, 8, 9);
    let t3 = crate::dir::header_encoded(t2, 12, dotdot);
    crate::dir::lemma_header_encoded(t2, 12, dotdot);
    crate::dir::lemma_header_frame(dot, t2, t3, 0, 12, 20);
    let t4 = t3.update(20, 46u8).update(21, 46u8);
    crate::dir::lemma_header_frame(dot, t3, t4, 0, 20, 22);
    crate::dir::lemma_header_frame(dotdot, t3, t4, 12, 20, 22);
    assert(is_new_directory_block(t4, self_ino, parent));
}

/// The first block of a new directory: "." naming `self_ino` in a 12-byte
/// record, then ".." naming `parent` in a record that runs to the end of the block.
pub fn new_directory_block(self_ino: u32, parent: u32) -> (b: Block)
    ensures
        b@ == new_directory_bytes(self_ino, parent),
        is_new_directory_block(b@, self_ino, parent),
        dir_header_stored(
            DirEntryHeader { inode: self_ino, rec_len: 12, name_len: 1, file_type: FT_DIRECTORY },
            b@,
            0,
        ),
        b@[8] == 46,
        dir_header_stored(
            DirEntryHeader {
                inode: parent,
                rec_len: 4084,
                name_len: 2,
                file_type: FT_DIRECTORY,
            },
            b@,
            12,
        ),
        b@[20] == 46 && b@[21] == 46,
        forall|i: int| (9 <= i < 12 || 22 <= i < 4096) ==> b@[i] == 0,
{
    let mut b = [0u8; 4096];
    let dot = DirEntryHeader { inode: self_ino, rec_len: 12, name_len: 1, file_type: FT_DIRECTORY };
    dot.write_at(&mut b, 0);
    b[8] = 46;
    let ghost s1 = b@;
    let dotdot = DirEntryHeader {
        inode: parent,
        rec_len: (BLOCK_SIZE - 12) as u16,
        name_len: 2,
        file_type: FT_DIRECTORY,
    };
    dotdot.write_at(&mut b, 12);
    let ghost s2 = b@;
    b[20] = 46;
    b[21] = 46;
    proof {
        assert(same_outside(s1, b@, 12, 22)) by {
            assert forall|i: int| 0 <= i < 4096 && !(12 <= i < 22) implies b@[i] == s1[i] by {
                assert(b@[i] == s2[i]);
            }
        }
        crate::layout::lemma_u32_frame(s1, b@, 0, 12, 22);
        crate::layout::lemma_u16_frame(s1, b@, 4, 12, 22);
        assert(is_new_directory_block(b@, self_ino, parent));
        lemma_new_directory_block_unique(b@, new_directory_bytes(self_ino, parent), self_ino, parent);
    }
    b
}

/// Where a write at `offset` goes: which direct block, where in it, and
/// whether that block must first be allocated.
#[derive(Clone, Copy)]
pub struct WritePlan {
    pub block_index: usize,
    pub offset_in_block: usize,
    pub needs_block: bool,
}

/// Where a write at `offset` of `inode` goes, or why it is refused.
pub open spec fn write_plan(inode: Inode, offset: i64) -> Result<WritePlan, FsError> {
    if (offset as u64) / 4096 >= 12 {
        Err(FsError::FileTooBig)
    } else {
        Ok(
            WritePlan {
                block_index: ((offset as u64) / 4096) as usize,
                offset_in_block: ((offset as u64) % 4096) as usize,
                needs_block: inode.direct[((offset as u64) / 4096) as int] == 0,
            },
        )
    }
}

/// Plans a write at byte `offset` of `inode`; offsets past the twelve direct
/// blocks (negative ones included) are refused.
pub fn plan_write(inode: &Inode, offset: i64) -> (r: Result<WritePlan, FsError>)
    ensures
        r == write_plan(*inode, offset),
{
    let off = offset as u64;
    let block_index = off / BLOCK_SIZE;
    if block_index >= DIRECT_BLOCKS {
        return Err(FsError::FileTooBig);
    }
    let bi = block_index as usize;
    Ok(
        WritePlan {
            block_index: bi,
            offset_in_block: (off % BLOCK_SIZE) as usize,
            needs_block: inode.direct[bi] == 0,
        },
    )
}

/// Copies the written bytes into the data block at `at`.
pub fn write_into_block(block: &mut Block, at: usize, data: &[u8])
    requires
        at + data@.len() <= 4096,
    ensures
        final(block)@ == with_bytes(old(block)@, at as int, data@),
        final(block)@.subrange(at as int, at + data@.len()) == data@,
        same_outside(old(block)@, final(block)@, at as int, at + data@.len()),
{
    copy_into(block, at, data);
    proof {
        lemma_with_bytes(old(block)@, block@, at as int, data@);
    }
}

/// `inode` after a write of `len` bytes at `offset` into direct block
/// `block_index`, which is `block_num`, at time `now`.
pub open spec fn inode_after_write(
    inode: Inode,
    block_index: int,
    block_num: u64,
    offset: i64,
    len: int,
    now: u64,
) -> Inode {
    Inode {
        direct: vstd::array::spec_array_update(inode.direct, block_index, block_num),
        size: if (offset as u64) + len > inode.size {
            ((offset as u64) + len) as u64
        } else {
            inode.size
        },
        mtime: now,
        ..inode
    }
}

impl Inode {
    /// Records a write of `len` bytes at `offset` into direct block
    /// `block_index`, which is `block_num`: the file grows to cover the write
    /// and its modification time becomes `now`.
    pub fn record_write(&mut self, block_index: usize, block_num: u64, offset: i64, len: usize, now: u64)
        requires
            block_index < 12,
            (offset as u64) + len <= u64::MAX,
        ensures
            final(self).direct@ == old(self).direct@.update(block_index as int, block_num),
            final(self).size == (if (offset as u64) + len > old(self).size {
                ((offset as u64) + len) as u64
            } else {
                old(self).size
            }),
            final(self).mtime == now,
            final(self).mode == old(self).mode,
            final(self).uid == old(self).uid,
            final(self).gid == old(self).gid,
            final(self).ctime == old(self).ctime,
            final(self).atime == old(self).atime,
            final(self).hard_links == old(self).hard_links,
            final(self).indirect == old(self).indirect,
            final(self).double_indirect == old(self).double_indirect,
            final(self)._padding == old(self)._padding,
            *final(self) == inode_after_write(*old(self), block_index as int, block_num, offset, len as int, now),
    {
        self.direct[block_index] = block_num;
        let end = offset as u64 + len as u64;
        if end > self.size {
            self.size = end;
        }
        self.mtime = now;
        assert(self.direct =~= vstd::array::spec_array_update(old(self).direct, block_index as int, block_num));
    }
}

/// What a read returns.
pub enum ReadPlan {
    /// No bytes.
    Empty,
    /// `len` bytes of block `block_num` starting at `start`.
    Range { block_num: u64, start: usize, len: usize },
}

/// What a read of up to `size` bytes at `offset` of `inode` returns.
pub open spec fn read_plan(inode: Inode, offset: i64, size: u32) -> ReadPlan {
    let off = offset as u64;
    let bi = off / 4096;
    if off >= inode.size || bi >= 12 || inode.direct[bi as int] == 0 {
        ReadPlan::Empty
    } else {
        let in_block = off % 4096;
        let n = vstd::math::min(vstd::math::min(size as int, 4096 - in_block), inode.size - off);
        ReadPlan::Range { block_num: inode.direct[bi as int], start: in_block as usize, len: n as usize }
    }
}

/// Plans a read of up to `size` bytes at `offset`: at most to the end of the
/// file and to the end of the direct block the offset falls in; nothing at
/// or past the end of the file, past the direct blocks, or in a hole.
pub fn plan_read(inode: &Inode, offset: i64, size: u32) -> (r: ReadPlan)
    ensures
        r == read_plan(*inode, offset, size),
{
    let off = offset as u64;
    if off >= inode.size {
        return ReadPlan::Empty;
    }
    let bi = off / BLOCK_SIZE;
    if bi >= DIRECT_BLOCKS || inode.direct[bi as usize] == 0 {
        return ReadPlan::Empty;
    }
    let block_num = inode.direct[bi as usize];
    let in_block = off % BLOCK_SIZE;
    let remaining_in_file = inode.size - off;
    let remaining_in_block = BLOCK_SIZE - in_block;
    let mut n = size as u64;
    if remaining_in_block < n {
        n = remaining_in_block;
    }
    if remaining_in_file < n {
        n = remaining_in_file;
    }
    ReadPlan::Range { block_num, start: in_block as usize, len: n as usize }
}

/// A new directory lists exactly "." naming itself and ".." naming its parent.
pub proof fn lemma_new_directory_lists_dots(s: Seq<u8>, self_ino: u32, parent: u32)
    requires
        is_new_directory_block(s, self_ino, parent),
        self_ino != 0,
        parent != 0,
    ensures
        dir_list(s) == Ok::<Seq<(u32, Seq<char>)>, DirError>(
            seq![(self_ino, seq!['.']), (parent, seq!['.', '.'])],
        ),
{
    lemma_walk_step(s, 0);
    lemma_walk_step(s, 12);
    assert(walk_from(s, 4096).0 =~= Seq::<int>::empty());
    let w = walk_from(s, 0).0;
    assert(w =~= seq![0int, 12int]);
    assert((46u32 & 0x7Fu32) == 46u32) by (bit_vector);
    let one = seq!['.'];
    let two = seq!['.', '.'];
    assert(encode_utf8(one.drop_first()) =~= Seq::<u8>::empty());
    assert(encode_utf8(one) =~= seq![46u8]);
    assert(two.drop_first() =~= one);
    assert(encode_utf8(two) =~= seq![46u8, 46u8]);
    lemma_text_of_encoded(one);
    lemma_text_of_encoded(two);
    assert(name_bytes_at(s, 0) =~= seq![46u8]);
    assert(name_bytes_at(s, 12) =~= seq![46u8, 46u8]);
    assert(w.drop_first() =~= seq![12int]);
    assert(w.drop_first().drop_first() =~= Seq::<int>::empty());
    assert(entry_name(s, 0) == one);
    assert(entry_name(s, 12) == two);
    assert(inode_at(s, 0) == self_ino);
    assert(inode_at(s, 12) == parent);
    let w1 = w.drop_first();
    assert(live_entries(s, w1.drop_first()) =~= Seq::<(u32, Seq<char>)>::empty());
    assert(live_entries(s, w1) =~= seq![(parent, two)]);
    assert(live_entries(s, w) =~= seq![(self_ino, one), (parent, two)]);
}


/// `a` reports inode `inode` under the number `ino`: its size, the number of
/// 512-byte units that hold it (rounded up), its times, links and owners;
/// the kind is a directory exactly when the type bits (bits 12 to 15) of the
/// mode are 0o04, and the permissions are the low nine bits of the mode.
pub open spec fn attr_reports(a: Attr, ino: u64, inode: Inode) -> bool {
    &&& a.ino == ino
    &&& a.size == inode.size
    &&& a.blocks * 512 >= inode.size
    &&& a.blocks * 512 < inode.size + 512
    &&& a.atime == inode.atime
    &&& a.mtime == inode.mtime
    &&& a.ctime == inode.ctime
    &&& (a.kind == FileKind::Directory) == ((inode.mode >> 12u32) & 15u32 == 4u32)
    &&& (a.kind == FileKind::Directory || a.kind == FileKind::RegularFile)
    &&& a.perm as u32 == inode.mode % 512
    &&& a.nlink == inode.hard_links
    &&& a.uid == inode.uid
    &&& a.gid == inode.gid
}

/// The attributes reported for an inode say what the inode holds.
pub proof fn lemma_attr_reports(ino: u64, inode: Inode)
    requires
        inode.size + 511 <= u64::MAX,
    ensures
        attr_reports(inode_to_attr_spec(ino, inode), ino, inode),
{
    let m = inode.mode;
    assert((m & 0o170000u32 == 0o040000u32) == ((m >> 12u32) & 15u32 == 4u32)) by (bit_vector);
    assert((m & 0o777u32) == m % 512) by (bit_vector);
    let sz = inode.size as int;
    let b = (sz + 511) / 512;
    assert(b * 512 >= sz && b * 512 < sz + 512) by (nonlinear_arith)
        requires
            b == (sz + 511) / 512,
            sz >= 0,
    ;
}


/// A mode names a directory exactly when its type bits (bits 12 to 15) are 0o04.
pub proof fn lemma_directory_type_bits(m: u32)
    ensures
        spec_is_directory(m) == ((m >> 12u32) & 15u32 == 4u32),
{
    assert((m & 0o170000u32 == 0o040000u32) == ((m >> 12u32) & 15u32 == 4u32)) by (bit_vector);
}

} // verus!
