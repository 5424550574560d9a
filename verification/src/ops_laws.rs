//! What the operations promise of each other on a well laid out image:
//! reading gives back what was written, and lookups find what was created.

use vstd::prelude::*;
use vstd::utf8::encode_utf8;
use crate::bytes::{with_bytes, with_u32};
use crate::layout::{Superblock, Inode, lemma_inode_written_stores, lemma_decoded_same_slot};
use crate::inode::inode_offset;
use crate::bitmap::{bits_of, first_free, lemma_alloc_sets_bit, clear_bit_bytes};
use crate::fsck::{used_count, lemma_used_count_set, lemma_used_count_all};
use crate::dir::{DirError, dir_lookup, dir_list, dir_find, insert_status,
    lemma_block_after_insert_holds};
use crate::dir_laws::{dir_well_formed, lemma_lookup_after_insert, names_distinct,
    lemma_lookup_after_remove, lemma_list_after_insert, lemma_list_after_remove};
use crate::fs::{Attr, FsError, ReadPlan, read_plan, write_plan, inode_after_write};
use crate::ops::{Effect, write_effect, read_effect, write_data_effect, table_ok, table_block,
    inode_in, with_inode, create_effect, lookup_effect, real_ino, dir_block, unlink_effect,
    drop_link, free_data_bits, without_entry, lookup_in, Fault, mkdir_effect, mkdir_link_effect,
    listing_of, one_inode_taken, with_entry, setattr_effect, getattr_effect, with_times,
    readdir_effect, readdir_entry_effect};

verus! {

/// The regions of the image do not overlap: block 0, the two bitmaps, the
/// inode table (room for `total_inodes` inodes) and then the data blocks.
pub open spec fn layout_ok(sb: Superblock) -> bool {
    &&& 0 < sb.inode_bitmap_block < sb.inode_table_block
    &&& 0 < sb.data_bitmap_block < sb.inode_table_block
    &&& sb.inode_bitmap_block != sb.data_bitmap_block
    &&& sb.total_inodes % 16 == 0
    &&& sb.total_inodes <= 32768
    &&& sb.inode_table_block + sb.total_inodes / 16 <= sb.data_start_block
}

/// Every block of the image is a whole block.
pub open spec fn image_ok(img: Map<u64, Seq<u8>>) -> bool {
    forall|k: u64| #[trigger] img[k].len() == 4096
}

/// The direct pointers of `i` in use point into the data region.
pub open spec fn pointers_in_data(i: Inode, sb: Superblock) -> bool {
    forall|k: int| 0 <= k < 12 && i.direct[k] != 0 ==> i.direct[k] >= sb.data_start_block
}

/// An inode of the table lives in a block below the data region and above
/// the bitmaps.
pub proof fn lemma_table_block_in_table(sb: Superblock, n: u64)
    requires
        layout_ok(sb),
        n < sb.total_inodes,
    ensures
        table_ok(sb, n),
        sb.inode_table_block <= table_block(sb, n) < sb.data_start_block,
{
    assert(n / 16 < sb.total_inodes / 16) by (nonlinear_arith)
        requires
            n < sb.total_inodes,
            sb.total_inodes % 16 == 0,
    ;
}

/// The data block a write of inode `ino` at `offset` puts its bytes in: the
/// direct block there, or the lowest free data block when that is unused.
pub open spec fn write_target(img: Map<u64, Seq<u8>>, sb: Superblock, ino: u64, offset: i64) -> u64 {
    let i = inode_in(img, sb, ino);
    let plan = write_plan(i, offset)->Ok_0;
    if plan.needs_block {
        (sb.data_start_block + crate::bitmap::bitmap_alloc(img[sb.data_bitmap_block])->Some_0.0) as u64
    } else {
        i.direct[plan.block_index as int]
    }
}

/// After a write stores `data` at `offset` of inode `ino`, a read of as many
/// bytes at that offset gives `data` back. This holds where the inode's own
/// table block is not the block the bytes went to, and that block is not
/// block 0, which an inode's pointer cannot name (0 marks a hole).
pub proof fn lemma_read_after_write(
    img: Map<u64, Seq<u8>>,
    sb: Superblock,
    ino: u64,
    offset: i64,
    data: Seq<u8>,
    now: u64,
    after: Map<u64, Seq<u8>>,
)
    requires
        image_ok(img),
        write_effect(img, sb, ino, offset, data, now) == Effect::Done(
            after,
            sb,
            Ok::<u32, FsError>(data.len() as u32),
        ),
        table_block(sb, ino) != write_target(img, sb, ino, offset),
        write_target(img, sb, ino, offset) != 0,
    ensures
        read_effect(after, sb, ino, offset, data.len() as u32) == Effect::Done(after, sb, data),
{
    let i = inode_in(img, sb, ino);
    let plan = write_plan(i, offset)->Ok_0;
    if plan.needs_block {
        let (bit, bits) = crate::bitmap::bitmap_alloc(img[sb.data_bitmap_block])->Some_0;
        let bn = (sb.data_start_block + bit) as u64;
        let img1 = img.insert(sb.data_bitmap_block, bits);
        crate::bitmap::lemma_alloc_sets_bit(img[sb.data_bitmap_block]);
        lemma_data_then_inode(img1, sb, ino, i, plan, bn, offset, data, now, after);
    } else {
        let bn = i.direct[plan.block_index as int];
        lemma_data_then_inode(img, sb, ino, i, plan, bn, offset, data, now, after);
    }
}

/// The read-back part of `lemma_read_after_write`, once the block `bn` of the
/// write is known.
proof fn lemma_data_then_inode(
    img1: Map<u64, Seq<u8>>,
    sb: Superblock,
    ino: u64,
    i: Inode,
    plan: crate::fs::WritePlan,
    bn: u64,
    offset: i64,
    data: Seq<u8>,
    now: u64,
    after: Map<u64, Seq<u8>>,
)
    requires
        table_ok(sb, ino),
        table_block(sb, ino) != bn,
        bn != 0,
        img1[bn].len() == 4096,
        img1[table_block(sb, ino)].len() == 4096,
        write_plan(i, offset) == Ok::<crate::fs::WritePlan, FsError>(plan),
        write_data_effect(img1, sb, ino, i, plan, bn, offset, data, now) == Effect::Done(
            after,
            sb,
            Ok::<u32, FsError>(data.len() as u32),
        ),
    ensures
        read_effect(after, sb, ino, offset, data.len() as u32) == Effect::Done(after, sb, data),
{
    let at = plan.offset_in_block as int;
    let t = table_block(sb, ino);
    let img2 = img1.insert(bn, with_bytes(img1[bn], at, data));
    let i2 = inode_after_write(i, plan.block_index as int, bn, offset, data.len() as int, now);
    assert(after == with_inode(img2, sb, ino, i2));
    assert(img2[t] == img1[t]);
    lemma_inode_written_stores(img2[t], inode_offset(ino), i2);
    assert(inode_in(after, sb, ino) == i2);
    let off = offset as u64;
    assert(i2.direct[plan.block_index as int] == bn);
    assert(after[bn] == with_bytes(img1[bn], at, data));
    assert(with_bytes(img1[bn], at, data).subrange(at, at + data.len()) =~= data);
    if data.len() == 0 {
        match read_plan(i2, offset, data.len() as u32) {
            ReadPlan::Empty => {
                assert(Seq::<u8>::empty() =~= data);
            },
            ReadPlan::Range { block_num, start, len } => {
                assert(after[block_num].subrange(start as int, start + len) =~= data);
            },
        }
    }
}

/// Storing inode `n` leaves it readable as stored.
pub proof fn lemma_stored_inode_reads_back(img: Map<u64, Seq<u8>>, sb: Superblock, n: u64, ino: Inode)
    requires
        table_ok(sb, n),
        img[table_block(sb, n)].len() == 4096,
    ensures
        inode_in(with_inode(img, sb, n, ino), sb, n) == ino,
{
    lemma_inode_written_stores(img[table_block(sb, n)], inode_offset(n), ino);
}

/// Storing inode `n` leaves every other inode as it was.
pub proof fn lemma_other_inode_kept(img: Map<u64, Seq<u8>>, sb: Superblock, n: u64, ino: Inode, m: u64)
    requires
        table_ok(sb, n),
        table_ok(sb, m),
        m != n,
        img[table_block(sb, n)].len() == 4096,
    ensures
        inode_in(with_inode(img, sb, n, ino), sb, m) == inode_in(img, sb, m),
{
    let tn = table_block(sb, n);
    let tm = table_block(sb, m);
    if tn == tm {
        let s = img[tn];
        lemma_inode_written_stores(s, inode_offset(n), ino);
        assert(m / 16 == n / 16);
        assert(m % 16 != n % 16);
        let t = with_inode(img, sb, n, ino)[tn];
        assert forall|j: int| inode_offset(m) <= j < inode_offset(m) + 256 implies s[j] == t[j] by {}
        lemma_decoded_same_slot(s, t, inode_offset(m));
    }
}

/// The parts of a `create` that succeeded: the inode it took and the bitmap
/// bytes it left, the superblock, the answer and how the entry was added.
proof fn lemma_create_done(
    img: Map<u64, Seq<u8>>,
    sb: Superblock,
    parent: u64,
    name: Seq<char>,
    mode: u32,
    uid: u32,
    gid: u32,
    now: u64,
    after: Map<u64, Seq<u8>>,
    sb2: Superblock,
    a: Attr,
) -> (r: (u64, Seq<u8>))
    requires
        create_effect(img, sb, parent, name, mode, uid, gid, now) == Effect::Done(
            after,
            sb2,
            Ok::<Attr, FsError>(a),
        ),
    ensures
        crate::bitmap::bitmap_alloc(img[sb.inode_bitmap_block]) == Some(r),
        table_ok(sb, r.0),
        sb2 == crate::ops::one_inode_taken(sb),
        a == crate::fs::inode_to_attr_spec(r.0, crate::fs::file_inode(mode, uid, gid, now)),
        crate::ops::with_entry(
            with_inode(
                img.insert(sb.inode_bitmap_block, r.1).insert(0, crate::layout::superblock_bytes(sb2)),
                sb2,
                r.0,
                crate::fs::file_inode(mode, uid, gid, now),
            ),
            sb2,
            real_ino(parent),
            name,
            r.0 as u32,
            crate::layout::FT_REGULAR,
        ) == Ok::<Map<u64, Seq<u8>>, crate::ops::Fault>(after),
{
    crate::bitmap::bitmap_alloc(img[sb.inode_bitmap_block])->Some_0
}

/// Adding a new name to a well-formed directory makes lookups of it find the
/// new inode.
proof fn lemma_entry_added(
    img: Map<u64, Seq<u8>>,
    sb: Superblock,
    dir: u64,
    name: Seq<char>,
    ino: u32,
    ft: u8,
    after: Map<u64, Seq<u8>>,
)
    requires
        crate::ops::with_entry(img, sb, dir, name, ino, ft) == Ok::<
            Map<u64, Seq<u8>>,
            crate::ops::Fault,
        >(after),
        table_ok(sb, dir),
        dir_block(img, sb, dir) != table_block(sb, dir),
        img[dir_block(img, sb, dir)].len() == 4096,
        dir_well_formed(img[dir_block(img, sb, dir)]),
        dir_lookup(img[dir_block(img, sb, dir)], name) == Ok::<Option<u32>, DirError>(None),
        encode_utf8(name).len() <= 255,
        insert_status(img[dir_block(img, sb, dir)], encode_utf8(name).len() as int) == Ok::<
            bool,
            DirError,
        >(true),
        ino != 0,
    ensures
        crate::ops::lookup_in(after, sb, dir, name) == Ok::<Option<u32>, crate::ops::Fault>(
            Some(ino),
        ),
        after == img.insert(
            dir_block(img, sb, dir),
            crate::dir::block_after_insert(img[dir_block(img, sb, dir)], encode_utf8(name), ino, ft),
        ),
{
    let p = dir_block(img, sb, dir);
    let nb = encode_utf8(name);
    let t = crate::dir::block_after_insert(img[p], nb, ino, ft);
    lemma_block_after_insert_holds(img[p], nb, ino, ft);
    lemma_lookup_after_insert(img[p], t, name, ino, ft);
    assert(after[table_block(sb, dir)] == img[table_block(sb, dir)]);
    assert(dir_block(after, sb, dir) == p);
}

/// After `create` adds `name` to directory `parent`, looking `name` up in
/// `parent` answers with the attributes that `create` answered. This holds
/// where the layout is sound, the new inode and `parent` are inodes of the
/// table, `parent`'s entries live in the data region, the name is new there
/// and short enough for a record, and the directory block has room for it.
#[verifier::rlimit(30)]
pub proof fn lemma_lookup_after_create(
    img: Map<u64, Seq<u8>>,
    sb: Superblock,
    parent: u64,
    name: Seq<char>,
    mode: u32,
    uid: u32,
    gid: u32,
    now: u64,
    after: Map<u64, Seq<u8>>,
    sb2: Superblock,
    a: Attr,
)
    requires
        layout_ok(sb),
        image_ok(img),
        create_effect(img, sb, parent, name, mode, uid, gid, now) == Effect::Done(
            after,
            sb2,
            Ok::<Attr, FsError>(a),
        ),
        0 < a.ino < sb.total_inodes,
        real_ino(parent) < sb.total_inodes,
        real_ino(parent) != a.ino,
        dir_block(img, sb, real_ino(parent)) >= sb.data_start_block,
        dir_well_formed(img[dir_block(img, sb, real_ino(parent))]),
        dir_lookup(img[dir_block(img, sb, real_ino(parent))], name) == Ok::<Option<u32>, DirError>(
            None,
        ),
        encode_utf8(name).len() <= 255,
        insert_status(img[dir_block(img, sb, real_ino(parent))], encode_utf8(name).len() as int)
            == Ok::<bool, DirError>(true),
    ensures
        lookup_effect(after, sb2, parent, name) == Effect::Done(after, sb2, Ok::<Attr, FsError>(a)),
{
    let rp = real_ino(parent);
    let ibb = sb.inode_bitmap_block;
    let (n, bits) = lemma_create_done(img, sb, parent, name, mode, uid, gid, now, after, sb2, a);
    crate::bitmap::lemma_first_free_bounds(bits_of(img[ibb]), 0);
    assert(n < 32768);
    let img2 = img.insert(ibb, bits).insert(0, crate::layout::superblock_bytes(sb2));
    let ino = crate::fs::file_inode(mode, uid, gid, now);
    assert(n == a.ino);
    lemma_table_block_in_table(sb, n);
    lemma_table_block_in_table(sb, rp);
    let tn = table_block(sb, n);
    let trp = table_block(sb, rp);
    assert(img2[tn] == img[tn]);
    assert(img2[trp] == img[trp]);
    let img3 = with_inode(img2, sb2, n, ino);
    assert(table_block(sb2, rp) == trp && table_block(sb2, n) == tn);
    lemma_other_inode_kept(img2, sb2, n, ino, rp);
    assert(inode_in(img3, sb2, rp) == inode_in(img, sb, rp));
    let p = dir_block(img, sb, rp);
    assert(dir_block(img3, sb2, rp) == p);
    assert(img3[p] == img[p]);
    lemma_entry_added(img3, sb2, rp, name, n as u32, crate::layout::FT_REGULAR, after);
    assert(after[tn] == img3[tn]);
    lemma_stored_inode_reads_back(img2, sb2, n, ino);
    assert(inode_in(after, sb2, n) == ino);
}

/// A successful `create` takes the lowest free inode of the inode bitmap,
/// marks exactly that bit, counts one free inode fewer in the superblock and
/// stores there an empty regular file with the mode, owner and group given,
/// all three times `now`, one link and no blocks; its answer reports that
/// inode. This holds where the layout is sound, the new inode and `parent`
/// are different inodes of the table and `parent`'s entries live in the
/// data region.
pub proof fn lemma_create_new_file(
    img: Map<u64, Seq<u8>>,
    sb: Superblock,
    parent: u64,
    name: Seq<char>,
    mode: u32,
    uid: u32,
    gid: u32,
    now: u64,
    after: Map<u64, Seq<u8>>,
    sb2: Superblock,
    a: Attr,
)
    requires
        layout_ok(sb),
        image_ok(img),
        create_effect(img, sb, parent, name, mode, uid, gid, now) == Effect::Done(
            after,
            sb2,
            Ok::<Attr, FsError>(a),
        ),
        a.ino < sb.total_inodes,
        real_ino(parent) < sb.total_inodes,
        real_ino(parent) != a.ino,
        dir_block(img, sb, real_ino(parent)) >= sb.data_start_block,
    ensures
        ({
            let ibb = sb.inode_bitmap_block;
            let i = inode_in(after, sb2, a.ino);
            &&& !bits_of(img[ibb])[a.ino as int]
            &&& forall|m: int| 0 <= m < a.ino ==> #[trigger] bits_of(img[ibb])[m]
            &&& bits_of(after[ibb]) == bits_of(img[ibb]).update(a.ino as int, true)
            &&& sb.free_inodes > 0
            &&& sb2 == (Superblock { free_inodes: (sb.free_inodes - 1) as u64, ..sb })
            &&& i.mode == mode && i.uid == uid && i.gid == gid
            &&& i.size == 0 && i.hard_links == 1
            &&& i.atime == now && i.mtime == now && i.ctime == now
            &&& forall|k: int| 0 <= k < 12 ==> #[trigger] i.direct[k] == 0
            &&& i.indirect == 0 && i.double_indirect == 0
            &&& crate::fs::attr_reports(a, a.ino, i)
        }),
{
    let rp = real_ino(parent);
    let ibb = sb.inode_bitmap_block;
    let (n, bits) = lemma_create_done(img, sb, parent, name, mode, uid, gid, now, after, sb2, a);
    lemma_alloc_sets_bit(img[ibb]);
    assert(n == a.ino);
    let img2 = img.insert(ibb, bits).insert(0, crate::layout::superblock_bytes(sb2));
    let ino = crate::fs::file_inode(mode, uid, gid, now);
    lemma_table_block_in_table(sb, n);
    lemma_table_block_in_table(sb, rp);
    let tn = table_block(sb, n);
    let trp = table_block(sb, rp);
    assert(img2[tn] == img[tn]);
    assert(img2[trp] == img[trp]);
    let img3 = with_inode(img2, sb2, n, ino);
    assert(table_block(sb2, rp) == trp && table_block(sb2, n) == tn);
    lemma_other_inode_kept(img2, sb2, n, ino, rp);
    let p = dir_block(img, sb, rp);
    assert(dir_block(img3, sb2, rp) == p);
    assert(after[tn] == img3[tn]);
    assert(after[ibb] == bits);
    lemma_stored_inode_reads_back(img2, sb2, n, ino);
    assert(inode_in(after, sb2, n) == ino);
    crate::fs::lemma_attr_reports(n, ino);
}

/// A successful `mkdir` takes the lowest free inode and the lowest free data
/// block, marks exactly those two bits, counts one free inode fewer in the
/// superblock and stores there a directory inode: the mode given with the
/// directory type bits, the owner and group given, all three times `now`,
/// two links, one block's size, and the new block as its first and only
/// direct block. Its answer reports that inode. This holds where the layout
/// is sound, the new inode and `parent` are different inodes of the table
/// and `parent`'s entries live in the data region.
pub proof fn lemma_mkdir_new_directory(
    img: Map<u64, Seq<u8>>,
    sb: Superblock,
    parent: u64,
    name: Seq<char>,
    mode: u32,
    uid: u32,
    gid: u32,
    now: u64,
    after: Map<u64, Seq<u8>>,
    sb2: Superblock,
    a: Attr,
)
    requires
        layout_ok(sb),
        image_ok(img),
        mkdir_effect(img, sb, parent, name, mode, uid, gid, now) == Effect::Done(
            after,
            sb2,
            Ok::<Attr, FsError>(a),
        ),
        a.ino < sb.total_inodes,
        real_ino(parent) < sb.total_inodes,
        real_ino(parent) != a.ino,
        dir_block(img, sb, real_ino(parent)) >= sb.data_start_block,
    ensures
        ({
            let ibb = sb.inode_bitmap_block;
            let dbb = sb.data_bitmap_block;
            let ds = sb.data_start_block;
            let i = inode_in(after, sb2, a.ino);
            let bit = i.direct[0] - ds;
            &&& !bits_of(img[ibb])[a.ino as int]
            &&& forall|m: int| 0 <= m < a.ino ==> #[trigger] bits_of(img[ibb])[m]
            &&& bits_of(after[ibb]) == bits_of(img[ibb]).update(a.ino as int, true)
            &&& ds <= i.direct[0] && bit < 32768
            &&& !bits_of(img[dbb])[bit]
            &&& forall|m: int| 0 <= m < bit ==> #[trigger] bits_of(img[dbb])[m]
            &&& bits_of(after[dbb]) == bits_of(img[dbb]).update(bit, true)
            &&& sb.free_inodes > 0
            &&& sb2 == (Superblock { free_inodes: (sb.free_inodes - 1) as u64, ..sb })
            &&& i.mode == mode | 0o040000u32 && i.uid == uid && i.gid == gid
            &&& i.size == 4096 && i.hard_links == 2
            &&& i.atime == now && i.mtime == now && i.ctime == now
            &&& forall|k: int| 1 <= k < 12 ==> #[trigger] i.direct[k] == 0
            &&& i.indirect == 0 && i.double_indirect == 0
            &&& crate::fs::attr_reports(a, a.ino, i)
        }),
{
    let rp = real_ino(parent);
    let ibb = sb.inode_bitmap_block;
    let dbb = sb.data_bitmap_block;
    let ds = sb.data_start_block;
    let (n, ibits, bit, dbits, img5) = lemma_mkdir_done(
        img,
        sb,
        parent,
        name,
        mode,
        uid,
        gid,
        now,
        after,
        sb2,
        a,
    );
    assert(n == a.ino);
    lemma_alloc_sets_bit(img[ibb]);
    let img2 = img.insert(ibb, ibits).insert(0, crate::layout::superblock_bytes(sb2));
    assert(img2[dbb] == img[dbb]);
    lemma_alloc_sets_bit(img[dbb]);
    let blk = (ds + bit) as u64;
    let img3 = img2.insert(dbb, dbits).insert(blk, crate::fs::new_directory_bytes(n as u32, rp as u32));
    let dino = crate::fs::directory_inode(mode, uid, gid, now, blk);
    let img4 = with_inode(img3, sb2, n, dino);
    lemma_table_block_in_table(sb, n);
    lemma_table_block_in_table(sb, rp);
    let tn = table_block(sb, n);
    let trp = table_block(sb, rp);
    assert(table_block(sb2, rp) == trp && table_block(sb2, n) == tn);
    let p = dir_block(img, sb, rp);
    assert(img3[tn] == img[tn]);
    assert(img3[trp] == img[trp]);
    lemma_other_inode_kept(img3, sb2, n, dino, rp);
    assert(dir_block(img4, sb2, rp) == p);
    lemma_inode_written_stores(img3[tn], inode_offset(n), dino);
    assert(img5[tn] == img4[tn]);
    assert(img5[trp] == img4[trp]);
    assert(img5[ibb] == ibits);
    assert(img5[dbb] == dbits);
    let pi = inode_in(img5, sb2, rp);
    let pi2 = Inode { hard_links: (pi.hard_links + 1) as u32, ..pi };
    lemma_stored_inode_reads_back(img3, sb2, n, dino);
    lemma_other_inode_kept(img5, sb2, rp, pi2, n);
    assert(inode_in(after, sb2, n) == dino);
    assert(after[ibb] == ibits);
    assert(after[dbb] == dbits);
    assert(dino.direct[0] == blk);
    crate::fs::lemma_attr_reports(n, dino);
}

/// Adding an entry to a well-formed directory that lists without error puts
/// exactly that entry into its listing and keeps the others in order.
proof fn lemma_entry_listed(
    img: Map<u64, Seq<u8>>,
    sb: Superblock,
    dir: u64,
    name: Seq<char>,
    ino: u32,
    ft: u8,
    after: Map<u64, Seq<u8>>,
) -> (j: int)
    requires
        with_entry(img, sb, dir, name, ino, ft) == Ok::<Map<u64, Seq<u8>>, Fault>(after),
        table_ok(sb, dir),
        dir_block(img, sb, dir) != table_block(sb, dir),
        img[dir_block(img, sb, dir)].len() == 4096,
        dir_well_formed(img[dir_block(img, sb, dir)]),
        listing_of(img, sb, dir) is Ok,
        encode_utf8(name).len() <= 255,
        insert_status(img[dir_block(img, sb, dir)], encode_utf8(name).len() as int) == Ok::<
            bool,
            DirError,
        >(true),
        ino != 0,
    ensures
        0 <= j <= listing_of(img, sb, dir)->Ok_0.len(),
        listing_of(after, sb, dir) == Ok::<Seq<(u32, Seq<char>)>, Fault>(
            listing_of(img, sb, dir)->Ok_0.insert(j, (ino, name)),
        ),
{
    let p = dir_block(img, sb, dir);
    let nb = encode_utf8(name);
    let t = crate::dir::block_after_insert(img[p], nb, ino, ft);
    lemma_block_after_insert_holds(img[p], nb, ino, ft);
    let j = lemma_list_after_insert(img[p], t, name, ino, ft);
    assert(after[table_block(sb, dir)] == img[table_block(sb, dir)]);
    assert(dir_block(after, sb, dir) == p);
    j
}

/// After `create` adds `name` to directory `parent`, the listing of `parent`
/// (what `readdir` answers from) holds exactly one more entry, naming the
/// new inode by `name`, with every other entry kept in order. This holds
/// where the layout is sound, the new inode and `parent` are inodes of the
/// table, `parent`'s entries live in the data region and list without
/// error, the name is short enough for a record, and the directory block
/// has room for it.
#[verifier::rlimit(30)]
pub proof fn lemma_listing_after_create(
    img: Map<u64, Seq<u8>>,
    sb: Superblock,
    parent: u64,
    name: Seq<char>,
    mode: u32,
    uid: u32,
    gid: u32,
    now: u64,
    after: Map<u64, Seq<u8>>,
    sb2: Superblock,
    a: Attr,
) -> (j: int)
    requires
        layout_ok(sb),
        image_ok(img),
        create_effect(img, sb, parent, name, mode, uid, gid, now) == Effect::Done(
            after,
            sb2,
            Ok::<Attr, FsError>(a),
        ),
        0 < a.ino < sb.total_inodes,
        real_ino(parent) < sb.total_inodes,
        real_ino(parent) != a.ino,
        dir_block(img, sb, real_ino(parent)) >= sb.data_start_block,
        dir_well_formed(img[dir_block(img, sb, real_ino(parent))]),
        listing_of(img, sb, real_ino(parent)) is Ok,
        encode_utf8(name).len() <= 255,
        insert_status(img[dir_block(img, sb, real_ino(parent))], encode_utf8(name).len() as int)
            == Ok::<bool, DirError>(true),
    ensures
        0 <= j <= listing_of(img, sb, real_ino(parent))->Ok_0.len(),
        listing_of(after, sb2, real_ino(parent)) == Ok::<Seq<(u32, Seq<char>)>, Fault>(
            listing_of(img, sb, real_ino(parent))->Ok_0.insert(j, (a.ino as u32, name)),
        ),
{
    let rp = real_ino(parent);
    let ibb = sb.inode_bitmap_block;
    let (n, bits) = lemma_create_done(img, sb, parent, name, mode, uid, gid, now, after, sb2, a);
    crate::bitmap::lemma_first_free_bounds(bits_of(img[ibb]), 0);
    assert(n < 32768);
    let img2 = img.insert(ibb, bits).insert(0, crate::layout::superblock_bytes(sb2));
    let ino = crate::fs::file_inode(mode, uid, gid, now);
    assert(n == a.ino);
    lemma_table_block_in_table(sb, n);
    lemma_table_block_in_table(sb, rp);
    let tn = table_block(sb, n);
    let trp = table_block(sb, rp);
    assert(img2[tn] == img[tn]);
    assert(img2[trp] == img[trp]);
    let img3 = with_inode(img2, sb2, n, ino);
    assert(table_block(sb2, rp) == trp && table_block(sb2, n) == tn);
    lemma_other_inode_kept(img2, sb2, n, ino, rp);
    assert(inode_in(img3, sb2, rp) == inode_in(img, sb, rp));
    let p = dir_block(img, sb, rp);
    assert(dir_block(img3, sb2, rp) == p);
    assert(img3[p] == img[p]);
    assert(listing_of(img3, sb2, rp) == listing_of(img, sb, rp));
    lemma_entry_listed(img3, sb2, rp, name, n as u32, crate::layout::FT_REGULAR, after)
}

/// The block `create` adds its entry to: the entry block of `parent` in
/// the image as it is once the new inode is taken and stored.
pub open spec fn create_entry_block(
    img: Map<u64, Seq<u8>>,
    sb: Superblock,
    parent: u64,
    mode: u32,
    uid: u32,
    gid: u32,
    now: u64,
) -> u64 {
    match crate::bitmap::bitmap_alloc(img[sb.inode_bitmap_block]) {
        Some((n, bits)) => {
            let sb2 = one_inode_taken(sb);
            let img2 = img.insert(sb.inode_bitmap_block, bits).insert(
                0,
                crate::layout::superblock_bytes(sb2),
            );
            dir_block(
                with_inode(img2, sb2, n, crate::fs::file_inode(mode, uid, gid, now)),
                sb2,
                real_ino(parent),
            )
        },
        None => 0,
    }
}

/// `create` takes exactly one inode below `total_inodes` that the inode
/// bitmap had free, marks it used and nothing else, and counts one free
/// inode fewer in the superblock, which block 0 then holds; so when the
/// superblock's count of free inodes was the number of inodes below
/// `total_inodes` that the bitmap left free, it still is. This holds where
/// the inode bitmap is not block 0, holds a bit for every inode counted, and
/// neither the new inode's table block nor the block the entry goes to is
/// block 0 or the inode bitmap.
pub proof fn lemma_create_keeps_free_inode_count(
    img: Map<u64, Seq<u8>>,
    sb: Superblock,
    parent: u64,
    name: Seq<char>,
    mode: u32,
    uid: u32,
    gid: u32,
    now: u64,
    after: Map<u64, Seq<u8>>,
    sb2: Superblock,
    a: Attr,
)
    requires
        img[sb.inode_bitmap_block].len() == 4096,
        create_effect(img, sb, parent, name, mode, uid, gid, now) == Effect::Done(
            after,
            sb2,
            Ok::<Attr, FsError>(a),
        ),
        sb.inode_bitmap_block != 0,
        sb.total_inodes <= 32768,
        table_block(sb, a.ino) != 0,
        table_block(sb, a.ino) != sb.inode_bitmap_block,
        create_entry_block(img, sb, parent, mode, uid, gid, now) != 0,
        create_entry_block(img, sb, parent, mode, uid, gid, now) != sb.inode_bitmap_block,
        sb.free_inodes + used_count(bits_of(img[sb.inode_bitmap_block]), sb.total_inodes as int)
            == sb.total_inodes,
    ensures
        a.ino < sb.total_inodes,
        !bits_of(img[sb.inode_bitmap_block])[a.ino as int],
        bits_of(after[sb.inode_bitmap_block]) == bits_of(img[sb.inode_bitmap_block]).update(
            a.ino as int,
            true,
        ),
        sb2 == one_inode_taken(sb),
        sb2.free_inodes == sb.free_inodes - 1,
        after[0] == crate::layout::superblock_bytes(sb2),
        sb2.free_inodes + used_count(bits_of(after[sb2.inode_bitmap_block]), sb2.total_inodes as int)
            == sb2.total_inodes,
{
    let ibb = sb.inode_bitmap_block;
    let (n, bits) = lemma_create_done(img, sb, parent, name, mode, uid, gid, now, after, sb2, a);
    lemma_alloc_sets_bit(img[ibb]);
    let b0 = bits_of(img[ibb]);
    let t = sb.total_inodes as int;
    // a free inode is counted, so the lowest free inode lies below the total
    if n as int >= t {
        lemma_used_count_all(b0, t);
    }
    assert(n < sb.total_inodes);
    lemma_used_count_set(b0, n as int, t);
    let img2 = img.insert(ibb, bits).insert(0, crate::layout::superblock_bytes(sb2));
    let ino = crate::fs::file_inode(mode, uid, gid, now);
    let img3 = with_inode(img2, sb2, n, ino);
    assert(table_block(sb2, n) == table_block(sb, n));
    let p = dir_block(img3, sb2, real_ino(parent));
    assert(p == create_entry_block(img, sb, parent, mode, uid, gid, now));
    assert(img3[ibb] == bits);
    assert(img3[0] == crate::layout::superblock_bytes(sb2));
    assert(after[ibb] == bits);
    assert(after[0] == crate::layout::superblock_bytes(sb2));
}

/// Freeing data bits changes the data bitmap block and nothing else.
proof fn lemma_free_data_bits_frame(
    img: Map<u64, Seq<u8>>,
    sb: Superblock,
    d: Seq<u64>,
    m: Map<u64, Seq<u8>>,
    k: u64,
)
    requires
        free_data_bits(img, sb, d) == Ok::<Map<u64, Seq<u8>>, Fault>(m),
        k != sb.data_bitmap_block,
    ensures
        m[k] == img[k],
    decreases d.len(),
{
    if d.len() > 0 {
        let m0 = free_data_bits(img, sb, d.drop_last())->Ok_0;
        lemma_free_data_bits_frame(img, sb, d.drop_last(), m0, k);
    }
}

/// Dropping a link of inode `n` leaves directory `dir` and its block as they
/// were, for a directory of the table whose entries live in the data region.
proof fn lemma_drop_link_keeps_dir(
    img: Map<u64, Seq<u8>>,
    sb: Superblock,
    n: u64,
    m: Map<u64, Seq<u8>>,
    dir: u64,
)
    requires
        layout_ok(sb),
        image_ok(img),
        n < sb.total_inodes,
        dir < sb.total_inodes,
        inode_in(img, sb, n).hard_links != 0,
        drop_link(img, sb, n, inode_in(img, sb, n)) == Ok::<Map<u64, Seq<u8>>, Fault>(m),
        dir_block(img, sb, dir) >= sb.data_start_block,
    ensures
        dir_block(m, sb, dir) == dir_block(img, sb, dir),
        m[dir_block(img, sb, dir)] == img[dir_block(img, sb, dir)],
{
    lemma_table_block_in_table(sb, n);
    lemma_table_block_in_table(sb, dir);
    let i = inode_in(img, sb, n);
    let links = (i.hard_links - 1) as u32;
    let p = dir_block(img, sb, dir);
    if links != 0 {
        let i2 = Inode { hard_links: links, ..i };
        if n == dir {
            lemma_stored_inode_reads_back(img, sb, n, i2);
        } else {
            lemma_other_inode_kept(img, sb, n, i2, dir);
        }
    } else {
        let m1 = free_data_bits(img, sb, i.direct@)->Ok_0;
        lemma_free_data_bits_frame(img, sb, i.direct@, m1, table_block(sb, dir));
        lemma_free_data_bits_frame(img, sb, i.direct@, m1, p);
    }
}

/// After `unlink` removes `name` from directory `parent`, looking `name` up
/// there answers `NotFound`. This holds where the layout is sound, `parent`
/// and the inode the name gave are inodes of the table, `parent`'s entries
/// live in the data region, and its directory block is well formed with all
/// names different.
pub proof fn lemma_lookup_after_unlink(
    img: Map<u64, Seq<u8>>,
    sb: Superblock,
    parent: u64,
    name: Seq<char>,
    ino: u32,
    after: Map<u64, Seq<u8>>,
)
    requires
        layout_ok(sb),
        image_ok(img),
        unlink_effect(img, sb, parent, name) == Effect::Done(after, sb, Ok::<(), FsError>(())),
        real_ino(parent) < sb.total_inodes,
        dir_block(img, sb, real_ino(parent)) >= sb.data_start_block,
        dir_well_formed(img[dir_block(img, sb, real_ino(parent))]),
        dir_list(img[dir_block(img, sb, real_ino(parent))]) is Ok,
        names_distinct(dir_list(img[dir_block(img, sb, real_ino(parent))])->Ok_0),
        dir_lookup(img[dir_block(img, sb, real_ino(parent))], name) == Ok::<Option<u32>, DirError>(
            Some(ino),
        ),
        ino < sb.total_inodes,
    ensures
        lookup_effect(after, sb, parent, name) == Effect::Done(
            after,
            sb,
            Err::<Attr, FsError>(FsError::NotFound),
        ),
{
    let rp = real_ino(parent);
    let p = dir_block(img, sb, rp);
    let n = ino as u64;
    lemma_table_block_in_table(sb, rp);
    assert(lookup_in(img, sb, rp, name) == Ok::<Option<u32>, Fault>(Some(ino)));
    let i = inode_in(img, sb, n);
    let m = drop_link(img, sb, n, i)->Ok_0;
    lemma_drop_link_keeps_dir(img, sb, n, m, rp);
    let off = dir_find(img[p], name)->Ok_0->Some_0;
    assert(after == m.insert(p, with_u32(img[p], off, 0)));
    lemma_lookup_after_remove(img[p], name, off);
    assert(after[table_block(sb, rp)] == m[table_block(sb, rp)]);
    assert(dir_block(after, sb, rp) == p);
}

/// After `unlink` removes `name` from directory `parent`, the listing of
/// `parent` is the one before with exactly the entry `(ino, name)` taken out
/// and every other entry kept in order. This holds where the layout is
/// sound, `parent` and the inode the name gave are inodes of the table, and
/// `parent`'s entries live in the data region in a well-formed block that
/// lists without error.
pub proof fn lemma_listing_after_unlink(
    img: Map<u64, Seq<u8>>,
    sb: Superblock,
    parent: u64,
    name: Seq<char>,
    ino: u32,
    after: Map<u64, Seq<u8>>,
) -> (j: int)
    requires
        layout_ok(sb),
        image_ok(img),
        unlink_effect(img, sb, parent, name) == Effect::Done(after, sb, Ok::<(), FsError>(())),
        real_ino(parent) < sb.total_inodes,
        dir_block(img, sb, real_ino(parent)) >= sb.data_start_block,
        dir_well_formed(img[dir_block(img, sb, real_ino(parent))]),
        listing_of(img, sb, real_ino(parent)) is Ok,
        dir_lookup(img[dir_block(img, sb, real_ino(parent))], name) == Ok::<Option<u32>, DirError>(
            Some(ino),
        ),
        ino < sb.total_inodes,
    ensures
        0 <= j < listing_of(img, sb, real_ino(parent))->Ok_0.len(),
        listing_of(img, sb, real_ino(parent))->Ok_0[j] == (ino, name),
        listing_of(after, sb, real_ino(parent)) == Ok::<Seq<(u32, Seq<char>)>, Fault>(
            listing_of(img, sb, real_ino(parent))->Ok_0.remove(j),
        ),
{
    let rp = real_ino(parent);
    let p = dir_block(img, sb, rp);
    let n = ino as u64;
    lemma_table_block_in_table(sb, rp);
    assert(lookup_in(img, sb, rp, name) == Ok::<Option<u32>, Fault>(Some(ino)));
    let i = inode_in(img, sb, n);
    let m = drop_link(img, sb, n, i)->Ok_0;
    lemma_drop_link_keeps_dir(img, sb, n, m, rp);
    let off = dir_find(img[p], name)->Ok_0->Some_0;
    assert(after == m.insert(p, with_u32(img[p], off, 0)));
    let j = lemma_list_after_remove(img[p], name, off);
    assert(after[table_block(sb, rp)] == m[table_block(sb, rp)]);
    assert(dir_block(after, sb, rp) == p);
    j
}

/// The bit `j` of the data bitmap is one of the blocks among `d` (block 0
/// marks no block).
pub open spec fn frees_bit(d: Seq<u64>, start: u64, j: int) -> bool {
    exists|k: int| 0 <= k < d.len() && d[k] != 0 && d[k] - start == j
}

/// Freeing the blocks `d` clears the data bit of each of them and keeps
/// every other bit.
proof fn lemma_free_data_bits_clears(img: Map<u64, Seq<u8>>, sb: Superblock, d: Seq<u64>, m: Map<u64, Seq<u8>>)
    requires
        free_data_bits(img, sb, d) == Ok::<Map<u64, Seq<u8>>, Fault>(m),
        img[sb.data_bitmap_block].len() == 4096,
    ensures
        m[sb.data_bitmap_block].len() == 4096,
        forall|k: int|
            0 <= k < d.len() && d[k] != 0 ==> sb.data_start_block <= #[trigger] d[k] && d[k]
                - sb.data_start_block < 32768,
        forall|j: int|
            0 <= j < 32768 ==> #[trigger] bits_of(m[sb.data_bitmap_block])[j] == (bits_of(
                img[sb.data_bitmap_block],
            )[j] && !frees_bit(d, sb.data_start_block, j)),
    decreases d.len(),
{
    let dbb = sb.data_bitmap_block;
    let ds = sb.data_start_block;
    if d.len() == 0 {
        assert forall|j: int| 0 <= j < 32768 implies !frees_bit(d, ds, j) by {}
    } else {
        let p = d.drop_last();
        let m0 = free_data_bits(img, sb, p)->Ok_0;
        lemma_free_data_bits_clears(img, sb, p, m0);
        let b = d.last();
        assert forall|j: int| #[trigger] frees_bit(d, ds, j) == (frees_bit(p, ds, j) || (b != 0 && b - ds == j)) by {
            if frees_bit(d, ds, j) {
                let k = choose|k: int| 0 <= k < d.len() && d[k] != 0 && d[k] - ds == j;
                if k < d.len() - 1 {
                    assert(p[k] == d[k]);
                }
            }
            if frees_bit(p, ds, j) {
                let k = choose|k: int| 0 <= k < p.len() && p[k] != 0 && p[k] - ds == j;
                assert(d[k] == p[k]);
            }
            if b != 0 && b - ds == j {
                assert(d[d.len() - 1] == b);
            }
        }
        if b != 0 {
            crate::bitmap::lemma_clear_bit_bytes(m0[dbb], (b - ds) as u64);
        }
        assert forall|k: int| 0 <= k < d.len() && d[k] != 0 implies ds <= #[trigger] d[k] && d[k] - ds
            < 32768 by {
            if k < d.len() - 1 {
                assert(p[k] == d[k]);
            }
        }
    }
}

/// When `unlink` drops the last link of the inode that `parent` names
/// `name`, the data bitmap has the bit of every block the inode points at
/// directly cleared and every other bit kept, and the inode bitmap has the
/// inode's bit cleared and every other bit kept. This holds where the two
/// bitmaps are different blocks and neither is the table block or the
/// entry block of `parent`.
pub proof fn lemma_unlink_last_link_frees(
    img: Map<u64, Seq<u8>>,
    sb: Superblock,
    parent: u64,
    name: Seq<char>,
    ino: u32,
    after: Map<u64, Seq<u8>>,
)
    requires
        image_ok(img),
        unlink_effect(img, sb, parent, name) == Effect::Done(after, sb, Ok::<(), FsError>(())),
        lookup_in(img, sb, real_ino(parent), name) == Ok::<Option<u32>, Fault>(Some(ino)),
        inode_in(img, sb, ino as u64).hard_links == 1,
        sb.inode_bitmap_block != sb.data_bitmap_block,
        table_block(sb, real_ino(parent)) != sb.data_bitmap_block,
        table_block(sb, real_ino(parent)) != sb.inode_bitmap_block,
        dir_block(img, sb, real_ino(parent)) != sb.data_bitmap_block,
        dir_block(img, sb, real_ino(parent)) != sb.inode_bitmap_block,
    ensures
        ({
            let i = inode_in(img, sb, ino as u64);
            let ds = sb.data_start_block;
            let dbb = sb.data_bitmap_block;
            let ibb = sb.inode_bitmap_block;
            &&& forall|k: int|
                0 <= k < 12 && i.direct[k] != 0 ==> !bits_of(after[dbb])[#[trigger] i.direct[k] - ds]
            &&& forall|j: int|
                0 <= j < 32768 && (forall|k: int| 0 <= k < 12 ==> #[trigger] i.direct[k] == 0 || i.direct[k] - ds != j)
                    ==> #[trigger] bits_of(after[dbb])[j] == bits_of(img[dbb])[j]
            &&& ino < 32768
            &&& !bits_of(after[ibb])[ino as int]
            &&& forall|j: int|
                0 <= j < 32768 && j != ino ==> #[trigger] bits_of(after[ibb])[j] == bits_of(img[ibb])[j]
        }),
{
    let rp = real_ino(parent);
    let n = ino as u64;
    let i = inode_in(img, sb, n);
    let dbb = sb.data_bitmap_block;
    let ibb = sb.inode_bitmap_block;
    let ds = sb.data_start_block;
    let m = free_data_bits(img, sb, i.direct@)->Ok_0;
    lemma_free_data_bits_clears(img, sb, i.direct@, m);
    lemma_free_data_bits_frame(img, sb, i.direct@, m, ibb);
    lemma_free_data_bits_frame(img, sb, i.direct@, m, table_block(sb, rp));
    assert(n < 32768);
    crate::bitmap::lemma_clear_bit_bytes(m[ibb], n);
    let m2 = m.insert(ibb, clear_bit_bytes(m[ibb], n));
    assert(m2[table_block(sb, rp)] == img[table_block(sb, rp)]);
    assert(dir_block(m2, sb, rp) == dir_block(img, sb, rp));
    assert(after[dbb] == m2[dbb]);
    assert(after[ibb] == m2[ibb]);
    assert forall|k: int| 0 <= k < 12 && i.direct[k] != 0 implies !bits_of(after[dbb])[#[trigger] i.direct[k] - ds] by {
        assert(i.direct@[k] == i.direct[k]);
        assert(ds <= i.direct@[k] && i.direct@[k] - ds < 32768);
        assert(frees_bit(i.direct@, ds, i.direct[k] - ds));
    }
    assert forall|j: int|
        0 <= j < 32768 && (forall|k: int| 0 <= k < 12 ==> #[trigger] i.direct[k] == 0 || i.direct[k] - ds != j)
            implies #[trigger] bits_of(after[dbb])[j] == bits_of(img[dbb])[j] by {
        if frees_bit(i.direct@, ds, j) {
            let k = choose|k: int| 0 <= k < i.direct@.len() && i.direct@[k] != 0 && i.direct@[k] - ds == j;
            assert(i.direct[k] == i.direct@[k]);
        }
    }
}

/// When `unlink` drops a link of an inode that has others left, the inode is
/// stored with one link fewer and every other field as it was, and neither
/// bitmap changes. This holds where the entry block of `parent` is neither
/// the inode's table block nor a bitmap, and the inode's table block is not
/// a bitmap.
pub proof fn lemma_unlink_keeps_linked_inode(
    img: Map<u64, Seq<u8>>,
    sb: Superblock,
    parent: u64,
    name: Seq<char>,
    ino: u32,
    after: Map<u64, Seq<u8>>,
)
    requires
        image_ok(img),
        unlink_effect(img, sb, parent, name) == Effect::Done(after, sb, Ok::<(), FsError>(())),
        lookup_in(img, sb, real_ino(parent), name) == Ok::<Option<u32>, Fault>(Some(ino)),
        inode_in(img, sb, ino as u64).hard_links > 1,
        dir_block(img, sb, real_ino(parent)) != table_block(sb, ino as u64),
        dir_block(img, sb, real_ino(parent)) != sb.data_bitmap_block,
        dir_block(img, sb, real_ino(parent)) != sb.inode_bitmap_block,
        table_block(sb, ino as u64) != sb.data_bitmap_block,
        table_block(sb, ino as u64) != sb.inode_bitmap_block,
    ensures
        ({
            let old = inode_in(img, sb, ino as u64);
            &&& inode_in(after, sb, ino as u64) == (Inode { hard_links: (old.hard_links - 1) as u32, ..old })
            &&& after[sb.data_bitmap_block] == img[sb.data_bitmap_block]
            &&& after[sb.inode_bitmap_block] == img[sb.inode_bitmap_block]
        }),
{
    let rp = real_ino(parent);
    let n = ino as u64;
    let i = inode_in(img, sb, n);
    let i2 = Inode { hard_links: (i.hard_links - 1) as u32, ..i };
    let m = with_inode(img, sb, n, i2);
    lemma_stored_inode_reads_back(img, sb, n, i2);
    if rp != n {
        lemma_other_inode_kept(img, sb, n, i2, rp);
    }
    assert(dir_block(m, sb, rp) == dir_block(img, sb, rp));
    let p = dir_block(img, sb, rp);
    assert(m[p] == img[p]);
    let off = dir_find(img[p], name)->Ok_0->Some_0;
    assert(after == m.insert(p, with_u32(img[p], off, 0)));
    assert(after[table_block(sb, n)] == m[table_block(sb, n)]);
}

/// The parts of a `mkdir` that succeeded: the inode and the data bit it took,
/// the bitmap bytes it left, and the image after the entry was added.
proof fn lemma_mkdir_done(
    img: Map<u64, Seq<u8>>,
    sb: Superblock,
    parent: u64,
    name: Seq<char>,
    mode: u32,
    uid: u32,
    gid: u32,
    now: u64,
    after: Map<u64, Seq<u8>>,
    sb2: Superblock,
    a: Attr,
) -> (r: (u64, Seq<u8>, u64, Seq<u8>, Map<u64, Seq<u8>>))
    requires
        mkdir_effect(img, sb, parent, name, mode, uid, gid, now) == Effect::Done(
            after,
            sb2,
            Ok::<Attr, FsError>(a),
        ),
    ensures
        ({
            let (n, ibits, bit, dbits, img5) = r;
            let img2 = img.insert(sb.inode_bitmap_block, ibits).insert(
                0,
                crate::layout::superblock_bytes(sb2),
            );
            let blk = (sb.data_start_block + bit) as u64;
            let rp = real_ino(parent);
            let img3 = img2.insert(sb.data_bitmap_block, dbits).insert(
                blk,
                crate::fs::new_directory_bytes(n as u32, rp as u32),
            );
            let dino = crate::fs::directory_inode(mode, uid, gid, now, blk);
            let p = inode_in(img5, sb2, rp);
            &&& crate::bitmap::bitmap_alloc(img[sb.inode_bitmap_block]) == Some((n, ibits))
            &&& sb2 == one_inode_taken(sb)
            &&& crate::bitmap::bitmap_alloc(img2[sb.data_bitmap_block]) == Some((bit, dbits))
            &&& sb.data_start_block + bit <= u64::MAX
            &&& table_ok(sb, n)
            &&& with_entry(with_inode(img3, sb2, n, dino), sb2, rp, name, n as u32, crate::layout::FT_DIRECTORY)
                == Ok::<Map<u64, Seq<u8>>, Fault>(img5)
            &&& p.hard_links != u32::MAX
            &&& after == with_inode(img5, sb2, rp, Inode { hard_links: (p.hard_links + 1) as u32, ..p })
            &&& a == crate::fs::inode_to_attr_spec(n, dino)
        }),
{
    let (n, ibits) = crate::bitmap::bitmap_alloc(img[sb.inode_bitmap_block])->Some_0;
    let sbx = one_inode_taken(sb);
    let img2 = img.insert(sb.inode_bitmap_block, ibits).insert(0, crate::layout::superblock_bytes(sbx));
    let (bit, dbits) = crate::bitmap::bitmap_alloc(img2[sb.data_bitmap_block])->Some_0;
    let blk = (sb.data_start_block + bit) as u64;
    let rp = real_ino(parent);
    let img3 = img2.insert(sb.data_bitmap_block, dbits).insert(
        blk,
        crate::fs::new_directory_bytes(n as u32, rp as u32),
    );
    let dino = crate::fs::directory_inode(mode, uid, gid, now, blk);
    let img5 = with_entry(with_inode(img3, sbx, n, dino), sbx, rp, name, n as u32, crate::layout::FT_DIRECTORY)->Ok_0;
    (n, ibits, bit, dbits, img5)
}

/// After `mkdir` makes the directory `name` in `parent`, looking `name` up in
/// `parent` answers with the attributes that `mkdir` answered, the new
/// directory lists exactly "." naming itself and ".." naming `parent`, it has
/// two links, and `parent` has one more link than before, as the checker's
/// link rule (two plus one per subdirectory) asks of both. This
/// holds where the layout is sound, the new inode and `parent` are inodes of
/// the table, `parent`'s entries live in a data block marked in use, the name
/// is new there and short enough for a record, and the directory block has
/// room for it.
#[verifier::rlimit(30)]
pub proof fn lemma_mkdir_then_lookup_and_list(
    img: Map<u64, Seq<u8>>,
    sb: Superblock,
    parent: u64,
    name: Seq<char>,
    mode: u32,
    uid: u32,
    gid: u32,
    now: u64,
    after: Map<u64, Seq<u8>>,
    sb2: Superblock,
    a: Attr,
)
    requires
        layout_ok(sb),
        image_ok(img),
        mkdir_effect(img, sb, parent, name, mode, uid, gid, now) == Effect::Done(
            after,
            sb2,
            Ok::<Attr, FsError>(a),
        ),
        0 < a.ino < sb.total_inodes,
        0 < real_ino(parent) < sb.total_inodes,
        real_ino(parent) != a.ino,
        dir_block(img, sb, real_ino(parent)) >= sb.data_start_block,
        dir_block(img, sb, real_ino(parent)) - sb.data_start_block < 32768 ==> bits_of(
            img[sb.data_bitmap_block],
        )[dir_block(img, sb, real_ino(parent)) - sb.data_start_block],
        dir_well_formed(img[dir_block(img, sb, real_ino(parent))]),
        dir_lookup(img[dir_block(img, sb, real_ino(parent))], name) == Ok::<Option<u32>, DirError>(
            None,
        ),
        encode_utf8(name).len() <= 255,
        insert_status(img[dir_block(img, sb, real_ino(parent))], encode_utf8(name).len() as int)
            == Ok::<bool, DirError>(true),
    ensures
        lookup_effect(after, sb2, parent, name) == Effect::Done(after, sb2, Ok::<Attr, FsError>(a)),
        listing_of(after, sb2, a.ino) == Ok::<Seq<(u32, Seq<char>)>, Fault>(
            seq![(a.ino as u32, seq!['.']), (real_ino(parent) as u32, seq!['.', '.'])],
        ),
        inode_in(after, sb2, a.ino).hard_links == 2,
        inode_in(after, sb2, real_ino(parent)).hard_links == inode_in(
            img,
            sb,
            real_ino(parent),
        ).hard_links + 1,
{
    let rp = real_ino(parent);
    let ibb = sb.inode_bitmap_block;
    let dbb = sb.data_bitmap_block;
    let ds = sb.data_start_block;
    let (n, ibits, bit, dbits, img5) = lemma_mkdir_done(
        img,
        sb,
        parent,
        name,
        mode,
        uid,
        gid,
        now,
        after,
        sb2,
        a,
    );
    let img2 = img.insert(ibb, ibits).insert(0, crate::layout::superblock_bytes(sb2));
    let blk = (ds + bit) as u64;
    let img3 = img2.insert(dbb, dbits).insert(blk, crate::fs::new_directory_bytes(n as u32, rp as u32));
    let dino = crate::fs::directory_inode(mode, uid, gid, now, blk);
    let img4 = with_inode(img3, sb2, n, dino);
    assert(n == a.ino);
    lemma_table_block_in_table(sb, n);
    lemma_table_block_in_table(sb, rp);
    let tn = table_block(sb, n);
    let trp = table_block(sb, rp);
    assert(table_block(sb2, rp) == trp && table_block(sb2, n) == tn);
    let p = dir_block(img, sb, rp);
    // the new block is not the parent's directory block
    assert(img2[dbb] == img[dbb]);
    crate::bitmap::lemma_first_free_bounds(bits_of(img2[dbb]), 0);
    assert(blk != p);
    assert(img3[tn] == img[tn]);
    assert(img3[trp] == img[trp]);
    assert(img3[p] == img[p]);
    lemma_other_inode_kept(img3, sb2, n, dino, rp);
    assert(inode_in(img4, sb2, rp) == inode_in(img, sb, rp));
    assert(dir_block(img4, sb2, rp) == p);
    assert(img4[p] == img[p]);
    lemma_inode_written_stores(img3[tn], inode_offset(n), dino);
    assert(img4[tn].len() == 4096);
    lemma_entry_added(img4, sb2, rp, name, n as u32, crate::layout::FT_DIRECTORY, img5);
    // the parent's link count goes up
    let pi = inode_in(img5, sb2, rp);
    let pi2 = Inode { hard_links: (pi.hard_links + 1) as u32, ..pi };
    assert(img5[trp] == img4[trp]);
    lemma_stored_inode_reads_back(img5, sb2, rp, pi2);
    assert(inode_in(after, sb2, rp).direct[0] == p);
    assert(after[p] == img5[p]);
    // the new directory's inode reads back
    lemma_stored_inode_reads_back(img3, sb2, n, dino);
    assert(img5[tn] == img4[tn]);
    lemma_other_inode_kept(img5, sb2, rp, pi2, n);
    assert(inode_in(after, sb2, n) == dino);
    assert(dino.direct[0] == blk);
    // its block holds "." and ".."
    assert(after[blk] == crate::fs::new_directory_bytes(n as u32, rp as u32));
    crate::fs::lemma_new_directory_bytes_holds(n as u32, rp as u32);
    crate::fs::lemma_new_directory_lists_dots(
        crate::fs::new_directory_bytes(n as u32, rp as u32),
        n as u32,
        rp as u32,
    );
}

/// After `mkdir` makes the directory `name` in `parent`, the listing of
/// `parent` holds exactly one more entry, naming the new directory by
/// `name`, with every other entry kept in order. This holds where the layout is sound, the new inode and
/// `parent` are inodes of the table, `parent`'s entries live in a data block
/// marked in use and list without error, the name is short enough for a
/// record, and the directory block has room for it.
#[verifier::rlimit(60)]
#[verifier::spinoff_prover]
pub proof fn lemma_listing_after_mkdir(
    img: Map<u64, Seq<u8>>,
    sb: Superblock,
    parent: u64,
    name: Seq<char>,
    mode: u32,
    uid: u32,
    gid: u32,
    now: u64,
    after: Map<u64, Seq<u8>>,
    sb2: Superblock,
    a: Attr,
) -> (j: int)
    requires
        layout_ok(sb),
        image_ok(img),
        mkdir_effect(img, sb, parent, name, mode, uid, gid, now) == Effect::Done(
            after,
            sb2,
            Ok::<Attr, FsError>(a),
        ),
        0 < a.ino < sb.total_inodes,
        0 < real_ino(parent) < sb.total_inodes,
        real_ino(parent) != a.ino,
        dir_block(img, sb, real_ino(parent)) >= sb.data_start_block,
        dir_block(img, sb, real_ino(parent)) - sb.data_start_block < 32768 ==> bits_of(
            img[sb.data_bitmap_block],
        )[dir_block(img, sb, real_ino(parent)) - sb.data_start_block],
        dir_well_formed(img[dir_block(img, sb, real_ino(parent))]),
        listing_of(img, sb, real_ino(parent)) is Ok,
        encode_utf8(name).len() <= 255,
        insert_status(img[dir_block(img, sb, real_ino(parent))], encode_utf8(name).len() as int)
            == Ok::<bool, DirError>(true),
    ensures
        0 <= j <= listing_of(img, sb, real_ino(parent))->Ok_0.len(),
        listing_of(after, sb2, real_ino(parent)) == Ok::<Seq<(u32, Seq<char>)>, Fault>(
            listing_of(img, sb, real_ino(parent))->Ok_0.insert(j, (a.ino as u32, name)),
        ),
{
    let rp = real_ino(parent);
    let ibb = sb.inode_bitmap_block;
    let dbb = sb.data_bitmap_block;
    let ds = sb.data_start_block;
    let (n, ibits, bit, dbits, img5) = lemma_mkdir_done(
        img,
        sb,
        parent,
        name,
        mode,
        uid,
        gid,
        now,
        after,
        sb2,
        a,
    );
    let img2 = img.insert(ibb, ibits).insert(0, crate::layout::superblock_bytes(sb2));
    let blk = (ds + bit) as u64;
    let img3 = img2.insert(dbb, dbits).insert(blk, crate::fs::new_directory_bytes(n as u32, rp as u32));
    let dino = crate::fs::directory_inode(mode, uid, gid, now, blk);
    let img4 = with_inode(img3, sb2, n, dino);
    assert(n == a.ino);
    lemma_table_block_in_table(sb, n);
    lemma_table_block_in_table(sb, rp);
    let tn = table_block(sb, n);
    let trp = table_block(sb, rp);
    assert(table_block(sb2, rp) == trp && table_block(sb2, n) == tn);
    let p = dir_block(img, sb, rp);
    assert(img2[dbb] == img[dbb]);
    crate::bitmap::lemma_first_free_bounds(bits_of(img2[dbb]), 0);
    assert(blk != p);
    assert(img3[tn] == img[tn]);
    assert(img3[trp] == img[trp]);
    assert(img3[p] == img[p]);
    lemma_other_inode_kept(img3, sb2, n, dino, rp);
    assert(inode_in(img4, sb2, rp) == inode_in(img, sb, rp));
    assert(dir_block(img4, sb2, rp) == p);
    assert(img4[p] == img[p]);
    assert(listing_of(img4, sb2, rp) == listing_of(img, sb, rp));
    lemma_inode_written_stores(img3[tn], inode_offset(n), dino);
    assert(img4[tn].len() == 4096);
    let j = lemma_entry_listed(img4, sb2, rp, name, n as u32, crate::layout::FT_DIRECTORY, img5);
    // storing the parent with one more link keeps its entries
    let pi = inode_in(img5, sb2, rp);
    let pi2 = Inode { hard_links: (pi.hard_links + 1) as u32, ..pi };
    assert(img5[trp] == img4[trp]);
    lemma_stored_inode_reads_back(img5, sb2, rp, pi2);
    assert(inode_in(after, sb2, rp).direct[0] == p);
    assert(after[p] == img5[p]);
    assert(listing_of(after, sb2, rp) == listing_of(img5, sb2, rp));
    j
}

/// After `setattr` sets the times of inode `ino`, `getattr` reports the
/// attributes `setattr` answered, for an inode in use that FUSE does not
/// number as the root.
pub proof fn lemma_getattr_after_setattr(
    img: Map<u64, Seq<u8>>,
    sb: Superblock,
    ino: u64,
    atime: Option<u64>,
    mtime: Option<u64>,
    after: Map<u64, Seq<u8>>,
    a: Attr,
)
    requires
        image_ok(img),
        setattr_effect(img, sb, ino, atime, mtime) == Effect::Done(after, sb, a),
        ino != 1,
        inode_in(img, sb, ino).mode != 0,
    ensures
        getattr_effect(after, sb, ino) == Effect::Done(after, sb, Ok::<Attr, FsError>(a)),
{
    let i = with_times(inode_in(img, sb, ino), atime, mtime);
    lemma_stored_inode_reads_back(img, sb, ino, i);
}

/// `setattr` stores inode `ino` with the access time given, or the old one
/// when none is given, and likewise the modification time; every other field
/// of the inode, and every other inode, stays as it was; and the answer
/// reports the inode stored.
pub proof fn lemma_setattr_sets_times(
    img: Map<u64, Seq<u8>>,
    sb: Superblock,
    ino: u64,
    atime: Option<u64>,
    mtime: Option<u64>,
    after: Map<u64, Seq<u8>>,
    a: Attr,
)
    requires
        image_ok(img),
        setattr_effect(img, sb, ino, atime, mtime) == Effect::Done(after, sb, a),
    ensures
        ({
            let old = inode_in(img, sb, ino);
            let new = inode_in(after, sb, ino);
            &&& atime is Some ==> new.atime == atime->Some_0
            &&& atime is None ==> new.atime == old.atime
            &&& mtime is Some ==> new.mtime == mtime->Some_0
            &&& mtime is None ==> new.mtime == old.mtime
            &&& (Inode { atime: old.atime, mtime: old.mtime, ..new }) == old
            &&& crate::fs::attr_reports(a, ino, new)
            &&& forall|m: u64| #![trigger inode_in(after, sb, m)]
                table_ok(sb, m) && m != ino ==> inode_in(after, sb, m) == inode_in(img, sb, m)
        }),
{
    let old = inode_in(img, sb, ino);
    let i = with_times(old, atime, mtime);
    lemma_stored_inode_reads_back(img, sb, ino, i);
    crate::fs::lemma_attr_reports(ino, i);
    assert forall|m: u64| #![trigger inode_in(after, sb, m)]
        table_ok(sb, m) && m != ino implies inode_in(after, sb, m) == inode_in(img, sb, m) by {
        lemma_other_inode_kept(img, sb, ino, i, m);
    }
}

/// `getattr` answers with the attributes of the inode FUSE numbers `ino`:
/// they report what that inode holds.
pub proof fn lemma_getattr_reports_inode(img: Map<u64, Seq<u8>>, sb: Superblock, ino: u64, a: Attr)
    requires
        getattr_effect(img, sb, ino) == Effect::Done(img, sb, Ok::<Attr, FsError>(a)),
    ensures
        crate::fs::attr_reports(a, ino, inode_in(img, sb, real_ino(ino))),
        inode_in(img, sb, real_ino(ino)).mode != 0,
{
    crate::fs::lemma_attr_reports(ino, inode_in(img, sb, real_ino(ino)));
}

/// `readdir` lists the entries of the directory FUSE numbers `ino` from
/// position `offset` on, in order: each with the inode and name of that
/// entry, the position after it, and the kind of the inode the entry names
/// (a directory exactly when that inode's mode has the directory type bits).
pub proof fn lemma_readdir_lists_entries(
    img: Map<u64, Seq<u8>>,
    sb: Superblock,
    ino: u64,
    offset: i64,
    items: Seq<(u64, i64, crate::fs::FileKind, Seq<char>)>,
)
    requires
        readdir_effect(img, sb, ino, offset) == Effect::Done(img, sb, items),
    ensures
        listing_of(img, sb, real_ino(ino)) is Ok,
        ({
            let v = listing_of(img, sb, real_ino(ino))->Ok_0;
            let skip = offset as usize as int;
            &&& items.len() == (if skip < v.len() {
                v.len() - skip
            } else {
                0
            })
            &&& forall|t: int|
                #![trigger items[t]]
                0 <= t < items.len() ==> {
                    &&& items[t].0 == v[skip + t].0 as u64
                    &&& items[t].1 == (skip + t + 1) as i64
                    &&& items[t].3 == v[skip + t].1
                    &&& (items[t].2 == crate::fs::FileKind::Directory) == ((inode_in(
                        img,
                        sb,
                        items[t].0,
                    ).mode >> 12u32) & 15u32 == 4u32)
                    &&& (items[t].2 == crate::fs::FileKind::Directory || items[t].2
                        == crate::fs::FileKind::RegularFile)
                }
        }),
{
    let v = listing_of(img, sb, real_ino(ino))->Ok_0;
    let skip = offset as usize as int;
    assert forall|t: int| #![trigger items[t]] 0 <= t < items.len() implies (items[t].2
        == crate::fs::FileKind::Directory) == ((inode_in(img, sb, items[t].0).mode >> 12u32) & 15u32
        == 4u32) by {
        crate::fs::lemma_directory_type_bits(inode_in(img, sb, items[t].0).mode);
    }
}

/// Reading the entry at position `j` gives that entry of the listing, the
/// position after it, and the kind of the inode it names; nothing past the end.
pub proof fn lemma_readdir_entry_is_entry(
    img: Map<u64, Seq<u8>>,
    sb: Superblock,
    ino: u64,
    j: int,
    item: Option<(u64, i64, crate::fs::FileKind, Seq<char>)>,
)
    requires
        readdir_entry_effect(img, sb, ino, j) == Effect::Done(img, sb, item),
    ensures
        listing_of(img, sb, real_ino(ino)) is Ok,
        (item is None) == (j < 0 || j >= listing_of(img, sb, real_ino(ino))->Ok_0.len()),
        item matches Some(e) ==> {
            let v = listing_of(img, sb, real_ino(ino))->Ok_0;
            &&& e.0 == v[j].0 as u64
            &&& e.1 == (j + 1) as i64
            &&& e.3 == v[j].1
            &&& (e.2 == crate::fs::FileKind::Directory) == ((inode_in(img, sb, e.0).mode >> 12u32)
                & 15u32 == 4u32)
            &&& (e.2 == crate::fs::FileKind::Directory || e.2 == crate::fs::FileKind::RegularFile)
        },
{
    if let Some(e) = item {
        crate::fs::lemma_directory_type_bits(inode_in(img, sb, e.0).mode);
    }
}

/// A successful `write` stores inode `ino` grown to cover the bytes written
/// (its size the larger of the old size and the end of the write), with
/// modification time `now` and the direct pointer of the written block set
/// to the block the bytes went to; every other field and pointer of the
/// inode stays as it was. This holds where the inode's table block is not
/// the block the bytes went to.
pub proof fn lemma_write_updates_inode(
    img: Map<u64, Seq<u8>>,
    sb: Superblock,
    ino: u64,
    offset: i64,
    data: Seq<u8>,
    now: u64,
    after: Map<u64, Seq<u8>>,
)
    requires
        image_ok(img),
        write_effect(img, sb, ino, offset, data, now) == Effect::Done(
            after,
            sb,
            Ok::<u32, FsError>(data.len() as u32),
        ),
        table_block(sb, ino) != write_target(img, sb, ino, offset),
    ensures
        ({
            let old = inode_in(img, sb, ino);
            let new = inode_in(after, sb, ino);
            let off = offset as u64;
            let idx = (off / 4096) as int;
            &&& idx < 12
            &&& new.size == (if off + data.len() > old.size {
                off + data.len()
            } else {
                old.size as int
            })
            &&& new.mtime == now
            &&& new.direct[idx] == write_target(img, sb, ino, offset)
            &&& old.direct[idx] != 0 ==> new.direct[idx] == old.direct[idx]
            &&& forall|k: int| 0 <= k < 12 && k != idx ==> #[trigger] new.direct[k] == old.direct[k]
            &&& (Inode { size: old.size, mtime: old.mtime, direct: old.direct, ..new }) == old
        }),
{
    let i = inode_in(img, sb, ino);
    let plan = write_plan(i, offset)->Ok_0;
    let t = table_block(sb, ino);
    let bn = write_target(img, sb, ino, offset);
    let img1 = if plan.needs_block {
        let (bit, bits) = crate::bitmap::bitmap_alloc(img[sb.data_bitmap_block])->Some_0;
        img.insert(sb.data_bitmap_block, bits)
    } else {
        img
    };
    let img2 = img1.insert(bn, with_bytes(img1[bn], plan.offset_in_block as int, data));
    let i2 = inode_after_write(i, plan.block_index as int, bn, offset, data.len() as int, now);
    assert(after == with_inode(img2, sb, ino, i2));
    if plan.needs_block {
        crate::bitmap::lemma_alloc_sets_bit(img[sb.data_bitmap_block]);
    }
    assert(img2[t] == img1[t]);
    lemma_stored_inode_reads_back(img2, sb, ino, i2);
    assert forall|k: int| 0 <= k < 12 && k != plan.block_index implies #[trigger] i2.direct[k]
        == i.direct[k] by {}
    assert((Inode { size: i.size, mtime: i.mtime, direct: i.direct, ..i2 }) =~= i);
}

/// `lookup` answers with the attributes of the inode that `parent`'s
/// entries give for `name`, and `NotFound` exactly when they give none.
pub proof fn lemma_lookup_reports_entry(
    img: Map<u64, Seq<u8>>,
    sb: Superblock,
    parent: u64,
    name: Seq<char>,
    r: Result<Attr, FsError>,
)
    requires
        lookup_effect(img, sb, parent, name) == Effect::Done(img, sb, r),
    ensures
        table_ok(sb, real_ino(parent)),
        r is Err <==> dir_lookup(img[dir_block(img, sb, real_ino(parent))], name) == Ok::<
            Option<u32>,
            DirError,
        >(None),
        r is Err ==> r == Err::<Attr, FsError>(FsError::NotFound),
        r matches Ok(a) ==> dir_lookup(img[dir_block(img, sb, real_ino(parent))], name) == Ok::<
            Option<u32>,
            DirError,
        >(Some(a.ino as u32)) && a.ino < 0x1_0000_0000 && crate::fs::attr_reports(
            a,
            a.ino,
            inode_in(img, sb, a.ino),
        ),
{
    if let Ok(a) = r {
        crate::fs::lemma_attr_reports(a.ino, inode_in(img, sb, a.ino));
    }
}

/// `read` gives the bytes of the file from `offset` on: as many as asked,
/// but no further than the end of the file or of the direct block the
/// offset falls in, taken from that block; nothing at or past the end of
/// the file, past the direct blocks, or in a hole.
pub proof fn lemma_read_returns_bytes(
    img: Map<u64, Seq<u8>>,
    sb: Superblock,
    ino: u64,
    offset: i64,
    size: u32,
    data: Seq<u8>,
)
    requires
        image_ok(img),
        read_effect(img, sb, ino, offset, size) == Effect::Done(img, sb, data),
    ensures
        ({
            let i = inode_in(img, sb, ino);
            let off = offset as u64;
            let idx = off / 4096;
            let at = (off % 4096) as int;
            &&& (off >= i.size || idx >= 12 || i.direct[idx as int] == 0) ==> data.len() == 0
            &&& !(off >= i.size || idx >= 12 || i.direct[idx as int] == 0) ==> {
                &&& data.len() <= size
                &&& at + data.len() <= 4096
                &&& off + data.len() <= i.size
                &&& (data.len() == size || at + data.len() == 4096 || off + data.len() == i.size)
                &&& forall|j: int| 0 <= j < data.len() ==> #[trigger] data[j] == img[i.direct[idx as int]][at + j]
            }
        }),
{
    let i = inode_in(img, sb, ino);
    let off = offset as u64;
    let idx = off / 4096;
    if !(off >= i.size || idx >= 12 || i.direct[idx as int] == 0) {
        let at = off % 4096;
        let n = vstd::math::min(vstd::math::min(size as int, 4096 - at), i.size - off);
        assert(0 <= n);
        assert(img[i.direct[idx as int]].len() == 4096);
        assert(data == img[i.direct[idx as int]].subrange(at as int, at + n));
    }
}

/// The layout of a formatted image is sound.
pub proof fn lemma_formatted_layout_ok(sb: Superblock)
    requires
        sb.total_inodes == crate::format::INODE_TABLE_BLOCKS * 16,
        sb.inode_bitmap_block == crate::format::INODE_BITMAP_BLOCK,
        sb.data_bitmap_block == crate::format::DATA_BITMAP_BLOCK,
        sb.inode_table_block == crate::format::INODE_TABLE_BLOCK,
        sb.data_start_block == crate::format::INODE_TABLE_BLOCK + crate::format::INODE_TABLE_BLOCKS
            + crate::format::JOURNAL_BLOCKS,
    ensures
        layout_ok(sb),
{
}

/// `create` keeps block 0 holding the superblock it keeps in memory: when
/// block 0 held the superblock before, it holds the one `create` leaves.
/// This holds where the layout is sound and `parent` is a directory of the
/// table, other than the new inode, whose entries live in the data region.
pub proof fn lemma_create_keeps_superblock(
    img: Map<u64, Seq<u8>>,
    sb: Superblock,
    parent: u64,
    name: Seq<char>,
    mode: u32,
    uid: u32,
    gid: u32,
    now: u64,
    after: Map<u64, Seq<u8>>,
    sb2: Superblock,
    r: Result<Attr, FsError>,
)
    requires
        layout_ok(sb),
        image_ok(img),
        crate::layout::superblock_stored(sb, img[0]),
        create_effect(img, sb, parent, name, mode, uid, gid, now) == Effect::Done(after, sb2, r),
        real_ino(parent) < sb.total_inodes,
        dir_block(img, sb, real_ino(parent)) >= sb.data_start_block,
        r is Ok ==> r->Ok_0.ino != real_ino(parent),
    ensures
        crate::layout::superblock_stored(sb2, after[0]),
{
    if r is Ok {
        let a = r->Ok_0;
        let rp = real_ino(parent);
        let (n, bits) = lemma_create_done(img, sb, parent, name, mode, uid, gid, now, after, sb2, a);
        let img2 = img.insert(sb.inode_bitmap_block, bits).insert(0, crate::layout::superblock_bytes(sb2));
        let ino = crate::fs::file_inode(mode, uid, gid, now);
        lemma_table_block_in_table(sb, rp);
        let img3 = with_inode(img2, sb2, n, ino);
        assert(table_block(sb2, rp) == table_block(sb, rp) && table_block(sb2, n) == table_block(sb, n));
        assert(img2[table_block(sb, rp)] == img[table_block(sb, rp)]);
        assert(img2[table_block(sb, n)].len() == 4096);
        assert(a.ino == n);
        lemma_other_inode_kept(img2, sb2, n, ino, rp);
        assert(dir_block(img3, sb2, rp) == dir_block(img, sb, rp));
        assert(img3[0] == img2[0]);
        crate::layout::lemma_superblock_bytes_stores(sb2);
    }
}

/// `mkdir` keeps block 0 holding the superblock it keeps in memory, as
/// `create` does.
#[verifier::rlimit(60)]
#[verifier::spinoff_prover]
pub proof fn lemma_mkdir_keeps_superblock(
    img: Map<u64, Seq<u8>>,
    sb: Superblock,
    parent: u64,
    name: Seq<char>,
    mode: u32,
    uid: u32,
    gid: u32,
    now: u64,
    after: Map<u64, Seq<u8>>,
    sb2: Superblock,
    r: Result<Attr, FsError>,
)
    requires
        layout_ok(sb),
        image_ok(img),
        crate::layout::superblock_stored(sb, img[0]),
        mkdir_effect(img, sb, parent, name, mode, uid, gid, now) == Effect::Done(after, sb2, r),
        real_ino(parent) < sb.total_inodes,
        dir_block(img, sb, real_ino(parent)) >= sb.data_start_block,
        r is Ok ==> r->Ok_0.ino != real_ino(parent),
    ensures
        crate::layout::superblock_stored(sb2, after[0]),
{
    crate::layout::lemma_superblock_bytes_stores(sb2);
    if r is Ok {
        let a = r->Ok_0;
        let shape = lemma_mkdir_done(img, sb, parent, name, mode, uid, gid, now, after, sb2, a);
        lemma_mkdir_block_zero(img, sb, parent, name, mode, uid, gid, now, after, sb2, a, shape);
    }
}

/// The writes of a `mkdir` that succeeded after block 0 leave block 0 alone.
proof fn lemma_mkdir_block_zero(
    img: Map<u64, Seq<u8>>,
    sb: Superblock,
    parent: u64,
    name: Seq<char>,
    mode: u32,
    uid: u32,
    gid: u32,
    now: u64,
    after: Map<u64, Seq<u8>>,
    sb2: Superblock,
    a: Attr,
    shape: (u64, Seq<u8>, u64, Seq<u8>, Map<u64, Seq<u8>>),
)
    requires
        layout_ok(sb),
        image_ok(img),
        real_ino(parent) < sb.total_inodes,
        dir_block(img, sb, real_ino(parent)) >= sb.data_start_block,
        a.ino != real_ino(parent),
        ({
            let (n, ibits, bit, dbits, img5) = shape;
            let img2 = img.insert(sb.inode_bitmap_block, ibits).insert(
                0,
                crate::layout::superblock_bytes(sb2),
            );
            let blk = (sb.data_start_block + bit) as u64;
            let rp = real_ino(parent);
            let img3 = img2.insert(sb.data_bitmap_block, dbits).insert(
                blk,
                crate::fs::new_directory_bytes(n as u32, rp as u32),
            );
            let dino = crate::fs::directory_inode(mode, uid, gid, now, blk);
            let p = inode_in(img5, sb2, rp);
            &&& sb2 == one_inode_taken(sb)
            &&& sb.data_start_block + bit <= u64::MAX
            &&& table_ok(sb, n)
            &&& with_entry(with_inode(img3, sb2, n, dino), sb2, rp, name, n as u32, crate::layout::FT_DIRECTORY)
                == Ok::<Map<u64, Seq<u8>>, Fault>(img5)
            &&& after == with_inode(img5, sb2, rp, Inode { hard_links: (p.hard_links + 1) as u32, ..p })
            &&& a == crate::fs::inode_to_attr_spec(n, dino)
        }),
    ensures
        after[0] == crate::layout::superblock_bytes(sb2),
{
    let (n, ibits, bit, dbits, img5) = shape;
    let rp = real_ino(parent);
    let img2 = img.insert(sb.inode_bitmap_block, ibits).insert(0, crate::layout::superblock_bytes(sb2));
    let blk = (sb.data_start_block + bit) as u64;
    let img3 = img2.insert(sb.data_bitmap_block, dbits).insert(
        blk,
        crate::fs::new_directory_bytes(n as u32, rp as u32),
    );
    let dino = crate::fs::directory_inode(mode, uid, gid, now, blk);
    lemma_table_block_in_table(sb, rp);
    assert(table_block(sb2, rp) == table_block(sb, rp) && table_block(sb2, n) == table_block(sb, n));
    let img4 = with_inode(img3, sb2, n, dino);
    assert(img3[table_block(sb, rp)] == img[table_block(sb, rp)]);
    crate::fs::lemma_new_directory_bytes_holds(n as u32, rp as u32);
    assert(img3[table_block(sb, n)].len() == 4096);
    assert(a.ino == n);
    lemma_other_inode_kept(img3, sb2, n, dino, rp);
    assert(dir_block(img4, sb2, rp) == dir_block(img, sb, rp));
    assert(img4[0] == img2[0]);
    assert(img5[0] == img2[0]);
}

} // verus!
