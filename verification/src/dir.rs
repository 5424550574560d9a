//! Directory blocks. A directory's entries live in one block as a chain of
//! records: an 8-byte header (inode, record length, name length, type)
//! followed by the name. Each record's length leads to the next record; a
//! record whose inode is 0 is free space.

use vstd::prelude::*;
use vstd::utf8::{valid_utf8, decode_utf8, encode_utf8};
use crate::bytes::{Block, u16_at, u32_at, with_u16, with_u32, same_outside, put_u32, copy_into,
    lemma_u32_roundtrip, lemma_u16_roundtrip, with_bytes};
use crate::layout::{DirEntryHeader, dir_header_stored};

verus! {

/// Why a directory block cannot be handled.
#[derive(Clone, Copy, PartialEq, Eq, Debug)]
pub enum DirError {
    /// The chain reaches a record whose header would cross the end of the block.
    TruncatedHeader,
    /// A record in use has a name that would cross the end of the block.
    NameOutsideBlock,
    /// An insertion meets a zero-length record and can never move past it.
    ZeroLengthRecord,
    /// The last record is shorter than its own entry, so it cannot be split.
    RecordTooShort,
    /// The new entry would cross the end of the block.
    EntryOutsideBlock,
    /// No entry has the requested name.
    NotFound,
}

/// How the chain of records ends.
pub enum WalkEnd {
    /// The last record leads to or past the end of the block.
    PastEnd,
    /// A record of length zero stops the chain.
    ZeroLength,
    /// The next record's header would cross the end of the block.
    Truncated,
}

// ---------------------------------------------------------------- names

/// Name for the text that `String::from_utf8_lossy` makes of some bytes.
pub uninterp spec fn lossy_utf8(bytes: Seq<u8>) -> Seq<char>;

/// Calls `String::from_utf8_lossy`, which decodes `bytes` as UTF-8 and puts
/// U+FFFD in place of each invalid sequence; on valid UTF-8 the result is
/// exactly the decoded text. What it makes of invalid input is left to the name.
#[verifier::external_body]
fn utf8_lossy(bytes: &[u8]) -> (s: String)
    ensures
        s@ == lossy_utf8(bytes@),
        valid_utf8(bytes@) ==> s@ == decode_utf8(bytes@),
{
    String::from_utf8_lossy(bytes).into_owned()
}

/// The text `String::from_utf8_lossy` makes of `bytes`: the decoded text when
/// the bytes are valid UTF-8, and otherwise whatever the named result says.
pub open spec fn text_of(bytes: Seq<u8>) -> Seq<char> {
    if valid_utf8(bytes) {
        decode_utf8(bytes)
    } else {
        lossy_utf8(bytes)
    }
}

/// The text of `bytes`, as `String::from_utf8_lossy` makes it.
fn bytes_to_text(bytes: &[u8]) -> (s: String)
    ensures
        s@ == text_of(bytes@),
{
    utf8_lossy(bytes)
}

/// Text stored as its UTF-8 bytes reads back as the same text.
pub proof fn lemma_text_of_encoded(text: Seq<char>)
    ensures
        text_of(encode_utf8(text)) == text,
{
    vstd::utf8::encode_utf8_valid_utf8(text);
    vstd::utf8::encode_utf8_decode_utf8(text);
}

// ---------------------------------------------------------------- the chain of records

/// Record length of the record at `off`.
pub open spec fn rec_len_at(s: Seq<u8>, off: int) -> int {
    u16_at(s, off + 4) as int
}

/// Inode number of the record at `off`; 0 marks free space.
pub open spec fn inode_at(s: Seq<u8>, off: int) -> u32 {
    u32_at(s, off)
}

/// Name length of the record at `off`.
pub open spec fn name_len_at(s: Seq<u8>, off: int) -> int {
    s[off + 6] as int
}

/// The record at `off` is in use.
pub open spec fn is_live(s: Seq<u8>, off: int) -> bool {
    inode_at(s, off) != 0
}

/// The name of the record at `off` lies inside the block.
pub open spec fn name_fits(s: Seq<u8>, off: int) -> bool {
    off + 8 + name_len_at(s, off) <= 4096
}

/// The name bytes of the record at `off`.
pub open spec fn name_bytes_at(s: Seq<u8>, off: int) -> Seq<u8> {
    s.subrange(off + 8, off + 8 + name_len_at(s, off))
}

/// The name of the record at `off`, as text.
pub open spec fn entry_name(s: Seq<u8>, off: int) -> Seq<char> {
    text_of(name_bytes_at(s, off))
}

/// How many steps a walk from `off` can still take.
pub open spec fn walk_fuel(off: int) -> nat {
    if 0 <= off < 4096 {
        (4096 - off) as nat
    } else {
        0
    }
}

/// The offsets of the records visited from `off` on, and how the walk ends.
pub open spec fn walk_from(s: Seq<u8>, off: int) -> (Seq<int>, WalkEnd)
    decreases walk_fuel(off),
{
    if off < 0 || off >= 4096 {
        (Seq::empty(), WalkEnd::PastEnd)
    } else if off + 8 > 4096 {
        (Seq::empty(), WalkEnd::Truncated)
    } else if rec_len_at(s, off) == 0 {
        (Seq::empty(), WalkEnd::ZeroLength)
    } else {
        let next = walk_from(s, off + rec_len_at(s, off));
        (seq![off] + next.0, next.1)
    }
}

/// The records of a directory block, in chain order.
pub open spec fn slots(s: Seq<u8>) -> Seq<int> {
    walk_from(s, 0).0
}

/// One step of the walk from a record that has a header and a nonzero length.
pub proof fn lemma_walk_step(s: Seq<u8>, off: int)
    requires
        0 <= off,
        off + 8 <= 4096,
        rec_len_at(s, off) != 0,
    ensures
        walk_from(s, off).0 == seq![off] + walk_from(s, off + rec_len_at(s, off)).0,
        walk_from(s, off).1 == walk_from(s, off + rec_len_at(s, off)).1,
        walk_from(s, off).0.drop_first() == walk_from(s, off + rec_len_at(s, off)).0,
        walk_from(s, off).0[0] == off,
        walk_from(s, off).0.len() > 0,
{
    let w = walk_from(s, off + rec_len_at(s, off));
    assert((seq![off] + w.0).drop_first() =~= w.0);
}

// ---------------------------------------------------------------- lookup

/// Among `sl`, the first record that is in use and either has a name that
/// does not fit (an error) or is named `name`; at the end of the chain, an
/// error if the chain was cut off.
pub open spec fn find_in(s: Seq<u8>, sl: Seq<int>, end: WalkEnd, name: Seq<char>) -> Result<
    Option<int>,
    DirError,
>
    decreases sl.len(),
{
    if sl.len() == 0 {
        if end is Truncated {
            Err(DirError::TruncatedHeader)
        } else {
            Ok(None)
        }
    } else if is_live(s, sl[0]) && !name_fits(s, sl[0]) {
        Err(DirError::NameOutsideBlock)
    } else if is_live(s, sl[0]) && entry_name(s, sl[0]) == name {
        Ok(Some(sl[0]))
    } else {
        find_in(s, sl.drop_first(), end, name)
    }
}

/// A lookup walk fails only on a broken chain, never with `NotFound`.
pub proof fn lemma_find_not_notfound(s: Seq<u8>, sl: Seq<int>, end: WalkEnd, name: Seq<char>)
    ensures
        find_in(s, sl, end, name) != Err::<Option<int>, DirError>(DirError::NotFound),
    decreases sl.len(),
{
    if sl.len() > 0 {
        lemma_find_not_notfound(s, sl.drop_first(), end, name);
    }
}

/// The record named `name` found by walking from `off`.
pub open spec fn find_from(s: Seq<u8>, off: int, name: Seq<char>) -> Result<Option<int>, DirError> {
    find_in(s, walk_from(s, off).0, walk_from(s, off).1, name)
}

/// The record named `name` in the directory block `s`.
pub open spec fn dir_find(s: Seq<u8>, name: Seq<char>) -> Result<Option<int>, DirError> {
    find_from(s, 0, name)
}

/// The inode that the directory block `s` gives for `name`.
pub open spec fn dir_lookup(s: Seq<u8>, name: Seq<char>) -> Result<Option<u32>, DirError> {
    match dir_find(s, name) {
        Ok(Some(off)) => Ok(Some(inode_at(s, off))),
        Ok(None) => Ok(None),
        Err(e) => Err(e),
    }
}

/// The record of `block` named `name`, found as a lookup walks the chain.
fn find_record(block: &Block, name: &String) -> (r: Result<Option<usize>, DirError>)
    ensures
        match r {
            Ok(Some(off)) => {
                &&& dir_find(block@, name@) == Ok::<Option<int>, DirError>(Some(off as int))
                &&& off + 8 <= 4096
            },
            Ok(None) => dir_find(block@, name@) == Ok::<Option<int>, DirError>(None),
            Err(e) => dir_find(block@, name@) == Err::<Option<int>, DirError>(e),
        },
{
    let mut offset: usize = 0;
    while offset < 4096
        invariant
            offset < 4096 + 0x10000,
            find_from(block@, offset as int, name@) == dir_find(block@, name@),
        decreases (if offset < 4096 { 4096 - offset } else { 0 }),
    {
        if offset + 8 > 4096 {
            return Err(DirError::TruncatedHeader);
        }
        let h = DirEntryHeader::read_at(block, offset);
        if h.rec_len == 0 {
            return Ok(None);
        }
        proof {
            lemma_walk_step(block@, offset as int);
        }
        if h.inode != 0 {
            let end = offset + 8 + h.name_len as usize;
            if end > 4096 {
                return Err(DirError::NameOutsideBlock);
            }
            let fname = bytes_to_text(vstd::slice::slice_subrange(block.as_slice(), offset + 8, end));
            if fname == *name {
                return Ok(Some(offset));
            }
        }
        offset = offset + h.rec_len as usize;
    }
    Ok(None)
}

/// The inode that the directory block gives for `name`.
pub fn look_up_in_block(block: &Block, name: &str) -> (r: Result<Option<u32>, DirError>)
    ensures
        r == dir_lookup(block@, name@),
{
    let name_s = name.to_owned();
    match find_record(block, &name_s) {
        Ok(Some(off)) => {
            let h = DirEntryHeader::read_at(block, off);
            Ok(Some(h.inode))
        },
        Ok(None) => Ok(None),
        Err(e) => Err(e),
    }
}

// ---------------------------------------------------------------- listing

/// The entries in use among `sl`, as (inode, name) pairs in chain order.
pub open spec fn live_entries(s: Seq<u8>, sl: Seq<int>) -> Seq<(u32, Seq<char>)>
    decreases sl.len(),
{
    if sl.len() == 0 {
        Seq::empty()
    } else if is_live(s, sl[0]) {
        seq![(inode_at(s, sl[0]), entry_name(s, sl[0]))] + live_entries(s, sl.drop_first())
    } else {
        live_entries(s, sl.drop_first())
    }
}

/// Every record in use among `sl` has its name inside the block.
pub open spec fn names_fit(s: Seq<u8>, sl: Seq<int>) -> bool {
    forall|i: int| 0 <= i < sl.len() && is_live(s, sl[i]) ==> name_fits(s, sl[i])
}

/// The listing of the records reached from `off`.
pub open spec fn list_from(s: Seq<u8>, off: int) -> Result<Seq<(u32, Seq<char>)>, DirError> {
    let w = walk_from(s, off);
    if !names_fit(s, w.0) {
        Err(DirError::NameOutsideBlock)
    } else if w.1 is Truncated {
        Err(DirError::TruncatedHeader)
    } else {
        Ok(live_entries(s, w.0))
    }
}

/// The listing of a directory block: the (inode, name) pair of every record in use.
pub open spec fn dir_list(s: Seq<u8>) -> Result<Seq<(u32, Seq<char>)>, DirError> {
    list_from(s, 0)
}

/// What a list of (inode, name) pairs says, with names as text.
pub open spec fn pairs_view(v: Seq<(u32, String)>) -> Seq<(u32, Seq<char>)> {
    v.map_values(|p: (u32, String)| (p.0, p.1@))
}

/// One step of the listing walk from a record with a header and a nonzero length.
proof fn lemma_list_step(s: Seq<u8>, off: int)
    requires
        0 <= off,
        off + 8 <= 4096,
        rec_len_at(s, off) != 0,
        !(is_live(s, off) && !name_fits(s, off)),
    ensures
        list_from(s, off) == (match list_from(s, off + rec_len_at(s, off)) {
            Ok(v) => Ok(
                if is_live(s, off) {
                    seq![(inode_at(s, off), entry_name(s, off))] + v
                } else {
                    v
                },
            ),
            Err(e) => Err(e),
        }),
{
    lemma_walk_step(s, off);
    let w = walk_from(s, off);
    let w2 = walk_from(s, off + rec_len_at(s, off));
    if names_fit(s, w2.0) {
        assert forall|i: int| 0 <= i < w.0.len() && is_live(s, w.0[i]) implies name_fits(
            s,
            w.0[i],
        ) by {
            if i > 0 {
                assert(w.0[i] == w2.0[i - 1]);
            }
        }
    } else {
        let i = choose|i: int| 0 <= i < w2.0.len() && is_live(s, w2.0[i]) && !name_fits(s, w2.0[i]);
        assert(w.0[i + 1] == w2.0[i]);
    }
}

/// The (inode, name) pair of every record in use, in chain order.
pub fn list_block(block: &Block) -> (r: Result<Vec<(u32, String)>, DirError>)
    ensures
        match r {
            Ok(v) => dir_list(block@) == Ok::<Seq<(u32, Seq<char>)>, DirError>(pairs_view(v@)),
            Err(e) => dir_list(block@) == Err::<Seq<(u32, Seq<char>)>, DirError>(e),
        },
{
    let mut entries: Vec<(u32, String)> = Vec::new();
    let mut offset: usize = 0;
    while offset < 4096
        invariant
            offset < 4096 + 0x10000,
            dir_list(block@) == (match list_from(block@, offset as int) {
                Ok(v) => Ok(pairs_view(entries@) + v),
                Err(e) => Err(e),
            }),
        decreases (if offset < 4096 { 4096 - offset } else { 0 }),
    {
        if offset + 8 > 4096 {
            return Err(DirError::TruncatedHeader);
        }
        let h = DirEntryHeader::read_at(block, offset);
        if h.rec_len == 0 {
            assert(pairs_view(entries@) + Seq::<(u32, Seq<char>)>::empty() =~= pairs_view(
                entries@,
            ));
            return Ok(entries);
        }
        if h.inode != 0 {
            let end = offset + 8 + h.name_len as usize;
            if end > 4096 {
                proof {
                    lemma_walk_step(block@, offset as int);
                    assert(walk_from(block@, offset as int).0[0] == offset);
                }
                return Err(DirError::NameOutsideBlock);
            }
            let name = bytes_to_text(
                vstd::slice::slice_subrange(block.as_slice(), offset + 8, end),
            );
            proof {
                lemma_list_step(block@, offset as int);
            }
            let ghost before = entries@;
            entries.push((h.inode, name));
            proof {
                let item = (inode_at(block@, offset as int), entry_name(block@, offset as int));
                assert(pairs_view(entries@) =~= pairs_view(before).push(item));
                assert forall|v: Seq<(u32, Seq<char>)>| true implies pairs_view(before) + (seq![
                    item,
                ] + v) == pairs_view(entries@) + v by {
                    assert(pairs_view(before) + (seq![item] + v) =~= pairs_view(entries@) + v);
                }
            }
        } else {
            proof {
                lemma_list_step(block@, offset as int);
            }
        }
        offset = offset + h.rec_len as usize;
    }
    assert(pairs_view(entries@) + Seq::<(u32, Seq<char>)>::empty() =~= pairs_view(entries@));
    Ok(entries)
}

// ---------------------------------------------------------------- removal

/// Frees the record named `name`: its inode number becomes 0 and nothing else
/// changes. When no record has that name, or the walk meets a broken record
/// first, the block stays as it was.
pub fn remove_from_block(block: &mut Block, name: &str) -> (r: Result<(), DirError>)
    ensures
        match dir_find(old(block)@, name@) {
            Ok(Some(off)) => r is Ok && final(block)@ == with_u32(old(block)@, off, 0),
            Ok(None) => r == Err::<(), DirError>(DirError::NotFound) && final(block)@ == old(
                block,
            )@,
            Err(e) => r == Err::<(), DirError>(e) && final(block)@ == old(block)@,
        },
{
    let name_s = name.to_owned();
    match find_record(block, &name_s) {
        Ok(Some(off)) => {
            put_u32(block, off, 0);
            Ok(())
        },
        Ok(None) => Err(DirError::NotFound),
        Err(e) => Err(e),
    }
}

// ---------------------------------------------------------------- insertion

/// Bytes a record needs for a name of `n` bytes: header and name, rounded up to 4.
pub open spec fn entry_size(n: int) -> int {
    (8 + n + 3) / 4 * 4
}

/// Where an insertion walk puts a new record.
pub enum InsertSpot {
    /// Into the free record at this offset, which is long enough.
    Reuse(int),
    /// After the entry of the last record at this offset, which is shrunk.
    Append(int),
    /// The chain ends without room.
    Full,
    /// The walk cannot complete.
    Stuck(DirError),
}

/// The first record among `sl` that is free and at least `need` long, or else
/// that ends exactly at the end of the block.
pub open spec fn spot_in(s: Seq<u8>, sl: Seq<int>, end: WalkEnd, need: int) -> InsertSpot
    decreases sl.len(),
{
    if sl.len() == 0 {
        match end {
            WalkEnd::PastEnd => InsertSpot::Full,
            WalkEnd::ZeroLength => InsertSpot::Stuck(DirError::ZeroLengthRecord),
            WalkEnd::Truncated => InsertSpot::Stuck(DirError::TruncatedHeader),
        }
    } else if inode_at(s, sl[0]) == 0 && rec_len_at(s, sl[0]) >= need {
        InsertSpot::Reuse(sl[0])
    } else if sl[0] + rec_len_at(s, sl[0]) == 4096 {
        InsertSpot::Append(sl[0])
    } else {
        spot_in(s, sl.drop_first(), end, need)
    }
}

/// Where an insertion walk from `off` puts a record of `need` bytes.
pub open spec fn spot_from(s: Seq<u8>, off: int, need: int) -> InsertSpot {
    spot_in(s, walk_from(s, off).0, walk_from(s, off).1, need)
}

/// Where a record of `need` bytes goes in the directory block `s`.
pub open spec fn insert_spot(s: Seq<u8>, need: int) -> InsertSpot {
    spot_from(s, 0, need)
}

/// Whether inserting a name of `n` bytes changes the block (`Ok(true)`),
/// finds no room (`Ok(false)`), or cannot be done.
pub open spec fn insert_status(s: Seq<u8>, n: int) -> Result<bool, DirError> {
    let need = entry_size(n);
    match insert_spot(s, need) {
        InsertSpot::Full => Ok(false),
        InsertSpot::Stuck(e) => Err(e),
        InsertSpot::Reuse(off) => {
            if off + 8 + n > 4096 {
                Err(DirError::EntryOutsideBlock)
            } else if rec_len_at(s, off) - need >= 8 && off + need + 8 > 4096 {
                Err(DirError::EntryOutsideBlock)
            } else {
                Ok(true)
            }
        },
        InsertSpot::Append(off) => {
            if rec_len_at(s, off) < entry_size(name_len_at(s, off)) {
                Err(DirError::RecordTooShort)
            } else if off + entry_size(name_len_at(s, off)) + 8 + n > 4096 {
                Err(DirError::EntryOutsideBlock)
            } else {
                Ok(true)
            }
        },
    }
}

/// `t` is `s` after the free record at `off` took the entry (`ino`, `nb`, `ft`):
/// the record keeps only what the entry needs when at least 8 bytes are left,
/// and the rest becomes a free record of its own.
pub open spec fn reuse_written(s: Seq<u8>, t: Seq<u8>, off: int, nb: Seq<u8>, ino: u32, ft: u8) -> bool {
    let need = entry_size(nb.len() as int);
    let rec = rec_len_at(s, off);
    let left = rec - need;
    &&& t.len() == s.len()
    &&& dir_header_stored(
        DirEntryHeader {
            inode: ino,
            rec_len: (if left >= 8 { need } else { rec }) as u16,
            name_len: nb.len() as u8,
            file_type: ft,
        },
        t,
        off,
    )
    &&& t.subrange(off + 8, off + 8 + nb.len()) == nb
    &&& left >= 8 ==> dir_header_stored(
        DirEntryHeader { inode: 0, rec_len: left as u16, name_len: 0, file_type: 0 },
        t,
        off + need,
    )
    &&& forall|i: int|
        0 <= i < s.len() && !(off <= i < off + 8 + nb.len()) && !(left >= 8 && off + need <= i
            < off + need + 8) ==> t[i] == s[i]
}

/// `t` is `s` after the last record at `off` was shrunk to its own entry and
/// the entry (`ino`, `nb`, `ft`) took the rest of the block.
pub open spec fn append_written(s: Seq<u8>, t: Seq<u8>, off: int, nb: Seq<u8>, ino: u32, ft: u8) -> bool {
    let last = entry_size(name_len_at(s, off));
    let new_off = off + last;
    &&& t.len() == s.len()
    &&& dir_header_stored(
        DirEntryHeader {
            inode: inode_at(s, off),
            rec_len: last as u16,
            name_len: s[off + 6],
            file_type: s[off + 7],
        },
        t,
        off,
    )
    &&& dir_header_stored(
        DirEntryHeader {
            inode: ino,
            rec_len: (rec_len_at(s, off) - last) as u16,
            name_len: nb.len() as u8,
            file_type: ft,
        },
        t,
        new_off,
    )
    &&& t.subrange(new_off + 8, new_off + 8 + nb.len()) == nb
    &&& forall|i: int|
        0 <= i < s.len() && !(off <= i < off + 8) && !(new_off <= i < new_off + 8 + nb.len())
            ==> t[i] == s[i]
}

/// What inserting the entry (`ino`, `nb`, `ft`) makes of the block `s`, when it changes it.
pub open spec fn inserted(s: Seq<u8>, t: Seq<u8>, nb: Seq<u8>, ino: u32, ft: u8) -> bool {
    match insert_spot(s, entry_size(nb.len() as int)) {
        InsertSpot::Reuse(off) => reuse_written(s, t, off, nb, ino, ft),
        InsertSpot::Append(off) => append_written(s, t, off, nb, ino, ft),
        _ => false,
    }
}

/// The block `s` after the entry (`ino`, `nb`, `ft`) was inserted where an
/// insertion walk puts it.
pub open spec fn block_after_insert(s: Seq<u8>, nb: Seq<u8>, ino: u32, ft: u8) -> Seq<u8> {
    choose|t: Seq<u8>| inserted(s, t, nb, ino, ft)
}

/// Reusing a free record fixes every byte of the block.
proof fn lemma_reuse_unique(s: Seq<u8>, t1: Seq<u8>, t2: Seq<u8>, off: int, nb: Seq<u8>, ino: u32, ft: u8)
    requires
        reuse_written(s, t1, off, nb, ino, ft),
        reuse_written(s, t2, off, nb, ino, ft),
        0 <= off,
        off + 8 + nb.len() <= s.len(),
    ensures
        t1 == t2,
{
    let need = entry_size(nb.len() as int);
    let rec = rec_len_at(s, off);
    let left = rec - need;
    crate::layout::lemma_dir_header_bytes_equal(
        DirEntryHeader {
            inode: ino,
            rec_len: (if left >= 8 {
                need
            } else {
                rec
            }) as u16,
            name_len: nb.len() as u8,
            file_type: ft,
        },
        t1,
        t2,
        off,
    );
    if left >= 8 {
        crate::layout::lemma_dir_header_bytes_equal(
            DirEntryHeader { inode: 0, rec_len: left as u16, name_len: 0, file_type: 0 },
            t1,
            t2,
            off + need,
        );
    }
    assert forall|i: int| 0 <= i < t1.len() implies t1[i] == t2[i] by {
        if off <= i < off + 8 {
        } else if off + 8 <= i < off + 8 + nb.len() {
            assert(t1.subrange(off + 8, off + 8 + nb.len())[i - off - 8] == nb[i - off - 8]);
            assert(t2.subrange(off + 8, off + 8 + nb.len())[i - off - 8] == nb[i - off - 8]);
        } else if left >= 8 && off + need <= i < off + need + 8 {
        } else {
            assert(t1[i] == s[i]);
            assert(t2[i] == s[i]);
        }
    }
    assert(t1 =~= t2);
}

/// Appending after the last record fixes every byte of the block.
proof fn lemma_append_unique(s: Seq<u8>, t1: Seq<u8>, t2: Seq<u8>, off: int, nb: Seq<u8>, ino: u32, ft: u8)
    requires
        append_written(s, t1, off, nb, ino, ft),
        append_written(s, t2, off, nb, ino, ft),
        0 <= off,
        off + entry_size(name_len_at(s, off)) + 8 + nb.len() <= s.len(),
    ensures
        t1 == t2,
{
    let last = entry_size(name_len_at(s, off));
    let new_off = off + last;
    crate::layout::lemma_dir_header_bytes_equal(
        DirEntryHeader {
            inode: inode_at(s, off),
            rec_len: last as u16,
            name_len: s[off + 6],
            file_type: s[off + 7],
        },
        t1,
        t2,
        off,
    );
    crate::layout::lemma_dir_header_bytes_equal(
        DirEntryHeader {
            inode: ino,
            rec_len: (rec_len_at(s, off) - last) as u16,
            name_len: nb.len() as u8,
            file_type: ft,
        },
        t1,
        t2,
        new_off,
    );
    assert forall|i: int| 0 <= i < t1.len() implies t1[i] == t2[i] by {
        if off <= i < off + 8 {
        } else if new_off <= i < new_off + 8 {
        } else if new_off + 8 <= i < new_off + 8 + nb.len() {
            assert(t1.subrange(new_off + 8, new_off + 8 + nb.len())[i - new_off - 8] == nb[i
                - new_off - 8]);
            assert(t2.subrange(new_off + 8, new_off + 8 + nb.len())[i - new_off - 8] == nb[i
                - new_off - 8]);
        } else {
            assert(t1[i] == s[i]);
            assert(t2[i] == s[i]);
        }
    }
    assert(t1 =~= t2);
}

/// An insertion fixes every byte of the block.
pub proof fn lemma_inserted_unique(s: Seq<u8>, t1: Seq<u8>, t2: Seq<u8>, nb: Seq<u8>, ino: u32, ft: u8)
    requires
        s.len() == 4096,
        insert_status(s, nb.len() as int) == Ok::<bool, DirError>(true),
        inserted(s, t1, nb, ino, ft),
        inserted(s, t2, nb, ino, ft),
    ensures
        t1 == t2,
{
    let need = entry_size(nb.len() as int);
    crate::dir_laws::lemma_walk_shape(s, 0);
    lemma_spot_in_chain(s, walk_from(s, 0).0, walk_from(s, 0).1, need);
    match insert_spot(s, need) {
        InsertSpot::Reuse(off) => lemma_reuse_unique(s, t1, t2, off, nb, ino, ft),
        InsertSpot::Append(off) => lemma_append_unique(s, t1, t2, off, nb, ino, ft),
        _ => {},
    }
}

/// The record an insertion walk stops at is one of the walked records, so it
/// starts inside the block.
proof fn lemma_spot_in_chain(s: Seq<u8>, sl: Seq<int>, end: WalkEnd, need: int)
    requires
        forall|i: int| 0 <= i < sl.len() ==> 0 <= #[trigger] sl[i],
    ensures
        match spot_in(s, sl, end, need) {
            InsertSpot::Reuse(off) => 0 <= off,
            InsertSpot::Append(off) => 0 <= off,
            _ => true,
        },
    decreases sl.len(),
{
    if sl.len() > 0 {
        let rest = sl.drop_first();
        assert forall|i: int| 0 <= i < rest.len() implies 0 <= #[trigger] rest[i] by {
            assert(rest[i] == sl[i + 1]);
        }
        lemma_spot_in_chain(s, rest, end, need);
    }
}

/// A block that results from the insertion is `block_after_insert`.
pub proof fn lemma_block_after_insert(s: Seq<u8>, t: Seq<u8>, nb: Seq<u8>, ino: u32, ft: u8)
    requires
        s.len() == 4096,
        insert_status(s, nb.len() as int) == Ok::<bool, DirError>(true),
        inserted(s, t, nb, ino, ft),
    ensures
        block_after_insert(s, nb, ino, ft) == t,
{
    assert(exists|u: Seq<u8>| inserted(s, u, nb, ino, ft));
    lemma_inserted_unique(s, block_after_insert(s, nb, ino, ft), t, nb, ino, ft);
}

/// `s` with the header `h` encoded at `off`.
pub open spec fn header_encoded(s: Seq<u8>, off: int, h: DirEntryHeader) -> Seq<u8> {
    with_u32(
        with_u16(s.update(off + 6, h.name_len).update(off + 7, h.file_type), off + 4, h.rec_len),
        off,
        h.inode,
    )
}

/// `header_encoded` stores the header and changes nothing else.
pub proof fn lemma_header_encoded(s: Seq<u8>, off: int, h: DirEntryHeader)
    requires
        0 <= off,
        off + 8 <= s.len(),
    ensures
        dir_header_stored(h, header_encoded(s, off, h), off),
        same_outside(s, header_encoded(s, off, h), off, off + 8),
{
    let a = s.update(off + 6, h.name_len).update(off + 7, h.file_type);
    let b = with_u16(a, off + 4, h.rec_len);
    lemma_u16_roundtrip(a, off + 4, h.rec_len);
    lemma_u32_roundtrip(b, off, h.inode);
    let t = header_encoded(s, off, h);
    crate::layout::lemma_u16_frame(b, t, off + 4, off, off + 4);
}

/// A header stays where it is when only bytes outside it change.
pub proof fn lemma_header_frame(h: DirEntryHeader, s: Seq<u8>, t: Seq<u8>, off: int, lo: int, hi: int)
    requires
        dir_header_stored(h, s, off),
        same_outside(s, t, lo, hi),
        off + 8 <= lo || hi <= off,
    ensures
        dir_header_stored(h, t, off),
{
    crate::layout::lemma_u32_frame(s, t, off, lo, hi);
    crate::layout::lemma_u16_frame(s, t, off + 4, lo, hi);
}

/// Bytes stored with `with_bytes` read back, and nothing else changes.
proof fn lemma_with_bytes_holds(s: Seq<u8>, at: int, nb: Seq<u8>)
    requires
        0 <= at,
        at + nb.len() <= s.len(),
    ensures
        with_bytes(s, at, nb).len() == s.len(),
        with_bytes(s, at, nb).subrange(at, at + nb.len()) == nb,
        same_outside(s, with_bytes(s, at, nb), at, at + nb.len()),
{
    let t = with_bytes(s, at, nb);
    assert(t.subrange(at, at + nb.len()) =~= nb);
}

/// Where the insertion has room, some block holds its result, so
/// `block_after_insert` is that block.
pub proof fn lemma_block_after_insert_holds(s: Seq<u8>, nb: Seq<u8>, ino: u32, ft: u8)
    requires
        s.len() == 4096,
        insert_status(s, nb.len() as int) == Ok::<bool, DirError>(true),
    ensures
        inserted(s, block_after_insert(s, nb, ino, ft), nb, ino, ft),
{
    let need = entry_size(nb.len() as int);
    crate::dir_laws::lemma_walk_shape(s, 0);
    lemma_spot_in_chain(s, walk_from(s, 0).0, walk_from(s, 0).1, need);
    let t = match insert_spot(s, need) {
        InsertSpot::Reuse(off) => reuse_witness(s, off, nb, ino, ft),
        InsertSpot::Append(off) => append_witness(s, off, nb, ino, ft),
        _ => s,
    };
    match insert_spot(s, need) {
        InsertSpot::Reuse(off) => lemma_reuse_witness(s, off, nb, ino, ft),
        InsertSpot::Append(off) => lemma_append_witness(s, off, nb, ino, ft),
        _ => {},
    }
    assert(inserted(s, t, nb, ino, ft));
}

/// The block after the free record at `off` took the entry.
spec fn reuse_witness(s: Seq<u8>, off: int, nb: Seq<u8>, ino: u32, ft: u8) -> Seq<u8> {
    let need = entry_size(nb.len() as int);
    let rec = rec_len_at(s, off);
    let left = rec - need;
    let h1 = DirEntryHeader {
        inode: ino,
        rec_len: (if left >= 8 {
            need
        } else {
            rec
        }) as u16,
        name_len: nb.len() as u8,
        file_type: ft,
    };
    let t2 = with_bytes(header_encoded(s, off, h1), off + 8, nb);
    if left >= 8 {
        header_encoded(
            t2,
            off + need,
            DirEntryHeader { inode: 0, rec_len: left as u16, name_len: 0, file_type: 0 },
        )
    } else {
        t2
    }
}

proof fn lemma_reuse_witness(s: Seq<u8>, off: int, nb: Seq<u8>, ino: u32, ft: u8)
    requires
        s.len() == 4096,
        0 <= off,
        off + 8 + nb.len() <= 4096,
        rec_len_at(s, off) - entry_size(nb.len() as int) >= 8 ==> off + entry_size(nb.len() as int)
            + 8 <= 4096,
    ensures
        reuse_written(s, reuse_witness(s, off, nb, ino, ft), off, nb, ino, ft),
{
    let need = entry_size(nb.len() as int);
    let rec = rec_len_at(s, off);
    let left = rec - need;
    let h1 = DirEntryHeader {
        inode: ino,
        rec_len: (if left >= 8 {
            need
        } else {
            rec
        }) as u16,
        name_len: nb.len() as u8,
        file_type: ft,
    };
    let t1 = header_encoded(s, off, h1);
    lemma_header_encoded(s, off, h1);
    let t2 = with_bytes(t1, off + 8, nb);
    lemma_with_bytes_holds(t1, off + 8, nb);
    lemma_header_frame(h1, t1, t2, off, off + 8, off + 8 + nb.len());
    if left >= 8 {
        let h2 = DirEntryHeader { inode: 0, rec_len: left as u16, name_len: 0, file_type: 0 };
        let t3 = header_encoded(t2, off + need, h2);
        lemma_header_encoded(t2, off + need, h2);
        lemma_header_frame(h1, t2, t3, off, off + need, off + need + 8);
        assert(t3.subrange(off + 8, off + 8 + nb.len()) =~= t2.subrange(off + 8, off + 8 + nb.len()));
    }
}

/// The block after the last record at `off` was shrunk and the entry appended.
spec fn append_witness(s: Seq<u8>, off: int, nb: Seq<u8>, ino: u32, ft: u8) -> Seq<u8> {
    let last = entry_size(name_len_at(s, off));
    let new_off = off + last;
    let t1 = header_encoded(
        s,
        off,
        DirEntryHeader {
            inode: inode_at(s, off),
            rec_len: last as u16,
            name_len: s[off + 6],
            file_type: s[off + 7],
        },
    );
    let t2 = header_encoded(
        t1,
        new_off,
        DirEntryHeader {
            inode: ino,
            rec_len: (rec_len_at(s, off) - last) as u16,
            name_len: nb.len() as u8,
            file_type: ft,
        },
    );
    with_bytes(t2, new_off + 8, nb)
}

proof fn lemma_append_witness(s: Seq<u8>, off: int, nb: Seq<u8>, ino: u32, ft: u8)
    requires
        s.len() == 4096,
        0 <= off,
        off + 8 <= 4096,
        off + entry_size(name_len_at(s, off)) + 8 + nb.len() <= 4096,
    ensures
        append_written(s, append_witness(s, off, nb, ino, ft), off, nb, ino, ft),
{
    let last = entry_size(name_len_at(s, off));
    let new_off = off + last;
    let h1 = DirEntryHeader {
        inode: inode_at(s, off),
        rec_len: last as u16,
        name_len: s[off + 6],
        file_type: s[off + 7],
    };
    let h2 = DirEntryHeader {
        inode: ino,
        rec_len: (rec_len_at(s, off) - last) as u16,
        name_len: nb.len() as u8,
        file_type: ft,
    };
    let t1 = header_encoded(s, off, h1);
    lemma_header_encoded(s, off, h1);
    let t2 = header_encoded(t1, new_off, h2);
    lemma_header_encoded(t1, new_off, h2);
    lemma_header_frame(h1, t1, t2, off, new_off, new_off + 8);
    let t3 = with_bytes(t2, new_off + 8, nb);
    lemma_with_bytes_holds(t2, new_off + 8, nb);
    lemma_header_frame(h1, t2, t3, off, new_off + 8, new_off + 8 + nb.len());
    lemma_header_frame(h2, t2, t3, new_off, new_off + 8, new_off + 8 + nb.len());
}

/// Adds the entry (`inode_num`, `name`, `file_type`) in the first free record
/// long enough for it, or else after the entry of the record that ends the
/// block. `Ok(true)`: the block holds the new entry. `Ok(false)`: there is no
/// room, and the block is unchanged. An error leaves the block unchanged too.
pub fn insert_into_block(block: &mut Block, name: &str, inode_num: u32, file_type: u8) -> (r:
    Result<bool, DirError>)
    requires
        encode_utf8(name@).len() + 11 <= usize::MAX,
    ensures
        r == insert_status(old(block)@, encode_utf8(name@).len() as int),
        r == Ok::<bool, DirError>(true) ==> inserted(
            old(block)@,
            final(block)@,
            encode_utf8(name@),
            inode_num,
            file_type,
        ),
        r != Ok::<bool, DirError>(true) ==> final(block)@ == old(block)@,
{
    let bytes = name.as_bytes();
    let n = bytes.len();
    let need = (8 + n + 3) / 4 * 4;
    let ghost s = block@;
    let mut offset: usize = 0;
    while offset < 4096
        invariant
            offset < 4096 + 0x10000,
            block@ == s,
            s == old(block)@,
            bytes@ == encode_utf8(name@),
            n == bytes@.len(),
            need == entry_size(n as int),
            n + 11 <= usize::MAX,
            spot_from(s, offset as int, need as int) == insert_spot(s, need as int),
        decreases (if offset < 4096 { 4096 - offset } else { 0 }),
    {
        if offset + 8 > 4096 {
            return Err(DirError::TruncatedHeader);
        }
        let h = DirEntryHeader::read_at(block, offset);
        let rec = h.rec_len as usize;
        proof {
            if rec != 0 {
                lemma_walk_step(s, offset as int);
            }
        }
        if h.inode == 0 && rec >= need {
            let left = rec - need;
            let new_rec = if left >= 8 {
                need
            } else {
                rec
            };
            if n > 4088 - offset {
                return Err(DirError::EntryOutsideBlock);
            }
            if left >= 8 && offset + need + 8 > 4096 {
                return Err(DirError::EntryOutsideBlock);
            }
            let new_header = DirEntryHeader {
                inode: inode_num,
                rec_len: new_rec as u16,
                name_len: #[verifier::truncate] (n as u8),
                file_type,
            };
            new_header.write_at(block, offset);
            let ghost s1 = block@;
            copy_into(block, offset + 8, bytes);
            let ghost s2 = block@;
            if left >= 8 {
                let rest = DirEntryHeader { inode: 0, rec_len: left as u16, name_len: 0, file_type: 0 };
                rest.write_at(block, offset + need);
                proof {
                    assert(block@.subrange(offset + 8, offset + 8 + n) =~= s2.subrange(
                        offset + 8,
                        offset + 8 + n,
                    ));
                    crate::layout::lemma_u32_frame(s1, block@, offset as int, offset + 8, 4096);
                    crate::layout::lemma_u16_frame(s1, block@, offset + 4, offset + 8, 4096);
                }
            } else {
                proof {
                    crate::layout::lemma_u32_frame(s1, block@, offset as int, offset + 8, 4096);
                    crate::layout::lemma_u16_frame(s1, block@, offset + 4, offset + 8, 4096);
                }
            }
            return Ok(true);
        }
        if offset + rec == 4096 {
            let last = (8 + h.name_len as usize + 3) / 4 * 4;
            if rec < last {
                return Err(DirError::RecordTooShort);
            }
            let new_off = offset + last;
            if new_off + 8 > 4096 || n > 4088 - new_off {
                return Err(DirError::EntryOutsideBlock);
            }
            let shrunk = DirEntryHeader {
                inode: h.inode,
                rec_len: last as u16,
                name_len: h.name_len,
                file_type: h.file_type,
            };
            shrunk.write_at(block, offset);
            let ghost s1 = block@;
            let new_header = DirEntryHeader {
                inode: inode_num,
                rec_len: (rec - last) as u16,
                name_len: #[verifier::truncate] (n as u8),
                file_type,
            };
            new_header.write_at(block, new_off);
            let ghost s2 = block@;
            copy_into(block, new_off + 8, bytes);
            proof {
                crate::layout::lemma_u32_frame(s1, block@, offset as int, new_off as int, 4096);
                crate::layout::lemma_u16_frame(s1, block@, offset + 4, new_off as int, 4096);
                crate::layout::lemma_u32_frame(s2, block@, new_off as int, new_off + 8, 4096);
                crate::layout::lemma_u16_frame(s2, block@, new_off + 4, new_off + 8, 4096);
            }
            return Ok(true);
        }
        if rec == 0 {
            return Err(DirError::ZeroLengthRecord);
        }
        offset = offset + rec;
    }
    Ok(false)
}

} // verus!
