//! What insertion and removal do to the lookups and listings of a directory block.

use vstd::prelude::*;
use vstd::utf8::encode_utf8;
use crate::bytes::with_u32;
use crate::dir::{
    DirError, WalkEnd, InsertSpot, walk_from, walk_fuel, rec_len_at, inode_at, name_len_at,
    is_live, name_fits, entry_name, name_bytes_at, find_in, find_from, dir_find, dir_lookup,
    live_entries, names_fit, list_from, dir_list, slots, entry_size, insert_spot, spot_in,
    spot_from, insert_status, inserted, reuse_written, append_written, lemma_walk_step,
    lemma_text_of_encoded, text_of,
};

verus! {

/// A record whose header and, when in use, whose name lie inside the record itself.
pub open spec fn record_ok(s: Seq<u8>, off: int) -> bool {
    &&& rec_len_at(s, off) >= 8
    &&& is_live(s, off) ==> 8 + name_len_at(s, off) <= rec_len_at(s, off)
}

/// Every record of the chain keeps its header and name inside itself.
pub open spec fn dir_well_formed(s: Seq<u8>) -> bool {
    &&& s.len() == 4096
    &&& forall|i: int| 0 <= i < slots(s).len() ==> record_ok(s, #[trigger] slots(s)[i])
}

/// The shape of a walk: it starts at `x`, each record leads to the next by its
/// length, and every visited header lies inside the block.
pub proof fn lemma_walk_shape(s: Seq<u8>, x: int)
    ensures
        ({
            let w = walk_from(s, x).0;
            &&& w.len() > 0 ==> w[0] == x
            &&& forall|i: int|
                0 <= i < w.len() ==> x <= #[trigger] w[i] && w[i] + 8 <= 4096 && rec_len_at(
                    s,
                    w[i],
                ) > 0
            &&& forall|i: int|
                0 <= i < w.len() - 1 ==> #[trigger] w[i + 1] == w[i] + rec_len_at(s, w[i])
        }),
    decreases walk_fuel(x),
{
    if 0 <= x && x + 8 <= 4096 && rec_len_at(s, x) != 0 {
        let nx = x + rec_len_at(s, x);
        lemma_walk_shape(s, nx);
        lemma_walk_step(s, x);
        let w = walk_from(s, x).0;
        let w2 = walk_from(s, nx).0;
        assert forall|i: int| 0 <= i < w.len() implies x <= #[trigger] w[i] && w[i] + 8 <= 4096
            && rec_len_at(s, w[i]) > 0 by {
            if i > 0 {
                assert(w[i] == w2[i - 1]);
            }
        }
        assert forall|i: int| 0 <= i < w.len() - 1 implies #[trigger] w[i + 1] == w[i]
            + rec_len_at(s, w[i]) by {
            if i > 0 {
                assert(w[i] == w2[i - 1]);
                assert(w[i + 1] == w2[i]);
            } else {
                if w2.len() > 0 {
                    assert(w[1] == w2[0]);
                }
            }
        }
    }
}

/// In a walk, later records lie at higher offsets.
pub proof fn lemma_walk_increasing(s: Seq<u8>, x: int, i: int, j: int)
    requires
        0 <= i < j < walk_from(s, x).0.len(),
    ensures
        walk_from(s, x).0[i] + rec_len_at(s, walk_from(s, x).0[i]) <= walk_from(s, x).0[j],
    decreases j - i,
{
    lemma_walk_shape(s, x);
    let w = walk_from(s, x).0;
    if j > i + 1 {
        lemma_walk_increasing(s, x, i + 1, j);
        assert(w[i + 1] == w[i] + rec_len_at(s, w[i]));
    } else {
        assert(w[i + 1] == w[i] + rec_len_at(s, w[i]));
    }
}

/// A walk from `x` reads only bytes at or after `x`.
pub proof fn lemma_walk_agree_suffix(s: Seq<u8>, t: Seq<u8>, x: int, a: int)
    requires
        s.len() == 4096,
        t.len() == 4096,
        0 <= a <= x,
        forall|i: int| a <= i < 4096 ==> s[i] == t[i],
    ensures
        walk_from(t, x).0 == walk_from(s, x).0,
        walk_from(t, x).1 == walk_from(s, x).1,
    decreases walk_fuel(x),
{
    if 0 <= x && x + 8 <= 4096 {
        assert(rec_len_at(t, x) == rec_len_at(s, x)) by {
            assert(t[x + 4] == s[x + 4]);
            assert(t[x + 5] == s[x + 5]);
        }
        if rec_len_at(s, x) != 0 {
            lemma_walk_agree_suffix(s, t, x + rec_len_at(s, x), a);
            lemma_walk_step(s, x);
            lemma_walk_step(t, x);
        }
    }
}

/// A record reads the same in two blocks that agree on its header and name.
pub open spec fn same_record(s: Seq<u8>, t: Seq<u8>, off: int) -> bool {
    &&& inode_at(t, off) == inode_at(s, off)
    &&& rec_len_at(t, off) == rec_len_at(s, off)
    &&& name_len_at(t, off) == name_len_at(s, off)
    &&& name_fits(t, off) == name_fits(s, off)
    &&& is_live(s, off) && name_fits(s, off) ==> entry_name(t, off) == entry_name(s, off)
}

/// A well-formed record inside a region where two blocks agree reads the same in both.
pub proof fn lemma_same_record(s: Seq<u8>, t: Seq<u8>, off: int, lo: int, hi: int)
    requires
        s.len() == 4096,
        t.len() == 4096,
        0 <= lo <= off,
        off + 8 <= 4096,
        off + rec_len_at(s, off) <= hi,
        record_ok(s, off),
        forall|i: int| lo <= i < hi && i < 4096 ==> s[i] == t[i],
    ensures
        same_record(s, t, off),
{
    assert(t[off] == s[off]);
    assert(t[off + 1] == s[off + 1]);
    assert(t[off + 2] == s[off + 2]);
    assert(t[off + 3] == s[off + 3]);
    assert(t[off + 4] == s[off + 4]);
    assert(t[off + 5] == s[off + 5]);
    assert(t[off + 6] == s[off + 6]);
    if is_live(s, off) && name_fits(s, off) {
        assert(name_bytes_at(t, off) =~= name_bytes_at(s, off));
    }
}

/// Two blocks that agree below `b` have the same chain up to the record at `b`,
/// provided the records before it keep their headers and names inside themselves.
#[verifier::rlimit(40)]
#[verifier::spinoff_prover]
pub proof fn lemma_walk_agree_prefix(s: Seq<u8>, t: Seq<u8>, x: int, m: int)
    requires
        s.len() == 4096,
        t.len() == 4096,
        0 <= x,
        0 <= m < walk_from(s, x).0.len(),
        forall|i: int| 0 <= i < m ==> record_ok(s, #[trigger] walk_from(s, x).0[i]),
        forall|i: int| 0 <= i < walk_from(s, x).0[m] ==> s[i] == t[i],
    ensures
        walk_from(t, x).0 == walk_from(s, x).0.take(m) + walk_from(t, walk_from(s, x).0[m]).0,
        walk_from(t, x).1 == walk_from(t, walk_from(s, x).0[m]).1,
        forall|i: int| 0 <= i < m ==> same_record(s, t, #[trigger] walk_from(s, x).0[i]),
    decreases m,
{
    lemma_walk_shape(s, x);
    let w = walk_from(s, x).0;
    let b = w[m];
    if m == 0 {
        assert(w.take(0) + walk_from(t, b).0 =~= walk_from(t, b).0);
    } else {
        lemma_walk_increasing(s, x, 0, m);
        let nx = x + rec_len_at(s, x);
        lemma_walk_step(s, x);
        lemma_same_record(s, t, x, 0, b);
        lemma_walk_step(t, x);
        let w2 = walk_from(s, nx).0;
        assert forall|i: int| 0 <= i < m - 1 implies record_ok(s, #[trigger] w2[i]) by {
            assert(w2[i] == w[i + 1]);
        }
        assert(w2[m - 1] == w[m]);
        lemma_walk_agree_prefix(s, t, nx, m - 1);
        assert(walk_from(t, x).0 =~= w.take(m) + walk_from(t, b).0) by {
            assert(w.take(m) =~= seq![x] + w2.take(m - 1));
        }
        assert forall|i: int| 0 <= i < m implies same_record(s, t, #[trigger] w[i]) by {
            if i > 0 {
                assert(w[i] == w2[i - 1]);
            }
        }
    }
}

/// A lookup walks past records that neither are broken nor carry the name.
pub open spec fn passes(s: Seq<u8>, off: int, name: Seq<char>) -> bool {
    !(is_live(s, off) && !name_fits(s, off)) && !(is_live(s, off) && entry_name(s, off) == name)
}

/// A lookup that finds nothing passed every record.
pub proof fn lemma_find_none(s: Seq<u8>, sl: Seq<int>, end: WalkEnd, name: Seq<char>)
    requires
        find_in(s, sl, end, name) == Ok::<Option<int>, DirError>(None),
    ensures
        forall|i: int| 0 <= i < sl.len() ==> passes(s, #[trigger] sl[i], name),
        !(end is Truncated),
    decreases sl.len(),
{
    if sl.len() > 0 {
        lemma_find_none(s, sl.drop_first(), end, name);
        assert forall|i: int| 0 <= i < sl.len() implies passes(s, #[trigger] sl[i], name) by {
            if i > 0 {
                assert(sl[i] == sl.drop_first()[i - 1]);
            }
        }
    }
}

/// A lookup carries on past a prefix of records it passes.
pub proof fn lemma_find_skip(s: Seq<u8>, p: Seq<int>, rest: Seq<int>, end: WalkEnd, name: Seq<char>)
    requires
        forall|i: int| 0 <= i < p.len() ==> passes(s, #[trigger] p[i], name),
    ensures
        find_in(s, p + rest, end, name) == find_in(s, rest, end, name),
    decreases p.len(),
{
    if p.len() > 0 {
        assert((p + rest).drop_first() =~= p.drop_first() + rest);
        assert forall|i: int| 0 <= i < p.drop_first().len() implies passes(
            s,
            #[trigger] p.drop_first()[i],
            name,
        ) by {
            assert(p.drop_first()[i] == p[i + 1]);
        }
        lemma_find_skip(s, p.drop_first(), rest, end, name);
        assert((p + rest)[0] == p[0]);
    }
}

/// When a lookup in `s` passes every record, a lookup in a block `t` that
/// agrees with `s` below the `k`-th record goes straight on from that record.
proof fn lemma_find_through_prefix(s: Seq<u8>, t: Seq<u8>, name: Seq<char>, k: int)
    requires
        dir_well_formed(s),
        t.len() == 4096,
        dir_find(s, name) == Ok::<Option<int>, DirError>(None),
        0 <= k < slots(s).len(),
        forall|i: int| 0 <= i < slots(s)[k] ==> s[i] == t[i],
    ensures
        dir_find(t, name) == find_from(t, slots(s)[k], name),
{
    let w = walk_from(s, 0);
    lemma_find_none(s, w.0, w.1, name);
    assert forall|i: int| 0 <= i < k implies record_ok(s, #[trigger] w.0[i]) by {
        assert(slots(s)[i] == w.0[i]);
    }
    lemma_walk_agree_prefix(s, t, 0, k);
    let p = w.0.take(k);
    assert forall|i: int| 0 <= i < p.len() implies passes(t, #[trigger] p[i], name) by {
        assert(p[i] == w.0[i]);
        assert(passes(s, w.0[i], name));
        assert(same_record(s, t, w.0[i]));
    }
    let wt = walk_from(t, 0);
    lemma_find_skip(t, p, walk_from(t, slots(s)[k]).0, wt.1, name);
}

/// A record at `off` that is in use, has its name inside the block and is named
/// `name` is what a lookup walking from `off` finds.
proof fn lemma_find_here(t: Seq<u8>, off: int, name: Seq<char>)
    requires
        t.len() == 4096,
        0 <= off,
        off + 8 <= 4096,
        rec_len_at(t, off) != 0,
        is_live(t, off),
        name_fits(t, off),
        entry_name(t, off) == name,
    ensures
        find_from(t, off, name) == Ok::<Option<int>, DirError>(Some(off)),
{
    lemma_walk_step(t, off);
}

/// Adding a name that is not yet present to a well-formed directory block
/// makes lookups of that name give the new inode.
pub proof fn lemma_lookup_after_insert(s: Seq<u8>, t: Seq<u8>, name: Seq<char>, ino: u32, ft: u8)
    requires
        dir_well_formed(s),
        dir_lookup(s, name) == Ok::<Option<u32>, DirError>(None),
        encode_utf8(name).len() <= 255,
        ino != 0,
        insert_status(s, encode_utf8(name).len() as int) == Ok::<bool, DirError>(true),
        inserted(s, t, encode_utf8(name), ino, ft),
    ensures
        dir_lookup(t, name) == Ok::<Option<u32>, DirError>(Some(ino)),
{
    let nb = encode_utf8(name);
    let n = nb.len() as int;
    let need = entry_size(n);
    let w = walk_from(s, 0);
    lemma_walk_shape(s, 0);
    lemma_text_of_encoded(name);
    let k = lemma_spot_index(s, w.0, w.1, need);
    let off = w.0[k];
    assert(off + 8 <= 4096);
    match insert_spot(s, need) {
        InsertSpot::Reuse(o) => {
            assert(o == off);
            assert(reuse_written(s, t, off, nb, ino, ft));
            assert forall|i: int| 0 <= i < off implies s[i] == t[i] by {}
            lemma_find_through_prefix(s, t, name, k);
            assert(name_bytes_at(t, off) =~= nb);
            lemma_find_here(t, off, name);
        },
        InsertSpot::Append(o) => {
            assert(o == off);
            assert(append_written(s, t, off, nb, ino, ft));
            let last = entry_size(name_len_at(s, off));
            let new_off = off + last;
            assert forall|i: int| 0 <= i < off implies s[i] == t[i] by {}
            lemma_find_through_prefix(s, t, name, k);
            // the shrunk record reads as before and is passed over
            lemma_find_none(s, w.0, w.1, name);
            assert(passes(s, w.0[k], name));
            if is_live(s, off) && name_fits(s, off) {
                assert(name_bytes_at(t, off) =~= name_bytes_at(s, off));
            }
            assert(passes(t, off, name));
            lemma_walk_step(t, off);
            assert(name_bytes_at(t, new_off) =~= nb);
            lemma_find_here(t, new_off, name);
            assert(walk_from(t, off).0[0] == off);
        },
        _ => {},
    }
}

/// The record where an insertion walk stops lies at some index of the chain.
pub proof fn lemma_spot_index(s: Seq<u8>, sl: Seq<int>, end: WalkEnd, need: int) -> (k: int)
    requires
        spot_in(s, sl, end, need) is Reuse || spot_in(s, sl, end, need) is Append,
    ensures
        0 <= k < sl.len(),
        spot_in(s, sl, end, need) is Reuse ==> spot_in(s, sl, end, need)
            == InsertSpot::Reuse(sl[k]),
        spot_in(s, sl, end, need) is Append ==> spot_in(s, sl, end, need)
            == InsertSpot::Append(sl[k]) && sl[k] + rec_len_at(s, sl[k]) == 4096,
        spot_in(s, sl, end, need) is Reuse ==> inode_at(s, sl[k]) == 0 && rec_len_at(s, sl[k])
            >= need,
    decreases sl.len(),
{
    if inode_at(s, sl[0]) == 0 && rec_len_at(s, sl[0]) >= need {
        0
    } else if sl[0] + rec_len_at(s, sl[0]) == 4096 {
        0
    } else {
        let k = lemma_spot_index(s, sl.drop_first(), end, need);
        k + 1
    }
}

/// A record lying in a region where two blocks agree up to the end of the block
/// reads the same in both.
pub proof fn lemma_same_record_suffix(s: Seq<u8>, t: Seq<u8>, off: int, lo: int)
    requires
        s.len() == 4096,
        t.len() == 4096,
        0 <= lo <= off,
        off + 8 <= 4096,
        forall|i: int| lo <= i < 4096 ==> s[i] == t[i],
    ensures
        same_record(s, t, off),
{
    assert(t[off] == s[off]);
    assert(t[off + 1] == s[off + 1]);
    assert(t[off + 2] == s[off + 2]);
    assert(t[off + 3] == s[off + 3]);
    assert(t[off + 4] == s[off + 4]);
    assert(t[off + 5] == s[off + 5]);
    assert(t[off + 6] == s[off + 6]);
    if is_live(s, off) && name_fits(s, off) {
        assert(name_bytes_at(t, off) =~= name_bytes_at(s, off));
    }
}

/// The entries in use of two runs of records, one after the other.
pub proof fn lemma_live_entries_concat(s: Seq<u8>, a: Seq<int>, b: Seq<int>)
    ensures
        live_entries(s, a + b) == live_entries(s, a) + live_entries(s, b),
    decreases a.len(),
{
    if a.len() == 0 {
        assert(a + b =~= b);
        assert(live_entries(s, a) + live_entries(s, b) =~= live_entries(s, b));
    } else {
        assert((a + b).drop_first() =~= a.drop_first() + b);
        assert((a + b)[0] == a[0]);
        lemma_live_entries_concat(s, a.drop_first(), b);
        if is_live(s, a[0]) {
            assert(seq![(inode_at(s, a[0]), entry_name(s, a[0]))] + (live_entries(s, a.drop_first())
                + live_entries(s, b)) =~= (seq![(inode_at(s, a[0]), entry_name(s, a[0]))]
                + live_entries(s, a.drop_first())) + live_entries(s, b));
        }
    }
}

/// Records that read the same in two blocks give the same entries.
pub proof fn lemma_live_entries_same(s: Seq<u8>, t: Seq<u8>, sl: Seq<int>)
    requires
        forall|i: int| 0 <= i < sl.len() ==> same_record(s, t, #[trigger] sl[i]),
        names_fit(s, sl),
    ensures
        live_entries(t, sl) == live_entries(s, sl),
        names_fit(t, sl),
    decreases sl.len(),
{
    if sl.len() > 0 {
        assert forall|i: int| 0 <= i < sl.drop_first().len() implies same_record(
            s,
            t,
            #[trigger] sl.drop_first()[i],
        ) by {
            assert(sl.drop_first()[i] == sl[i + 1]);
        }
        assert forall|i: int|
            0 <= i < sl.drop_first().len() && is_live(s, sl.drop_first()[i]) implies name_fits(
            s,
            sl.drop_first()[i],
        ) by {
            assert(sl.drop_first()[i] == sl[i + 1]);
        }
        lemma_live_entries_same(s, t, sl.drop_first());
        assert(same_record(s, t, sl[0]));
        assert forall|i: int| 0 <= i < sl.len() && is_live(t, sl[i]) implies name_fits(t, sl[i]) by {
            assert(same_record(s, t, sl[i]));
        }
    }
}

/// Removing the entry named `name` from a well-formed directory block takes
/// exactly that entry out of the listing and leaves the others in order.
pub proof fn lemma_list_after_remove(s: Seq<u8>, name: Seq<char>, off: int) -> (j: int)
    requires
        dir_well_formed(s),
        dir_list(s) is Ok,
        dir_find(s, name) == Ok::<Option<int>, DirError>(Some(off)),
    ensures
        ({
            let v = dir_list(s)->Ok_0;
            &&& 0 <= j < v.len()
            &&& v[j] == (inode_at(s, off), name)
            &&& dir_list(with_u32(s, off, 0)) == Ok::<Seq<(u32, Seq<char>)>, DirError>(
                v.remove(j),
            )
        }),
{
    let t = with_u32(s, off, 0);
    let w = walk_from(s, 0);
    lemma_walk_shape(s, 0);
    let k = lemma_found_index(s, w.0, w.1, name);
    assert(w.0[k] == off);
    crate::bytes::lemma_u32_roundtrip(s, off, 0);
    assert forall|i: int| 0 <= i < k implies record_ok(s, #[trigger] w.0[i]) by {
        assert(slots(s)[i] == w.0[i]);
    }
    assert(record_ok(s, slots(s)[k]));
    let rec = rec_len_at(s, off);
    // the chain of `s` split at the record
    lemma_walk_agree_prefix(s, s, 0, k);
    lemma_walk_step(s, off);
    // the chain of `t` is the same
    lemma_walk_agree_prefix(s, t, 0, k);
    assert(rec_len_at(t, off) == rec) by {
        assert(t[off + 4] == s[off + 4]);
        assert(t[off + 5] == s[off + 5]);
    }
    lemma_walk_step(t, off);
    lemma_walk_agree_suffix(s, t, off + rec, off + 4);
    let pre = w.0.take(k);
    let suf = walk_from(s, off + rec).0;
    assert(w.0 =~= pre + (seq![off] + suf));
    assert(walk_from(t, 0).0 =~= w.0);
    // every record but the removed one reads the same
    assert forall|i: int| 0 <= i < pre.len() implies same_record(s, t, #[trigger] pre[i]) by {
        assert(pre[i] == w.0[i]);
    }
    lemma_walk_shape(s, off + rec);
    assert forall|i: int| 0 <= i < suf.len() implies same_record(s, t, #[trigger] suf[i]) by {
        lemma_same_record_suffix(s, t, suf[i], off + 4);
    }
    assert(names_fit(s, w.0));
    assert(names_fit(s, pre)) by {
        assert forall|i: int| 0 <= i < pre.len() && is_live(s, pre[i]) implies name_fits(
            s,
            pre[i],
        ) by {
            assert(pre[i] == w.0[i]);
        }
    }
    assert(names_fit(s, suf)) by {
        assert forall|i: int| 0 <= i < suf.len() && is_live(s, suf[i]) implies name_fits(
            s,
            suf[i],
        ) by {
            assert(suf[i] == w.0[k + 1 + i]);
        }
    }
    lemma_live_entries_same(s, t, pre);
    lemma_live_entries_same(s, t, suf);
    lemma_live_entries_concat(s, pre, seq![off] + suf);
    lemma_live_entries_concat(t, pre, seq![off] + suf);
    assert((seq![off] + suf).drop_first() =~= suf);
    assert(!is_live(t, off));
    let a = live_entries(s, pre);
    let b = live_entries(s, suf);
    let x = (inode_at(s, off), entry_name(s, off));
    assert(live_entries(s, w.0) =~= a + (seq![x] + b));
    assert(live_entries(t, w.0) =~= a + b);
    assert(names_fit(t, w.0)) by {
        assert forall|i: int| 0 <= i < w.0.len() && is_live(t, w.0[i]) implies name_fits(
            t,
            w.0[i],
        ) by {
            if i < k {
                assert(w.0[i] == pre[i]);
            } else if i > k {
                assert(w.0[i] == suf[i - k - 1]);
            }
        }
    }
    assert((a + (seq![x] + b)).remove(a.len() as int) =~= a + b);
    a.len() as int
}

/// The record a lookup finds lies at some index of the chain, is in use and carries the name.
pub proof fn lemma_found_index(s: Seq<u8>, sl: Seq<int>, end: WalkEnd, name: Seq<char>) -> (k: int)
    requires
        find_in(s, sl, end, name) is Ok,
        find_in(s, sl, end, name)->Ok_0 is Some,
    ensures
        0 <= k < sl.len(),
        find_in(s, sl, end, name) == Ok::<Option<int>, DirError>(Some(sl[k])),
        is_live(s, sl[k]),
        name_fits(s, sl[k]),
        entry_name(s, sl[k]) == name,
    decreases sl.len(),
{
    if is_live(s, sl[0]) && entry_name(s, sl[0]) == name && name_fits(s, sl[0]) {
        0
    } else {
        let k = lemma_found_index(s, sl.drop_first(), end, name);
        k + 1
    }
}

/// A lookup of a name that no listed entry carries finds nothing, when every
/// name lies inside the block and the chain is not cut off.
pub proof fn lemma_find_absent(s: Seq<u8>, sl: Seq<int>, end: WalkEnd, name: Seq<char>)
    requires
        names_fit(s, sl),
        !(end is Truncated),
        forall|k: int| 0 <= k < live_entries(s, sl).len() ==> (#[trigger] live_entries(s, sl)[k]).1
            != name,
    ensures
        find_in(s, sl, end, name) == Ok::<Option<int>, DirError>(None),
    decreases sl.len(),
{
    if sl.len() > 0 {
        let rest = sl.drop_first();
        assert forall|i: int| 0 <= i < rest.len() && is_live(s, rest[i]) implies name_fits(
            s,
            rest[i],
        ) by {
            assert(rest[i] == sl[i + 1]);
        }
        if is_live(s, sl[0]) {
            let e = (inode_at(s, sl[0]), entry_name(s, sl[0]));
            assert(live_entries(s, sl) == seq![e] + live_entries(s, rest));
            assert(live_entries(s, sl)[0] == e);
            assert forall|k: int| 0 <= k < live_entries(s, rest).len() implies (
            #[trigger] live_entries(s, rest)[k]).1 != name by {
                assert(live_entries(s, sl)[k + 1] == live_entries(s, rest)[k]);
            }
        } else {
            assert(live_entries(s, sl) == live_entries(s, rest));
        }
        lemma_find_absent(s, rest, end, name);
    }
}

/// The names a directory block lists are all different.
pub open spec fn names_distinct(v: Seq<(u32, Seq<char>)>) -> bool {
    forall|i: int, j: int| 0 <= i < j < v.len() ==> (#[trigger] v[i]).1 != (#[trigger] v[j]).1
}

/// Removing the entry named `name` from a well-formed directory block whose
/// names are all different makes lookups of `name` find nothing.
pub proof fn lemma_lookup_after_remove(s: Seq<u8>, name: Seq<char>, off: int)
    requires
        dir_well_formed(s),
        dir_list(s) is Ok,
        names_distinct(dir_list(s)->Ok_0),
        dir_find(s, name) == Ok::<Option<int>, DirError>(Some(off)),
    ensures
        dir_lookup(with_u32(s, off, 0), name) == Ok::<Option<u32>, DirError>(None),
{
    let t = with_u32(s, off, 0);
    let v = dir_list(s)->Ok_0;
    let j = lemma_list_after_remove(s, name, off);
    let u = v.remove(j);
    assert(dir_list(t) == Ok::<Seq<(u32, Seq<char>)>, DirError>(u));
    let w = walk_from(t, 0);
    assert(live_entries(t, w.0) == u);
    assert forall|k: int| 0 <= k < live_entries(t, w.0).len() implies (
    #[trigger] live_entries(t, w.0)[k]).1 != name by {
        if k < j {
            assert(u[k] == v[k]);
        } else {
            assert(u[k] == v[k + 1]);
        }
    }
    lemma_find_absent(t, w.0, w.1, name);
}

/// Every record of the chain is at least as long as its own entry, rounded
/// up to a multiple of four bytes.
pub open spec fn records_hold_entries(s: Seq<u8>) -> bool {
    forall|i: int|
        0 <= i < slots(s).len() ==> rec_len_at(s, #[trigger] slots(s)[i]) >= entry_size(
            name_len_at(s, slots(s)[i]),
        )
}

/// The entries of a single record.
proof fn lemma_live_entries_one(s: Seq<u8>, off: int)
    ensures
        live_entries(s, seq![off]) == (if is_live(s, off) {
            seq![(inode_at(s, off), entry_name(s, off))]
        } else {
            Seq::<(u32, Seq<char>)>::empty()
        }),
{
    assert(seq![off].drop_first() =~= Seq::<int>::empty());
    assert(live_entries(s, Seq::<int>::empty()) == Seq::<(u32, Seq<char>)>::empty());
    if is_live(s, off) {
        assert(seq![(inode_at(s, off), entry_name(s, off))] + Seq::<(u32, Seq<char>)>::empty()
            =~= seq![(inode_at(s, off), entry_name(s, off))]);
    }
}

/// The chain of a block that lists without error, cut at its `k`-th record:
/// the records before it, the record itself and the records after it.
proof fn lemma_cut_at(s: Seq<u8>, k: int)
    requires
        dir_well_formed(s),
        dir_list(s) is Ok,
        0 <= k < slots(s).len(),
    ensures
        ({
            let off = slots(s)[k];
            let rec = rec_len_at(s, off);
            let pre = slots(s).take(k);
            let suf = walk_from(s, off + rec).0;
            &&& 0 <= off && off + 8 <= 4096 && rec > 0
            &&& record_ok(s, off)
            &&& slots(s) == pre + (seq![off] + suf)
            &&& forall|i: int| 0 <= i < pre.len() ==> record_ok(s, #[trigger] pre[i])
            &&& forall|i: int| 0 <= i < pre.len() ==> #[trigger] pre[i] + 8 <= off
            &&& forall|i: int| 0 <= i < suf.len() ==> off + rec <= #[trigger] suf[i] && suf[i] + 8 <= 4096
            &&& names_fit(s, pre)
            &&& names_fit(s, suf)
            &&& is_live(s, off) ==> name_fits(s, off)
            &&& walk_from(s, 0).1 == walk_from(s, off + rec).1
            &&& !(walk_from(s, 0).1 is Truncated)
            &&& dir_list(s) == Ok::<Seq<(u32, Seq<char>)>, DirError>(
                live_entries(s, pre) + (live_entries(s, seq![off]) + live_entries(s, suf)),
            )
        }),
{
    let w = walk_from(s, 0);
    lemma_walk_shape(s, 0);
    let off = w.0[k];
    let rec = rec_len_at(s, off);
    assert forall|i: int| 0 <= i < k implies record_ok(s, #[trigger] w.0[i]) by {
        assert(slots(s)[i] == w.0[i]);
    }
    lemma_walk_agree_prefix(s, s, 0, k);
    lemma_walk_step(s, off);
    let pre = w.0.take(k);
    let suf = walk_from(s, off + rec).0;
    assert(w.0 =~= pre + (seq![off] + suf));
    assert forall|i: int| 0 <= i < pre.len() implies record_ok(s, #[trigger] pre[i]) by {
        assert(pre[i] == w.0[i]);
    }
    assert forall|i: int| 0 <= i < pre.len() implies #[trigger] pre[i] + 8 <= off by {
        assert(pre[i] == w.0[i]);
        lemma_walk_increasing(s, 0, i, k);
    }
    assert(names_fit(s, pre)) by {
        assert forall|i: int| 0 <= i < pre.len() && is_live(s, pre[i]) implies name_fits(
            s,
            pre[i],
        ) by {
            assert(pre[i] == w.0[i]);
        }
    }
    assert(names_fit(s, suf)) by {
        assert forall|i: int| 0 <= i < suf.len() && is_live(s, suf[i]) implies name_fits(
            s,
            suf[i],
        ) by {
            assert(suf[i] == w.0[k + 1 + i]);
        }
    }
    lemma_walk_shape(s, off + rec);
    lemma_live_entries_concat(s, pre, seq![off] + suf);
    lemma_live_entries_concat(s, seq![off], suf);
}

/// Listing after an insertion that reused the free record at `off`.
#[verifier::rlimit(30)]
proof fn lemma_list_after_reuse(s: Seq<u8>, t: Seq<u8>, name: Seq<char>, ino: u32, ft: u8, k: int)
    requires
        dir_well_formed(s),
        dir_list(s) is Ok,
        encode_utf8(name).len() <= 255,
        ino != 0,
        0 <= k < slots(s).len(),
        inode_at(s, slots(s)[k]) == 0,
        entry_size(encode_utf8(name).len() as int) <= rec_len_at(s, slots(s)[k]),
        slots(s)[k] + 8 + encode_utf8(name).len() <= 4096,
        rec_len_at(s, slots(s)[k]) - entry_size(encode_utf8(name).len() as int) >= 8
            ==> slots(s)[k] + entry_size(encode_utf8(name).len() as int) + 8 <= 4096,
        reuse_written(s, t, slots(s)[k], encode_utf8(name), ino, ft),
    ensures
        dir_list(t) == Ok::<Seq<(u32, Seq<char>)>, DirError>(
            dir_list(s)->Ok_0.insert(live_entries(s, slots(s).take(k)).len() as int, (ino, name)),
        ),
        dir_well_formed(t),
        records_hold_entries(s) ==> records_hold_entries(t),
{
    let nb = encode_utf8(name);
    let n = nb.len() as int;
    let need = entry_size(n);
    lemma_text_of_encoded(name);
    lemma_cut_at(s, k);
    let off = slots(s)[k];
    let rec = rec_len_at(s, off);
    let pre = slots(s).take(k);
    let suf = walk_from(s, off + rec).0;
    let a = live_entries(s, pre);
    let b = live_entries(s, suf);
    let x = (ino, name);
    lemma_live_entries_one(s, off);
    let left = rec - need;
    let hi = if left >= 8 { off + need + 8 } else { off + 8 + n };
    assert(off + 8 + n <= off + need);
    assert(hi <= off + rec);
    assert forall|i: int| 0 <= i < off implies s[i] == t[i] by {}
    assert forall|i: int| hi <= i < 4096 implies s[i] == t[i] by {}
    lemma_walk_agree_prefix(s, t, 0, k);
    lemma_walk_agree_suffix(s, t, off + rec, hi);
    assert forall|i: int| 0 <= i < suf.len() implies same_record(s, t, #[trigger] suf[i]) by {
        lemma_same_record_suffix(s, t, suf[i], hi);
    }
    assert forall|i: int| 0 <= i < pre.len() implies same_record(s, t, #[trigger] pre[i]) by {
        assert(pre[i] == slots(s)[i]);
    }
    lemma_live_entries_same(s, t, pre);
    lemma_live_entries_same(s, t, suf);
    // the reused record now holds the new entry
    assert(inode_at(t, off) == ino);
    assert(name_len_at(t, off) == n);
    assert(name_bytes_at(t, off) =~= nb);
    assert(entry_name(t, off) == name);
    lemma_live_entries_one(t, off);
    let mid = if left >= 8 { seq![off, off + need] } else { seq![off] };
    if left >= 8 {
        assert(rec_len_at(t, off) == need);
        lemma_walk_step(t, off);
        assert(rec_len_at(t, off + need) == left);
        lemma_walk_step(t, off + need);
        assert(inode_at(t, off + need) == 0);
        lemma_live_entries_one(t, off + need);
        lemma_live_entries_concat(t, seq![off], seq![off + need]);
        assert(seq![off] + seq![off + need] =~= mid);
        assert(walk_from(t, off).0 =~= mid + suf);
    } else {
        assert(rec_len_at(t, off) == rec);
        lemma_walk_step(t, off);
        assert(walk_from(t, off).0 =~= mid + suf);
    }
    let wt = walk_from(t, 0);
    assert(wt.0 =~= pre + (mid + suf));
    lemma_live_entries_concat(t, pre, mid + suf);
    lemma_live_entries_concat(t, mid, suf);
    assert(live_entries(t, mid) =~= seq![x]);
    assert(names_fit(t, wt.0)) by {
        assert forall|i: int| 0 <= i < wt.0.len() && is_live(t, wt.0[i]) implies name_fits(
            t,
            wt.0[i],
        ) by {
            if i < pre.len() {
                assert(wt.0[i] == pre[i]);
            } else if i >= pre.len() + mid.len() {
                assert(wt.0[i] == suf[i - pre.len() - mid.len()]);
            } else {
                assert(wt.0[i] == mid[i - pre.len()]);
            }
        }
    }
    assert(dir_list(s)->Ok_0 =~= a + b);
    assert(live_entries(t, wt.0) =~= a + (seq![x] + b));
    assert((a + b).insert(a.len() as int, x) =~= a + (seq![x] + b));
    assert forall|i: int| 0 <= i < slots(t).len() implies record_ok(t, #[trigger] slots(t)[i]) by {
        if i < pre.len() {
            assert(wt.0[i] == pre[i]);
            assert(same_record(s, t, pre[i]));
        } else if i >= pre.len() + mid.len() {
            let q = suf[i - pre.len() - mid.len()];
            assert(wt.0[i] == q);
            assert(same_record(s, t, q));
            assert(record_ok(s, q)) by {
                assert(slots(s)[k + 1 + (i - pre.len() - mid.len())] == q);
            }
        } else {
            assert(wt.0[i] == mid[i - pre.len()]);
        }
    }
    if records_hold_entries(s) {
        assert forall|i: int| 0 <= i < slots(t).len() implies rec_len_at(t, #[trigger] slots(t)[i])
            >= entry_size(name_len_at(t, slots(t)[i])) by {
            if i < pre.len() {
                assert(wt.0[i] == pre[i]);
                assert(same_record(s, t, pre[i]));
                assert(slots(s)[i] == pre[i]);
            } else if i >= pre.len() + mid.len() {
                let q = suf[i - pre.len() - mid.len()];
                assert(wt.0[i] == q);
                assert(same_record(s, t, q));
                assert(slots(s)[k + 1 + (i - pre.len() - mid.len())] == q);
            } else {
                assert(wt.0[i] == mid[i - pre.len()]);
                if left >= 8 && i == pre.len() + 1 {
                    assert(name_len_at(t, off + need) == 0);
                    assert(entry_size(0) == 8);
                }
            }
        }
    }
}

/// Listing after an insertion that shrank the last record, at `off`, and
/// put the new entry after it.
#[verifier::rlimit(30)]
proof fn lemma_list_after_append(s: Seq<u8>, t: Seq<u8>, name: Seq<char>, ino: u32, ft: u8, k: int)
    requires
        dir_well_formed(s),
        dir_list(s) is Ok,
        encode_utf8(name).len() <= 255,
        ino != 0,
        0 <= k < slots(s).len(),
        slots(s)[k] + rec_len_at(s, slots(s)[k]) == 4096,
        rec_len_at(s, slots(s)[k]) >= entry_size(name_len_at(s, slots(s)[k])),
        slots(s)[k] + entry_size(name_len_at(s, slots(s)[k])) + 8 + encode_utf8(name).len() <= 4096,
        append_written(s, t, slots(s)[k], encode_utf8(name), ino, ft),
    ensures
        dir_list(t) == Ok::<Seq<(u32, Seq<char>)>, DirError>(
            dir_list(s)->Ok_0.insert(dir_list(s)->Ok_0.len() as int, (ino, name)),
        ),
        dir_well_formed(t),
        records_hold_entries(s) && rec_len_at(s, slots(s)[k]) - entry_size(
            name_len_at(s, slots(s)[k]),
        ) >= entry_size(encode_utf8(name).len() as int) ==> records_hold_entries(t),
{
    let nb = encode_utf8(name);
    let n = nb.len() as int;
    lemma_text_of_encoded(name);
    lemma_cut_at(s, k);
    let off = slots(s)[k];
    let rec = rec_len_at(s, off);
    let pre = slots(s).take(k);
    let suf = walk_from(s, off + rec).0;
    let a = live_entries(s, pre);
    let x = (ino, name);
    let nl = name_len_at(s, off);
    let last = entry_size(nl);
    let new_off = off + last;
    assert(8 + nl <= last);
    assert(suf =~= Seq::<int>::empty());
    assert(live_entries(s, suf) =~= Seq::<(u32, Seq<char>)>::empty());
    assert forall|i: int| 0 <= i < off implies s[i] == t[i] by {}
    lemma_walk_agree_prefix(s, t, 0, k);
    assert forall|i: int| 0 <= i < pre.len() implies same_record(s, t, #[trigger] pre[i]) by {
        assert(pre[i] == slots(s)[i]);
    }
    lemma_live_entries_same(s, t, pre);
    // the shrunk record keeps its entry
    assert(rec_len_at(t, off) == last);
    assert(inode_at(t, off) == inode_at(s, off));
    assert(name_len_at(t, off) == nl);
    if is_live(s, off) {
        assert(name_bytes_at(t, off) =~= name_bytes_at(s, off));
    }
    lemma_live_entries_one(s, off);
    lemma_live_entries_one(t, off);
    lemma_walk_step(t, off);
    // the new record takes the rest of the block
    assert(rec_len_at(t, new_off) == rec - last);
    assert(inode_at(t, new_off) == ino);
    assert(name_len_at(t, new_off) == n);
    assert(name_bytes_at(t, new_off) =~= nb);
    lemma_walk_step(t, new_off);
    assert(walk_from(t, 4096).0 =~= Seq::<int>::empty());
    lemma_live_entries_one(t, new_off);
    let mid = seq![off, new_off];
    assert(walk_from(t, off).0 =~= mid);
    let wt = walk_from(t, 0);
    assert(wt.0 =~= pre + mid);
    lemma_live_entries_concat(t, pre, mid);
    lemma_live_entries_concat(t, seq![off], seq![new_off]);
    assert(seq![off] + seq![new_off] =~= mid);
    assert(names_fit(t, wt.0)) by {
        assert forall|i: int| 0 <= i < wt.0.len() && is_live(t, wt.0[i]) implies name_fits(
            t,
            wt.0[i],
        ) by {
            if i < pre.len() {
                assert(wt.0[i] == pre[i]);
            } else {
                assert(wt.0[i] == mid[i - pre.len()]);
            }
        }
    }
    let v = dir_list(s)->Ok_0;
    assert(v =~= a + live_entries(s, seq![off]));
    assert(live_entries(t, wt.0) =~= v + seq![x]);
    assert(v.insert(v.len() as int, x) =~= v + seq![x]);
    assert forall|i: int| 0 <= i < slots(t).len() implies record_ok(t, #[trigger] slots(t)[i]) by {
        if i < pre.len() {
            assert(wt.0[i] == pre[i]);
            assert(same_record(s, t, pre[i]));
        } else {
            assert(wt.0[i] == mid[i - pre.len()]);
        }
    }
    if records_hold_entries(s) && rec - last >= entry_size(n) {
        assert forall|i: int| 0 <= i < slots(t).len() implies rec_len_at(t, #[trigger] slots(t)[i])
            >= entry_size(name_len_at(t, slots(t)[i])) by {
            if i < pre.len() {
                assert(wt.0[i] == pre[i]);
                assert(same_record(s, t, pre[i]));
                assert(slots(s)[i] == pre[i]);
            } else {
                assert(wt.0[i] == mid[i - pre.len()]);
            }
        }
    }
}

/// Inserting an entry into a well-formed directory block that lists without
/// error puts exactly that entry into the listing, at the place of the record
/// it took, and keeps every other entry in order; the block stays well formed,
/// and when every record was at least its rounded entry long, so is every
/// record after, provided an entry put after the last record has room for
/// its own rounded size.
pub proof fn lemma_list_after_insert(s: Seq<u8>, t: Seq<u8>, name: Seq<char>, ino: u32, ft: u8) -> (j: int)
    requires
        dir_well_formed(s),
        dir_list(s) is Ok,
        encode_utf8(name).len() <= 255,
        ino != 0,
        insert_status(s, encode_utf8(name).len() as int) == Ok::<bool, DirError>(true),
        inserted(s, t, encode_utf8(name), ino, ft),
    ensures
        0 <= j <= dir_list(s)->Ok_0.len(),
        dir_list(t) == Ok::<Seq<(u32, Seq<char>)>, DirError>(
            dir_list(s)->Ok_0.insert(j, (ino, name)),
        ),
        dir_well_formed(t),
        records_hold_entries(s) && (insert_spot(s, entry_size(encode_utf8(name).len() as int)) matches InsertSpot::Append(o)
            ==> rec_len_at(s, o) - entry_size(name_len_at(s, o)) >= entry_size(
            encode_utf8(name).len() as int,
        )) ==> records_hold_entries(t),
{
    let nb = encode_utf8(name);
    let need = entry_size(nb.len() as int);
    let w = walk_from(s, 0);
    let k = lemma_spot_index(s, w.0, w.1, need);
    lemma_cut_at(s, k);
    let pre = slots(s).take(k);
    let off = slots(s)[k];
    lemma_live_entries_one(s, off);
    match insert_spot(s, need) {
        InsertSpot::Reuse(o) => {
            lemma_list_after_reuse(s, t, name, ino, ft, k);
            live_entries(s, pre).len() as int
        },
        InsertSpot::Append(o) => {
            lemma_list_after_append(s, t, name, ino, ft, k);
            dir_list(s)->Ok_0.len() as int
        },
        _ => 0,
    }
}

} // verus!
