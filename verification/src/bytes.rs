//! Little-endian integers stored inside a disk block.

use vstd::prelude::*;

verus! {

/// Number of bytes in one disk block.
pub const BLOCK_SIZE: u64 = 4096;

/// One disk block.
pub type Block = [u8; 4096];

/// The unsigned 16-bit integer stored little-endian at `off`.
pub open spec fn u16_at(s: Seq<u8>, off: int) -> u16 {
    (s[off] as int + s[off + 1] as int * 0x100) as u16
}

/// The unsigned 32-bit integer stored little-endian at `off`.
pub open spec fn u32_at(s: Seq<u8>, off: int) -> u32 {
    (s[off] as int + s[off + 1] as int * 0x100 + s[off + 2] as int * 0x1_0000 + s[off + 3] as int
        * 0x100_0000) as u32
}

/// The unsigned 64-bit integer stored little-endian at `off`.
pub open spec fn u64_at(s: Seq<u8>, off: int) -> u64 {
    (u32_at(s, off) as int + u32_at(s, off + 4) as int * 0x1_0000_0000) as u64
}

/// `s` with the little-endian bytes of `v` stored at `off`.
pub open spec fn with_u16(s: Seq<u8>, off: int, v: u16) -> Seq<u8> {
    s.update(off, (v % 0x100) as u8).update(off + 1, (v / 0x100) as u8)
}

/// `s` with the little-endian bytes of `v` stored at `off`.
pub open spec fn with_u32(s: Seq<u8>, off: int, v: u32) -> Seq<u8> {
    s.update(off, (v % 0x100) as u8).update(off + 1, ((v / 0x100) % 0x100) as u8).update(
        off + 2,
        ((v / 0x1_0000) % 0x100) as u8,
    ).update(off + 3, (v / 0x100_0000) as u8)
}

/// `s` with the little-endian bytes of `v` stored at `off`.
pub open spec fn with_u64(s: Seq<u8>, off: int, v: u64) -> Seq<u8> {
    with_u32(
        with_u32(s, off, (v % 0x1_0000_0000) as u32),
        off + 4,
        (v / 0x1_0000_0000) as u32,
    )
}

/// Two sequences agree everywhere outside `[lo, hi)`.
pub open spec fn same_outside(a: Seq<u8>, b: Seq<u8>, lo: int, hi: int) -> bool {
    &&& a.len() == b.len()
    &&& forall|i: int| 0 <= i < a.len() && !(lo <= i < hi) ==> a[i] == b[i]
}

/// Reading back a 16-bit value gives what was stored, and nothing outside its two bytes changes.
pub proof fn lemma_u16_roundtrip(s: Seq<u8>, off: int, v: u16)
    requires
        0 <= off,
        off + 2 <= s.len(),
    ensures
        u16_at(with_u16(s, off, v), off) == v,
        with_u16(s, off, v).len() == s.len(),
        same_outside(s, with_u16(s, off, v), off, off + 2),
{
    let t = with_u16(s, off, v);
    assert(t[off] == v % 0x100);
    assert(t[off + 1] == v / 0x100);
}

/// Reading back a 32-bit value gives what was stored, and nothing outside its four bytes changes.
pub proof fn lemma_u32_roundtrip(s: Seq<u8>, off: int, v: u32)
    requires
        0 <= off,
        off + 4 <= s.len(),
    ensures
        u32_at(with_u32(s, off, v), off) == v,
        with_u32(s, off, v).len() == s.len(),
        same_outside(s, with_u32(s, off, v), off, off + 4),
{
    let t = with_u32(s, off, v);
    assert(t[off] == v % 0x100);
    assert(t[off + 1] == (v / 0x100) % 0x100);
    assert(t[off + 2] == (v / 0x1_0000) % 0x100);
    assert(t[off + 3] == v / 0x100_0000);
}

/// Reading back a 64-bit value gives what was stored, and nothing outside its eight bytes changes.
pub proof fn lemma_u64_roundtrip(s: Seq<u8>, off: int, v: u64)
    requires
        0 <= off,
        off + 8 <= s.len(),
    ensures
        u64_at(with_u64(s, off, v), off) == v,
        with_u64(s, off, v).len() == s.len(),
        same_outside(s, with_u64(s, off, v), off, off + 8),
{
    let lo = (v % 0x1_0000_0000) as u32;
    let hi = (v / 0x1_0000_0000) as u32;
    let s1 = with_u32(s, off, lo);
    lemma_u32_roundtrip(s, off, lo);
    lemma_u32_roundtrip(s1, off + 4, hi);
    let t = with_u32(s1, off + 4, hi);
    assert(u32_at(t, off) == u32_at(s1, off)) by {
        assert(t[off] == s1[off]);
        assert(t[off + 1] == s1[off + 1]);
        assert(t[off + 2] == s1[off + 2]);
        assert(t[off + 3] == s1[off + 3]);
    }
}

/// Two places that store the same 16-bit value hold the same two bytes.
pub proof fn lemma_u16_bytes_equal(s: Seq<u8>, t: Seq<u8>, off: int)
    requires
        0 <= off,
        off + 2 <= s.len(),
        off + 2 <= t.len(),
        u16_at(s, off) == u16_at(t, off),
    ensures
        s[off] == t[off],
        s[off + 1] == t[off + 1],
{
    let a0 = s[off];
    let a1 = s[off + 1];
    let c0 = t[off];
    let c1 = t[off + 1];
    assert(((a0 as int + a1 as int * 0x100) as u16 == (c0 as int + c1 as int * 0x100) as u16) ==> (
    a0 == c0 && a1 == c1)) by (bit_vector);
}

/// Two places that store the same 32-bit value hold the same four bytes.
pub proof fn lemma_u32_bytes_equal(s: Seq<u8>, t: Seq<u8>, off: int)
    requires
        0 <= off,
        off + 4 <= s.len(),
        off + 4 <= t.len(),
        u32_at(s, off) == u32_at(t, off),
    ensures
        s[off] == t[off],
        s[off + 1] == t[off + 1],
        s[off + 2] == t[off + 2],
        s[off + 3] == t[off + 3],
{
    let a0 = s[off];
    let a1 = s[off + 1];
    let a2 = s[off + 2];
    let a3 = s[off + 3];
    let c0 = t[off];
    let c1 = t[off + 1];
    let c2 = t[off + 2];
    let c3 = t[off + 3];
    assert(((a0 as int + a1 as int * 0x100 + a2 as int * 0x1_0000 + a3 as int * 0x100_0000) as u32
        == (c0 as int + c1 as int * 0x100 + c2 as int * 0x1_0000 + c3 as int * 0x100_0000) as u32)
        ==> (a0 == c0 && a1 == c1 && a2 == c2 && a3 == c3)) by (bit_vector);
}

/// Two places that store the same 64-bit value hold the same eight bytes.
pub proof fn lemma_u64_bytes_equal(s: Seq<u8>, t: Seq<u8>, off: int)
    requires
        0 <= off,
        off + 8 <= s.len(),
        off + 8 <= t.len(),
        u64_at(s, off) == u64_at(t, off),
    ensures
        forall|i: int| off <= i < off + 8 ==> s[i] == t[i],
{
    let x0 = u32_at(s, off);
    let x1 = u32_at(s, off + 4);
    let y0 = u32_at(t, off);
    let y1 = u32_at(t, off + 4);
    assert(((x0 as int + x1 as int * 0x1_0000_0000) as u64 == (y0 as int + y1 as int
        * 0x1_0000_0000) as u64) ==> (x0 == y0 && x1 == y1)) by (bit_vector);
    lemma_u32_bytes_equal(s, t, off);
    lemma_u32_bytes_equal(s, t, off + 4);
}

/// Reads the 16-bit little-endian value at `off`.
pub fn get_u16(b: &Block, off: usize) -> (r: u16)
    requires
        off + 2 <= 4096,
    ensures
        r == u16_at(b@, off as int),
{
    b[off] as u16 + (b[off + 1] as u16) * 0x100
}

/// Reads the 32-bit little-endian value at `off`.
pub fn get_u32(b: &Block, off: usize) -> (r: u32)
    requires
        off + 4 <= 4096,
    ensures
        r == u32_at(b@, off as int),
{
    b[off] as u32 + (b[off + 1] as u32) * 0x100 + (b[off + 2] as u32) * 0x1_0000 + (b[off
        + 3] as u32) * 0x100_0000
}

/// Reads the 64-bit little-endian value at `off`.
pub fn get_u64(b: &Block, off: usize) -> (r: u64)
    requires
        off + 8 <= 4096,
    ensures
        r == u64_at(b@, off as int),
{
    let lo = get_u32(b, off);
    let hi = get_u32(b, off + 4);
    lo as u64 + (hi as u64) * 0x1_0000_0000
}

/// Stores `v` little-endian at `off`.
pub fn put_u16(b: &mut Block, off: usize, v: u16)
    requires
        off + 2 <= 4096,
    ensures
        final(b)@ == with_u16(old(b)@, off as int, v),
{
    b[off] = (v % 0x100) as u8;
    b[off + 1] = (v / 0x100) as u8;
}

/// Stores `v` little-endian at `off`.
pub fn put_u32(b: &mut Block, off: usize, v: u32)
    requires
        off + 4 <= 4096,
    ensures
        final(b)@ == with_u32(old(b)@, off as int, v),
{
    b[off] = (v % 0x100) as u8;
    b[off + 1] = ((v / 0x100) % 0x100) as u8;
    b[off + 2] = ((v / 0x1_0000) % 0x100) as u8;
    b[off + 3] = (v / 0x100_0000) as u8;
}

/// Stores `v` little-endian at `off`.
pub fn put_u64(b: &mut Block, off: usize, v: u64)
    requires
        off + 8 <= 4096,
    ensures
        final(b)@ == with_u64(old(b)@, off as int, v),
{
    put_u32(b, off, (v % 0x1_0000_0000) as u32);
    put_u32(b, off + 4, (v / 0x1_0000_0000) as u32);
}

} // verus!

verus! {

/// `s` with `data` stored from `at` on.
pub open spec fn with_bytes(s: Seq<u8>, at: int, data: Seq<u8>) -> Seq<u8> {
    s.subrange(0, at) + data + s.subrange(at + data.len(), s.len() as int)
}

/// A block that holds `data` at `at` and agrees with `s` elsewhere is `with_bytes(s, at, data)`.
pub proof fn lemma_with_bytes(s: Seq<u8>, t: Seq<u8>, at: int, data: Seq<u8>)
    requires
        0 <= at,
        at + data.len() <= s.len(),
        t.subrange(at, at + data.len()) == data,
        same_outside(s, t, at, at + data.len()),
    ensures
        t == with_bytes(s, at, data),
{
    assert forall|i: int| 0 <= i < t.len() implies t[i] == with_bytes(s, at, data)[i] by {
        if at <= i < at + data.len() {
            assert(t.subrange(at, at + data.len())[i - at] == data[i - at]);
        }
    }
    assert(t =~= with_bytes(s, at, data));
}

/// Copies `data` into the block starting at `at`, changing nothing else.
pub fn copy_into(b: &mut Block, at: usize, data: &[u8])
    requires
        at + data@.len() <= 4096,
    ensures
        final(b)@.subrange(at as int, at + data@.len()) == data@,
        same_outside(old(b)@, final(b)@, at as int, at + data@.len()),
{
    let mut i: usize = 0;
    while i < data.len()
        invariant
            0 <= i <= data@.len(),
            at + data@.len() <= 4096,
            forall|j: int| 0 <= j < i ==> b@[at + j] == data@[j],
            same_outside(old(b)@, b@, at as int, at + data@.len()),
        decreases data@.len() - i,
    {
        b[at + i] = data[i];
        i = i + 1;
    }
    assert(b@.subrange(at as int, at + data@.len()) =~= data@);
}

} // verus!
