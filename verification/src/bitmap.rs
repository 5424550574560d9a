//! Allocation bitmaps: one block whose 32768 bits say which inodes or data
//! blocks are in use. Bit `n` is bit `n % 8` of byte `n / 8`.

use vstd::prelude::*;
use crate::bytes::Block;

verus! {

/// Number of bits one bitmap block tracks.
pub const BITS_PER_BITMAP: u64 = 32768;

/// Bit `i` (counted from the least significant) of the byte `b` is set.
pub open spec fn bit_set(b: u8, i: u8) -> bool {
    (b >> i) & 1u8 == 1u8
}

/// The bit for item `n` in the bitmap bytes `s`.
pub open spec fn used_in(s: Seq<u8>, n: int) -> bool {
    bit_set(s[n / 8], (n % 8) as u8)
}

/// Which of the tracked items are in use.
pub open spec fn bits_of(s: Seq<u8>) -> Seq<bool> {
    Seq::new(BITS_PER_BITMAP as nat, |n: int| used_in(s, n))
}

/// The lowest item at or above `i` that is free, if any.
pub open spec fn first_free_from(bits: Seq<bool>, i: int) -> Option<int>
    decreases bits.len() - i,
{
    if i < 0 || i >= bits.len() {
        None
    } else if !bits[i] {
        Some(i)
    } else {
        first_free_from(bits, i + 1)
    }
}

/// The lowest free item, if any.
pub open spec fn first_free(bits: Seq<bool>) -> Option<int> {
    first_free_from(bits, 0)
}

/// The bytes `s` with the bit of item `n` set.
pub open spec fn set_bit_bytes(s: Seq<u8>, n: u64) -> Seq<u8> {
    s.update((n / 8) as int, s[(n / 8) as int] | (1u8 << ((n % 8) as u8)))
}

/// The bytes `s` with the bit of item `n` cleared.
pub open spec fn clear_bit_bytes(s: Seq<u8>, n: u64) -> Seq<u8> {
    s.update((n / 8) as int, s[(n / 8) as int] & !(1u8 << ((n % 8) as u8)))
}

/// What allocating from the bitmap bytes `s` gives: the lowest free item and
/// the bytes with its bit set, or `None` when every item is in use.
pub open spec fn bitmap_alloc(s: Seq<u8>) -> Option<(u64, Seq<u8>)> {
    match first_free(bits_of(s)) {
        Some(n) => Some((n as u64, set_bit_bytes(s, n as u64))),
        None => None,
    }
}

/// The first free item from `i` on is a free item at or above `i`.
pub proof fn lemma_first_free_bounds(bits: Seq<bool>, i: int)
    ensures
        match first_free_from(bits, i) {
            Some(n) => 0 <= i <= n < bits.len() && !bits[n],
            None => true,
        },
    decreases bits.len() - i,
{
    if 0 <= i < bits.len() && bits[i] {
        lemma_first_free_bounds(bits, i + 1);
    }
}

/// An item that is free, with every item below it in use, is the first free one.
proof fn lemma_first_free_is(bits: Seq<bool>, i: int, n: int)
    requires
        0 <= i <= n < bits.len(),
        !bits[n],
        forall|m: int| i <= m < n ==> bits[m],
    ensures
        first_free_from(bits, i) == Some(n),
    decreases n - i,
{
    if i < n {
        lemma_first_free_is(bits, i + 1, n);
    }
}

/// With every item from `i` on in use, no item is free from `i` on.
proof fn lemma_first_free_none(bits: Seq<bool>, i: int)
    requires
        0 <= i,
        forall|m: int| i <= m < bits.len() ==> bits[m],
    ensures
        first_free_from(bits, i) is None,
    decreases bits.len() - i,
{
    if i < bits.len() {
        lemma_first_free_none(bits, i + 1);
    }
}

/// One bitmap block.
pub struct Bitmap {
    data: [u8; 4096],
}

impl View for Bitmap {
    type V = Seq<bool>;

    closed spec fn view(&self) -> Seq<bool> {
        bits_of(self.data@)
    }
}

/// Setting bit `i` of a byte sets that bit and keeps the seven others.
proof fn lemma_set_bit(b: u8, i: u8, j: u8)
    requires
        i < 8,
        j < 8,
    ensures
        bit_set(b | (1u8 << i), i),
        j != i ==> bit_set(b | (1u8 << i), j) == bit_set(b, j),
{
    assert(((b | (1u8 << i)) >> i) & 1u8 == 1u8) by (bit_vector)
        requires
            i < 8,
    ;
    assert(j != i ==> ((b | (1u8 << i)) >> j) & 1u8 == (b >> j) & 1u8) by (bit_vector)
        requires
            i < 8,
            j < 8,
    ;
}

/// Clearing bit `i` of a byte clears that bit and keeps the seven others.
proof fn lemma_clear_bit(b: u8, i: u8, j: u8)
    requires
        i < 8,
        j < 8,
    ensures
        !bit_set(b & !(1u8 << i), i),
        j != i ==> bit_set(b & !(1u8 << i), j) == bit_set(b, j),
{
    assert(((b & !(1u8 << i)) >> i) & 1u8 == 0u8) by (bit_vector)
        requires
            i < 8,
    ;
    assert(j != i ==> ((b & !(1u8 << i)) >> j) & 1u8 == (b >> j) & 1u8) by (bit_vector)
        requires
            i < 8,
            j < 8,
    ;
}

/// A byte with every bit set is 0xff.
proof fn lemma_full_byte(b: u8)
    requires
        b == 0xffu8,
    ensures
        forall|j: u8| j < 8 ==> #[trigger] bit_set(b, j),
{
    assert forall|j: u8| j < 8 implies #[trigger] bit_set(b, j) by {
        assert(((0xffu8 >> j) & 1u8) == 1u8) by (bit_vector)
            requires
                j < 8,
        ;
    }
}

/// Two byte arrays whose bytes differ only at `k` have the same bits outside byte `k`.
proof fn lemma_bits_update(s: Seq<u8>, t: Seq<u8>, k: int, i: u8, set: bool)
    requires
        s.len() == 4096,
        t == s.update(k, if set { s[k] | (1u8 << i) } else { s[k] & !(1u8 << i) }),
        0 <= k < 4096,
        i < 8,
    ensures
        bits_of(t) == bits_of(s).update(k * 8 + i, set),
{
    assert forall|n: int| 0 <= n < BITS_PER_BITMAP implies #[trigger] bits_of(t)[n] == bits_of(
        s,
    ).update(k * 8 + i, set)[n] by {
        if n / 8 == k {
            let j = (n % 8) as u8;
            if set {
                lemma_set_bit(s[k], i, j);
            } else {
                lemma_clear_bit(s[k], i, j);
            }
        }
    }
    assert(bits_of(t) =~= bits_of(s).update(k * 8 + i, set));
}

impl Bitmap {
    /// The raw bytes of the bitmap block.
    pub closed spec fn bytes(&self) -> Seq<u8> {
        self.data@
    }

    /// The bits are those of the bytes.
    pub proof fn lemma_view_of_bytes(&self)
        ensures
            self@ == bits_of(self.bytes()),
            self.bytes().len() == 4096,
    {
    }

    /// The bitmap whose bytes are those of `block`.
    pub fn from_block(block: [u8; 4096]) -> (bm: Bitmap)
        ensures
            bm.bytes() == block@,
            bm@ == bits_of(block@),
    {
        Bitmap { data: block }
    }

    /// The bytes of the bitmap, as they go back to disk.
    pub fn to_block(&self) -> (block: [u8; 4096])
        ensures
            block@ == self.bytes(),
            bits_of(block@) == self@,
    {
        self.data
    }

    /// Marks the lowest free item as used and returns its number; `None` when
    /// every item is in use, in which case nothing changes.
    pub fn allocate(&mut self) -> (r: Option<u64>)
        ensures
            match r {
                Some(n) => {
                    &&& n < BITS_PER_BITMAP
                    &&& !old(self)@[n as int]
                    &&& forall|m: int| 0 <= m < n ==> old(self)@[m]
                    &&& final(self)@ == old(self)@.update(n as int, true)
                    &&& first_free(old(self)@) == Some(n as int)
                    &&& final(self).bytes() == set_bit_bytes(old(self).bytes(), n)
                },
                None => {
                    &&& forall|m: int| 0 <= m < BITS_PER_BITMAP ==> old(self)@[m]
                    &&& final(self)@ == old(self)@
                    &&& first_free(old(self)@) is None
                    &&& final(self).bytes() == old(self).bytes()
                },
            },
    {
        let mut byte_index: usize = 0;
        while byte_index < 4096
            invariant
                0 <= byte_index <= 4096,
                *self == *old(self),
                forall|m: int| 0 <= m < byte_index * 8 ==> #[trigger] self@[m],
            decreases 4096 - byte_index,
        {
            let byte = self.data[byte_index];
            if byte != 0xff {
                let mut bit_index: u8 = 0;
                while bit_index < 8
                    invariant
                        0 <= bit_index <= 8,
                        0 <= byte_index < 4096,
                        byte == self.data@[byte_index as int],
                        *self == *old(self),
                        forall|m: int| 0 <= m < byte_index * 8 ==> #[trigger] self@[m],
                        forall|j: u8| j < bit_index ==> #[trigger] bit_set(byte, j),
                    decreases 8 - bit_index,
                {
                    if (byte >> bit_index) & 1 == 0 {
                        let ghost before = self.data@;
                        self.data[byte_index] = byte | (1u8 << bit_index);
                        proof {
                            lemma_bits_update(before, self.data@, byte_index as int, bit_index, true);
                            assert forall|m: int| 0 <= m < byte_index * 8 + bit_index implies old(
                                self,
                            )@[m] by {
                                if m >= byte_index * 8 {
                                    let j = (m % 8) as u8;
                                    assert(bit_set(byte, j));
                                }
                            }
                            let n = (byte_index * 8 + bit_index as usize) as u64;
                            assert(n / 8 == byte_index && n % 8 == bit_index);
                            lemma_first_free_is(old(self)@, 0, n as int);
                        }
                        return Some((byte_index * 8 + bit_index as usize) as u64);
                    }
                    assert((byte >> bit_index) & 1u8 != 0u8 ==> (byte >> bit_index) & 1u8 == 1u8)
                        by (bit_vector);
                    bit_index = bit_index + 1;
                }
                proof {
                    assert forall|m: int| 0 <= m < byte_index * 8 + 8 implies #[trigger] self@[m] by {
                        if m >= byte_index * 8 {
                            let j = (m % 8) as u8;
                            assert(bit_set(byte, j));
                        }
                    }
                }
            } else {
                proof {
                    lemma_full_byte(byte);
                    assert forall|m: int| 0 <= m < byte_index * 8 + 8 implies #[trigger] self@[m] by {
                        if m >= byte_index * 8 {
                            let j = (m % 8) as u8;
                            assert(bit_set(byte, j));
                        }
                    }
                }
            }
            byte_index = byte_index + 1;
        }
        proof {
            lemma_first_free_none(old(self)@, 0);
        }
        None
    }

    /// Marks item `n` as free.
    pub fn free(&mut self, n: u64)
        requires
            n < BITS_PER_BITMAP,
        ensures
            final(self)@ == old(self)@.update(n as int, false),
            final(self).bytes() == clear_bit_bytes(old(self).bytes(), n),
    {
        let byte_index = (n / 8) as usize;
        let bit_index = (n % 8) as u8;
        let ghost before = self.data@;
        self.data[byte_index] = self.data[byte_index] & !(1u8 << bit_index);
        proof {
            lemma_bits_update(before, self.data@, byte_index as int, bit_index, false);
        }
    }

    /// Whether item `n` is marked as used.
    pub fn is_used(&self, n: u64) -> (r: bool)
        requires
            n < BITS_PER_BITMAP,
        ensures
            r == self@[n as int],
    {
        let byte_index = (n / 8) as usize;
        let bit_index = (n % 8) as u8;
        (self.data[byte_index] >> bit_index) & 1 == 1
    }
}

/// Freeing the item that an allocation just took gives back the bitmap as it
/// was before the allocation.
pub proof fn lemma_free_undoes_allocate(before: Seq<bool>, n: int)
    requires
        0 <= n < before.len(),
        !before[n],
    ensures
        before.update(n, true).update(n, false) == before,
{
    assert(before.update(n, true).update(n, false) =~= before);
}

/// Two allocations in a row return different items, the second above the
/// first, since each takes the lowest free item.
pub proof fn lemma_allocations_increase(v0: Seq<bool>, n1: int, n2: int)
    requires
        0 <= n1 < v0.len(),
        !v0[n1],
        forall|m: int| 0 <= m < n1 ==> v0[m],
        0 <= n2 < v0.len(),
        !v0.update(n1, true)[n2],
        forall|m: int| 0 <= m < n2 ==> v0.update(n1, true)[m],
    ensures
        n1 < n2,
{
    if n2 < n1 {
        assert(v0[n2]);
    }
}


/// An allocation sets exactly the bit of the item it takes, which was free.
pub proof fn lemma_alloc_sets_bit(s: Seq<u8>)
    requires
        s.len() == 4096,
        bitmap_alloc(s) is Some,
    ensures
        ({
            let (n, t) = bitmap_alloc(s)->Some_0;
            &&& n < BITS_PER_BITMAP
            &&& !bits_of(s)[n as int]
            &&& forall|m: int| 0 <= m < n ==> bits_of(s)[m]
            &&& bits_of(t) == bits_of(s).update(n as int, true)
        }),
{
    let n = first_free(bits_of(s))->Some_0;
    lemma_first_free_bounds(bits_of(s), 0);
    lemma_first_free_prefix(bits_of(s), 0);
    let k = n / 8;
    let i = (n % 8) as u8;
    lemma_bits_update(s, set_bit_bytes(s, n as u64), k, i, true);
    assert(k * 8 + i == n);
}

/// Every item below the first free one from `i` on, and at or above `i`, is used.
proof fn lemma_first_free_prefix(bits: Seq<bool>, i: int)
    requires
        0 <= i,
    ensures
        match first_free_from(bits, i) {
            Some(n) => forall|m: int| i <= m < n ==> bits[m],
            None => forall|m: int| i <= m < bits.len() ==> bits[m],
        },
    decreases bits.len() - i,
{
    if i < bits.len() && bits[i] {
        lemma_first_free_prefix(bits, i + 1);
    }
}


/// Clearing the bit of item `n` clears exactly that bit.
pub proof fn lemma_clear_bit_bytes(s: Seq<u8>, n: u64)
    requires
        s.len() == 4096,
        n < BITS_PER_BITMAP,
    ensures
        clear_bit_bytes(s, n).len() == 4096,
        bits_of(clear_bit_bytes(s, n)) == bits_of(s).update(n as int, false),
{
    let k = (n / 8) as int;
    let i = (n % 8) as u8;
    lemma_bits_update(s, clear_bit_bytes(s, n), k, i, false);
    assert(k * 8 + i == n);
}

} // verus!
