//! The free-space bitmap of block 0: one bit per block, least significant bit
//! first within each byte; a set bit marks an allocated block.

use vstd::prelude::*;
use crate::virtual_file_sys::block::{BLOCK_SIZE, NUM_BLOCKS};

verus! {

/// Whether bit `k` of `byte` is set.
pub open spec fn byte_bit(byte: u8, k: u8) -> bool {
    byte & (1u8 << k) != 0
}

/// Whether the bitmap marks block `n` as allocated.
pub open spec fn bit_is_set(bitmap: Seq<u8>, n: int) -> bool {
    byte_bit(bitmap[n / 8], (n % 8) as u8)
}

/// The bitmap with block `n` marked as allocated.
pub open spec fn set_bit(bitmap: Seq<u8>, n: int) -> Seq<u8> {
    bitmap.update(n / 8, bitmap[n / 8] | (1u8 << ((n % 8) as u8)))
}

/// The bitmap with block `n` marked as free.
pub open spec fn clear_bit(bitmap: Seq<u8>, n: int) -> Seq<u8> {
    bitmap.update(n / 8, bitmap[n / 8] & !(1u8 << ((n % 8) as u8)))
}

/// Whether block `n` exists and the bitmap marks it as free.
pub open spec fn is_free(bitmap: Seq<u8>, n: int) -> bool {
    0 <= n < NUM_BLOCKS && !bit_is_set(bitmap, n)
}

/// Whether `n` is the lowest free block.
pub open spec fn is_first_free(bitmap: Seq<u8>, n: int) -> bool {
    &&& is_free(bitmap, n)
    &&& forall|m: int| 0 <= m < n ==> #[trigger] bit_is_set(bitmap, m)
}

/// Whether any block is free.
pub open spec fn has_free(bitmap: Seq<u8>) -> bool {
    exists|n: int| #[trigger] is_free(bitmap, n)
}

/// The lowest free block, where there is one.
pub open spec fn first_free(bitmap: Seq<u8>) -> int {
    choose|n: int| is_first_free(bitmap, n)
}

/// The set of blocks that the bitmap marks as allocated.
pub open spec fn allocated(bitmap: Seq<u8>) -> Set<int> {
    Set::new(|n: int| 0 <= n < NUM_BLOCKS && bit_is_set(bitmap, n))
}

/// The bitmap of a new image: blocks 0 and 1 allocated, all others free.
pub open spec fn initial_bitmap() -> Seq<u8> {
    Seq::new(BLOCK_SIZE as nat, |i: int| if i == 0 { 3u8 } else { 0u8 })
}

proof fn lemma_byte_or(byte: u8, k: u8, j: u8)
    requires
        k < 8,
        j < 8,
    ensures
        byte_bit(byte | (1u8 << k), j) == (j == k || byte_bit(byte, j)),
{
    assert(((byte | (1u8 << k)) & (1u8 << j) != 0) == (j == k || (byte & (1u8 << j) != 0)))
        by (bit_vector)
        requires
            k < 8,
            j < 8,
    ;
}

proof fn lemma_byte_and_not(byte: u8, k: u8, j: u8)
    requires
        k < 8,
        j < 8,
    ensures
        byte_bit(byte & !(1u8 << k), j) == (j != k && byte_bit(byte, j)),
{
    assert(((byte & !(1u8 << k)) & (1u8 << j) != 0) == (j != k && (byte & (1u8 << j) != 0)))
        by (bit_vector)
        requires
            k < 8,
            j < 8,
    ;
}

proof fn lemma_byte_full(byte: u8)
    requires
        forall|k: u8| k < 8 ==> #[trigger] byte_bit(byte, k),
    ensures
        byte == 0xFFu8,
{
    assert(byte_bit(byte, 0) && byte_bit(byte, 1) && byte_bit(byte, 2) && byte_bit(byte, 3));
    assert(byte_bit(byte, 4) && byte_bit(byte, 5) && byte_bit(byte, 6) && byte_bit(byte, 7));
    assert((byte & (1u8 << 0u8) != 0 && byte & (1u8 << 1u8) != 0 && byte & (1u8 << 2u8) != 0 && byte
        & (1u8 << 3u8) != 0 && byte & (1u8 << 4u8) != 0 && byte & (1u8 << 5u8) != 0 && byte & (1u8
        << 6u8) != 0 && byte & (1u8 << 7u8) != 0) ==> byte == 0xFFu8) by (bit_vector);
}

proof fn lemma_byte_ext(a: u8, b: u8)
    requires
        forall|k: u8| k < 8 ==> #[trigger] byte_bit(a, k) == byte_bit(b, k),
    ensures
        a == b,
{
    assert(byte_bit(a, 0) == byte_bit(b, 0) && byte_bit(a, 1) == byte_bit(b, 1));
    assert(byte_bit(a, 2) == byte_bit(b, 2) && byte_bit(a, 3) == byte_bit(b, 3));
    assert(byte_bit(a, 4) == byte_bit(b, 4) && byte_bit(a, 5) == byte_bit(b, 5));
    assert(byte_bit(a, 6) == byte_bit(b, 6) && byte_bit(a, 7) == byte_bit(b, 7));
    assert(((a & (1u8 << 0u8) != 0) == (b & (1u8 << 0u8) != 0) && (a & (1u8 << 1u8) != 0) == (b & (
    1u8 << 1u8) != 0) && (a & (1u8 << 2u8) != 0) == (b & (1u8 << 2u8) != 0) && (a & (1u8 << 3u8)
        != 0) == (b & (1u8 << 3u8) != 0) && (a & (1u8 << 4u8) != 0) == (b & (1u8 << 4u8) != 0) && (a
        & (1u8 << 5u8) != 0) == (b & (1u8 << 5u8) != 0) && (a & (1u8 << 6u8) != 0) == (b & (1u8
        << 6u8) != 0) && (a & (1u8 << 7u8) != 0) == (b & (1u8 << 7u8) != 0)) ==> a == b)
        by (bit_vector);
}

/// Marking block `n` sets its bit and no other.
pub proof fn lemma_set_bit(bitmap: Seq<u8>, n: int, m: int)
    requires
        bitmap.len() == BLOCK_SIZE,
        0 <= n < NUM_BLOCKS,
        0 <= m < NUM_BLOCKS,
    ensures
        set_bit(bitmap, n).len() == BLOCK_SIZE,
        bit_is_set(set_bit(bitmap, n), m) == (m == n || bit_is_set(bitmap, m)),
{
    if m / 8 == n / 8 {
        lemma_byte_or(bitmap[n / 8], (n % 8) as u8, (m % 8) as u8);
    }
}

/// Freeing block `n` clears its bit and no other.
pub proof fn lemma_clear_bit(bitmap: Seq<u8>, n: int, m: int)
    requires
        bitmap.len() == BLOCK_SIZE,
        0 <= n < NUM_BLOCKS,
        0 <= m < NUM_BLOCKS,
    ensures
        clear_bit(bitmap, n).len() == BLOCK_SIZE,
        bit_is_set(clear_bit(bitmap, n), m) == (m != n && bit_is_set(bitmap, m)),
{
    if m / 8 == n / 8 {
        lemma_byte_and_not(bitmap[n / 8], (n % 8) as u8, (m % 8) as u8);
    }
}

/// Two bitmaps that mark the same blocks are the same bytes.
pub proof fn lemma_bitmap_ext(a: Seq<u8>, b: Seq<u8>)
    requires
        a.len() == BLOCK_SIZE,
        b.len() == BLOCK_SIZE,
        forall|n: int| 0 <= n < NUM_BLOCKS ==> bit_is_set(a, n) == bit_is_set(b, n),
    ensures
        a == b,
{
    assert forall|i: int| 0 <= i < BLOCK_SIZE implies a[i] == b[i] by {
        assert forall|k: u8| k < 8 implies #[trigger] byte_bit(a[i], k) == byte_bit(b[i], k) by {
            let n = 8 * i + k;
            assert(n / 8 == i && n % 8 == k);
            assert(bit_is_set(a, n) == bit_is_set(b, n));
        }
        lemma_byte_ext(a[i], b[i]);
    }
    assert(a =~= b);
}

/// The set of allocated blocks after marking one more.
pub proof fn lemma_allocated_set(bitmap: Seq<u8>, n: int)
    requires
        bitmap.len() == BLOCK_SIZE,
        0 <= n < NUM_BLOCKS,
    ensures
        allocated(set_bit(bitmap, n)) == allocated(bitmap).insert(n),
{
    assert forall|m: int| allocated(set_bit(bitmap, n)).contains(m) == allocated(bitmap).insert(
        n,
    ).contains(m) by {
        if 0 <= m < NUM_BLOCKS {
            lemma_set_bit(bitmap, n, m);
        }
    }
    assert(allocated(set_bit(bitmap, n)) =~= allocated(bitmap).insert(n));
}

/// The set of allocated blocks after freeing one.
pub proof fn lemma_allocated_clear(bitmap: Seq<u8>, n: int)
    requires
        bitmap.len() == BLOCK_SIZE,
        0 <= n < NUM_BLOCKS,
    ensures
        allocated(clear_bit(bitmap, n)) == allocated(bitmap).remove(n),
{
    assert forall|m: int| allocated(clear_bit(bitmap, n)).contains(m) == allocated(bitmap).remove(
        n,
    ).contains(m) by {
        if 0 <= m < NUM_BLOCKS {
            lemma_clear_bit(bitmap, n, m);
        }
    }
    assert(allocated(clear_bit(bitmap, n)) =~= allocated(bitmap).remove(n));
}

/// Freeing a block that was just taken from the free ones restores the bitmap.
pub proof fn lemma_clear_after_set(bitmap: Seq<u8>, n: int)
    requires
        bitmap.len() == BLOCK_SIZE,
        is_free(bitmap, n),
    ensures
        clear_bit(set_bit(bitmap, n), n) == bitmap,
{
    let s = set_bit(bitmap, n);
    let c = clear_bit(s, n);
    assert forall|m: int| 0 <= m < NUM_BLOCKS implies bit_is_set(c, m) == bit_is_set(bitmap, m) by {
        lemma_set_bit(bitmap, n, m);
        lemma_clear_bit(s, n, m);
    }
    lemma_set_bit(bitmap, n, n);
    lemma_clear_bit(s, n, n);
    lemma_bitmap_ext(c, bitmap);
}

/// The lowest free block is unique.
pub proof fn lemma_first_free_unique(bitmap: Seq<u8>, n: int)
    requires
        is_first_free(bitmap, n),
    ensures
        has_free(bitmap),
        first_free(bitmap) == n,
{
    assert(is_free(bitmap, n));
    let f = first_free(bitmap);
    assert(is_first_free(bitmap, f));
    if f < n {
        assert(bit_is_set(bitmap, f));
    } else if n < f {
        assert(bit_is_set(bitmap, n));
    }
}

/// In the bitmap of a new image exactly blocks 0 and 1 are allocated.
pub proof fn lemma_initial_bitmap()
    ensures
        allocated(initial_bitmap()) == set![0int, 1int],
        initial_bitmap().len() == BLOCK_SIZE,
{
    let b = initial_bitmap();
    assert(byte_bit(3u8, 0) && byte_bit(3u8, 1)) by (bit_vector);
    assert(forall|k: u8| 2 <= k < 8 ==> !#[trigger] byte_bit(3u8, k)) by (bit_vector);
    assert(forall|k: u8| k < 8 ==> !#[trigger] byte_bit(0u8, k)) by (bit_vector);
    assert forall|n: int| allocated(b).contains(n) == set![0int, 1int].contains(n) by {
        if 0 <= n < NUM_BLOCKS {
            let k = (n % 8) as u8;
            assert(k < 8);
            if n / 8 == 0 {
                assert(b[n / 8] == 3u8);
                assert(n == k);
            } else {
                assert(b[n / 8] == 0u8);
                assert(!byte_bit(0u8, k));
            }
        }
    }
    assert(allocated(b) =~= set![0int, 1int]);
}

/// Looks for the lowest free block: scans the bitmap byte by byte, and a byte
/// that is not full bit by bit from the least significant one.
pub(crate) fn find_free(bitmap: &Vec<u8>) -> (r: Option<usize>)
    requires
        bitmap@.len() == BLOCK_SIZE,
    ensures
        match r {
            Some(n) => is_first_free(bitmap@, n as int),
            None => !has_free(bitmap@),
        },
{
    let mut byte: usize = 0;
    while byte < BLOCK_SIZE
        invariant
            byte <= BLOCK_SIZE,
            bitmap@.len() == BLOCK_SIZE,
            forall|m: int| 0 <= m < 8 * byte ==> #[trigger] bit_is_set(bitmap@, m),
        decreases BLOCK_SIZE - byte,
    {
        let b: u8 = bitmap[byte];
        if b != 0xFF {
            let mut bit: u8 = 0;
            while bit < 8
                invariant
                    bit <= 8,
                    byte < BLOCK_SIZE,
                    bitmap@.len() == BLOCK_SIZE,
                    b == bitmap@[byte as int],
                    b != 0xFF,
                    forall|m: int| 0 <= m < 8 * byte ==> #[trigger] bit_is_set(bitmap@, m),
                    forall|k: u8| k < bit ==> #[trigger] byte_bit(b, k),
                decreases 8 - bit,
            {
                let mask: u8 = 1u8 << bit;
                if b & mask == 0 {
                    let n: usize = byte * 8 + bit as usize;
                    proof {
                        assert(n as int / 8 == byte && n as int % 8 == bit);
                        assert(!bit_is_set(bitmap@, n as int));
                        assert forall|m: int| 0 <= m < n implies #[trigger] bit_is_set(bitmap@, m) by {
                            if m >= 8 * byte {
                                let k = (m % 8) as u8;
                                assert(m / 8 == byte && k < bit);
                                assert(byte_bit(b, k));
                            }
                        }
                    }
                    return Some(n);
                }
                bit += 1;
            }
            proof {
                lemma_byte_full(b);
            }
        }
        proof {
            assert forall|m: int| 0 <= m < 8 * (byte + 1) implies #[trigger] bit_is_set(bitmap@, m) by {
                if m >= 8 * byte {
                    let k = (m % 8) as u8;
                    assert(m / 8 == byte && k < 8);
                    assert(byte_bit(0xFFu8, k)) by (bit_vector)
                        requires
                            k < 8,
                    ;
                }
            }
        }
        byte += 1;
    }
    proof {
        assert forall|n: int| !#[trigger] is_free(bitmap@, n) by {
            if 0 <= n < NUM_BLOCKS {
                assert(bit_is_set(bitmap@, n));
            }
        }
    }
    None
}

} // verus!
