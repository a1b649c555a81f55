//! What taking blocks, writing chunks and filling slots come to: the facts
//! about `taken`, `with_chunks` and `with_refs` that the laws of `append`
//! rest on.

use vstd::prelude::*;
use crate::virtual_file_sys::bitmap::{bit_is_set, first_free, is_free, lemma_set_bit};
use crate::virtual_file_sys::block::{BLOCK_SIZE, NUM_BLOCKS};
use crate::virtual_file_sys::consistency::{count_refs, packed};
use crate::virtual_file_sys::disk::image_wf;
use crate::virtual_file_sys::growth::{
    blocks_for, can_take, chunk, free_slots, lemma_first_free_is_free, taken, taken_ids,
    with_chunks, with_refs,
};
use crate::virtual_file_sys::inode::{first_at, is_first_at, lemma_first_at, used_refs};
use crate::virtual_file_sys::record::padded;

verus! {

/// Whether no block stands twice in the list.
pub open spec fn ids_distinct(ids: Seq<usize>) -> bool {
    forall|i: int, j: int| 0 <= i < j < ids.len() ==> #[trigger] ids[i] != #[trigger] ids[j]
}

/// The blocks that are taken were free, are different from each other, and
/// are the only ones that the bitmap marks in addition.
pub proof fn lemma_taken_bits(bitmap: Seq<u8>, k: nat)
    requires
        bitmap.len() == BLOCK_SIZE,
        can_take(bitmap, k),
    ensures
        taken(bitmap, k).len() == BLOCK_SIZE,
        taken_ids(bitmap, k).len() == k,
        ids_distinct(taken_ids(bitmap, k)),
        forall|j: int| 0 <= j < k ==> is_free(bitmap, #[trigger] taken_ids(bitmap, k)[j] as int),
        forall|n: int|
            0 <= n < NUM_BLOCKS ==> #[trigger] bit_is_set(taken(bitmap, k), n) == (bit_is_set(bitmap, n)
                || taken_ids(bitmap, k).contains(n as usize)),
    decreases k,
{
    if k > 0 {
        let before = taken(bitmap, (k - 1) as nat);
        let front = taken_ids(bitmap, (k - 1) as nat);
        let ids = taken_ids(bitmap, k);
        lemma_taken_bits(bitmap, (k - 1) as nat);
        lemma_first_free_is_free(before);
        let id = first_free(before);
        assert(ids[k - 1] == id as usize);
        assert(!bit_is_set(before, id));
        assert(!front.contains(id as usize));
        assert forall|j: int| 0 <= j < k implies is_free(bitmap, #[trigger] ids[j] as int) by {
            if j < k - 1 {
                assert(ids[j] == front[j]);
            }
        }
        assert forall|i: int, j: int| 0 <= i < j < ids.len() implies #[trigger] ids[i] != #[trigger] ids[j] by {
            assert(ids[i] == front[i]);
            if j < k - 1 {
                assert(ids[j] == front[j]);
            }
        }
        assert forall|n: int| 0 <= n < NUM_BLOCKS implies #[trigger] bit_is_set(taken(bitmap, k), n) == (
        bit_is_set(bitmap, n) || ids.contains(n as usize)) by {
            lemma_set_bit(before, id, n);
            if front.contains(n as usize) {
                let j = choose|j: int| 0 <= j < front.len() && front[j] == n as usize;
                assert(ids[j] == n as usize);
            }
            if ids.contains(n as usize) {
                let j = choose|j: int| 0 <= j < ids.len() && ids[j] == n as usize;
                if j < k - 1 {
                    assert(front[j] == n as usize);
                }
            }
        }
        lemma_set_bit(before, id, id);
    }
}

/// Writing chunks to different blocks of the image changes those blocks and
/// no others: block `ids[j]` holds chunk `j`, padded with zeros.
pub proof fn lemma_with_chunks(image: Seq<Seq<u8>>, ids: Seq<usize>, bytes: Seq<u8>)
    requires
        image_wf(image),
        ids_distinct(ids),
        forall|j: int| 0 <= j < ids.len() ==> ids[j] < NUM_BLOCKS,
        ids.len() > 0 ==> (ids.len() - 1) * BLOCK_SIZE <= bytes.len(),
    ensures
        image_wf(with_chunks(image, ids, bytes)),
        forall|j: int|
            0 <= j < ids.len() ==> #[trigger] with_chunks(image, ids, bytes)[ids[j] as int] == padded(
                chunk(bytes, j),
            ),
        forall|n: int|
            0 <= n < NUM_BLOCKS && !ids.contains(n as usize) ==> #[trigger] with_chunks(image, ids, bytes)[n]
                == image[n],
    decreases ids.len(),
{
    if ids.len() > 0 {
        let front = ids.drop_last();
        let last = ids.len() - 1;
        let before = with_chunks(image, front, bytes);
        let after = with_chunks(image, ids, bytes);
        assert forall|i: int, j: int| 0 <= i < j < front.len() implies #[trigger] front[i] != #[trigger] front[j] by {
            assert(ids[i] != ids[j]);
        }
        lemma_with_chunks(image, front, bytes);
        lemma_padded_chunk_len(bytes, last);
        assert forall|j: int| 0 <= j < ids.len() implies #[trigger] after[ids[j] as int] == padded(
            chunk(bytes, j),
        ) by {
            if j < last {
                assert(ids[j] != ids[last]);
                assert(front[j] == ids[j]);
                assert(before[front[j] as int] == padded(chunk(bytes, j)));
            }
        }
        assert forall|n: int| 0 <= n < NUM_BLOCKS && !ids.contains(n as usize) implies #[trigger] after[n]
            == image[n] by {
            assert(ids[last] != n as usize);
            if front.contains(n as usize) {
                let j = choose|j: int| 0 <= j < front.len() && front[j] == n as usize;
                assert(ids[j] == n as usize);
            }
        }
        assert(image_wf(after));
    }
}

/// A chunk, padded with zeros, is one block long.
pub proof fn lemma_padded_chunk_len(bytes: Seq<u8>, j: int)
    requires
        0 <= j,
        j * BLOCK_SIZE <= bytes.len(),
    ensures
        padded(chunk(bytes, j)).len() == BLOCK_SIZE,
        (j + 1) * BLOCK_SIZE <= bytes.len() ==> padded(chunk(bytes, j)) == chunk(bytes, j),
        chunk(bytes, j).len() == (if (j + 1) * BLOCK_SIZE <= bytes.len() {
            BLOCK_SIZE as int
        } else {
            bytes.len() - j * BLOCK_SIZE
        }),
{
    if (j + 1) * BLOCK_SIZE <= bytes.len() {
        assert(padded(chunk(bytes, j)) =~= chunk(bytes, j));
    }
}

/// Slots of which the first `m` are in use and the others are not are
/// packed, and the slots in use are the first `m`.
pub proof fn lemma_shape_packed(blocks: Seq<u16>, m: int)
    requires
        0 <= m <= blocks.len(),
        forall|i: int| 0 <= i < m ==> blocks[i] != 0,
        forall|i: int| m <= i < blocks.len() ==> blocks[i] == 0,
    ensures
        packed(blocks),
        count_refs(blocks) == m,
        used_refs(blocks) == blocks.take(m),
        free_slots(blocks) == blocks.len() - m,
    decreases blocks.len(),
{
    if blocks.len() > 0 {
        let front = blocks.drop_last();
        if m == blocks.len() {
            lemma_shape_packed(front, m - 1);
            assert(blocks.take(m) =~= front.take(m - 1).push(blocks.last()));
        } else {
            lemma_shape_packed(front, m);
            assert(blocks.take(m) =~= front.take(m));
        }
    } else {
        assert(blocks.take(m) =~= Seq::<u16>::empty());
    }
}

/// Of packed slots the first ones are in use and the others are not.
pub proof fn lemma_packed_shape(blocks: Seq<u16>)
    requires
        packed(blocks),
    ensures
        count_refs(blocks) <= blocks.len(),
        forall|i: int| 0 <= i < count_refs(blocks) ==> blocks[i] != 0,
        forall|i: int| count_refs(blocks) <= i < blocks.len() ==> blocks[i] == 0,
        used_refs(blocks) == blocks.take(count_refs(blocks) as int),
        free_slots(blocks) == blocks.len() - count_refs(blocks),
    decreases blocks.len(),
{
    if blocks.len() > 0 {
        let front = blocks.drop_last();
        assert(packed(front)) by {
            assert forall|i: int, j: int| 0 <= i < j < front.len() && #[trigger] front[i] == 0 implies #[trigger] front[j]
                == 0 by {
                assert(blocks[i] == 0);
                assert(blocks[j] == 0);
            }
        }
        lemma_packed_shape(front);
        let c = count_refs(front) as int;
        if blocks.last() != 0 {
            if c < front.len() {
                assert(front[c] == 0);
                assert(blocks[c] == 0);
                assert(blocks[blocks.len() - 1] == 0);
            }
            lemma_shape_packed(blocks, blocks.len() as int);
        } else {
            assert forall|i: int| c <= i < blocks.len() implies blocks[i] == 0 by {
                if i < front.len() {
                    assert(front[i] == 0);
                }
            }
            assert forall|i: int| 0 <= i < c implies blocks[i] != 0 by {
                assert(front[i] != 0);
            }
            lemma_shape_packed(blocks, c);
        }
    }
}

/// The slots with the blocks `ids` behind the slots in use.
pub open spec fn refs_extended(blocks: Seq<u16>, ids: Seq<usize>) -> Seq<u16> {
    Seq::new(
        blocks.len(),
        |i: int|
            if count_refs(blocks) <= i < count_refs(blocks) + ids.len() {
                ids[i - count_refs(blocks)] as u16
            } else {
                blocks[i]
            },
    )
}

/// Putting blocks into the first unused slots of packed slots puts them
/// behind the slots in use, in their order, and the slots stay packed.
pub proof fn lemma_with_refs_shape(blocks: Seq<u16>, ids: Seq<usize>)
    requires
        packed(blocks),
        count_refs(blocks) + ids.len() <= blocks.len(),
        forall|j: int| 0 <= j < ids.len() ==> 0 < #[trigger] ids[j] < NUM_BLOCKS,
    ensures
        with_refs(blocks, ids) == refs_extended(blocks, ids),
        packed(with_refs(blocks, ids)),
        count_refs(with_refs(blocks, ids)) == count_refs(blocks) + ids.len(),
    decreases ids.len(),
{
    let c = count_refs(blocks) as int;
    lemma_packed_shape(blocks);
    if ids.len() == 0 {
        assert(refs_extended(blocks, ids) =~= blocks);
    } else {
        let front = ids.drop_last();
        lemma_with_refs_shape(blocks, front);
        let before = with_refs(blocks, front);
        let at = c + front.len();
        assert(is_first_at(before, 0u16, at)) by {
            assert(before[at] == blocks[at]);
            assert forall|j: int| 0 <= j < at implies before[j] != 0u16 by {
                if j >= c {
                    assert(before[j] == front[j - c] as u16);
                    assert(0 < ids[j - c] < NUM_BLOCKS);
                }
            }
        }
        lemma_first_at(before, 0u16, at);
        let after = with_refs(blocks, ids);
        assert(after =~= refs_extended(blocks, ids));
        assert forall|i: int| 0 <= i < c + ids.len() implies after[i] != 0 by {
            if i >= c {
                assert(0 < ids[i - c] < NUM_BLOCKS);
            }
        }
        lemma_shape_packed(after, c + ids.len());
    }
}

/// How many blocks a file takes after an append, where its blocks covered
/// its size exactly before: as many as before and as many more as the bytes
/// take that do not go into its last block.
pub proof fn lemma_blocks_after_append(size: int, len: int, fill: int)
    requires
        0 <= size,
        0 <= len,
        fill == (if size % BLOCK_SIZE as int == 0 {
            0
        } else if len <= BLOCK_SIZE - size % BLOCK_SIZE as int {
            len
        } else {
            BLOCK_SIZE - size % BLOCK_SIZE as int
        }),
    ensures
        0 <= fill <= len,
        blocks_for(size + len) == blocks_for(size) + blocks_for(len - fill),
        size % BLOCK_SIZE as int != 0 ==> blocks_for(size) >= 1 && size == (blocks_for(size) - 1) * BLOCK_SIZE + size
            % BLOCK_SIZE as int,
        size % BLOCK_SIZE as int == 0 ==> size == blocks_for(size) * BLOCK_SIZE,
        len - fill > 0 ==> size + fill == blocks_for(size) * BLOCK_SIZE,
{
}

} // verus!
