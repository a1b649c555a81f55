//! What a file needs to grow: runs of fresh data blocks, the bytes that go
//! into them, and the slots that take them up.

use vstd::prelude::*;
use vstd::slice::{slice_subrange, slice_to_vec};
use crate::error::FSError;
use crate::virtual_file_sys::bitmap::{
    first_free, has_free, is_free, lemma_clear_after_set, lemma_first_free_unique, set_bit,
};
use crate::virtual_file_sys::block::{DataBlock, BLOCK_SIZE, NUM_BLOCKS};
use crate::virtual_file_sys::disk::image_wf;
use crate::virtual_file_sys::file_sys::WrappedFileSys;
use crate::virtual_file_sys::inode::{
    block_ids, block_views, first_at, lemma_first_at_exists, FileInode, InodeView,
};
use crate::virtual_file_sys::record::padded;

verus! {

/// The bitmap after the `k` lowest free blocks were taken, one after the
/// other.
pub open spec fn taken(bitmap: Seq<u8>, k: nat) -> Seq<u8>
    decreases k,
{
    if k == 0 {
        bitmap
    } else {
        set_bit(taken(bitmap, (k - 1) as nat), first_free(taken(bitmap, (k - 1) as nat)))
    }
}

/// The `k` lowest free blocks, in the order in which they are taken.
pub open spec fn taken_ids(bitmap: Seq<u8>, k: nat) -> Seq<usize>
    decreases k,
{
    if k == 0 {
        Seq::empty()
    } else {
        taken_ids(bitmap, (k - 1) as nat).push(first_free(taken(bitmap, (k - 1) as nat)) as usize)
    }
}

/// Whether `k` blocks are free.
pub open spec fn can_take(bitmap: Seq<u8>, k: nat) -> bool
    decreases k,
{
    k == 0 || (can_take(bitmap, (k - 1) as nat) && has_free(taken(bitmap, (k - 1) as nat)))
}

/// Chunk `j` of `bytes`: the bytes from `j` blocks in, up to one block of
/// them.
pub open spec fn chunk(bytes: Seq<u8>, j: int) -> Seq<u8> {
    bytes.subrange(
        j * BLOCK_SIZE,
        if (j + 1) * BLOCK_SIZE <= bytes.len() {
            (j + 1) * BLOCK_SIZE
        } else {
            bytes.len() as int
        },
    )
}

/// How many blocks `n` bytes take.
pub open spec fn blocks_for(n: int) -> int {
    (n + BLOCK_SIZE - 1) / BLOCK_SIZE as int
}

/// The image after the chunks of `bytes` were written, each padded with
/// zeros to one block, to the blocks `ids` in turn.
pub open spec fn with_chunks(image: Seq<Seq<u8>>, ids: Seq<usize>, bytes: Seq<u8>) -> Seq<Seq<u8>>
    decreases ids.len(),
{
    if ids.len() == 0 {
        image
    } else {
        with_chunks(image, ids.drop_last(), bytes).update(
            ids.last() as int,
            padded(chunk(bytes, ids.len() - 1)),
        )
    }
}

/// The slots after each of the blocks `ids` in turn went into the first
/// unused slot.
pub open spec fn with_refs(blocks: Seq<u16>, ids: Seq<usize>) -> Seq<u16>
    decreases ids.len(),
{
    if ids.len() == 0 {
        blocks
    } else {
        with_refs(blocks, ids.drop_last()).update(
            first_at(with_refs(blocks, ids.drop_last()), 0u16),
            ids.last() as u16,
        )
    }
}

/// How many slots are unused.
pub open spec fn free_slots(blocks: Seq<u16>) -> nat
    decreases blocks.len(),
{
    if blocks.len() == 0 {
        0
    } else if blocks.last() == 0 {
        free_slots(blocks.drop_last()) + 1
    } else {
        free_slots(blocks.drop_last())
    }
}

/// The block with `bytes` put in from place `at` on.
pub open spec fn refilled(block: Seq<u8>, at: int, bytes: Seq<u8>) -> Seq<u8> {
    block.take(at) + bytes + block.skip(at + bytes.len())
}

/// Taking blocks that are free keeps the bitmap one block long.
pub proof fn lemma_taken_len(bitmap: Seq<u8>, k: nat)
    requires
        bitmap.len() == BLOCK_SIZE,
        can_take(bitmap, k),
    ensures
        taken(bitmap, k).len() == BLOCK_SIZE,
        taken_ids(bitmap, k).len() == k,
    decreases k,
{
    if k > 0 {
        lemma_taken_len(bitmap, (k - 1) as nat);
        lemma_first_free_is_free(taken(bitmap, (k - 1) as nat));
    }
}

/// Where `j` blocks cannot be taken, more cannot be taken either.
pub proof fn lemma_cannot_take_more(bitmap: Seq<u8>, j: nat, k: nat)
    requires
        j <= k,
        !can_take(bitmap, j),
    ensures
        !can_take(bitmap, k),
    decreases k,
{
    if j < k {
        lemma_cannot_take_more(bitmap, j, (k - 1) as nat);
    }
}

/// A table with an unused slot has a first unused slot.
pub proof fn lemma_free_slot_exists(blocks: Seq<u16>)
    requires
        free_slots(blocks) > 0,
    ensures
        blocks.contains(0u16),
    decreases blocks.len(),
{
    if blocks.len() > 0 {
        if blocks.last() == 0 {
            assert(blocks[blocks.len() - 1] == 0u16);
        } else {
            lemma_free_slot_exists(blocks.drop_last());
            let i = choose|i: int| 0 <= i < blocks.drop_last().len() && blocks.drop_last()[i] == 0u16;
            assert(blocks[i] == 0u16);
        }
    }
}

/// Filling one slot uses up at most one unused slot.
pub proof fn lemma_free_slots_update(blocks: Seq<u16>, i: int, x: u16)
    requires
        0 <= i < blocks.len(),
    ensures
        free_slots(blocks.update(i, x)) + 1 >= free_slots(blocks),
        blocks[i] == 0 && x != 0 ==> free_slots(blocks.update(i, x)) + 1 == free_slots(blocks),
        blocks[i] != 0 && x == 0 ==> free_slots(blocks.update(i, x)) == free_slots(blocks) + 1,
        (blocks[i] == 0) == (x == 0) ==> free_slots(blocks.update(i, x)) == free_slots(blocks),
    decreases blocks.len(),
{
    let after = blocks.update(i, x);
    if i == blocks.len() - 1 {
        assert(after.drop_last() =~= blocks.drop_last());
    } else {
        assert(after.drop_last() =~= blocks.drop_last().update(i, x));
        lemma_free_slots_update(blocks.drop_last(), i, x);
    }
}

/// Counts the unused slots.
pub(crate) fn count_free_slots(blocks: &Vec<u16>) -> (n: usize)
    ensures
        n == free_slots(blocks@),
{
    let mut n: usize = 0;
    let mut i: usize = 0;
    assert(blocks@.take(0) =~= Seq::<u16>::empty());
    while i < blocks.len()
        invariant
            i <= blocks@.len(),
            n <= i,
            n == free_slots(blocks@.take(i as int)),
        decreases blocks@.len() - i,
    {
        proof {
            assert(blocks@.take(i + 1).drop_last() =~= blocks@.take(i as int));
        }
        if blocks[i] == 0 {
            n += 1;
        }
        i += 1;
    }
    assert(blocks@.take(i as int) =~= blocks@);
    n
}

/// Takes the `k` lowest free blocks of the image for data, one after the
/// other. Where fewer are free, every block taken so far is given back, so
/// that nothing has changed, and the result is `DiskFullError`.
pub(crate) fn allocate_blocks(wrapped_file_sys: &mut WrappedFileSys, k: usize) -> (r: Result<Vec<DataBlock>, FSError>)
    ensures
        match r {
            Ok(blocks) => {
                &&& can_take(old(wrapped_file_sys)@[0], k as nat)
                &&& block_ids(block_views(blocks@)) == taken_ids(old(wrapped_file_sys)@[0], k as nat)
                &&& final(wrapped_file_sys)@ == old(wrapped_file_sys)@.update(
                    0,
                    taken(old(wrapped_file_sys)@[0], k as nat),
                )
            },
            Err(e) => {
                &&& e == FSError::DiskFullError
                &&& !can_take(old(wrapped_file_sys)@[0], k as nat)
                &&& final(wrapped_file_sys)@ == old(wrapped_file_sys)@
            },
        },
{
    proof {
        wrapped_file_sys.lemma_view_wf();
    }
    let ghost image = wrapped_file_sys@;
    let ghost bitmap = image[0];
    let mut blocks: Vec<DataBlock> = Vec::new();
    let mut j: usize = 0;
    assert(image =~= image.update(0, taken(bitmap, 0)));
    assert(block_ids(block_views(blocks@)) =~= taken_ids(bitmap, 0));
    while j < k
        invariant
            j <= k,
            image_wf(image),
            image == old(wrapped_file_sys)@,
            bitmap == image[0],
            blocks@.len() == j,
            can_take(bitmap, j as nat),
            block_ids(block_views(blocks@)) == taken_ids(bitmap, j as nat),
            wrapped_file_sys@ == image.update(0, taken(bitmap, j as nat)),
        decreases k - j,
    {
        proof {
            lemma_taken_len(bitmap, j as nat);
        }
        match DataBlock::new(wrapped_file_sys) {
            Ok(block) => {
                proof {
                    lemma_first_free_unique(taken(bitmap, j as nat), block@.id as int);
                    assert(wrapped_file_sys@ =~= image.update(0, taken(bitmap, (j + 1) as nat)));
                }
                let ghost before = blocks@;
                blocks.push(block);
                assert(block_ids(block_views(blocks@)) =~= block_ids(block_views(before)).push(block@.id));
            },
            Err(_) => {
                proof {
                    assert(!can_take(bitmap, (j + 1) as nat));
                    lemma_cannot_take_more(bitmap, (j + 1) as nat, k as nat);
                }
                let mut i: usize = j;
                while i > 0
                    invariant
                        i <= j,
                        image_wf(image),
                        image == old(wrapped_file_sys)@,
                        bitmap == image[0],
                        blocks@.len() == j,
                        j <= k,
                        can_take(bitmap, j as nat),
                        !can_take(bitmap, k as nat),
                        block_ids(block_views(blocks@)) == taken_ids(bitmap, j as nat),
                        wrapped_file_sys@ == image.update(0, taken(bitmap, i as nat)),
                    decreases i,
                {
                    i -= 1;
                    let id = blocks[i].get_id();
                    proof {
                        lemma_taken_ids_prefix(bitmap, i as nat + 1, j as nat);
                        lemma_can_take_prefix(bitmap, i as nat + 1, j as nat);
                        lemma_taken_len(bitmap, i as nat);
                        let b = taken(bitmap, i as nat);
                        assert(has_free(b));
                        lemma_first_free_is_free(b);
                        assert(id == taken_ids(bitmap, (i + 1) as nat)[i as int]);
                        assert(id == first_free(b));
                        lemma_clear_after_set(b, id as int);
                    }
                    let _ = wrapped_file_sys.file_sys().reclaim_block(id);
                    assert(wrapped_file_sys@ =~= image.update(0, taken(bitmap, i as nat)));
                }
                assert(wrapped_file_sys@ =~= image);
                return Err(FSError::DiskFullError);
            },
        }
        j += 1;
    }
    Ok(blocks)
}

/// The blocks taken first are the first of the blocks taken.
pub proof fn lemma_taken_ids_prefix(bitmap: Seq<u8>, i: nat, j: nat)
    requires
        i <= j,
    ensures
        taken_ids(bitmap, j).len() == j,
        taken_ids(bitmap, i) == taken_ids(bitmap, j).take(i as int),
    decreases j,
{
    if i < j {
        lemma_taken_ids_prefix(bitmap, i, (j - 1) as nat);
        lemma_taken_ids_prefix(bitmap, (j - 1) as nat, (j - 1) as nat);
        assert(taken_ids(bitmap, i) =~= taken_ids(bitmap, j).take(i as int));
    } else {
        if j > 0 {
            lemma_taken_ids_prefix(bitmap, (j - 1) as nat, (j - 1) as nat);
        }
        assert(taken_ids(bitmap, i) =~= taken_ids(bitmap, j).take(i as int));
    }
}

/// Where `j` blocks can be taken, fewer can be taken too.
pub proof fn lemma_can_take_prefix(bitmap: Seq<u8>, i: nat, j: nat)
    requires
        i <= j,
        can_take(bitmap, j),
    ensures
        can_take(bitmap, i),
    decreases j,
{
    if i < j {
        lemma_can_take_prefix(bitmap, i, (j - 1) as nat);
    }
}

/// Where a block is free, the lowest free block is one of the image's and
/// free.
pub proof fn lemma_first_free_is_free(bitmap: Seq<u8>)
    requires
        has_free(bitmap),
    ensures
        is_free(bitmap, first_free(bitmap)),
        crate::virtual_file_sys::bitmap::is_first_free(bitmap, first_free(bitmap)),
{
    let n = choose|n: int| is_free(bitmap, n);
    lemma_lowest_free(bitmap, n);
}

/// Below a free block there is a lowest free block.
proof fn lemma_lowest_free(bitmap: Seq<u8>, n: int)
    requires
        is_free(bitmap, n),
    ensures
        crate::virtual_file_sys::bitmap::is_first_free(bitmap, first_free(bitmap)),
    decreases n,
{
    if exists|m: int| 0 <= m < n && !crate::virtual_file_sys::bitmap::bit_is_set(bitmap, m) {
        let m = choose|m: int| 0 <= m < n && !crate::virtual_file_sys::bitmap::bit_is_set(bitmap, m);
        lemma_lowest_free(bitmap, m);
    } else {
        assert(crate::virtual_file_sys::bitmap::is_first_free(bitmap, n));
    }
}

/// Writes the chunks of `bytes`, each padded with zeros to one block, to the
/// blocks in turn, and hands the blocks back with what they now hold.
pub(crate) fn write_chunks(wrapped_file_sys: &mut WrappedFileSys, blocks: Vec<DataBlock>, bytes: &[u8]) -> (r: Vec<
    DataBlock,
>)
    requires
        blocks@.len() == blocks_for(bytes@.len() as int),
        bytes@.len() + BLOCK_SIZE <= usize::MAX,
    ensures
        block_ids(block_views(r@)) == block_ids(block_views(blocks@)),
        final(wrapped_file_sys)@ == with_chunks(
            old(wrapped_file_sys)@,
            block_ids(block_views(blocks@)),
            bytes@,
        ),
{
    let ghost image = wrapped_file_sys@;
    let ghost ids = block_ids(block_views(blocks@));
    let k = blocks.len();
    let mut rest = blocks;
    let mut done: Vec<DataBlock> = Vec::new();
    let mut j: usize = 0;
    assert(ids.take(0) =~= Seq::<usize>::empty());
    assert(block_ids(block_views(done@)) =~= ids.take(0));
    assert(block_ids(block_views(rest@)) =~= ids.skip(0));
    while j < k
        invariant
            j <= k,
            k == ids.len(),
            k == blocks_for(bytes@.len() as int),
            bytes@.len() + BLOCK_SIZE <= usize::MAX,
            block_ids(block_views(done@)) == ids.take(j as int),
            block_ids(block_views(rest@)) == ids.skip(j as int),
            rest@.len() == k - j,
            wrapped_file_sys@ == with_chunks(image, ids.take(j as int), bytes@),
        decreases k - j,
    {
        let lo: usize = j * BLOCK_SIZE;
        let hi: usize = if bytes.len() - lo >= BLOCK_SIZE {
            lo + BLOCK_SIZE
        } else {
            bytes.len()
        };
        let piece = slice_to_vec(slice_subrange(bytes, lo, hi));
        assert(piece@ == chunk(bytes@, j as int));
        let ghost before_rest = rest@;
        let mut block = rest.remove(0);
        proof {
            assert(block@.id == ids[j as int]) by {
                assert(block_ids(block_views(before_rest))[0] == ids.skip(j as int)[0]);
            }
            assert(block_ids(block_views(rest@)) =~= ids.skip(j + 1)) by {
                assert forall|m: int| 0 <= m < rest@.len() implies block_ids(block_views(rest@))[m]
                    == ids.skip(j + 1)[m] by {
                    assert(block_ids(block_views(before_rest))[m + 1] == ids.skip(j as int)[m + 1]);
                }
            }
            assert(ids.take(j + 1).drop_last() =~= ids.take(j as int));
            assert(ids.take(j + 1).last() == ids[j as int]);
        }
        let _ = block.write_and_set_raw_block(wrapped_file_sys, piece);
        let ghost before_done = done@;
        done.push(block);
        assert(block_ids(block_views(done@)) =~= block_ids(block_views(before_done)).push(ids[j as int]));
        assert(block_ids(block_views(done@)) =~= ids.take(j + 1));
        j += 1;
    }
    assert(ids.take(k as int) =~= ids);
    done
}

/// Puts each of the blocks in turn into the first unused slot of the file,
/// writing the inode block each time.
pub(crate) fn register_blocks(file: &mut FileInode, wrapped_file_sys: &mut WrappedFileSys, blocks: Vec<DataBlock>)
    requires
        free_slots(old(file)@.raw.blocks) >= blocks@.len(),
    ensures
        final(file)@.id == old(file)@.id,
        final(file)@.raw == (InodeView {
            blocks: with_refs(old(file)@.raw.blocks, block_ids(block_views(blocks@))),
            ..old(file)@.raw
        }),
        final(wrapped_file_sys)@.len() == old(wrapped_file_sys)@.len(),
        forall|n: int|
            0 <= n < old(wrapped_file_sys)@.len() && n != old(file)@.id ==> final(wrapped_file_sys)@[n] == old(
                wrapped_file_sys,
            )@[n],
{
    proof {
        wrapped_file_sys.lemma_view_wf();
    }
    let ghost image = wrapped_file_sys@;
    let ghost ids = block_ids(block_views(blocks@));
    let ghost refs = file@.raw.blocks;
    let _ = file.get_id();
    let k = blocks.len();
    let mut rest = blocks;
    let mut j: usize = 0;
    assert(ids.take(0) =~= Seq::<usize>::empty());
    assert(block_ids(block_views(rest@)) =~= ids.skip(0));
    while j < k
        invariant
            j <= k,
            k == ids.len(),
            image_wf(image),
            image == old(wrapped_file_sys)@,
            refs == old(file)@.raw.blocks,
            block_ids(block_views(rest@)) == ids.skip(j as int),
            rest@.len() == k - j,
            file@.id == old(file)@.id,
            file@.id < NUM_BLOCKS,
            file@.raw == (InodeView { blocks: with_refs(refs, ids.take(j as int)), ..old(file)@.raw }),
            free_slots(file@.raw.blocks) >= k - j,
            wrapped_file_sys@.len() == image.len(),
            forall|n: int| 0 <= n < image.len() && n != file@.id ==> wrapped_file_sys@[n] == image[n],
        decreases k - j,
    {
        let ghost before_rest = rest@;
        let block = rest.remove(0);
        proof {
            assert(block@.id == ids[j as int]) by {
                assert(block_ids(block_views(before_rest))[0] == ids.skip(j as int)[0]);
            }
            assert(block_ids(block_views(rest@)) =~= ids.skip(j + 1)) by {
                assert forall|m: int| 0 <= m < rest@.len() implies block_ids(block_views(rest@))[m]
                    == ids.skip(j + 1)[m] by {
                    assert(block_ids(block_views(before_rest))[m + 1] == ids.skip(j as int)[m + 1]);
                }
            }
            assert(ids.take(j + 1).drop_last() =~= ids.take(j as int));
            assert(ids.take(j + 1).last() == ids[j as int]);
            lemma_free_slot_exists(file@.raw.blocks);
            lemma_first_at_exists(file@.raw.blocks, 0u16);
            lemma_free_slots_update(
                file@.raw.blocks,
                first_at(file@.raw.blocks, 0u16),
                block@.id as u16,
            );
        }
        let _ = file.add_block(wrapped_file_sys, block);
        j += 1;
    }
    assert(ids.take(k as int) =~= ids);
}

} // verus!
