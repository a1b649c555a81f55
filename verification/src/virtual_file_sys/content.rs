//! The bytes of a file as the concatenation of its data blocks, and what the
//! chunks of appended bytes add up to.

use vstd::prelude::*;
use crate::virtual_file_sys::block::{DataBlockView, BLOCK_SIZE, NUM_BLOCKS};
use crate::virtual_file_sys::disk::image_wf;
use crate::virtual_file_sys::file_sys::concat;
use crate::virtual_file_sys::growth::{blocks_for, chunk};
use crate::virtual_file_sys::grown::lemma_padded_chunk_len;
use crate::virtual_file_sys::inode::loaded_blocks;
use crate::virtual_file_sys::record::padded;

verus! {

/// The bytes of the blocks of the image that `ids` name, block after block.
pub open spec fn bytes_at(image: Seq<Seq<u8>>, ids: Seq<u16>) -> Seq<u8> {
    concat(loaded_blocks(image, ids))
}

/// The first `k` chunks of `bytes`, each padded with zeros to one block, one
/// after the other.
pub open spec fn chunks(bytes: Seq<u8>, k: nat) -> Seq<u8>
    decreases k,
{
    if k == 0 {
        Seq::empty()
    } else {
        chunks(bytes, (k - 1) as nat) + padded(chunk(bytes, k - 1))
    }
}

/// The bytes of a list of blocks with one more block are the bytes of the
/// list and then the bytes of that block.
pub proof fn lemma_bytes_at_push(image: Seq<Seq<u8>>, ids: Seq<u16>, id: u16)
    ensures
        bytes_at(image, ids.push(id)) == bytes_at(image, ids) + image[id as int],
{
    let more = loaded_blocks(image, ids.push(id));
    assert(more.drop_last() =~= loaded_blocks(image, ids));
    assert(more.last().data == image[id as int]);
}

/// The blocks of an image are one block long each, so the bytes of `n` of
/// them are `n` blocks long.
pub proof fn lemma_bytes_at_len(image: Seq<Seq<u8>>, ids: Seq<u16>)
    requires
        image_wf(image),
        forall|i: int| 0 <= i < ids.len() ==> #[trigger] ids[i] < NUM_BLOCKS,
    ensures
        bytes_at(image, ids).len() == ids.len() * BLOCK_SIZE,
    decreases ids.len(),
{
    if ids.len() > 0 {
        lemma_bytes_at_len(image, ids.drop_last());
        assert(ids.drop_last().push(ids.last()) =~= ids);
        lemma_bytes_at_push(image, ids.drop_last(), ids.last());
        assert(ids[ids.len() - 1] < NUM_BLOCKS);
    } else {
        assert(loaded_blocks(image, ids) =~= Seq::<DataBlockView>::empty());
    }
}

/// Two images that hold the same in the blocks that `ids` name give the same
/// bytes there.
pub proof fn lemma_bytes_at_same(image: Seq<Seq<u8>>, other: Seq<Seq<u8>>, ids: Seq<u16>)
    requires
        forall|i: int| 0 <= i < ids.len() ==> other[#[trigger] ids[i] as int] == image[ids[i] as int],
    ensures
        bytes_at(other, ids) == bytes_at(image, ids),
{
    assert(loaded_blocks(other, ids) =~= loaded_blocks(image, ids)) by {
        assert forall|i: int| 0 <= i < ids.len() implies loaded_blocks(other, ids)[i] == loaded_blocks(
            image,
            ids,
        )[i] by {
            assert(other[ids[i] as int] == image[ids[i] as int]);
        }
    }
}

/// The chunks of bytes add up to the bytes: the first `k` chunks are `k`
/// blocks long; as long as they are full they are the first bytes; and all
/// of them, cut to the length of the bytes, are the bytes.
pub proof fn lemma_chunks(bytes: Seq<u8>, k: nat)
    requires
        k <= blocks_for(bytes.len() as int),
    ensures
        chunks(bytes, k).len() == k * BLOCK_SIZE,
        k * BLOCK_SIZE <= bytes.len() ==> chunks(bytes, k) == bytes.take(k * BLOCK_SIZE),
        k == blocks_for(bytes.len() as int) ==> chunks(bytes, k).take(bytes.len() as int) == bytes,
    decreases k,
{
    if k > 0 {
        lemma_chunks(bytes, (k - 1) as nat);
        lemma_padded_chunk_len(bytes, k - 1);
        let before = chunks(bytes, (k - 1) as nat);
        assert(before == bytes.take((k - 1) * BLOCK_SIZE));
        if k * BLOCK_SIZE <= bytes.len() {
            assert(chunks(bytes, k) =~= bytes.take(k * BLOCK_SIZE));
        }
        if k == blocks_for(bytes.len() as int) {
            assert(chunks(bytes, k).take(bytes.len() as int) =~= bytes);
        }
    } else {
        assert(chunks(bytes, k) =~= bytes.take(0));
        if k == blocks_for(bytes.len() as int) {
            assert(bytes.len() == 0);
            assert(chunks(bytes, k).take(bytes.len() as int) =~= bytes);
        }
    }
}

} // verus!
