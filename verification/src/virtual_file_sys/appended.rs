//! What `append` does to a consistent file system: which blocks change and
//! how, that the file system stays consistent, and that the file then reads
//! as what it read before with the appended bytes behind.

use vstd::prelude::*;
use crate::error::FSError;
use crate::virtual_file_sys::bitmap::{bit_is_set, is_free};
use crate::virtual_file_sys::block::{
    BLOCK_SIZE, INODE_MAGIC_NUM, MAX_DATA_BLOCKS, MAX_DIR_ENTRIES, MAX_FILE_SIZE, NUM_BLOCKS,
};
use crate::virtual_file_sys::consistency::{
    child_ok, count_refs, dir_ok, file_ok, last_block_padded, layout_ok, lemma_file_frame,
    lemma_file_loads, owned_ok, packed, refs_at, refs_distinct, state_ok, table_at, Layout, Role,
};
use crate::virtual_file_sys::disk::image_wf;
use crate::virtual_file_sys::file_sys::{append_result, fill_len, resolve_file, FileSysView};
use crate::virtual_file_sys::growth::{
    blocks_for, can_take, chunk, free_slots, refilled, taken, taken_ids, with_chunks, with_refs,
};
use crate::virtual_file_sys::grown::{
    ids_distinct, lemma_blocks_after_append, lemma_packed_shape, lemma_padded_chunk_len,
    lemma_taken_bits, lemma_with_chunks, lemma_with_refs_shape, refs_extended,
};
use crate::virtual_file_sys::inode::{
    dir_at, dir_load_error, entries_to, file_at, file_load_error, inode_bytes, inode_read,
    used_refs, InodeView,
};
use crate::virtual_file_sys::preserve::{lemma_resolved_entry, lemma_used_refs_members};
use crate::virtual_file_sys::record::{padded, record_first};
use crate::virtual_file_sys::stored::lemma_inode_stored;

verus! {

/// The parts of an append: the file, how much of the bytes goes into its
/// last block, and the blocks that take the others.
pub struct Growth {
    /// The inode block of the file.
    pub id: int,
    /// How many data blocks the file has.
    pub count: int,
    /// How many bytes of the file stand in its last block where that is not full.
    pub frag: int,
    /// How many of the appended bytes go into the last block.
    pub fill: int,
    /// The appended bytes that do not go into the last block.
    pub rest: Seq<u8>,
    /// The new blocks.
    pub ids: Seq<usize>,
    /// The inode record after the append.
    pub record: InodeView,
}

/// The parts of appending `data` to the file called `name`.
pub open spec fn growth_of(s: FileSysView, name: Seq<u8>, data: Seq<u8>) -> Growth {
    let id = resolve_file(s, name)->Ok_0;
    let file = file_at(s.image, id as int);
    let fill = fill_len(file.raw.size, data.len() as int);
    let rest = data.skip(fill);
    let ids = taken_ids(s.image[0], blocks_for(rest.len() as int) as nat);
    Growth {
        id: id as int,
        count: count_refs(file.raw.blocks) as int,
        frag: (file.raw.size % BLOCK_SIZE) as int,
        fill,
        rest,
        ids,
        record: InodeView {
            size: (file.raw.size + data.len()) as usize,
            blocks: with_refs(file.raw.blocks, ids),
            ..file.raw
        },
    }
}

/// The layout with the blocks `ids` in use as data blocks of the file in
/// block `id`.
pub open spec fn with_data_blocks(l: Layout, ids: Seq<usize>, id: int) -> Layout {
    Layout {
        role: Seq::new(
            NUM_BLOCKS as nat,
            |n: int|
                if ids.contains(n as usize) {
                    Role::Data
                } else {
                    l.role[n]
                },
        ),
        owner: Seq::new(
            NUM_BLOCKS as nat,
            |n: int|
                if ids.contains(n as usize) {
                    id
                } else {
                    l.owner[n]
                },
        ),
        depth: l.depth,
    }
}

/// In a sound state a name that resolves to a file resolves to an inode of
/// the layout, which loads.
pub proof fn lemma_resolved_file(s: FileSysView, l: Layout, name: Seq<u8>)
    requires
        state_ok(s, l),
        resolve_file(s, name) is Ok,
    ensures
        2 <= resolve_file(s, name)->Ok_0 < NUM_BLOCKS,
        l.role[resolve_file(s, name)->Ok_0 as int] == Role::File,
        l.owner[resolve_file(s, name)->Ok_0 as int] == s.cwd,
        file_load_error(s.image, resolve_file(s, name)->Ok_0 as int) is None,
{
    let table = table_at(s.image, s.cwd as int);
    let i = lemma_resolved_entry(s.image, table, INODE_MAGIC_NUM, name);
    assert(dir_ok(s.image, l, s.cwd as int));
    assert(child_ok(s.image, l, s.cwd as int, table[i].block_num as int));
    lemma_file_loads(s.image, l, table[i].block_num as int);
}

/// In a sound state an append that fails changes nothing, and an append
/// fails only where the name does not resolve to a file, the file would
/// outgrow the largest size, or too few blocks are free. Where it succeeds,
/// the new blocks were free and are different from each other; the file's
/// slots were packed and the new blocks stand behind the slots that were in
/// use; and the image has changed in this and nothing else: the bitmap marks
/// the new blocks too; the file's last block, where it was not full, holds
/// the first of the appended bytes behind what it held of the file; each new
/// block holds its chunk of the other bytes; and the inode block holds the
/// new record.
pub proof fn lemma_append_image(s: FileSysView, l: Layout, name: Seq<u8>, data: Seq<u8>)
    requires
        state_ok(s, l),
    ensures
        append_result(s, name, data).1 is Some ==> append_result(s, name, data).0 == s.image,
        append_result(s, name, data).1 is Some ==> {
            ||| resolve_file(s, name) is Err
            ||| append_result(s, name, data).1 == Some(FSError::FileFullError) && file_at(
                s.image,
                resolve_file(s, name)->Ok_0 as int,
            ).raw.size + data.len() > MAX_FILE_SIZE
            ||| append_result(s, name, data).1 == Some(FSError::DiskFullError)
        },
        append_result(s, name, data).1 is None ==> ({
            let g = growth_of(s, name, data);
            let refs = refs_at(s.image, g.id);
            let after = append_result(s, name, data).0;
            &&& resolve_file(s, name) is Ok
            &&& 2 <= g.id < NUM_BLOCKS
            &&& l.role[g.id] == Role::File
            &&& g.record.blocks.len() == MAX_DATA_BLOCKS
            &&& g.record.magic == INODE_MAGIC_NUM
            &&& g.record.size == inode_read(s.image[g.id]).size + data.len()
            &&& g.rest.len() == data.len() - g.fill
            &&& packed(refs)
            &&& g.count == blocks_for(inode_read(s.image[g.id]).size as int)
            &&& g.count + g.ids.len() == blocks_for(inode_read(s.image[g.id]).size + data.len())
            &&& g.count + g.ids.len() <= MAX_DATA_BLOCKS
            &&& g.ids.len() == blocks_for(g.rest.len() as int)
            &&& 0 <= g.fill <= data.len()
            &&& g.fill > 0 ==> g.count > 0 && g.frag > 0 && g.frag + g.fill <= BLOCK_SIZE
            &&& g.ids.len() > 0 && g.frag > 0 ==> g.frag + g.fill == BLOCK_SIZE
            &&& ids_distinct(g.ids)
            &&& forall|j: int| 0 <= j < g.ids.len() ==> 2 <= #[trigger] g.ids[j] < NUM_BLOCKS && l.role[g.ids[j] as int]
                == Role::Free
            &&& g.record.blocks == refs_extended(refs, g.ids)
            &&& packed(g.record.blocks)
            &&& count_refs(g.record.blocks) == g.count + g.ids.len()
            &&& image_wf(after)
            &&& forall|n: int|
                0 <= n < NUM_BLOCKS ==> bit_is_set(after[0], n) == (bit_is_set(s.image[0], n) || g.ids.contains(
                    n as usize,
                ))
            &&& after[g.id] == padded(inode_bytes(g.record))
            &&& forall|j: int| 0 <= j < g.ids.len() ==> #[trigger] after[g.ids[j] as int] == padded(chunk(g.rest, j))
            &&& g.fill > 0 ==> after[refs[g.count - 1] as int] == refilled(
                s.image[refs[g.count - 1] as int],
                g.frag,
                data.take(g.fill),
            )
            &&& forall|n: int|
                1 <= n < NUM_BLOCKS && n != g.id && !g.ids.contains(n as usize) && !(g.fill > 0 && n
                    == refs[g.count - 1]) ==> #[trigger] after[n] == s.image[n]
        }),
{
    reveal(append_result);
    let image = s.image;
    if resolve_file(s, name) is Ok {
        lemma_resolved_file(s, l, name);
        let g = growth_of(s, name, data);
        let id = g.id;
        let file = file_at(image, id);
        let refs = refs_at(image, id);
        let size = file.raw.size;
        assert(file_ok(image, l, id));
        lemma_packed_shape(refs);
        lemma_blocks_after_append(size as int, data.len() as int, g.fill);
        let k = blocks_for(g.rest.len() as int) as nat;
        assert(g.rest.len() == data.len() - g.fill);
        assert(file.blocks.len() == g.count);
        if size + data.len() <= MAX_FILE_SIZE {
            assert(g.count + k <= MAX_DATA_BLOCKS);
            assert(free_slots(refs) >= k);
            assert(!(size % BLOCK_SIZE != 0 && file.blocks.len() == 0));
            if can_take(image[0], k) {
                lemma_taken_bits(image[0], k);
                let ids = g.ids;
                assert forall|j: int| 0 <= j < ids.len() implies 2 <= #[trigger] ids[j] < NUM_BLOCKS && l.role[ids[j] as int]
                    == Role::Free by {
                    assert(is_free(image[0], ids[j] as int));
                    assert(bit_is_set(image[0], ids[j] as int) == (l.role[ids[j] as int] != Role::Free));
                }
                lemma_with_refs_shape(refs, ids);
                let marked = image.update(0, taken(image[0], k));
                let last = file.blocks.last();
                let filled = if g.fill > 0 {
                    marked.update(last.id as int, refilled(last.data, g.frag, data.take(g.fill)))
                } else {
                    marked
                };
                if g.fill > 0 {
                    assert(used_refs(refs)[g.count - 1] == refs[g.count - 1]);
                    assert(last.id == refs[g.count - 1]);
                    assert(refs[g.count - 1] != 0);
                    assert(refs_at(image, id)[g.count - 1] != 0);
                    assert(l.role[refs[g.count - 1] as int] == Role::Data);
                    assert(last.data == image[refs[g.count - 1] as int]);
                    assert(refilled(last.data, g.frag, data.take(g.fill)).len() == BLOCK_SIZE);
                }
                assert(image_wf(filled));
                lemma_with_chunks(filled, ids, g.rest);
                let chunked = with_chunks(filled, ids, g.rest);
                lemma_inode_stored(g.record);
                let after = chunked.update(id, padded(inode_bytes(g.record)));
                assert(append_result(s, name, data).0 == after);
                assert(!ids.contains(0usize) && !ids.contains(id as usize)) by {
                    if ids.contains(0usize) {
                        let j = choose|j: int| 0 <= j < ids.len() && ids[j] == 0usize;
                        assert(2 <= ids[j]);
                    }
                    if ids.contains(id as usize) {
                        let j = choose|j: int| 0 <= j < ids.len() && ids[j] == id as usize;
                        assert(l.role[ids[j] as int] == Role::Free);
                    }
                }
                if g.fill > 0 {
                    assert(!ids.contains(last.id)) by {
                        if ids.contains(last.id) {
                            let j = choose|j: int| 0 <= j < ids.len() && ids[j] == last.id;
                            assert(l.role[ids[j] as int] == Role::Free);
                        }
                    }
                }
                assert(after[0] == taken(image[0], k));
                assert forall|n: int|
                    1 <= n < NUM_BLOCKS && n != id && !ids.contains(n as usize) && !(g.fill > 0 && n
                        == refs[g.count - 1]) implies #[trigger] after[n] == image[n] by {
                    assert(chunked[n] == filled[n]);
                }
            }
        }
    }
}

/// A chunk that was padded holds zeros behind the chunk.
proof fn lemma_padded_tail(bytes: Seq<u8>, j: int)
    requires
        bytes.len() <= j < BLOCK_SIZE,
    ensures
        padded(bytes)[j] == 0u8,
{
}

/// A block that was filled up holds behind the filling what it held before.
proof fn lemma_refilled_tail(block: Seq<u8>, at: int, piece: Seq<u8>, j: int)
    requires
        block.len() == BLOCK_SIZE,
        0 <= at,
        at + piece.len() <= j < BLOCK_SIZE,
    ensures
        refilled(block, at, piece)[j] == block[j],
{
}

/// What stands in the last block of a file after an append that took new
/// blocks: what is left of the other bytes behind the full chunks.
proof fn lemma_last_chunk(size: int, len: int, fill: int, count: int, more: int)
    requires
        0 <= size,
        0 <= fill <= len,
        more == blocks_for(len - fill),
        more > 0,
        size + fill == count * BLOCK_SIZE,
        (size + len) % BLOCK_SIZE as int != 0,
    ensures
        (size + len) % BLOCK_SIZE as int == (len - fill) - (more - 1) * BLOCK_SIZE,
        (more - 1) * BLOCK_SIZE <= len - fill,
        more * BLOCK_SIZE > len - fill,
{
}

/// In a sound state, after an append, the last block of the file holds zeros
/// behind the last bytes of the file.
pub proof fn lemma_append_last_block(s: FileSysView, l: Layout, name: Seq<u8>, data: Seq<u8>)
    requires
        state_ok(s, l),
        append_result(s, name, data).1 is None,
    ensures
        last_block_padded(append_result(s, name, data).0, growth_of(s, name, data).record),
{
    let image = s.image;
    let g = growth_of(s, name, data);
    let id = g.id;
    let ids = g.ids;
    let k = ids.len() as int;
    let c = g.count;
    let refs = refs_at(image, id);
    let after = append_result(s, name, data).0;
    let size = inode_read(image[id]).size as int;
    let new_size = g.record.size as int;
    let new_frag = new_size % BLOCK_SIZE as int;
    assert(2 <= id < NUM_BLOCKS && l.role[id] == Role::File && c + k <= MAX_DATA_BLOCKS && g.record.blocks.len()
        == MAX_DATA_BLOCKS && new_size == size + data.len() && g.rest.len()
        == data.len() - g.fill && 0 <= g.fill <= data.len() && c == blocks_for(size) && k == blocks_for(
        g.rest.len() as int,
    ) && count_refs(g.record.blocks) == c + k && g.record.blocks == refs_extended(refs, ids) && (g.fill > 0
        ==> c > 0 && g.frag > 0 && g.frag + g.fill <= BLOCK_SIZE) && (k > 0 && g.frag > 0 ==> g.frag + g.fill
        == BLOCK_SIZE) && image_wf(image) && (k > 0 ==> 2 <= ids[k - 1] < NUM_BLOCKS && after[ids[k - 1] as int]
        == padded(chunk(g.rest, k - 1))) && (g.fill > 0 ==> after[refs[c - 1] as int] == refilled(
        image[refs[c - 1] as int],
        g.frag,
        data.take(g.fill),
    ))) by {
        lemma_append_image(s, l, name, data);
    }
    assert(last_block_padded(image, inode_read(image[id])) && count_refs(refs) == c && (c > 0 ==> refs[c - 1] != 0
        && 2 <= refs[c - 1] < NUM_BLOCKS && l.role[refs[c - 1] as int] == Role::Data)) by {
        assert(file_ok(image, l, id));
        lemma_packed_shape(refs);
        if c > 0 {
            assert(refs_at(image, id)[c - 1] != 0);
        }
    }
    if new_frag != 0 && c + k > 0 {
        let last = g.record.blocks[c + k - 1] as int;
        if k > 0 {
            lemma_blocks_size(size, data.len() as int, g.fill, g.frag, c, k);
            lemma_last_chunk(size, data.len() as int, g.fill, c, k);
            lemma_padded_chunk_len(g.rest, k - 1);
            assert(refs.len() == MAX_DATA_BLOCKS);
            assert(g.record.blocks[c + k - 1] == ids[c + k - 1 - c] as u16);
            assert(last == ids[k - 1]);
            assert forall|j: int| new_frag <= j < BLOCK_SIZE implies #[trigger] after[last][j] == 0u8 by {
                lemma_padded_tail(chunk(g.rest, k - 1), j);
            }
        } else {
            assert(refs.len() == MAX_DATA_BLOCKS);
            assert(last == refs[c - 1]);
            let block = image[last];
            assert(block.len() == BLOCK_SIZE);
            if g.fill > 0 {
                assert(new_frag == g.frag + g.fill);
                assert forall|j: int| new_frag <= j < BLOCK_SIZE implies #[trigger] after[last][j] == 0u8 by {
                    lemma_refilled_tail(block, g.frag, data.take(g.fill), j);
                    assert(block[j] == 0u8);
                }
            } else {
                assert(data.len() == 0);
                assert(after[last] == image[last]) by {
                    lemma_append_image(s, l, name, data);
                    if ids.contains(last as usize) {
                        let j = choose|j: int| 0 <= j < ids.len() && ids[j] == last as usize;
                        assert(l.role[ids[j] as int] == Role::Free);
                    }
                }
                assert forall|j: int| new_frag <= j < BLOCK_SIZE implies #[trigger] after[last][j] == 0u8 by {
                    assert(block[j] == 0u8);
                }
            }
        }
    }
}

/// Where the blocks of a file cover its size exactly, the bytes that fill
/// up its last block reach the end of its blocks at most, and reach it where
/// more bytes follow.
pub proof fn lemma_blocks_size(size: int, len: int, fill: int, frag: int, count: int, more: int)
    requires
        0 <= size,
        0 <= fill <= len,
        count == blocks_for(size),
        frag == size % BLOCK_SIZE as int,
        fill > 0 ==> frag > 0 && frag + fill <= BLOCK_SIZE,
        more > 0 && frag > 0 ==> frag + fill == BLOCK_SIZE,
        more == blocks_for(len - fill),
        fill == 0 && frag > 0 ==> len == 0,
    ensures
        more > 0 ==> size + fill == count * BLOCK_SIZE,
        size + fill <= count * BLOCK_SIZE,
{
}

/// In a sound state, after an append, the inode of the file is sound: the
/// new blocks are its data blocks, and its size is covered by its blocks
/// exactly.
pub proof fn lemma_append_file_ok(s: FileSysView, l: Layout, name: Seq<u8>, data: Seq<u8>)
    requires
        state_ok(s, l),
        append_result(s, name, data).1 is None,
    ensures
        file_ok(
            append_result(s, name, data).0,
            with_data_blocks(l, growth_of(s, name, data).ids, growth_of(s, name, data).id),
            growth_of(s, name, data).id,
        ),
{
    let image = s.image;
    let g = growth_of(s, name, data);
    let id = g.id;
    let ids = g.ids;
    let refs = refs_at(image, id);
    let after = append_result(s, name, data).0;
    let l2 = with_data_blocks(l, ids, id);
    let c = g.count;
    lemma_append_image(s, l, name, data);
    lemma_inode_stored(g.record);
    lemma_packed_shape(refs);
    assert(file_ok(image, l, id));
    assert(last_block_padded(after, g.record)) by {
        lemma_append_last_block(s, l, name, data);
    }
    assert forall|n: int| 0 <= n < NUM_BLOCKS && ids.contains(n as usize) implies l.role[n] == Role::Free && n
        >= 2 by {
        let j = choose|j: int| 0 <= j < ids.len() && ids[j] == n as usize;
        assert(2 <= ids[j] < NUM_BLOCKS && l.role[ids[j] as int] == Role::Free);
    }
    assert(inode_read(after[id]) == g.record);
    assert(refs_at(after, id) == refs_extended(refs, ids));
    let new_refs = refs_at(after, id);
    assert forall|k: int| 0 <= k < MAX_DATA_BLOCKS && #[trigger] new_refs[k] != 0 implies 2 <= new_refs[k]
        < NUM_BLOCKS && l2.role[new_refs[k] as int] == Role::Data && l2.owner[new_refs[k] as int] == id by {
        if c <= k < c + ids.len() {
            assert(new_refs[k] == ids[k - c] as u16);
            assert(2 <= ids[k - c] < NUM_BLOCKS);
        } else {
            assert(refs_at(image, id)[k] != 0);
        }
    }
    assert(refs_distinct(new_refs)) by {
        assert forall|i: int, j: int| 0 <= i < j < new_refs.len() && #[trigger] new_refs[i] != 0 implies new_refs[i]
            != #[trigger] new_refs[j] by {
            if j < c {
                assert(refs[i] != 0);
                assert(refs[i] != refs[j]);
            } else if j < c + ids.len() {
                assert(2 <= ids[j - c] < NUM_BLOCKS);
                if i < c {
                    assert(refs_at(image, id)[i] != 0);
                    assert(l.role[refs[i] as int] == Role::Data);
                    assert(l.role[ids[j - c] as int] == Role::Free);
                } else {
                    assert(2 <= ids[i - c] < NUM_BLOCKS);
                    assert(ids[i - c] != ids[j - c]);
                }
            } else {
                assert(new_refs[j] == 0);
            }
        }
    }
}

/// In a sound state `append` keeps the state sound: where it succeeds, the
/// new blocks are data blocks of the file, the file's size is covered by its
/// blocks exactly, and everything else is as it was.
pub proof fn lemma_append_sound(s: FileSysView, l: Layout, name: Seq<u8>, data: Seq<u8>)
    requires
        state_ok(s, l),
        append_result(s, name, data).1 is None,
    ensures
        state_ok(
            FileSysView { image: append_result(s, name, data).0, cwd: s.cwd },
            with_data_blocks(l, growth_of(s, name, data).ids, growth_of(s, name, data).id),
        ),
{
    let image = s.image;
    let g = growth_of(s, name, data);
    let id = g.id;
    let ids = g.ids;
    let refs = refs_at(image, id);
    let after = append_result(s, name, data).0;
    let l2 = with_data_blocks(l, ids, id);
    let c = g.count;
    lemma_append_image(s, l, name, data);
    lemma_inode_stored(g.record);
    lemma_packed_shape(refs);
    assert(file_ok(image, l, id));
    assert(file_ok(after, l2, id)) by {
        lemma_append_file_ok(s, l, name, data);
    }
    assert forall|n: int| 0 <= n < NUM_BLOCKS && ids.contains(n as usize) implies l.role[n] == Role::Free && n
        >= 2 by {
        let j = choose|j: int| 0 <= j < ids.len() && ids[j] == n as usize;
        assert(2 <= ids[j] < NUM_BLOCKS && l.role[ids[j] as int] == Role::Free);
    }
    if g.fill > 0 {
        assert(refs_at(image, id)[c - 1] != 0);
    }
    // A block that is in use and no data block is as it was, but for the
    // inode block of the file, which opens as it did.
    assert forall|n: int|
        1 <= n < NUM_BLOCKS && (l.role[n] == Role::Dir || l.role[n] == Role::File) implies record_first(
        #[trigger] after[n],
    ) == record_first(image[n]) && (n != id ==> after[n] == image[n]) by {}
    assert forall|n: int| 0 <= n < NUM_BLOCKS implies bit_is_set(after[0], n) == (#[trigger] l2.role[n]
        != Role::Free) by {
        assert(bit_is_set(image[0], n) == (l.role[n] != Role::Free));
    }
    assert forall|n: int| 0 <= n < NUM_BLOCKS && #[trigger] l2.role[n] == Role::Dir implies dir_ok(
        after,
        l2,
        n,
    ) by {
        assert(l.role[n] == Role::Dir);
        assert(dir_ok(image, l, n));
        assert(after[n] == image[n]);
        assert forall|a: int|
            0 <= a < MAX_DIR_ENTRIES && (#[trigger] table_at(after, n)[a]).block_num != 0 implies child_ok(
            after,
            l2,
            n,
            table_at(after, n)[a].block_num as int,
        ) by {
            let t = table_at(image, n)[a].block_num as int;
            assert(child_ok(image, l, n, t));
            assert(record_first(after[t]) == record_first(image[t]));
        }
    }
    assert forall|n: int| 0 <= n < NUM_BLOCKS && #[trigger] l2.role[n] == Role::File implies file_ok(
        after,
        l2,
        n,
    ) by {
        if n != id {
            assert(l.role[n] == Role::File);
            assert(file_ok(image, l, n));
            assert(after[n] == image[n]);
            assert forall|k: int|
                0 <= k < MAX_DATA_BLOCKS && #[trigger] refs_at(image, n)[k] != 0 implies after[refs_at(image, n)[k] as int]
                == image[refs_at(image, n)[k] as int] && l2.role[refs_at(image, n)[k] as int] == l.role[refs_at(
                image,
                n,
            )[k] as int] && l2.owner[refs_at(image, n)[k] as int] == l.owner[refs_at(image, n)[k] as int] by {
                let r = refs_at(image, n)[k] as int;
                assert(l.role[r] == Role::Data && l.owner[r] == n);
            }
            lemma_file_frame(image, after, l, l2, n);
        }
    }
    assert forall|n: int| 2 <= n < NUM_BLOCKS && #[trigger] l2.role[n] != Role::Free implies owned_ok(
        after,
        l2,
        n,
    ) by {
        if ids.contains(n as usize) {
            let j = choose|j: int| 0 <= j < ids.len() && ids[j] == n as usize;
            assert(refs_at(after, id)[c + j] == n as u16);
        } else {
            assert(owned_ok(image, l, n));
            let p = l.owner[n];
            if p == id {
                let i = choose|i: int| 0 <= i < refs.len() && refs[i] == n as u16;
                assert(refs[i] != 0);
                assert(i < c);
                assert(refs_at(after, id)[i] == n as u16);
            } else {
                assert(after[p] == image[p]);
            }
        }
    }
    assert(layout_ok(after, l2));
}

} // verus!
