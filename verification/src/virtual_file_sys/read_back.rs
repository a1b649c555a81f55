//! That a file reads back as what it read before an append with the
//! appended bytes behind.

use vstd::prelude::*;
use crate::error::FSError;
use crate::virtual_file_sys::appended::{
    growth_of, lemma_append_image, lemma_append_sound, lemma_blocks_size, lemma_resolved_file,
    with_data_blocks,
};
use crate::virtual_file_sys::block::{BLOCK_SIZE, DIR_MAGIC_NUM, INODE_MAGIC_NUM, NUM_BLOCKS};
use crate::virtual_file_sys::consistency::{
    child_ok, count_refs, dir_ok, file_ok, refs_at, state_ok, table_at, Layout, Role,
};
use crate::virtual_file_sys::content::{
    bytes_at, chunks, lemma_bytes_at_len, lemma_bytes_at_push, lemma_bytes_at_same, lemma_chunks,
};
use crate::virtual_file_sys::file_sys::{
    append_result, cat_result, concat, file_content, resolve_file, FileSysView,
};
use crate::virtual_file_sys::growth::{blocks_for, chunk, refilled};
use crate::virtual_file_sys::grown::{lemma_packed_shape, refs_extended};
use crate::virtual_file_sys::inode::{
    dir_at, dir_load_error, entries_to, file_at, file_load_error, inode_read, leads_to,
    loaded_blocks, table_error, used_refs, EntryView,
};
use crate::virtual_file_sys::record::{padded, record_first};
use crate::virtual_file_sys::stored::lemma_inode_stored;

verus! {

/// What the entries of a table lead to depends on nothing but what the
/// blocks open with that its slots in use lead to.
pub proof fn lemma_table_frame(image: Seq<Seq<u8>>, other: Seq<Seq<u8>>, table: Seq<EntryView>, magic: usize)
    requires
        forall|i: int|
            0 <= i < table.len() && (#[trigger] table[i]).block_num != 0 && table[i].block_num < NUM_BLOCKS ==> record_first(
                other[table[i].block_num as int],
            ) == record_first(image[table[i].block_num as int]),
    ensures
        entries_to(other, table, magic) == entries_to(image, table, magic),
        table_error(other, table) == table_error(image, table),
    decreases table.len(),
{
    if table.len() > 0 {
        let front = table.drop_last();
        assert forall|i: int|
            0 <= i < front.len() && (#[trigger] front[i]).block_num != 0 && front[i].block_num < NUM_BLOCKS implies record_first(
            other[front[i].block_num as int],
        ) == record_first(image[front[i].block_num as int]) by {
            assert(front[i] == table[i]);
        }
        lemma_table_frame(image, other, front, magic);
        assert(table.last() == table[table.len() - 1]);
    }
}

/// In a sound state, after an append, names resolve as they did before.
pub proof fn lemma_append_resolves(s: FileSysView, l: Layout, name: Seq<u8>, data: Seq<u8>, other: Seq<u8>)
    requires
        state_ok(s, l),
        append_result(s, name, data).1 is None,
    ensures
        resolve_file(FileSysView { image: append_result(s, name, data).0, cwd: s.cwd }, other) == resolve_file(
            s,
            other,
        ),
{
    let image = s.image;
    let cwd = s.cwd as int;
    let after = append_result(s, name, data).0;
    let g = growth_of(s, name, data);
    let refs = refs_at(image, g.id);
    lemma_append_image(s, l, name, data);
    lemma_inode_stored(g.record);
    lemma_packed_shape(refs);
    assert(file_ok(image, l, g.id));
    assert(dir_ok(image, l, cwd));
    let table = table_at(image, cwd);
    assert forall|n: int| 0 <= n < NUM_BLOCKS && g.ids.contains(n as usize) implies l.role[n] == Role::Free by {
        let j = choose|j: int| 0 <= j < g.ids.len() && g.ids[j] == n as usize;
        assert(2 <= g.ids[j] < NUM_BLOCKS && l.role[g.ids[j] as int] == Role::Free);
    }
    if g.fill > 0 {
        assert(refs_at(image, g.id)[g.count - 1] != 0);
    }
    assert(after[cwd] == image[cwd]);
    assert forall|i: int|
        0 <= i < table.len() && (#[trigger] table[i]).block_num != 0 && table[i].block_num < NUM_BLOCKS implies record_first(
        after[table[i].block_num as int],
    ) == record_first(image[table[i].block_num as int]) by {
        let t = table[i].block_num as int;
        assert(child_ok(image, l, cwd, t));
        if t != g.id {
            assert(after[t] == image[t]);
        }
    }
    lemma_table_frame(image, after, table, INODE_MAGIC_NUM);
    lemma_table_frame(image, after, table, DIR_MAGIC_NUM);
}

/// The slots in use of the file before and after an append.
pub open spec fn used_before(s: FileSysView, name: Seq<u8>, data: Seq<u8>) -> Seq<u16> {
    used_refs(refs_at(s.image, growth_of(s, name, data).id))
}

/// The slots in use of the file after an append.
pub open spec fn used_after(s: FileSysView, name: Seq<u8>, data: Seq<u8>) -> Seq<u16> {
    used_refs(growth_of(s, name, data).record.blocks)
}

/// In a sound state, after an append, the blocks that the file had before
/// hold what they held of the file and then the first of the appended bytes.
pub proof fn lemma_append_kept(s: FileSysView, l: Layout, name: Seq<u8>, data: Seq<u8>)
    requires
        state_ok(s, l),
        append_result(s, name, data).1 is None,
    ensures
        ({
            let g = growth_of(s, name, data);
            let after = append_result(s, name, data).0;
            let size = inode_read(s.image[g.id]).size as int;
            let old_used = used_before(s, name, data);
            &&& old_used.len() == g.count
            &&& size <= g.count * BLOCK_SIZE
            &&& bytes_at(s.image, old_used).len() == g.count * BLOCK_SIZE
            &&& bytes_at(after, old_used).len() == g.count * BLOCK_SIZE
            &&& bytes_at(after, old_used).take(size + g.fill) == bytes_at(s.image, old_used).take(size)
                + data.take(g.fill)
        }),
{
    let image = s.image;
    let after = append_result(s, name, data).0;
    let g = growth_of(s, name, data);
    let id = g.id;
    let c = g.count;
    let refs = refs_at(image, id);
    lemma_append_image(s, l, name, data);
    lemma_packed_shape(refs);
    assert(file_ok(image, l, id));
    let size = inode_read(image[id]).size as int;
    let old_used = used_refs(refs);
    assert(old_used == refs.take(c));
    assert forall|i: int| 0 <= i < c implies 2 <= #[trigger] refs[i] < NUM_BLOCKS && l.role[refs[i] as int]
        == Role::Data by {
        assert(refs_at(image, id)[i] != 0);
    }
    assert forall|n: int| 0 <= n < NUM_BLOCKS && g.ids.contains(n as usize) implies l.role[n] == Role::Free by {
        let j = choose|j: int| 0 <= j < g.ids.len() && g.ids[j] == n as usize;
        assert(2 <= g.ids[j] < NUM_BLOCKS && l.role[g.ids[j] as int] == Role::Free);
    }
    let old_bytes = bytes_at(image, old_used);
    lemma_bytes_at_len(image, old_used);
    lemma_bytes_at_len(after, old_used);
    let kept = bytes_at(after, old_used);
    let head = old_bytes.take(size);
    if g.fill > 0 {
        let front = old_used.drop_last();
        let last = old_used.last();
        assert(front.push(last) =~= old_used);
        lemma_bytes_at_push(image, front, last);
        lemma_bytes_at_push(after, front, last);
        assert forall|i: int| 0 <= i < front.len() implies after[#[trigger] front[i] as int] == image[front[i] as int] by {
            assert(front[i] == refs[i]);
            assert(refs[i] != 0);
            assert(refs[i] != refs[c - 1]);
        }
        lemma_bytes_at_same(image, after, front);
        lemma_bytes_at_len(image, front);
        let block = image[last as int];
        assert(last == refs[c - 1]);
        assert(after[last as int] == refilled(block, g.frag, data.take(g.fill)));
        assert(size == (c - 1) * BLOCK_SIZE + g.frag);
        lemma_refill_take(bytes_at(image, front), block, g.frag, data.take(g.fill));
    } else {
        assert forall|i: int| 0 <= i < old_used.len() implies after[#[trigger] old_used[i] as int] == image[old_used[i] as int] by {
            assert(old_used[i] == refs[i]);
        }
        lemma_bytes_at_same(image, after, old_used);
        assert(data.take(0) =~= Seq::<u8>::empty());
        assert(kept.take(size + g.fill) =~= head + data.take(g.fill));
    }
}

/// Bytes with a block behind them, cut inside the block, and the same with
/// a piece put into the block from the cut on.
proof fn lemma_refill_take(front: Seq<u8>, block: Seq<u8>, frag: int, piece: Seq<u8>)
    requires
        block.len() == BLOCK_SIZE,
        0 <= frag,
        frag + piece.len() <= BLOCK_SIZE,
    ensures
        (front + refilled(block, frag, piece)).take(front.len() + frag + piece.len()) == (front + block).take(
            front.len() + frag,
        ) + piece,
{
    assert((front + refilled(block, frag, piece)).take(front.len() + frag + piece.len()) =~= (front
        + block).take(front.len() + frag) + piece);
}

/// In a sound state, after an append, the blocks of the file hold what the
/// blocks hold that it had before and then the chunks of the other appended
/// bytes.
pub proof fn lemma_append_added(s: FileSysView, l: Layout, name: Seq<u8>, data: Seq<u8>)
    requires
        state_ok(s, l),
        append_result(s, name, data).1 is None,
    ensures
        ({
            let g = growth_of(s, name, data);
            let after = append_result(s, name, data).0;
            &&& inode_read(after[g.id]) == g.record
            &&& bytes_at(after, used_after(s, name, data)) == bytes_at(after, used_before(s, name, data)) + chunks(
                g.rest,
                g.ids.len(),
            )
        }),
{
    let image = s.image;
    let after = append_result(s, name, data).0;
    let g = growth_of(s, name, data);
    let c = g.count;
    let k = g.ids.len();
    let refs = refs_at(image, g.id);
    lemma_append_image(s, l, name, data);
    lemma_inode_stored(g.record);
    lemma_packed_shape(refs);
    lemma_packed_shape(g.record.blocks);
    let old_used = used_refs(refs);
    let new_used = used_refs(g.record.blocks);
    assert(new_used == g.record.blocks.take(c + k));
    assert(new_used.take(c) =~= old_used);
    assert(new_used.take(c + k) =~= new_used);
    assert forall|j: int| 0 <= j < k implies after[#[trigger] new_used[c + j] as int] == padded(chunk(g.rest, j)) by {
        assert(new_used[c + j] == g.ids[j] as u16);
        assert(2 <= g.ids[j] < NUM_BLOCKS);
        assert(after[g.ids[j] as int] == padded(chunk(g.rest, j)));
    }
    lemma_new_blocks_bytes(after, new_used, c, g.rest, k);
}

/// What is kept and what is added, cut to the new size, are what was there
/// and the appended bytes.
proof fn lemma_cat_algebra(
    kept: Seq<u8>,
    head: Seq<u8>,
    data: Seq<u8>,
    fill: int,
    added: Seq<u8>,
    size: int,
)
    requires
        0 <= fill <= data.len(),
        0 <= size,
        head.len() == size,
        size + fill <= kept.len(),
        kept.take(size + fill) == head + data.take(fill),
        added.len() >= data.len() - fill,
        added.take(data.len() - fill) == data.skip(fill),
        data.len() - fill > 0 ==> size + fill == kept.len(),
    ensures
        (kept + added).take(size + data.len()) == head + data,
{
    let whole = (kept + added).take(size + data.len());
    assert(data =~= data.take(fill) + data.skip(fill));
    if data.len() - fill > 0 {
        assert(kept.take(size + fill) =~= kept);
        assert(whole =~= kept + added.take(data.len() - fill));
    } else {
        assert(data.skip(fill) =~= Seq::<u8>::empty());
        assert(whole =~= kept.take(size + fill));
    }
    assert(whole =~= head + data);
}

/// In a sound state, before an append that succeeds, the file reads as the
/// bytes of its blocks, cut to its size.
proof fn lemma_cat_before(s: FileSysView, l: Layout, name: Seq<u8>, data: Seq<u8>)
    requires
        state_ok(s, l),
        append_result(s, name, data).1 is None,
    ensures
        cat_result(s, name) == Ok::<Seq<u8>, FSError>(
            bytes_at(s.image, used_before(s, name, data)).take(
                inode_read(s.image[growth_of(s, name, data).id]).size as int,
            ),
        ),
{
    let g = growth_of(s, name, data);
    assert(resolve_file(s, name) is Ok) by {
        lemma_append_image(s, l, name, data);
    }
    assert(file_load_error(s.image, g.id) is None) by {
        lemma_resolved_file(s, l, name);
    }
    lemma_append_kept(s, l, name, data);
}

/// In a sound state, after an append, the file reads as the bytes of its
/// blocks, cut to its new size.
proof fn lemma_cat_after(s: FileSysView, l: Layout, name: Seq<u8>, data: Seq<u8>)
    requires
        state_ok(s, l),
        append_result(s, name, data).1 is None,
    ensures
        cat_result(FileSysView { image: append_result(s, name, data).0, cwd: s.cwd }, name) == Ok::<
            Seq<u8>,
            FSError,
        >(
            file_content(file_at(append_result(s, name, data).0, growth_of(s, name, data).id)),
        ),
{
    let after = append_result(s, name, data).0;
    let s2 = FileSysView { image: after, cwd: s.cwd };
    let g = growth_of(s, name, data);
    let l2 = with_data_blocks(l, g.ids, g.id);
    assert(resolve_file(s, name) is Ok) by {
        lemma_append_image(s, l, name, data);
    }
    assert(resolve_file(s2, name) == resolve_file(s, name)) by {
        lemma_append_resolves(s, l, name, data, name);
    }
    assert(file_load_error(after, g.id) is None) by {
        lemma_append_sound(s, l, name, data);
        lemma_resolved_file(s2, l2, name);
    }
}

/// In a sound state, after appending `data` to a file, the file reads as
/// what it read before with `data` behind.
pub proof fn lemma_append_cat(s: FileSysView, l: Layout, name: Seq<u8>, data: Seq<u8>)
    requires
        state_ok(s, l),
        append_result(s, name, data).1 is None,
    ensures
        cat_result(s, name) is Ok,
        cat_result(FileSysView { image: append_result(s, name, data).0, cwd: s.cwd }, name) == Ok::<
            Seq<u8>,
            FSError,
        >(cat_result(s, name)->Ok_0 + data),
{
    let image = s.image;
    let after = append_result(s, name, data).0;
    let g = growth_of(s, name, data);
    let size = inode_read(image[g.id]).size as int;
    let old_used = used_before(s, name, data);
    let new_used = used_after(s, name, data);
    let kept = bytes_at(after, old_used);
    let added = chunks(g.rest, g.ids.len());
    let head = bytes_at(image, old_used).take(size);
    lemma_cat_before(s, l, name, data);
    lemma_cat_after(s, l, name, data);
    assert(g.ids.len() == blocks_for(g.rest.len() as int) && 0 <= g.fill <= data.len() && g.rest.len()
        == data.len() - g.fill && g.record.size == size + data.len() && g.rest == data.skip(g.fill) && (g.ids.len()
        > 0 ==> size + g.fill == g.count * BLOCK_SIZE) && size + g.fill <= g.count * BLOCK_SIZE) by {
        lemma_append_image(s, l, name, data);
        lemma_blocks_size(size, data.len() as int, g.fill, g.frag, g.count, g.ids.len() as int);
    }
    lemma_append_kept(s, l, name, data);
    lemma_append_added(s, l, name, data);
    lemma_chunks(g.rest, g.ids.len());
    lemma_cat_algebra(kept, head, data, g.fill, added, size);
    assert(file_at(after, g.id).raw == g.record);
    assert(file_at(after, g.id).blocks == loaded_blocks(after, new_used));
    assert((kept + added).len() >= size + data.len());
}

/// The bytes of blocks of which those from place `c` on hold the chunks of
/// `rest` are the bytes of the first `c` blocks and then the chunks.
proof fn lemma_new_blocks_bytes(after: Seq<Seq<u8>>, used: Seq<u16>, c: int, rest: Seq<u8>, k: nat)
    requires
        0 <= c,
        c + k <= used.len(),
        forall|j: int| 0 <= j < k ==> after[#[trigger] used[c + j] as int] == padded(chunk(rest, j)),
    ensures
        bytes_at(after, used.take(c + k)) == bytes_at(after, used.take(c)) + chunks(rest, k),
    decreases k,
{
    if k > 0 {
        lemma_new_blocks_bytes(after, used, c, rest, (k - 1) as nat);
        assert(used.take(c + k) =~= used.take(c + k - 1).push(used[c + k - 1]));
        lemma_bytes_at_push(after, used.take(c + k - 1), used[c + k - 1]);
        assert(after[used[c + (k - 1)] as int] == padded(chunk(rest, k - 1)));
        assert(bytes_at(after, used.take(c + k)) =~= bytes_at(after, used.take(c)) + chunks(rest, k));
    } else {
        assert(bytes_at(after, used.take(c + k)) =~= bytes_at(after, used.take(c)) + chunks(rest, k));
    }
}

/// In a sound state, after appending `a` and then `b` to a file, the file
/// reads as what it read before with `a` and then `b` behind; for a file
/// that was empty that is `a` and then `b`.
pub proof fn lemma_append_append_cat(s: FileSysView, l: Layout, name: Seq<u8>, a: Seq<u8>, b: Seq<u8>)
    requires
        state_ok(s, l),
        append_result(s, name, a).1 is None,
        append_result(FileSysView { image: append_result(s, name, a).0, cwd: s.cwd }, name, b).1 is None,
    ensures
        ({
            let first = FileSysView { image: append_result(s, name, a).0, cwd: s.cwd };
            let second = FileSysView { image: append_result(first, name, b).0, cwd: s.cwd };
            &&& cat_result(s, name) is Ok
            &&& cat_result(second, name) == Ok::<Seq<u8>, FSError>(cat_result(s, name)->Ok_0 + a + b)
            &&& cat_result(s, name)->Ok_0.len() == 0 ==> cat_result(second, name) == Ok::<Seq<u8>, FSError>(
                a + b,
            )
        }),
{
    let first = FileSysView { image: append_result(s, name, a).0, cwd: s.cwd };
    let g = growth_of(s, name, a);
    lemma_append_cat(s, l, name, a);
    lemma_append_sound(s, l, name, a);
    lemma_append_cat(first, with_data_blocks(l, g.ids, g.id), name, b);
    let before = cat_result(s, name)->Ok_0;
    assert((before + a) + b =~= before + a + b);
    if before.len() == 0 {
        assert(before + a + b =~= a + b);
    }
}

} // verus!
