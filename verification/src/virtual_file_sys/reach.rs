//! The blocks that the home directory leads to, and that in a consistent
//! image they are exactly the blocks that the bitmap marks.

use vstd::prelude::*;
use crate::virtual_file_sys::bitmap::{allocated, bit_is_set, lemma_bitmap_ext};
use crate::virtual_file_sys::block::{DIR_MAGIC_NUM, INODE_MAGIC_NUM, MAX_DATA_BLOCKS, NUM_BLOCKS};
use crate::virtual_file_sys::consistency::{
    child_ok, dir_ok, file_ok, layout_ok, owned_ok, refs_at, table_at, Layout, Role,
};
use crate::virtual_file_sys::inode::{
    entries_to, leads_to, lemma_entries_to_members, targets, EntryView, HOME_DIR_ID,
};

verus! {

/// Whether an entry of the directory in block `m` that leads to a block
/// opening with `magic` leads to block `n`.
pub open spec fn steps_to(image: Seq<Seq<u8>>, m: int, n: int, magic: usize) -> bool {
    exists|k: int|
        0 <= k < entries_to(image, table_at(image, m), magic).len() && (#[trigger] entries_to(
            image,
            table_at(image, m),
            magic,
        )[k]).block_num == n
}

/// Whether block `n` is a directory that the home directory leads to in at
/// most `steps` steps from directory to directory.
pub open spec fn dir_within(image: Seq<Seq<u8>>, n: int, steps: nat) -> bool
    decreases steps,
{
    n == HOME_DIR_ID || (steps > 0 && exists|m: int|
        0 <= m < NUM_BLOCKS && dir_within(image, m, (steps - 1) as nat) && #[trigger] steps_to(
            image,
            m,
            n,
            DIR_MAGIC_NUM,
        ))
}

/// Whether block `n` is a directory that the home directory leads to.
pub open spec fn reachable_dir(image: Seq<Seq<u8>>, n: int) -> bool {
    exists|steps: nat| #[trigger] dir_within(image, n, steps)
}

/// Whether block `n` is the inode of a file in a directory that the home
/// directory leads to.
pub open spec fn reachable_file(image: Seq<Seq<u8>>, n: int) -> bool {
    exists|m: int|
        0 <= m < NUM_BLOCKS && reachable_dir(image, m) && #[trigger] steps_to(image, m, n, INODE_MAGIC_NUM)
}

/// Whether block `n` is a data block of a file that the home directory
/// leads to.
pub open spec fn reachable_data(image: Seq<Seq<u8>>, n: int) -> bool {
    exists|f: int, k: int|
        0 <= f < NUM_BLOCKS && reachable_file(image, f) && 0 <= k < MAX_DATA_BLOCKS && #[trigger] refs_at(
            image,
            f,
        )[k] == n && n != 0
}

/// Whether the home directory leads to block `n`: as a directory, as the
/// inode of a file, or as a data block of a file.
pub open spec fn reachable(image: Seq<Seq<u8>>, n: int) -> bool {
    reachable_dir(image, n) || reachable_file(image, n) || reachable_data(image, n)
}

/// A slot of a table that leads to a block opening with `magic` is among
/// the entries that `entries_to` picks.
pub proof fn lemma_entries_to_complete(image: Seq<Seq<u8>>, table: Seq<EntryView>, magic: usize, i: int)
    requires
        0 <= i < table.len(),
        leads_to(image, table[i], magic),
    ensures
        exists|k: int|
            0 <= k < entries_to(image, table, magic).len() && #[trigger] entries_to(image, table, magic)[k]
                == table[i],
    decreases table.len(),
{
    let picked = entries_to(image, table, magic);
    if i == table.len() - 1 {
        assert(picked[picked.len() - 1] == table[i]);
    } else {
        lemma_entries_to_complete(image, table.drop_last(), magic, i);
        let front = entries_to(image, table.drop_last(), magic);
        let k = choose|k: int| 0 <= k < front.len() && #[trigger] front[k] == table.drop_last()[i];
        assert(picked[k] == table[i]);
    }
}

/// In a consistent image a step from a directory leads to a block that is
/// what the magic number says.
proof fn lemma_step_role(image: Seq<Seq<u8>>, l: Layout, m: int, n: int, magic: usize)
    requires
        layout_ok(image, l),
        0 <= m < NUM_BLOCKS,
        l.role[m] == Role::Dir,
        steps_to(image, m, n, magic),
        magic == DIR_MAGIC_NUM || magic == INODE_MAGIC_NUM,
    ensures
        2 <= n < NUM_BLOCKS,
        magic == DIR_MAGIC_NUM ==> l.role[n] == Role::Dir,
        magic == INODE_MAGIC_NUM ==> l.role[n] == Role::File,
{
    let table = table_at(image, m);
    let picked = entries_to(image, table, magic);
    let k = choose|k: int| 0 <= k < picked.len() && (#[trigger] picked[k]).block_num == n;
    lemma_entries_to_members(image, table, magic);
    let e = picked[k];
    assert(leads_to(image, e, magic) && table.contains(e));
    let i = choose|i: int| 0 <= i < table.len() && table[i] == e;
    assert(dir_ok(image, l, m));
    assert(table[i].block_num != 0);
    assert(child_ok(image, l, m, table[i].block_num as int));
}

/// In a consistent image every directory that the home directory leads to
/// is a directory of the layout.
proof fn lemma_dir_within_role(image: Seq<Seq<u8>>, l: Layout, n: int, steps: nat)
    requires
        layout_ok(image, l),
        dir_within(image, n, steps),
    ensures
        1 <= n < NUM_BLOCKS,
        l.role[n] == Role::Dir,
    decreases steps,
{
    if n != HOME_DIR_ID {
        let m = choose|m: int|
            0 <= m < NUM_BLOCKS && dir_within(image, m, (steps - 1) as nat) && #[trigger] steps_to(
                image,
                m,
                n,
                DIR_MAGIC_NUM,
            );
        lemma_dir_within_role(image, l, m, (steps - 1) as nat);
        lemma_step_role(image, l, m, n, DIR_MAGIC_NUM);
    }
}

/// In a consistent image the home directory leads to every directory of the
/// layout.
proof fn lemma_role_dir_reachable(image: Seq<Seq<u8>>, l: Layout, n: int)
    requires
        layout_ok(image, l),
        0 <= n < NUM_BLOCKS,
        l.role[n] == Role::Dir,
    ensures
        reachable_dir(image, n),
    decreases l.depth[n],
{
    if n == HOME_DIR_ID {
        assert(dir_within(image, n, 0));
    } else {
        assert(n >= 2);
        assert(owned_ok(image, l, n));
        let p = l.owner[n];
        let table = table_at(image, p);
        let i = choose|i: int| 0 <= i < targets(table).len() && targets(table)[i] == n as usize;
        assert(dir_ok(image, l, p));
        assert(table[i].block_num == n);
        assert(child_ok(image, l, p, n));
        lemma_role_dir_reachable(image, l, p);
        let steps = choose|steps: nat| #[trigger] dir_within(image, p, steps);
        assert(dir_ok(image, l, n));
        assert(leads_to(image, table[i], DIR_MAGIC_NUM));
        lemma_entries_to_complete(image, table, DIR_MAGIC_NUM, i);
        assert(steps_to(image, p, n, DIR_MAGIC_NUM));
        assert(dir_within(image, n, steps + 1));
    }
}

/// In a consistent image the home directory leads to every inode of the
/// layout.
proof fn lemma_role_file_reachable(image: Seq<Seq<u8>>, l: Layout, n: int)
    requires
        layout_ok(image, l),
        0 <= n < NUM_BLOCKS,
        l.role[n] == Role::File,
    ensures
        reachable_file(image, n),
{
    assert(n >= 2);
    assert(owned_ok(image, l, n));
    let p = l.owner[n];
    let table = table_at(image, p);
    let i = choose|i: int| 0 <= i < targets(table).len() && targets(table)[i] == n as usize;
    assert(table[i].block_num == n);
    lemma_role_dir_reachable(image, l, p);
    assert(file_ok(image, l, n));
    assert(leads_to(image, table[i], INODE_MAGIC_NUM));
    lemma_entries_to_complete(image, table, INODE_MAGIC_NUM, i);
    assert(steps_to(image, p, n, INODE_MAGIC_NUM));
}

/// In a consistent image the home directory leads to every data block of
/// the layout.
proof fn lemma_role_data_reachable(image: Seq<Seq<u8>>, l: Layout, n: int)
    requires
        layout_ok(image, l),
        0 <= n < NUM_BLOCKS,
        l.role[n] == Role::Data,
    ensures
        reachable_data(image, n),
{
    assert(n >= 2);
    assert(owned_ok(image, l, n));
    let f = l.owner[n];
    let refs = refs_at(image, f);
    let k = choose|k: int| 0 <= k < refs.len() && refs[k] == n as u16;
    lemma_role_file_reachable(image, l, f);
    assert(file_ok(image, l, f));
    assert(refs_at(image, f)[k] == n);
}

/// In a consistent image the bitmap marks exactly block 0 and the blocks
/// that the home directory leads to, block 1 among them; and the home
/// directory leads to a block
/// in one way only: as a directory, as an inode or as a data block, as the
/// layout says.
pub proof fn lemma_bitmap_accurate(image: Seq<Seq<u8>>, l: Layout)
    requires
        layout_ok(image, l),
    ensures
        allocated(image[0]) == Set::new(|n: int| n == 0 || reachable(image, n)),
        forall|n: int|
            0 <= n < NUM_BLOCKS ==> (#[trigger] bit_is_set(image[0], n) <==> n == 0 || reachable(
                image,
                n,
            )),
        forall|n: int| #[trigger] reachable(image, n) ==> 1 <= n < NUM_BLOCKS,
        forall|n: int| #[trigger] reachable_dir(image, n) <==> 0 <= n < NUM_BLOCKS && l.role[n] == Role::Dir,
        forall|n: int| #[trigger] reachable_file(image, n) <==> 0 <= n < NUM_BLOCKS && l.role[n] == Role::File,
        forall|n: int| #[trigger] reachable_data(image, n) <==> 0 <= n < NUM_BLOCKS && l.role[n] == Role::Data,
{
    assert forall|n: int| #[trigger] reachable_dir(image, n) <==> 0 <= n < NUM_BLOCKS && l.role[n]
        == Role::Dir by {
        if reachable_dir(image, n) {
            let steps = choose|steps: nat| #[trigger] dir_within(image, n, steps);
            lemma_dir_within_role(image, l, n, steps);
        }
        if 0 <= n < NUM_BLOCKS && l.role[n] == Role::Dir {
            lemma_role_dir_reachable(image, l, n);
        }
    }
    assert forall|n: int| #[trigger] reachable_file(image, n) <==> 0 <= n < NUM_BLOCKS && l.role[n]
        == Role::File by {
        if reachable_file(image, n) {
            let m = choose|m: int|
                0 <= m < NUM_BLOCKS && reachable_dir(image, m) && #[trigger] steps_to(
                    image,
                    m,
                    n,
                    INODE_MAGIC_NUM,
                );
            lemma_step_role(image, l, m, n, INODE_MAGIC_NUM);
        }
        if 0 <= n < NUM_BLOCKS && l.role[n] == Role::File {
            lemma_role_file_reachable(image, l, n);
        }
    }
    assert forall|n: int| #[trigger] reachable_data(image, n) <==> 0 <= n < NUM_BLOCKS && l.role[n]
        == Role::Data by {
        if reachable_data(image, n) {
            let (f, k) = choose|f: int, k: int|
                0 <= f < NUM_BLOCKS && reachable_file(image, f) && 0 <= k < MAX_DATA_BLOCKS && #[trigger] refs_at(
                    image,
                    f,
                )[k] == n && n != 0;
            assert(file_ok(image, l, f));
        }
        if 0 <= n < NUM_BLOCKS && l.role[n] == Role::Data {
            lemma_role_data_reachable(image, l, n);
        }
    }
    assert forall|n: int| 0 <= n < NUM_BLOCKS implies (#[trigger] bit_is_set(image[0], n) <==> n == 0
        || reachable(image, n)) by {
        assert(bit_is_set(image[0], n) == (l.role[n] != Role::Free));
        if n == 0 {
            assert(!reachable_dir(image, n));
        } else {
            assert(l.role[n] != Role::Super);
        }
    }
    assert(allocated(image[0]) =~= Set::new(|n: int| n == 0 || reachable(image, n)));
}

/// Two images that one layout fits mark the same blocks in their bitmaps,
/// and the home directory leads to the same blocks in both, each in the same
/// part.
pub proof fn lemma_same_layout_same_reach(image: Seq<Seq<u8>>, other: Seq<Seq<u8>>, l: Layout)
    requires
        layout_ok(image, l),
        layout_ok(other, l),
    ensures
        other[0] == image[0],
        forall|n: int| reachable_dir(other, n) == reachable_dir(image, n),
        forall|n: int| reachable_file(other, n) == reachable_file(image, n),
        forall|n: int| reachable_data(other, n) == reachable_data(image, n),
        forall|n: int| reachable(other, n) == reachable(image, n),
{
    lemma_bitmap_accurate(image, l);
    lemma_bitmap_accurate(other, l);
    assert forall|n: int| 0 <= n < NUM_BLOCKS implies bit_is_set(other[0], n) == bit_is_set(image[0], n) by {
        assert(bit_is_set(image[0], n) == (l.role[n] != Role::Free));
        assert(bit_is_set(other[0], n) == (l.role[n] != Role::Free));
    }
    lemma_bitmap_ext(other[0], image[0]);
}

} // verus!
