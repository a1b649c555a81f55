//! That the operations on the name space keep a consistent file system
//! consistent, and what follows from that for each of them.

use vstd::prelude::*;
use crate::error::FSError;
use crate::virtual_file_sys::bitmap::{
    bit_is_set, clear_bit, first_free, has_free, is_first_free, is_free, lemma_clear_bit,
    lemma_set_bit, set_bit,
};
use crate::virtual_file_sys::block::{
    BLOCK_SIZE, DIR_MAGIC_NUM, INODE_MAGIC_NUM, MAX_DATA_BLOCKS, MAX_DIR_ENTRIES, MAX_FNAME_SIZE,
    NUM_BLOCKS,
};
use crate::virtual_file_sys::consistency::{
    child_ok, dir_ok, file_ok, layout_ok, lemma_dir_loads, lemma_file_frame, lemma_file_loads,
    owned_ok, refs_at, size_accurate, state_ok, table_at, targets_distinct, Layout, Role,
};
use crate::virtual_file_sys::disk::image_wf;
use crate::virtual_file_sys::file_sys::{
    cd_result, cleared, entry_named, has_named, new_entry_error, new_entry_result, resolve_file,
    rm_result, rmdir_result, FileSysView,
};
use crate::virtual_file_sys::reach::lemma_entries_to_complete;
use crate::virtual_file_sys::growth::{blocks_for, lemma_first_free_is_free};
use crate::virtual_file_sys::inode::{
    block_ids, dir_at, dir_block_bytes, dir_block_read, empty_dir_block, empty_inode, entries_to,
    file_at, first_at, inode_bytes, leads_to, lemma_entries_to_members, lemma_first_at_exists,
    names, targets, used_refs, with_entry, with_slot_freed, EntryView, HOME_DIR_ID,
};
use crate::virtual_file_sys::record::{padded, record_first};
use crate::virtual_file_sys::stored::{
    count_accurate, count_used, dir_block_shaped, free_slots_blank, lemma_accurate_takes_entry,
    lemma_count_used_bound, lemma_dir_block_stored, lemma_empty_dir_block_sound,
    lemma_empty_records_shaped, lemma_entry_added_and_freed, lemma_inode_stored,
    lemma_with_entry_sound, lemma_with_slot_freed_sound, names_unique,
};
use crate::virtual_file_sys::bitmap::lemma_clear_after_set;

verus! {

/// The layout with block `id` in use in the part `role`, referred to by
/// block `owner` and one step further from home than it.
pub open spec fn with_block(l: Layout, id: int, role: Role, owner: int) -> Layout {
    Layout {
        role: l.role.update(id, role),
        owner: l.owner.update(id, owner),
        depth: l.depth.update(id, l.depth[owner] + 1),
    }
}

/// A table of unused slots has no slot in use.
pub proof fn lemma_no_refs_used(blocks: Seq<u16>)
    requires
        forall|k: int| 0 <= k < blocks.len() ==> blocks[k] == 0,
    ensures
        used_refs(blocks) == Seq::<u16>::empty(),
    decreases blocks.len(),
{
    if blocks.len() > 0 {
        lemma_no_refs_used(blocks.drop_last());
    }
}

/// The block that holds a new, empty directory or file: what it holds and
/// the part it plays.
pub open spec fn new_block_of(role: Role) -> Seq<u8> {
    if role == Role::Dir {
        padded(dir_block_bytes(empty_dir_block()))
    } else {
        padded(inode_bytes(empty_inode()))
    }
}

/// In a sound state `mkdir` and `create` keep the state sound. Where they
/// fail, the image is as it was: no block is lost. Where they succeed, the
/// new block is the lowest free one; it plays the part of a directory or of a
/// file, and the current working directory refers to it.
#[verifier::rlimit(60)]
pub proof fn lemma_new_entry_sound(s: FileSysView, l: Layout, name: Seq<u8>, role: Role)
    requires
        state_ok(s, l),
        name.len() == MAX_FNAME_SIZE,
        role == Role::Dir || role == Role::File,
    ensures
        new_entry_result(s, name, new_block_of(role)).1 is Some ==> new_entry_result(
            s,
            name,
            new_block_of(role),
        ).0 == s.image,
        new_entry_result(s, name, new_block_of(role)).1 is None ==> {
            &&& is_first_free(s.image[0], first_free(s.image[0]))
            &&& l.role[first_free(s.image[0])] == Role::Free
            &&& state_ok(
                FileSysView { image: new_entry_result(s, name, new_block_of(role)).0, cwd: s.cwd },
                with_block(l, first_free(s.image[0]), role, s.cwd as int),
            )
        },
{
    let image = s.image;
    let cwd = s.cwd as int;
    let block = new_block_of(role);
    let res = new_entry_result(s, name, block);
    lemma_dir_loads(image, l, cwd);
    assert(dir_ok(image, l, cwd));
    let raw = dir_at(image, cwd).raw;
    assert(raw == dir_block_read(image[cwd]));
    assert(dir_block_shaped(raw));
    if new_entry_error(dir_at(image, cwd), name) is None && has_free(image[0]) {
        lemma_accurate_takes_entry(raw);
        lemma_first_free_is_free(image[0]);
        let id = first_free(image[0]);
        let e = EntryView { name, block_num: id as usize };
        lemma_with_entry_sound(raw, e);
        let slot = first_at(targets(raw.entries), 0usize);
        let new_raw = with_entry(raw, e);
        let marked = image.update(0, set_bit(image[0], id));
        let taken = marked.update(id, block);
        let image2 = taken.update(cwd, padded(dir_block_bytes(new_raw)));
        let l2 = with_block(l, id, role, cwd);
        assert(res.0 == image2);
        assert(l.role[id] == Role::Free);
        assert(id >= 2);
        assert(cwd != id && cwd != 0);
        lemma_dir_block_stored(new_raw);
        lemma_empty_records_shaped();
        lemma_dir_block_stored(empty_dir_block());
        lemma_inode_stored(empty_inode());
        lemma_empty_dir_block_sound();
        lemma_no_refs_used(empty_inode().blocks);
        assert(image_wf(image2)) by {
            lemma_set_bit(image[0], id, id);
        }
        assert forall|n: int| 0 <= n < NUM_BLOCKS implies bit_is_set(image2[0], n) == (#[trigger] l2.role[n]
            != Role::Free) by {
            lemma_set_bit(image[0], id, n);
            assert(bit_is_set(image[0], n) == (l.role[n] != Role::Free));
        }
        // Every target of a slot in use of the old image is in use, so it is
        // not the new block; and what it opens with has not changed.
        assert forall|n: int, t: int|
            0 <= n < NUM_BLOCKS && l.role[n] == Role::Dir && #[trigger] child_ok(image, l, n, t) implies child_ok(
            image2,
            l2,
            n,
            t,
        ) by {
            assert(t != id);
            assert(n != id);
            if t == cwd {
                assert(record_first(image2[cwd]) == DIR_MAGIC_NUM);
            } else {
                assert(image2[t] == image[t]);
            }
        }
        assert(dir_ok(image2, l2, cwd)) by {
            assert(table_at(image2, cwd) == new_raw.entries);
            assert(targets_distinct(new_raw.entries)) by {
                assert forall|i: int, j: int|
                    0 <= i < j < new_raw.entries.len() && (#[trigger] new_raw.entries[i]).block_num != 0 implies new_raw.entries[i].block_num
                        != (#[trigger] new_raw.entries[j]).block_num by {
                    if i == slot {
                        if raw.entries[j].block_num != 0 {
                            assert(child_ok(image, l, cwd, raw.entries[j].block_num as int));
                        }
                    } else if j == slot {
                        assert(raw.entries[i].block_num != 0);
                        assert(child_ok(image, l, cwd, raw.entries[i].block_num as int));
                    } else {
                        assert(raw.entries[i].block_num != 0);
                    }
                }
            }
            assert forall|i: int|
                0 <= i < MAX_DIR_ENTRIES && (#[trigger] table_at(image2, cwd)[i]).block_num != 0 implies child_ok(
                image2,
                l2,
                cwd,
                table_at(image2, cwd)[i].block_num as int,
            ) by {
                if i == slot {
                    assert(image2[id] == block);
                } else {
                    assert(raw.entries[i].block_num != 0);
                    assert(child_ok(image, l, cwd, raw.entries[i].block_num as int));
                }
            }
        }
        assert forall|n: int| 0 <= n < NUM_BLOCKS && #[trigger] l2.role[n] == Role::Dir implies dir_ok(
            image2,
            l2,
            n,
        ) by {
            if n == id {
                assert(image2[id] == block);
                assert(table_at(image2, id) == empty_dir_block().entries);
                assert(targets_distinct(empty_dir_block().entries));
            } else if n != cwd {
                assert(image2[n] == image[n]);
                assert(dir_ok(image, l, n));
                assert forall|i: int|
                    0 <= i < MAX_DIR_ENTRIES && (#[trigger] table_at(image2, n)[i]).block_num != 0 implies child_ok(
                    image2,
                    l2,
                    n,
                    table_at(image2, n)[i].block_num as int,
                ) by {
                    assert(child_ok(image, l, n, table_at(image, n)[i].block_num as int));
                }
            }
        }
        assert forall|n: int| 0 <= n < NUM_BLOCKS && #[trigger] l2.role[n] == Role::File implies file_ok(
            image2,
            l2,
            n,
        ) by {
            if n == id {
                assert(image2[id] == block);
                assert(refs_at(image2, id) == empty_inode().blocks);
                assert(size_accurate(0usize, empty_inode().blocks));
            } else {
                assert(image2[n] == image[n]);
                assert(file_ok(image, l, n));
                lemma_file_frame(image, image2, l, l2, n);
            }
        }
        assert forall|n: int| 2 <= n < NUM_BLOCKS && #[trigger] l2.role[n] != Role::Free implies owned_ok(
            image2,
            l2,
            n,
        ) by {
            if n == id {
                assert(targets(table_at(image2, cwd))[slot] == id as usize);
            } else {
                assert(owned_ok(image, l, n));
                let p = l.owner[n];
                assert(p != id);
                if p == cwd {
                    let i = choose|i: int| 0 <= i < targets(raw.entries).len() && targets(raw.entries)[i]
                        == n as usize;
                    assert(i != slot);
                    assert(targets(table_at(image2, cwd))[i] == n as usize);
                } else {
                    assert(image2[p] == image[p]);
                }
            }
        }
        assert(layout_ok(image2, l2));
    }
}

/// In a table where no name stands twice, the slot in use that holds a name
/// is the entry that the name resolves to among the entries of its kind.
pub proof fn lemma_named_entry(image: Seq<Seq<u8>>, table: Seq<EntryView>, magic: usize, i: int)
    requires
        names_unique(table),
        0 <= i < table.len(),
        leads_to(image, table[i], magic),
    ensures
        has_named(entries_to(image, table, magic), table[i].name),
        entry_named(entries_to(image, table, magic), table[i].name) == table[i],
{
    let picked = entries_to(image, table, magic);
    let name = table[i].name;
    lemma_entries_to_complete(image, table, magic, i);
    let k = choose|k: int| 0 <= k < picked.len() && #[trigger] picked[k] == table[i];
    assert(names(picked)[k] == name);
    lemma_first_at_exists(names(picked), name);
    let f = first_at(names(picked), name);
    lemma_entries_to_members(image, table, magic);
    assert(leads_to(image, picked[f], magic) && table.contains(picked[f]));
    let j = choose|j: int| 0 <= j < table.len() && table[j] == picked[f];
    assert(names(picked)[f] == name);
    if j < i {
        assert(table[j].name != table[i].name);
    } else if i < j {
        assert(table[i].name != table[j].name);
    }
}

/// An entry that a name resolves to among the entries of a kind is a slot
/// in use of the table that holds the name and leads to a block of that kind.
pub proof fn lemma_resolved_entry(image: Seq<Seq<u8>>, table: Seq<EntryView>, magic: usize, name: Seq<u8>) -> (i:
    int)
    requires
        has_named(entries_to(image, table, magic), name),
    ensures
        0 <= i < table.len(),
        table[i] == entry_named(entries_to(image, table, magic), name),
        table[i].name == name,
        leads_to(image, table[i], magic),
{
    let picked = entries_to(image, table, magic);
    lemma_first_at_exists(names(picked), name);
    let f = first_at(names(picked), name);
    lemma_entries_to_members(image, table, magic);
    assert(leads_to(image, picked[f], magic) && table.contains(picked[f]));
    assert(names(picked)[f] == name);
    choose|j: int| 0 <= j < table.len() && table[j] == picked[f]
}

/// In a sound state `cd` leads to a sound state: where it succeeds, the new
/// current working directory is a directory.
pub proof fn lemma_cd_sound(s: FileSysView, l: Layout, name: Seq<u8>)
    requires
        state_ok(s, l),
    ensures
        cd_result(s, name) matches Ok(target) ==> state_ok(FileSysView { cwd: target, ..s }, l),
{
    if cd_result(s, name) is Ok {
        let table = table_at(s.image, s.cwd as int);
        let i = lemma_resolved_entry(s.image, table, DIR_MAGIC_NUM, name);
        assert(dir_ok(s.image, l, s.cwd as int));
        assert(table[i].block_num != 0);
        assert(child_ok(s.image, l, s.cwd as int, table[i].block_num as int));
    }
}

/// The layout with block `id` free.
pub open spec fn with_block_freed(l: Layout, id: int) -> Layout {
    Layout { role: l.role.update(id, Role::Free), ..l }
}

/// In a sound state `rmdir` keeps the state sound. Where it fails, the image
/// is as it was. Where it succeeds, the directory that the name resolved to
/// is free afterwards.
#[verifier::rlimit(60)]
pub proof fn lemma_rmdir_sound(s: FileSysView, l: Layout, name: Seq<u8>)
    requires
        state_ok(s, l),
    ensures
        rmdir_result(s, name).1 is Some ==> rmdir_result(s, name).0 == s.image,
        rmdir_result(s, name).1 is None ==> {
            &&& has_named(dir_at(s.image, s.cwd as int).dir_entries, name)
            &&& l.role[entry_named(dir_at(s.image, s.cwd as int).dir_entries, name).block_num as int]
                == Role::Dir
            &&& state_ok(
                FileSysView { image: rmdir_result(s, name).0, cwd: s.cwd },
                with_block_freed(
                    l,
                    entry_named(dir_at(s.image, s.cwd as int).dir_entries, name).block_num as int,
                ),
            )
        },
{
    let image = s.image;
    let cwd = s.cwd as int;
    if rmdir_result(s, name).1 is None {
        let table = table_at(image, cwd);
        let raw = dir_block_read(image[cwd]);
        let i = lemma_resolved_entry(image, table, DIR_MAGIC_NUM, name);
        let t = table[i].block_num as int;
        assert(dir_ok(image, l, cwd));
        assert(child_ok(image, l, cwd, t));
        assert(dir_ok(image, l, t));
        assert(targets(table)[i] == t as usize);
        lemma_with_slot_freed_sound(raw, t as usize);
        let slot = first_at(targets(table), t as usize);
        assert(slot == i) by {
            if slot < i {
                assert(table[slot].block_num != 0);
            } else if i < slot {
                assert(table[i].block_num != table[slot].block_num);
            }
        }
        let new_raw = with_slot_freed(raw, t as usize);
        lemma_dir_block_stored(new_raw);
        let unlinked = image.update(cwd, padded(dir_block_bytes(new_raw)));
        let image2 = unlinked.update(0, clear_bit(unlinked[0], t));
        let l2 = with_block_freed(l, t);
        assert(rmdir_result(s, name).0 == image2);
        assert(unlinked[0] == image[0]);
        assert(image_wf(image2)) by {
            lemma_clear_bit(image[0], t, t);
        }
        // The directory that goes has no entries, so nothing is owned by it.
        lemma_count_used_bound(table_at(image, t));
        assert forall|n: int| 2 <= n < NUM_BLOCKS && l.role[n] != Role::Free implies #[trigger] l.owner[n]
            != t by {
            assert(owned_ok(image, l, n));
            if l.owner[n] == t {
                let k = choose|k: int|
                    0 <= k < targets(table_at(image, t)).len() && targets(table_at(image, t))[k] == n as usize;
                assert(table_at(image, t)[k].block_num == 0);
            }
        }
        assert forall|n: int| 0 <= n < NUM_BLOCKS implies bit_is_set(image2[0], n) == (#[trigger] l2.role[n]
            != Role::Free) by {
            lemma_clear_bit(image[0], t, n);
            assert(bit_is_set(image[0], n) == (l.role[n] != Role::Free));
        }
        assert forall|n: int, c: int|
            0 <= n < NUM_BLOCKS && l.role[n] == Role::Dir && c != t && #[trigger] child_ok(image, l, n, c) implies child_ok(
            image2,
            l2,
            n,
            c,
        ) by {
            if c == cwd {
                assert(record_first(image2[cwd]) == DIR_MAGIC_NUM);
            } else {
                assert(image2[c] == image[c]);
            }
        }
        assert forall|n: int| 0 <= n < NUM_BLOCKS && #[trigger] l2.role[n] == Role::Dir implies dir_ok(
            image2,
            l2,
            n,
        ) by {
            assert(dir_ok(image, l, n));
            if n == cwd {
                assert(table_at(image2, cwd) == new_raw.entries);
                assert(targets_distinct(new_raw.entries)) by {
                    assert forall|a: int, b: int|
                        0 <= a < b < new_raw.entries.len() && (#[trigger] new_raw.entries[a]).block_num != 0 implies new_raw.entries[a].block_num
                            != (#[trigger] new_raw.entries[b]).block_num by {
                        assert(table[a].block_num != 0);
                        assert(table[a].block_num != table[b].block_num);
                    }
                }
                assert forall|a: int|
                    0 <= a < MAX_DIR_ENTRIES && (#[trigger] table_at(image2, cwd)[a]).block_num != 0 implies child_ok(
                    image2,
                    l2,
                    cwd,
                    table_at(image2, cwd)[a].block_num as int,
                ) by {
                    assert(a != i);
                    assert(table[a].block_num != 0);
                    assert(child_ok(image, l, cwd, table[a].block_num as int));
                    if a < i {
                        assert(table[a].block_num != table[i].block_num);
                    } else {
                        assert(table[i].block_num != table[a].block_num);
                    }
                }
            } else {
                assert(image2[n] == image[n]);
                assert forall|a: int|
                    0 <= a < MAX_DIR_ENTRIES && (#[trigger] table_at(image2, n)[a]).block_num != 0 implies child_ok(
                    image2,
                    l2,
                    n,
                    table_at(image2, n)[a].block_num as int,
                ) by {
                    let c = table_at(image, n)[a].block_num as int;
                    assert(child_ok(image, l, n, c));
                    assert(l.owner[c] == n);
                }
            }
        }
        assert forall|n: int| 0 <= n < NUM_BLOCKS && #[trigger] l2.role[n] == Role::File implies file_ok(
            image2,
            l2,
            n,
        ) by {
            assert(image2[n] == image[n]);
            assert(file_ok(image, l, n));
            lemma_file_frame(image, image2, l, l2, n);
        }
        assert forall|n: int| 2 <= n < NUM_BLOCKS && #[trigger] l2.role[n] != Role::Free implies owned_ok(
            image2,
            l2,
            n,
        ) by {
            assert(owned_ok(image, l, n));
            let p = l.owner[n];
            assert(p != t);
            if p == cwd {
                let a = choose|a: int| 0 <= a < targets(table).len() && targets(table)[a] == n as usize;
                assert(a != i);
                assert(targets(table_at(image2, cwd))[a] == n as usize);
            } else {
                assert(image2[p] == image[p]);
            }
        }
        assert(layout_ok(image2, l2));
    }
}

/// In a sound state whose current working directory is the home directory,
/// where `mkdir` succeeds, `cd` to the new directory, `home` and `rmdir` of
/// it succeed too, and the file system is back where it was: the layout
/// fits again, and the image is the one from before but for what the block
/// holds that was taken and given back, which is free before and after.
#[verifier::rlimit(60)]
pub proof fn lemma_mkdir_cd_home_rmdir(s: FileSysView, l: Layout, name: Seq<u8>)
    requires
        state_ok(s, l),
        s.cwd == HOME_DIR_ID,
        name.len() == MAX_FNAME_SIZE,
        new_entry_result(s, name, new_block_of(Role::Dir)).1 is None,
    ensures
        ({
            let id = first_free(s.image[0]);
            let made = FileSysView { image: new_entry_result(s, name, new_block_of(Role::Dir)).0, ..s };
            let back = FileSysView { cwd: HOME_DIR_ID as usize, ..made };
            &&& is_free(s.image[0], id)
            &&& cd_result(made, name) == Ok::<usize, FSError>(id as usize)
            &&& rmdir_result(back, name).1 is None
            &&& rmdir_result(back, name).0 == s.image.update(id, new_block_of(Role::Dir))
            &&& state_ok(FileSysView { image: rmdir_result(back, name).0, cwd: s.cwd }, l)
        }),
{
    let image = s.image;
    let cwd = s.cwd as int;
    let id = first_free(image[0]);
    let block = new_block_of(Role::Dir);
    lemma_new_entry_sound(s, l, name, Role::Dir);
    let l1 = with_block(l, id, Role::Dir, cwd);
    let image1 = new_entry_result(s, name, block).0;
    let made = FileSysView { image: image1, ..s };
    let back = FileSysView { cwd: HOME_DIR_ID as usize, ..made };
    assert(back == made);
    let raw = dir_block_read(image[cwd]);
    let e = EntryView { name, block_num: id as usize };
    let new_raw = with_entry(raw, e);
    assert(dir_ok(image, l, cwd));
    lemma_dir_loads(image, l, cwd);
    lemma_accurate_takes_entry(raw);
    lemma_with_entry_sound(raw, e);
    lemma_dir_block_stored(new_raw);
    lemma_empty_records_shaped();
    lemma_dir_block_stored(empty_dir_block());
    lemma_empty_dir_block_sound();
    let slot = first_at(targets(raw.entries), 0usize);
    assert(id >= 2 && id != cwd);
    assert(image1[cwd] == padded(dir_block_bytes(new_raw)));
    assert(image1[id] == block);
    let table1 = table_at(image1, cwd);
    assert(table1 == new_raw.entries);
    assert(table1[slot] == e);
    assert(leads_to(image1, table1[slot], DIR_MAGIC_NUM));
    lemma_named_entry(image1, table1, DIR_MAGIC_NUM, slot);
    lemma_dir_loads(image1, l1, cwd);
    lemma_dir_loads(image1, l1, id);
    assert(cd_result(made, name) == Ok::<usize, FSError>(id as usize));
    // The old slots in use lead to blocks in use, so none leads to the new one.
    assert(!targets(raw.entries).contains(id as usize)) by {
        if targets(raw.entries).contains(id as usize) {
            let k = choose|k: int| 0 <= k < targets(raw.entries).len() && targets(raw.entries)[k] == id as usize;
            assert(raw.entries[k].block_num != 0);
            assert(child_ok(image, l, cwd, id));
        }
    }
    lemma_entry_added_and_freed(raw, e);
    lemma_clear_after_set(image[0], id);
    assert(dir_at(image1, id).raw == empty_dir_block());
    let unlinked = image1.update(cwd, padded(dir_block_bytes(with_slot_freed(new_raw, id as usize))));
    assert(unlinked[0] == set_bit(image[0], id));
    assert(rmdir_result(back, name).1 is None);
    assert(rmdir_result(back, name).0 =~= image.update(id, block));
    // The layout of before fits the image again.
    lemma_rmdir_sound(back, l1, name);
    assert(with_block_freed(l1, id).role =~= l.role);
    let image2 = rmdir_result(back, name).0;
    lemma_layout_frame(image, image2, l, id);
}

/// A layout that fits an image fits an image as well that differs from it
/// in what a free block holds.
pub proof fn lemma_layout_frame(image: Seq<Seq<u8>>, image2: Seq<Seq<u8>>, l: Layout, id: int)
    requires
        layout_ok(image, l),
        0 <= id < NUM_BLOCKS,
        l.role[id] == Role::Free,
        image_wf(image2),
        forall|n: int| 0 <= n < NUM_BLOCKS && n != id ==> image2[n] == image[n],
    ensures
        layout_ok(image2, l),
{
    assert forall|n: int| 0 <= n < NUM_BLOCKS && #[trigger] l.role[n] == Role::Dir implies dir_ok(
        image2,
        l,
        n,
    ) by {
        assert(dir_ok(image, l, n));
        assert forall|a: int|
            0 <= a < MAX_DIR_ENTRIES && (#[trigger] table_at(image2, n)[a]).block_num != 0 implies child_ok(
            image2,
            l,
            n,
            table_at(image2, n)[a].block_num as int,
        ) by {
            assert(child_ok(image, l, n, table_at(image, n)[a].block_num as int));
        }
    }
    assert forall|n: int| 0 <= n < NUM_BLOCKS && #[trigger] l.role[n] == Role::File implies file_ok(
        image2,
        l,
        n,
    ) by {
        assert(file_ok(image, l, n));
        lemma_file_frame(image, image2, l, l, n);
    }
    assert forall|n: int| 2 <= n < NUM_BLOCKS && #[trigger] l.role[n] != Role::Free implies owned_ok(
        image2,
        l,
        n,
    ) by {
        assert(owned_ok(image, l, n));
    }
}

/// The slots in use are the slots that hold a block.
pub proof fn lemma_used_refs_members(blocks: Seq<u16>, x: u16)
    ensures
        used_refs(blocks).contains(x) <==> x != 0 && blocks.contains(x),
    decreases blocks.len(),
{
    if blocks.len() > 0 {
        let front = blocks.drop_last();
        lemma_used_refs_members(front, x);
        let used = used_refs(blocks);
        if used.contains(x) {
            let k = choose|k: int| 0 <= k < used.len() && used[k] == x;
            if k < used_refs(front).len() {
                assert(used_refs(front)[k] == x);
                let i = choose|i: int| 0 <= i < front.len() && front[i] == x;
                assert(blocks[i] == x);
            } else {
                assert(blocks[blocks.len() - 1] == x);
            }
        }
        if x != 0 && blocks.contains(x) {
            let i = choose|i: int| 0 <= i < blocks.len() && blocks[i] == x;
            if i < front.len() {
                assert(front[i] == x);
                let k = choose|k: int| 0 <= k < used_refs(front).len() && used_refs(front)[k] == x;
                assert(used[k] == x);
            } else {
                assert(used[used.len() - 1] == x);
            }
        }
    }
}

/// Freeing blocks of the image clears their bits and no others.
pub proof fn lemma_cleared(bitmap: Seq<u8>, ids: Seq<usize>, n: int)
    requires
        bitmap.len() == BLOCK_SIZE,
        forall|k: int| 0 <= k < ids.len() ==> ids[k] < NUM_BLOCKS,
        0 <= n < NUM_BLOCKS,
    ensures
        cleared(bitmap, ids).len() == BLOCK_SIZE,
        bit_is_set(cleared(bitmap, ids), n) == (bit_is_set(bitmap, n) && !ids.contains(n as usize)),
    decreases ids.len(),
{
    if ids.len() > 0 {
        let front = ids.drop_last();
        lemma_cleared(bitmap, front, n);
        lemma_clear_bit(cleared(bitmap, front), ids.last() as int, n);
        if ids.contains(n as usize) {
            let k = choose|k: int| 0 <= k < ids.len() && ids[k] == n as usize;
            if k < front.len() {
                assert(front[k] == n as usize);
            }
        }
        if front.contains(n as usize) {
            let k = choose|k: int| 0 <= k < front.len() && front[k] == n as usize;
            assert(ids[k] == n as usize);
        }
        if ids.last() == n {
            assert(ids[ids.len() - 1] == n as usize);
        }
    }
}

/// The layout with the file in block `id` and its data blocks free.
pub open spec fn with_file_freed(l: Layout, id: int) -> Layout {
    Layout {
        role: Seq::new(
            NUM_BLOCKS as nat,
            |n: int|
                if n == id || (l.role[n] == Role::Data && l.owner[n] == id) {
                    Role::Free
                } else {
                    l.role[n]
                },
        ),
        ..l
    }
}

/// In a sound state `rm` keeps the state sound. Where it fails, or where
/// nothing holds the name, the image is as it was. Where it removes a file,
/// the file's inode block and its data blocks are free afterwards.
#[verifier::rlimit(60)]
pub proof fn lemma_rm_sound(s: FileSysView, l: Layout, name: Seq<u8>)
    requires
        state_ok(s, l),
    ensures
        resolve_file(s, name) is Err ==> rm_result(s, name).0 == s.image,
        rm_result(s, name).1 is Some ==> rm_result(s, name).0 == s.image,
        resolve_file(s, name) matches Ok(id) ==> {
            &&& rm_result(s, name).1 is None
            &&& l.role[id as int] == Role::File
            &&& state_ok(
                FileSysView { image: rm_result(s, name).0, cwd: s.cwd },
                with_file_freed(l, id as int),
            )
        },
{
    let image = s.image;
    let cwd = s.cwd as int;
    lemma_dir_loads(image, l, cwd);
    if resolve_file(s, name) is Ok {
        let table = table_at(image, cwd);
        let raw = dir_block_read(image[cwd]);
        let i = lemma_resolved_entry(image, table, INODE_MAGIC_NUM, name);
        let id = table[i].block_num as int;
        assert(dir_ok(image, l, cwd));
        assert(child_ok(image, l, cwd, id));
        assert(l.role[id] == Role::File);
        assert(file_ok(image, l, id));
        lemma_file_loads(image, l, id);
        assert(targets(table)[i] == id as usize);
        lemma_count_used_bound(table);
        assert(raw.num_entries > 0);
        lemma_with_slot_freed_sound(raw, id as usize);
        let slot = first_at(targets(table), id as usize);
        assert(slot == i) by {
            if slot < i {
                assert(table[slot].block_num != 0);
            } else if i < slot {
                assert(table[i].block_num != table[slot].block_num);
            }
        }
        let new_raw = with_slot_freed(raw, id as usize);
        lemma_dir_block_stored(new_raw);
        let refs = refs_at(image, id);
        let ids = block_ids(file_at(image, id).blocks).push(id as usize);
        let unlinked = image.update(cwd, padded(dir_block_bytes(new_raw)));
        let image2 = unlinked.update(0, cleared(unlinked[0], ids));
        let l2 = with_file_freed(l, id);
        assert(rm_result(s, name).0 == image2);
        assert(unlinked[0] == image[0]);
        // The blocks that go are the inode block and the blocks in its slots in use.
        assert forall|k: int| 0 <= k < ids.len() implies ids[k] < NUM_BLOCKS by {
            if k < ids.len() - 1 {
                lemma_used_refs_members(refs, used_refs(refs)[k]);
                let j = choose|j: int| 0 <= j < refs.len() && refs[j] == used_refs(refs)[k];
                assert(refs_at(image, id)[j] != 0);
            }
        }
        assert forall|n: int| 0 <= n < NUM_BLOCKS implies (ids.contains(n as usize) <==> #[trigger] l2.role[n]
            == Role::Free && l.role[n] != Role::Free) by {
            if ids.contains(n as usize) {
                let k = choose|k: int| 0 <= k < ids.len() && ids[k] == n as usize;
                if k < ids.len() - 1 {
                    lemma_used_refs_members(refs, used_refs(refs)[k]);
                    let j = choose|j: int| 0 <= j < refs.len() && refs[j] == used_refs(refs)[k];
                    assert(refs_at(image, id)[j] != 0);
                }
            }
            if l2.role[n] == Role::Free && l.role[n] != Role::Free {
                if n == id {
                    assert(ids[ids.len() - 1] == n as usize);
                } else {
                    assert(owned_ok(image, l, n));
                    lemma_used_refs_members(refs, n as u16);
                    let k = choose|k: int| 0 <= k < used_refs(refs).len() && used_refs(refs)[k] == n as u16;
                    assert(ids[k] == n as usize);
                }
            }
        }
        assert(image_wf(image2)) by {
            lemma_cleared(image[0], ids, 0);
        }
        assert forall|n: int| 0 <= n < NUM_BLOCKS implies bit_is_set(image2[0], n) == (#[trigger] l2.role[n]
            != Role::Free) by {
            lemma_cleared(image[0], ids, n);
            assert(bit_is_set(image[0], n) == (l.role[n] != Role::Free));
        }
        assert(cwd != id);
        assert forall|n: int, c: int|
            0 <= n < NUM_BLOCKS && l.role[n] == Role::Dir && c != id && #[trigger] child_ok(image, l, n, c) implies child_ok(
            image2,
            l2,
            n,
            c,
        ) by {
            if c == cwd {
                assert(record_first(image2[cwd]) == DIR_MAGIC_NUM);
            } else {
                assert(image2[c] == image[c]);
            }
        }
        assert forall|n: int| 0 <= n < NUM_BLOCKS && #[trigger] l2.role[n] == Role::Dir implies dir_ok(
            image2,
            l2,
            n,
        ) by {
            assert(dir_ok(image, l, n));
            if n == cwd {
                assert(table_at(image2, cwd) == new_raw.entries);
                assert(targets_distinct(new_raw.entries)) by {
                    assert forall|a: int, b: int|
                        0 <= a < b < new_raw.entries.len() && (#[trigger] new_raw.entries[a]).block_num != 0 implies new_raw.entries[a].block_num
                            != (#[trigger] new_raw.entries[b]).block_num by {
                        assert(table[a].block_num != 0);
                        assert(table[a].block_num != table[b].block_num);
                    }
                }
                assert forall|a: int|
                    0 <= a < MAX_DIR_ENTRIES && (#[trigger] table_at(image2, cwd)[a]).block_num != 0 implies child_ok(
                    image2,
                    l2,
                    cwd,
                    table_at(image2, cwd)[a].block_num as int,
                ) by {
                    assert(a != i);
                    assert(table[a].block_num != 0);
                    assert(child_ok(image, l, cwd, table[a].block_num as int));
                    if a < i {
                        assert(table[a].block_num != table[i].block_num);
                    } else {
                        assert(table[i].block_num != table[a].block_num);
                    }
                }
            } else {
                assert(image2[n] == image[n]);
                assert forall|a: int|
                    0 <= a < MAX_DIR_ENTRIES && (#[trigger] table_at(image2, n)[a]).block_num != 0 implies child_ok(
                    image2,
                    l2,
                    n,
                    table_at(image2, n)[a].block_num as int,
                ) by {
                    let c = table_at(image, n)[a].block_num as int;
                    assert(child_ok(image, l, n, c));
                    assert(l.owner[c] == n);
                }
            }
        }
        assert forall|n: int| 0 <= n < NUM_BLOCKS && #[trigger] l2.role[n] == Role::File implies file_ok(
            image2,
            l2,
            n,
        ) by {
            assert(image2[n] == image[n]);
            assert(file_ok(image, l, n));
            lemma_file_frame(image, image2, l, l2, n);
        }
        assert forall|n: int| 2 <= n < NUM_BLOCKS && #[trigger] l2.role[n] != Role::Free implies owned_ok(
            image2,
            l2,
            n,
        ) by {
            assert(owned_ok(image, l, n));
            let p = l.owner[n];
            assert(p != id);
            if p == cwd {
                let a = choose|a: int| 0 <= a < targets(table).len() && targets(table)[a] == n as usize;
                assert(a != i);
                assert(targets(table_at(image2, cwd))[a] == n as usize);
            } else {
                assert(image2[p] == image[p]);
            }
        }
        assert(layout_ok(image2, l2));
    }
}

/// In a sound state, where `create` succeeds, `rm` of the new file succeeds
/// too, and the file system is back where it was: the layout fits again, so
/// that the home directory leads to the same blocks as before, and the image
/// is the one from before but for what the block holds that was taken and
/// given back, which is free before and after.
#[verifier::rlimit(60)]
pub proof fn lemma_create_rm(s: FileSysView, l: Layout, name: Seq<u8>)
    requires
        state_ok(s, l),
        name.len() == MAX_FNAME_SIZE,
        new_entry_result(s, name, new_block_of(Role::File)).1 is None,
    ensures
        ({
            let id = first_free(s.image[0]);
            let made = FileSysView { image: new_entry_result(s, name, new_block_of(Role::File)).0, ..s };
            &&& is_free(s.image[0], id)
            &&& resolve_file(made, name) == Ok::<usize, FSError>(id as usize)
            &&& rm_result(made, name).1 is None
            &&& rm_result(made, name).0 == s.image.update(id, new_block_of(Role::File))
            &&& state_ok(FileSysView { image: rm_result(made, name).0, cwd: s.cwd }, l)
        }),
{
    let image = s.image;
    let cwd = s.cwd as int;
    let id = first_free(image[0]);
    let block = new_block_of(Role::File);
    lemma_new_entry_sound(s, l, name, Role::File);
    let l1 = with_block(l, id, Role::File, cwd);
    let image1 = new_entry_result(s, name, block).0;
    let made = FileSysView { image: image1, ..s };
    let raw = dir_block_read(image[cwd]);
    let e = EntryView { name, block_num: id as usize };
    let new_raw = with_entry(raw, e);
    assert(dir_ok(image, l, cwd));
    lemma_dir_loads(image, l, cwd);
    lemma_accurate_takes_entry(raw);
    lemma_with_entry_sound(raw, e);
    lemma_dir_block_stored(new_raw);
    lemma_empty_records_shaped();
    lemma_inode_stored(empty_inode());
    lemma_no_refs_used(empty_inode().blocks);
    let slot = first_at(targets(raw.entries), 0usize);
    assert(id >= 2 && id != cwd);
    assert(image1[cwd] == padded(dir_block_bytes(new_raw)));
    assert(image1[id] == block);
    let table1 = table_at(image1, cwd);
    assert(table1 == new_raw.entries);
    assert(table1[slot] == e);
    assert(leads_to(image1, table1[slot], INODE_MAGIC_NUM));
    lemma_named_entry(image1, table1, INODE_MAGIC_NUM, slot);
    lemma_dir_loads(image1, l1, cwd);
    lemma_file_loads(image1, l1, id);
    // No entry that leads to a directory holds the name.
    assert(!has_named(entries_to(image1, table1, DIR_MAGIC_NUM), name)) by {
        if has_named(entries_to(image1, table1, DIR_MAGIC_NUM), name) {
            let j = lemma_resolved_entry(image1, table1, DIR_MAGIC_NUM, name);
            if j < slot {
                assert(table1[j].name != table1[slot].name);
            } else if slot < j {
                assert(table1[slot].name != table1[j].name);
            }
        }
    }
    assert(resolve_file(made, name) == Ok::<usize, FSError>(id as usize));
    assert(!targets(raw.entries).contains(id as usize)) by {
        if targets(raw.entries).contains(id as usize) {
            let k = choose|k: int| 0 <= k < targets(raw.entries).len() && targets(raw.entries)[k] == id as usize;
            assert(raw.entries[k].block_num != 0);
            assert(child_ok(image, l, cwd, id));
        }
    }
    lemma_entry_added_and_freed(raw, e);
    lemma_clear_after_set(image[0], id);
    let ids = block_ids(file_at(image1, id).blocks).push(id as usize);
    assert(ids =~= seq![id as usize]);
    assert(ids.drop_last() =~= Seq::<usize>::empty());
    let unlinked = image1.update(cwd, padded(dir_block_bytes(with_slot_freed(new_raw, id as usize))));
    assert(unlinked[0] == set_bit(image[0], id));
    assert(cleared(unlinked[0], ids.drop_last()) == unlinked[0]);
    assert(ids.last() == id as usize);
    assert(cleared(unlinked[0], ids) == clear_bit(unlinked[0], id));
    assert(rm_result(made, name).1 is None);
    assert(rm_result(made, name).0 =~= image.update(id, block));
    lemma_layout_frame(image, rm_result(made, name).0, l, id);
}

} // verus!
