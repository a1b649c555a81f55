//! What the records of the file system read back as once they are stored in
//! a block, and what the operations on one record keep true of it.

use vstd::prelude::*;
use crate::virtual_file_sys::block::{BLOCK_SIZE, MAX_DATA_BLOCKS, MAX_DIR_ENTRIES, MAX_FNAME_SIZE};
use crate::virtual_file_sys::inode::{
    dir_block_bytes, dir_block_read, dir_block_readable, empty_dir_block, empty_inode,
    entries_payload, first_at, free_entry, inode_bytes, inode_read, inode_readable, is_first_at,
    lemma_entries_round_trip, lemma_first_at_exists, lemma_refs_round_trip, names_full_width,
    payload_target, refs_payload, table_has_name, takes_entry, targets, with_entry, with_slot_freed,
    DirBlockView, EntryView, InodeView,
};
use crate::virtual_file_sys::record::{
    lemma_record_round_trip, padded, record_first, record_payload,
};

verus! {

/// Whether a record has the shape of a directory block: one slot per entry
/// of the table, each with a name of full width.
pub open spec fn dir_block_shaped(v: DirBlockView) -> bool {
    v.entries.len() == MAX_DIR_ENTRIES && names_full_width(v.entries)
}

/// Whether a record has the shape of an inode block: one slot per data block
/// that an inode can index.
pub open spec fn inode_shaped(v: InodeView) -> bool {
    v.blocks.len() == MAX_DATA_BLOCKS
}

/// A directory record that was written to a block reads back as it was, and
/// the block opens with the record's magic number.
pub proof fn lemma_dir_block_stored(v: DirBlockView)
    requires
        dir_block_shaped(v),
    ensures
        padded(dir_block_bytes(v)).len() == BLOCK_SIZE,
        dir_block_readable(padded(dir_block_bytes(v))),
        dir_block_read(padded(dir_block_bytes(v))) == v,
        record_first(padded(dir_block_bytes(v))) == v.magic,
{
    let payload = entries_payload(v.entries);
    let bytes = dir_block_bytes(v);
    let rest = Seq::new((BLOCK_SIZE - bytes.len()) as nat, |i: int| 0u8);
    lemma_entries_round_trip(v.entries);
    lemma_record_round_trip(v.magic as u64, v.num_entries as u64, payload, rest);
    assert(padded(bytes) == bytes + rest);
    assert forall|i: int| 0 <= i < MAX_DIR_ENTRIES implies #[trigger] payload_target(
        record_payload(padded(bytes)),
        i,
    ) <= usize::MAX by {
        assert(payload_target(payload, i) == v.entries[i].block_num);
    }
}

/// An inode record that was written to a block reads back as it was, and the
/// block opens with the record's magic number.
pub proof fn lemma_inode_stored(v: InodeView)
    requires
        inode_shaped(v),
    ensures
        padded(inode_bytes(v)).len() == BLOCK_SIZE,
        inode_readable(padded(inode_bytes(v))),
        inode_read(padded(inode_bytes(v))) == v,
        record_first(padded(inode_bytes(v))) == v.magic,
{
    let payload = refs_payload(v.blocks);
    let bytes = inode_bytes(v);
    let rest = Seq::new((BLOCK_SIZE - bytes.len()) as nat, |i: int| 0u8);
    lemma_refs_round_trip(v.blocks);
    lemma_record_round_trip(v.magic as u64, v.size as u64, payload, rest);
    assert(padded(bytes) == bytes + rest);
}

/// The records of an empty directory and of an empty file have the shapes of
/// their blocks.
pub proof fn lemma_empty_records_shaped()
    ensures
        dir_block_shaped(empty_dir_block()),
        inode_shaped(empty_inode()),
{
}

/// How many slots of a table are in use.
pub open spec fn count_used(entries: Seq<EntryView>) -> nat
    decreases entries.len(),
{
    if entries.len() == 0 {
        0
    } else if entries.last().block_num != 0 {
        count_used(entries.drop_last()) + 1
    } else {
        count_used(entries.drop_last())
    }
}

/// Whether the count that a directory record carries is the number of its
/// slots in use.
pub open spec fn count_accurate(v: DirBlockView) -> bool {
    v.num_entries == count_used(v.entries)
}

/// Whether no two slots in use of a table hold the same name.
pub open spec fn names_unique(entries: Seq<EntryView>) -> bool {
    forall|i: int, j: int|
        0 <= i < j < entries.len() && (#[trigger] entries[i]).block_num != 0 && (#[trigger] entries[j]).block_num
            != 0 ==> entries[i].name != entries[j].name
}

/// Whether every free slot of a table is blank: an all-zero name besides the
/// target of zero.
pub open spec fn free_slots_blank(entries: Seq<EntryView>) -> bool {
    forall|i: int|
        0 <= i < entries.len() && (#[trigger] entries[i]).block_num == 0 ==> entries[i] == free_entry()
}

/// Changing one slot changes the number of slots in use by what the slot
/// changes.
pub proof fn lemma_count_used_update(entries: Seq<EntryView>, i: int, e: EntryView)
    requires
        0 <= i < entries.len(),
    ensures
        count_used(entries) <= entries.len(),
        count_used(entries.update(i, e)) + (if entries[i].block_num != 0 {
            1int
        } else {
            0int
        }) == count_used(entries) + (if e.block_num != 0 {
            1int
        } else {
            0int
        }),
    decreases entries.len(),
{
    let after = entries.update(i, e);
    lemma_count_used_bound(entries);
    if i == entries.len() - 1 {
        assert(after.drop_last() =~= entries.drop_last());
    } else {
        assert(after.drop_last() =~= entries.drop_last().update(i, e));
        lemma_count_used_update(entries.drop_last(), i, e);
    }
}

/// No more slots are in use than there are slots; and where fewer are, a
/// slot is free.
pub proof fn lemma_count_used_bound(entries: Seq<EntryView>)
    ensures
        count_used(entries) <= entries.len(),
        count_used(entries) < entries.len() ==> targets(entries).contains(0usize),
        count_used(entries) == 0 ==> forall|i: int|
            0 <= i < entries.len() ==> (#[trigger] entries[i]).block_num == 0,
    decreases entries.len(),
{
    if entries.len() > 0 {
        let front = entries.drop_last();
        lemma_count_used_bound(front);
        if entries.last().block_num == 0 {
            assert(targets(entries)[entries.len() - 1] == 0usize);
        } else if count_used(entries) < entries.len() {
            let i = choose|i: int| 0 <= i < front.len() && targets(front)[i] == 0usize;
            assert(targets(entries)[i] == 0usize);
        }
        if count_used(entries) == 0 {
            assert forall|i: int| 0 <= i < entries.len() implies (#[trigger] entries[i]).block_num
                == 0 by {
                if i < front.len() {
                    assert(front[i].block_num == 0);
                }
            }
        }
    }
}

/// The record of an empty directory counts right, has no name twice and has
/// only blank free slots.
pub proof fn lemma_empty_dir_block_sound()
    ensures
        count_accurate(empty_dir_block()),
        names_unique(empty_dir_block().entries),
        free_slots_blank(empty_dir_block().entries),
        count_used(empty_dir_block().entries) == 0,
{
    lemma_count_zero(empty_dir_block().entries);
}

/// A table with no slot in use has a count of zero.
pub proof fn lemma_count_zero(entries: Seq<EntryView>)
    requires
        forall|i: int| 0 <= i < entries.len() ==> (#[trigger] entries[i]).block_num == 0,
    ensures
        count_used(entries) == 0,
    decreases entries.len(),
{
    if entries.len() > 0 {
        assert(entries.last() == entries[entries.len() - 1]);
        assert forall|i: int| 0 <= i < entries.drop_last().len() implies (#[trigger] entries.drop_last()[i]).block_num
            == 0 by {
            assert(entries[i].block_num == 0);
        }
        lemma_count_zero(entries.drop_last());
    }
}

/// A directory record that counts right and whose count is below the
/// table's size takes one more entry.
pub proof fn lemma_accurate_takes_entry(v: DirBlockView)
    requires
        dir_block_shaped(v),
        count_accurate(v),
        v.num_entries < MAX_DIR_ENTRIES,
    ensures
        takes_entry(v),
{
    lemma_count_used_bound(v.entries);
}

/// Adding an entry that leads somewhere, under a name of full width that no
/// slot in use holds, keeps a directory record sound: it keeps its shape, it
/// counts right, no name stands twice, and free slots stay blank.
pub proof fn lemma_with_entry_sound(v: DirBlockView, e: EntryView)
    requires
        dir_block_shaped(v),
        takes_entry(v),
        e.block_num != 0,
        e.name.len() == MAX_FNAME_SIZE,
    ensures
        dir_block_shaped(with_entry(v, e)),
        is_first_at(targets(v.entries), 0usize, first_at(targets(v.entries), 0usize)),
        count_accurate(v) ==> count_accurate(with_entry(v, e)),
        names_unique(v.entries) && !table_has_name(v.entries, e.name) ==> names_unique(
            with_entry(v, e).entries,
        ),
        free_slots_blank(v.entries) ==> free_slots_blank(with_entry(v, e).entries),
{
    lemma_first_at_exists(targets(v.entries), 0usize);
    let i = first_at(targets(v.entries), 0usize);
    assert(targets(v.entries)[i] == 0usize);
    lemma_count_used_update(v.entries, i, e);
    let after = with_entry(v, e).entries;
    if names_unique(v.entries) && !table_has_name(v.entries, e.name) {
        assert forall|a: int, b: int|
            0 <= a < b < after.len() && (#[trigger] after[a]).block_num != 0 && (#[trigger] after[b]).block_num
                != 0 implies after[a].name != after[b].name by {
            if a == i {
                assert(v.entries[b].block_num != 0);
            } else if b == i {
                assert(v.entries[a].block_num != 0);
            } else {
                assert(v.entries[a].block_num != 0 && v.entries[b].block_num != 0);
            }
        }
    }
    if free_slots_blank(v.entries) {
        assert forall|a: int| 0 <= a < after.len() && (#[trigger] after[a]).block_num == 0 implies after[a]
            == free_entry() by {
            assert(v.entries[a].block_num == 0);
        }
    }
}

/// Freeing the slot that leads to a block keeps a directory record sound.
pub proof fn lemma_with_slot_freed_sound(v: DirBlockView, id: usize)
    requires
        dir_block_shaped(v),
        id != 0,
        targets(v.entries).contains(id),
        v.num_entries > 0,
    ensures
        dir_block_shaped(with_slot_freed(v, id)),
        is_first_at(targets(v.entries), id, first_at(targets(v.entries), id)),
        count_accurate(v) ==> count_accurate(with_slot_freed(v, id)),
        names_unique(v.entries) ==> names_unique(with_slot_freed(v, id).entries),
        free_slots_blank(v.entries) ==> free_slots_blank(with_slot_freed(v, id).entries),
{
    lemma_first_at_exists(targets(v.entries), id);
    let i = first_at(targets(v.entries), id);
    assert(targets(v.entries)[i] == id);
    lemma_count_used_update(v.entries, i, free_entry());
    let after = with_slot_freed(v, id).entries;
    if names_unique(v.entries) {
        assert forall|a: int, b: int|
            0 <= a < b < after.len() && (#[trigger] after[a]).block_num != 0 && (#[trigger] after[b]).block_num
                != 0 implies after[a].name != after[b].name by {
            assert(v.entries[a].block_num != 0 && v.entries[b].block_num != 0);
        }
    }
    if free_slots_blank(v.entries) {
        assert forall|a: int| 0 <= a < after.len() && (#[trigger] after[a]).block_num == 0 implies after[a]
            == free_entry() by {
            if a != i {
                assert(v.entries[a].block_num == 0);
            }
        }
    }
}

/// Adding an entry to a blank free slot and freeing that slot again gives
/// the record back as it was.
pub proof fn lemma_entry_added_and_freed(v: DirBlockView, e: EntryView)
    requires
        dir_block_shaped(v),
        takes_entry(v),
        free_slots_blank(v.entries),
        e.block_num != 0,
        !targets(v.entries).contains(e.block_num),
    ensures
        with_slot_freed(with_entry(v, e), e.block_num) == v,
{
    lemma_first_at_exists(targets(v.entries), 0usize);
    let i = first_at(targets(v.entries), 0usize);
    let added = with_entry(v, e);
    assert(targets(v.entries)[i] == 0usize);
    assert(v.entries[i] == free_entry());
    assert(is_first_at(targets(added.entries), e.block_num, i)) by {
        assert forall|j: int| 0 <= j < i implies targets(added.entries)[j] != e.block_num by {
            assert(targets(v.entries)[j] == added.entries[j].block_num);
        }
    }
    crate::virtual_file_sys::inode::lemma_first_at(targets(added.entries), e.block_num, i);
    assert(with_slot_freed(added, e.block_num).entries =~= v.entries);
}

} // verus!
