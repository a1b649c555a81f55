//! What holds of every directory and every file that the home directory of
//! a consistent image leads to, and what a listing depends on.

use vstd::prelude::*;
use crate::virtual_file_sys::block::{
    DIR_MAGIC_NUM, INODE_MAGIC_NUM, MAX_DATA_BLOCKS, MAX_DIR_ENTRIES, MAX_FILE_SIZE, NUM_BLOCKS,
};
use crate::virtual_file_sys::consistency::{
    child_ok, count_refs, dir_ok, file_ok, last_block_padded, layout_ok, lemma_dir_loads,
    lemma_file_loads, packed, refs_at, refs_distinct, table_at, targets_distinct, Layout,
};
use crate::virtual_file_sys::file_sys::{listing, FileSysView};
use crate::virtual_file_sys::growth::blocks_for;
use crate::virtual_file_sys::inode::{
    dir_at, dir_block_read, dir_load_error, file_load_error, inode_read,
};
use crate::virtual_file_sys::reach::{
    lemma_bitmap_accurate, reachable_data, reachable_dir, reachable_file,
};
use crate::virtual_file_sys::read_back::lemma_table_frame;
use crate::virtual_file_sys::record::record_first;
use crate::virtual_file_sys::stored::{count_used, names_unique};

verus! {

/// In a consistent image every directory that the home directory leads to
/// loads; its count is the number of its slots in use; no two of its slots
/// in use hold the same name or lead to the same block.
pub proof fn lemma_directories_sound(image: Seq<Seq<u8>>, l: Layout, n: int)
    requires
        layout_ok(image, l),
        reachable_dir(image, n),
    ensures
        dir_load_error(image, n) is None,
        dir_block_read(image[n]).num_entries == count_used(table_at(image, n)),
        names_unique(table_at(image, n)),
        targets_distinct(table_at(image, n)),
{
    lemma_bitmap_accurate(image, l);
    lemma_dir_loads(image, l, n);
    assert(dir_ok(image, l, n));
}

/// In a consistent image every file that the home directory leads to loads;
/// its size takes as many blocks as its inode has slots in use; the slots in
/// use come first and hold different blocks; and the last block holds zeros
/// behind the last bytes of the file.
pub proof fn lemma_files_sound(image: Seq<Seq<u8>>, l: Layout, n: int)
    requires
        layout_ok(image, l),
        reachable_file(image, n),
    ensures
        file_load_error(image, n) is None,
        blocks_for(inode_read(image[n]).size as int) == count_refs(refs_at(image, n)),
        inode_read(image[n]).size <= MAX_FILE_SIZE,
        packed(refs_at(image, n)),
        refs_distinct(refs_at(image, n)),
        last_block_padded(image, inode_read(image[n])),
{
    lemma_bitmap_accurate(image, l);
    lemma_file_loads(image, l, n);
    assert(file_ok(image, l, n));
    crate::virtual_file_sys::grown::lemma_packed_shape(refs_at(image, n));
}

/// In a consistent image every slot in use of a directory that the home
/// directory leads to leads to a block that opens with the magic number of
/// directories or with that of inodes, and that block is a directory or a
/// file accordingly and no data block. Every slot in use of a file that the
/// home directory leads to holds a block that is a data block and neither a
/// directory nor a file.
pub proof fn lemma_kinds_apart(image: Seq<Seq<u8>>, l: Layout)
    requires
        layout_ok(image, l),
    ensures
        forall|n: int, i: int|
            reachable_dir(image, n) && 0 <= i < MAX_DIR_ENTRIES && (#[trigger] table_at(image, n)[i]).block_num
                != 0 ==> {
                let t = table_at(image, n)[i].block_num as int;
                &&& record_first(image[t]) == DIR_MAGIC_NUM || record_first(image[t]) == INODE_MAGIC_NUM
                &&& record_first(image[t]) == DIR_MAGIC_NUM <==> reachable_dir(image, t)
                &&& record_first(image[t]) == INODE_MAGIC_NUM <==> reachable_file(image, t)
                &&& !reachable_data(image, t)
            },
        forall|n: int, k: int|
            reachable_file(image, n) && 0 <= k < MAX_DATA_BLOCKS && #[trigger] refs_at(image, n)[k] != 0 ==> {
                let r = refs_at(image, n)[k] as int;
                &&& reachable_data(image, r)
                &&& !reachable_dir(image, r)
                &&& !reachable_file(image, r)
            },
{
    lemma_bitmap_accurate(image, l);
    assert forall|n: int, i: int|
        reachable_dir(image, n) && 0 <= i < MAX_DIR_ENTRIES && (#[trigger] table_at(image, n)[i]).block_num
            != 0 implies {
        let t = table_at(image, n)[i].block_num as int;
        &&& record_first(image[t]) == DIR_MAGIC_NUM || record_first(image[t]) == INODE_MAGIC_NUM
        &&& record_first(image[t]) == DIR_MAGIC_NUM <==> reachable_dir(image, t)
        &&& record_first(image[t]) == INODE_MAGIC_NUM <==> reachable_file(image, t)
        &&& !reachable_data(image, t)
    } by {
        assert(dir_ok(image, l, n));
        let t = table_at(image, n)[i].block_num as int;
        assert(child_ok(image, l, n, t));
    }
    assert forall|n: int, k: int|
        reachable_file(image, n) && 0 <= k < MAX_DATA_BLOCKS && #[trigger] refs_at(image, n)[k] != 0 implies {
        let r = refs_at(image, n)[k] as int;
        &&& reachable_data(image, r)
        &&& !reachable_dir(image, r)
        &&& !reachable_file(image, r)
    } by {
        assert(file_ok(image, l, n));
    }
}

/// A listing depends on nothing but the entry table of the current working
/// directory and on what the blocks open with that its slots in use lead
/// to: two images that agree in these list the same, or fail to load the
/// directory in the same way.
pub proof fn lemma_listing_frame(s: FileSysView, other: FileSysView)
    requires
        s.cwd < NUM_BLOCKS,
        other.cwd < NUM_BLOCKS,
        s.image.len() == NUM_BLOCKS,
        other.image.len() == NUM_BLOCKS,
        s.image[s.cwd as int] == other.image[other.cwd as int],
        forall|i: int|
            0 <= i < table_at(s.image, s.cwd as int).len() && (#[trigger] table_at(s.image, s.cwd as int)[i]).block_num
                != 0 && table_at(s.image, s.cwd as int)[i].block_num < NUM_BLOCKS ==> record_first(
                other.image[table_at(s.image, s.cwd as int)[i].block_num as int],
            ) == record_first(s.image[table_at(s.image, s.cwd as int)[i].block_num as int]),
    ensures
        dir_load_error(other.image, other.cwd as int) == dir_load_error(s.image, s.cwd as int),
        listing(dir_at(other.image, other.cwd as int)) == listing(dir_at(s.image, s.cwd as int)),
{
    let table = table_at(s.image, s.cwd as int);
    lemma_table_frame(s.image, other.image, table, DIR_MAGIC_NUM);
    lemma_table_frame(s.image, other.image, table, INODE_MAGIC_NUM);
}

} // verus!
