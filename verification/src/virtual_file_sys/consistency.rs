//! What makes an image a consistent file system, and that a consistent image
//! marks in its bitmap exactly the blocks that the home directory leads to.
//!
//! Consistency is stated with the help of a layout: for each block the part
//! it plays, the block that refers to it, and how far it is from the home
//! directory. An image is consistent when some layout fits it.

use vstd::prelude::*;
use crate::virtual_file_sys::bitmap::{allocated, bit_is_set, initial_bitmap, lemma_initial_bitmap};
use crate::virtual_file_sys::block::{
    BLOCK_SIZE, DIR_MAGIC_NUM, INODE_MAGIC_NUM, MAX_DATA_BLOCKS, MAX_DIR_ENTRIES, NUM_BLOCKS,
};
use crate::virtual_file_sys::disk::image_wf;
use crate::virtual_file_sys::file_sys::{formatted_image, mounted_image, FileSysView};
use crate::virtual_file_sys::growth::blocks_for;
use crate::virtual_file_sys::inode::{
    dir_block_bytes, dir_block_read, dir_block_readable, dir_load_error, empty_dir_block,
    file_load_error, inode_bytes, inode_read, inode_readable, names_full_width, table_error,
    targets, used_refs, EntryView, InodeView, HOME_DIR_ID,
};
use crate::virtual_file_sys::record::{padded, record_first};
use crate::virtual_file_sys::stored::{
    count_accurate, count_used, free_slots_blank, lemma_dir_block_stored,
    lemma_empty_dir_block_sound, lemma_empty_records_shaped, names_unique,
};

verus! {

/// The part that a block plays.
pub enum Role {
    /// Not in use.
    Free,
    /// The block of the bitmap.
    Super,
    /// A directory block.
    Dir,
    /// An inode block.
    File,
    /// A data block of a file.
    Data,
}

/// For each block of an image the part it plays, the block that refers to
/// it, and how many references lead to it from the home directory.
pub struct Layout {
    pub role: Seq<Role>,
    pub owner: Seq<int>,
    pub depth: Seq<nat>,
}

/// The entry table of the directory in block `n`.
pub open spec fn table_at(image: Seq<Seq<u8>>, n: int) -> Seq<EntryView> {
    dir_block_read(image[n]).entries
}

/// The slots of the inode in block `n`.
pub open spec fn refs_at(image: Seq<Seq<u8>>, n: int) -> Seq<u16> {
    inode_read(image[n]).blocks
}

/// Whether no two slots in use of a table lead to the same block.
pub open spec fn targets_distinct(entries: Seq<EntryView>) -> bool {
    forall|i: int, j: int|
        0 <= i < j < entries.len() && (#[trigger] entries[i]).block_num != 0 ==> entries[i].block_num
            != (#[trigger] entries[j]).block_num
}

/// Whether the slots in use come first: behind an unused slot every slot is
/// unused.
pub open spec fn packed(blocks: Seq<u16>) -> bool {
    forall|i: int, j: int| 0 <= i < j < blocks.len() && #[trigger] blocks[i] == 0 ==> #[trigger] blocks[j] == 0
}

/// Whether no two slots in use hold the same block.
pub open spec fn refs_distinct(blocks: Seq<u16>) -> bool {
    forall|i: int, j: int|
        0 <= i < j < blocks.len() && #[trigger] blocks[i] != 0 ==> blocks[i] != #[trigger] blocks[j]
}

/// How many slots are in use.
pub open spec fn count_refs(blocks: Seq<u16>) -> nat {
    used_refs(blocks).len()
}

/// Whether the size of a file is covered by its data blocks exactly: it
/// takes as many blocks as the inode has slots in use.
pub open spec fn size_accurate(size: usize, blocks: Seq<u16>) -> bool {
    blocks_for(size as int) == count_refs(blocks)
}

/// Whether the last data block of a file, where the file does not fill it,
/// holds zeros behind the last bytes of the file.
pub open spec fn last_block_padded(image: Seq<Seq<u8>>, v: InodeView) -> bool {
    v.size % BLOCK_SIZE != 0 && count_refs(v.blocks) > 0 ==> forall|j: int|
        v.size % BLOCK_SIZE <= j < BLOCK_SIZE ==> #[trigger] image[v.blocks[count_refs(v.blocks) - 1] as int][j]
            == 0u8
}

/// Whether block `t`, which a slot of the directory in block `n` leads to,
/// is what the layout says: a directory or a file, one step further from
/// home than `n`, referred to by `n`, and opening with the magic number of
/// its kind.
pub open spec fn child_ok(image: Seq<Seq<u8>>, l: Layout, n: int, t: int) -> bool {
    &&& 2 <= t < NUM_BLOCKS
    &&& l.owner[t] == n
    &&& l.depth[t] == l.depth[n] + 1
    &&& (l.role[t] == Role::Dir && record_first(image[t]) == DIR_MAGIC_NUM) || (l.role[t]
        == Role::File && record_first(image[t]) == INODE_MAGIC_NUM)
}

/// Whether block `n` is a sound directory block: it opens with the magic
/// number of directories and holds a directory record and zeros behind it,
/// nothing else; the record's count is
/// the number of its slots in use; no name stands twice; free slots are
/// blank; no two slots lead to the same block; and every slot in use leads
/// to a child.
pub open spec fn dir_ok(image: Seq<Seq<u8>>, l: Layout, n: int) -> bool {
    &&& record_first(image[n]) == DIR_MAGIC_NUM
    &&& dir_block_readable(image[n])
    &&& image[n] == padded(dir_block_bytes(dir_block_read(image[n])))
    &&& names_full_width(table_at(image, n))
    &&& count_accurate(dir_block_read(image[n]))
    &&& names_unique(table_at(image, n))
    &&& free_slots_blank(table_at(image, n))
    &&& targets_distinct(table_at(image, n))
    &&& forall|i: int|
        0 <= i < MAX_DIR_ENTRIES && (#[trigger] table_at(image, n)[i]).block_num != 0 ==> child_ok(
            image,
            l,
            n,
            table_at(image, n)[i].block_num as int,
        )
}

/// Whether block `n` is a sound inode block: it opens with the magic number
/// of inodes and holds an inode record and zeros behind it, nothing else; the
/// slots in use come first and hold
/// different blocks; the size takes as many blocks as there are slots in
/// use; and every slot in use holds a data block of this file.
pub open spec fn file_ok(image: Seq<Seq<u8>>, l: Layout, n: int) -> bool {
    &&& record_first(image[n]) == INODE_MAGIC_NUM
    &&& inode_readable(image[n])
    &&& image[n] == padded(inode_bytes(inode_read(image[n])))
    &&& packed(refs_at(image, n))
    &&& refs_distinct(refs_at(image, n))
    &&& size_accurate(inode_read(image[n]).size, refs_at(image, n))
    &&& last_block_padded(image, inode_read(image[n]))
    &&& forall|k: int|
        0 <= k < MAX_DATA_BLOCKS && #[trigger] refs_at(image, n)[k] != 0 ==> {
            &&& 2 <= refs_at(image, n)[k] < NUM_BLOCKS
            &&& l.role[refs_at(image, n)[k] as int] == Role::Data
            &&& l.owner[refs_at(image, n)[k] as int] == n
        }
}

/// Whether block `n`, which is in use and not the home directory, is
/// referred to by its owner: a directory or a file by a slot of a
/// directory, a data block by a slot of an inode.
pub open spec fn owned_ok(image: Seq<Seq<u8>>, l: Layout, n: int) -> bool {
    &&& 1 <= l.owner[n] < NUM_BLOCKS
    &&& match l.role[n] {
        Role::Dir | Role::File => l.role[l.owner[n]] == Role::Dir && targets(
            table_at(image, l.owner[n]),
        ).contains(n as usize),
        Role::Data => l.role[l.owner[n]] == Role::File && refs_at(image, l.owner[n]).contains(
            n as u16,
        ),
        _ => false,
    }
}

/// Whether the layout fits the image: block 0 is the bitmap and block 1 the
/// home directory; the bitmap marks exactly the blocks in use; every
/// directory and every inode is sound; and every other block in use is
/// referred to by its owner.
pub open spec fn layout_ok(image: Seq<Seq<u8>>, l: Layout) -> bool {
    &&& image_wf(image)
    &&& l.role.len() == NUM_BLOCKS
    &&& l.owner.len() == NUM_BLOCKS
    &&& l.depth.len() == NUM_BLOCKS
    &&& l.role[0] == Role::Super
    &&& l.role[HOME_DIR_ID as int] == Role::Dir
    &&& l.depth[HOME_DIR_ID as int] == 0
    &&& forall|n: int| 0 <= n < NUM_BLOCKS ==> bit_is_set(image[0], n) == (#[trigger] l.role[n] != Role::Free)
    &&& forall|n: int| 1 <= n < NUM_BLOCKS ==> #[trigger] l.role[n] != Role::Super
    &&& forall|n: int| 0 <= n < NUM_BLOCKS && #[trigger] l.role[n] == Role::Dir ==> dir_ok(image, l, n)
    &&& forall|n: int| 0 <= n < NUM_BLOCKS && #[trigger] l.role[n] == Role::File ==> file_ok(image, l, n)
    &&& forall|n: int|
        2 <= n < NUM_BLOCKS && #[trigger] l.role[n] != Role::Free ==> owned_ok(image, l, n)
}

/// Whether the image is a consistent file system: some layout fits it.
pub open spec fn consistent(image: Seq<Seq<u8>>) -> bool {
    exists|l: Layout| #[trigger] layout_ok(image, l)
}

/// Whether the state is sound under the layout: the layout fits the image
/// and the current working directory is a directory.
pub open spec fn state_ok(s: FileSysView, l: Layout) -> bool {
    &&& layout_ok(s.image, l)
    &&& s.cwd < NUM_BLOCKS
    &&& l.role[s.cwd as int] == Role::Dir
}

/// The layout of a new image: the bitmap, the home directory, and nothing
/// else in use.
pub open spec fn initial_layout() -> Layout {
    Layout {
        role: Seq::new(
            NUM_BLOCKS as nat,
            |n: int|
                if n == 0 {
                    Role::Super
                } else if n == 1 {
                    Role::Dir
                } else {
                    Role::Free
                },
        ),
        owner: Seq::new(NUM_BLOCKS as nat, |n: int| 0int),
        depth: Seq::new(NUM_BLOCKS as nat, |n: int| 0nat),
    }
}

/// The image of an empty file system is consistent, and with the home
/// directory as the current one it is a sound state.
pub proof fn lemma_formatted_consistent()
    ensures
        layout_ok(formatted_image(), initial_layout()),
        consistent(formatted_image()),
        state_ok(
            FileSysView { image: formatted_image(), cwd: HOME_DIR_ID as usize },
            initial_layout(),
        ),
{
    let image = formatted_image();
    let l = initial_layout();
    lemma_initial_bitmap();
    lemma_empty_records_shaped();
    lemma_dir_block_stored(empty_dir_block());
    lemma_empty_dir_block_sound();
    assert(image_wf(image));
    assert forall|n: int| 0 <= n < NUM_BLOCKS implies bit_is_set(image[0], n) == (#[trigger] l.role[n]
        != Role::Free) by {
        assert(allocated(initial_bitmap()).contains(n) == set![0int, 1int].contains(n));
    }
    assert(dir_ok(image, l, 1)) by {
        assert forall|i: int| 0 <= i < MAX_DIR_ENTRIES implies (#[trigger] table_at(image, 1)[i]).block_num
            == 0 by {}
    }
    assert(layout_ok(image, l));
}

/// Mounting a new backing file gives a sound state: an empty file system
/// with the home directory as the current one.
pub proof fn lemma_new_image_sound()
    ensures
        mounted_image(Seq::<u8>::empty()) == formatted_image(),
        state_ok(
            FileSysView { image: mounted_image(Seq::<u8>::empty()), cwd: HOME_DIR_ID as usize },
            initial_layout(),
        ),
{
    lemma_formatted_consistent();
}

/// In a sound state `home` leads to a sound state.
pub proof fn lemma_home_sound(s: FileSysView, l: Layout)
    requires
        state_ok(s, l),
    ensures
        state_ok(FileSysView { cwd: HOME_DIR_ID as usize, ..s }, l),
{
}

/// A sound inode is sound as well in an image that holds the same in the
/// inode block and in the file's data blocks, under a layout that says the
/// same of the data blocks.
pub proof fn lemma_file_frame(image: Seq<Seq<u8>>, other: Seq<Seq<u8>>, l: Layout, after: Layout, n: int)
    requires
        file_ok(image, l, n),
        other[n] == image[n],
        forall|k: int|
            0 <= k < MAX_DATA_BLOCKS && #[trigger] refs_at(image, n)[k] != 0 ==> {
                &&& other[refs_at(image, n)[k] as int] == image[refs_at(image, n)[k] as int]
                &&& after.role[refs_at(image, n)[k] as int] == l.role[refs_at(image, n)[k] as int]
                &&& after.owner[refs_at(image, n)[k] as int] == l.owner[refs_at(image, n)[k] as int]
            },
    ensures
        file_ok(other, after, n),
{
    let v = inode_read(image[n]);
    let refs = refs_at(image, n);
    crate::virtual_file_sys::grown::lemma_packed_shape(refs);
    if v.size % BLOCK_SIZE != 0 && count_refs(refs) > 0 {
        assert(refs[count_refs(refs) - 1] != 0);
        assert(refs_at(image, n)[count_refs(refs) - 1] != 0);
    }
    assert forall|k: int|
        0 <= k < MAX_DATA_BLOCKS && #[trigger] refs_at(other, n)[k] != 0 implies after.role[refs_at(other, n)[k] as int]
        == Role::Data && after.owner[refs_at(other, n)[k] as int] == n by {
        assert(refs_at(image, n)[k] != 0);
    }
}

/// A sound directory loads.
pub proof fn lemma_dir_loads(image: Seq<Seq<u8>>, l: Layout, n: int)
    requires
        layout_ok(image, l),
        0 <= n < NUM_BLOCKS,
        l.role[n] == Role::Dir,
    ensures
        dir_load_error(image, n) is None,
{
    lemma_table_sound(image, l, n, MAX_DIR_ENTRIES as int);
    assert(table_at(image, n).take(MAX_DIR_ENTRIES as int) =~= table_at(image, n));
}

/// The first `k` slots of a sound directory have nothing wrong.
proof fn lemma_table_sound(image: Seq<Seq<u8>>, l: Layout, n: int, k: int)
    requires
        layout_ok(image, l),
        0 <= n < NUM_BLOCKS,
        l.role[n] == Role::Dir,
        0 <= k <= MAX_DIR_ENTRIES,
    ensures
        table_error(image, table_at(image, n).take(k)) is None,
    decreases k,
{
    let table = table_at(image, n);
    if k > 0 {
        lemma_table_sound(image, l, n, k - 1);
        assert(table.take(k).drop_last() =~= table.take(k - 1));
        assert(table.take(k).last() == table[k - 1]);
        if table[k - 1].block_num != 0 {
            assert(child_ok(image, l, n, table[k - 1].block_num as int));
        }
    }
}

/// A sound inode loads.
pub proof fn lemma_file_loads(image: Seq<Seq<u8>>, l: Layout, n: int)
    requires
        layout_ok(image, l),
        0 <= n < NUM_BLOCKS,
        l.role[n] == Role::File,
    ensures
        file_load_error(image, n) is None,
{
    assert(file_ok(image, l, n));
    assert forall|k: int| 0 <= k < refs_at(image, n).len() implies #[trigger] refs_at(image, n)[k]
        < NUM_BLOCKS by {}
}

} // verus!
