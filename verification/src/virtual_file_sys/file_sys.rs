//! The file system over the image: the block allocator and the operations on
//! the name space.

use vstd::prelude::*;
use vstd::slice::slice_subrange;
use vstd::utf8::{encode_utf8, valid_utf8};
use crate::error::{error_of, FSError};
use crate::virtual_file_sys::bitmap::{
    bit_is_set, clear_bit, find_free, first_free, has_free, initial_bitmap, is_first_free,
    lemma_first_free_unique, set_bit,
};
use crate::virtual_file_sys::block::{
    BlockBinary, DataBlockView, BLOCK_SIZE, MAX_DIR_ENTRIES, MAX_FILE_SIZE, MAX_FNAME_SIZE,
    NUM_BLOCKS,
};
use crate::virtual_file_sys::disk::{blocks_of, image_wf, Disk};
use crate::virtual_file_sys::growth::{
    allocate_blocks, blocks_for, can_take, count_free_slots, free_slots, lemma_taken_len, refilled,
    register_blocks, taken, taken_ids, with_chunks, with_refs, write_chunks,
};
use crate::virtual_file_sys::inode::{
    block_ids, block_views, dir_at, dir_block_bytes, dir_entry_views, dir_load_error,
    empty_dir_block, empty_inode, file_at, file_load_error, first_at, inode_bytes,
    lemma_entries_to_members, lemma_first_at, lemma_member_target, names, same_name, table_has_name,
    takes_entry, with_entry, with_slot_freed, DirBlock, DirEntry, DirInode, DirInodeView, EntryView,
    FileInode, FileInodeView, InodeView, HOME_DIR_ID,
};
use crate::virtual_file_sys::record::{pad_block, padded};

verus! {

/// A block of zero bytes.
pub open spec fn zero_block() -> Seq<u8> {
    Seq::new(BLOCK_SIZE as nat, |i: int| 0u8)
}

/// The image of an empty file system: the bitmap with blocks 0 and 1 taken,
/// an empty home directory in block 1, and zeros everywhere else.
pub open spec fn formatted_image() -> Seq<Seq<u8>> {
    Seq::new(
        NUM_BLOCKS as nat,
        |n: int|
            if n == 0 {
                initial_bitmap()
            } else if n == 1 {
                padded(dir_block_bytes(empty_dir_block()))
            } else {
                zero_block()
            },
    )
}

/// Whether the bytes of a backing file hold a file system already: the file
/// is not new and its bitmap marks block 0 as taken.
pub open spec fn holds_file_system(bytes: Seq<u8>) -> bool {
    bytes.len() != 0 && bit_is_set(blocks_of(bytes)[0], 0)
}

/// The image that mounting the bytes of a backing file gives: the bytes as
/// they are where they hold a file system, an empty file system otherwise.
pub open spec fn mounted_image(bytes: Seq<u8>) -> Seq<Seq<u8>> {
    if holds_file_system(bytes) {
        blocks_of(bytes)
    } else {
        formatted_image()
    }
}

/// The image together with its free-space bitmap: hands out and takes back
/// blocks, and reads and writes them.
pub struct BasicFileSys {
    disk: Disk,
}

impl View for BasicFileSys {
    type V = Seq<Seq<u8>>;

    closed spec fn view(&self) -> Seq<Seq<u8>> {
        self.disk@
    }
}

impl BasicFileSys {
    /// The view always has the shape of an image.
    pub proof fn lemma_view_wf(&self)
        ensures
            image_wf(self@),
    {
        self.disk.lemma_view_wf();
    }

    /// Mounts the bytes of the backing file. Bytes that hold a file system
    /// are used as they are; a new file, or one whose bitmap does not mark
    /// block 0, is formatted. Fails with `IOError` exactly when the file is
    /// neither empty nor one image long.
    pub fn mount(image: Vec<u8>) -> (r: Result<Self, FSError>)
        ensures
            r is Ok <==> image@.len() == 0 || image@.len() == NUM_BLOCKS * BLOCK_SIZE,
            r matches Ok(fs) ==> fs@ == mounted_image(image@),
            r matches Err(e) ==> e == FSError::IOError,
    {
        let ghost bytes = image@;
        let is_new = image.len() == 0;
        let mut disk = match Disk::mount(image) {
            Ok(disk) => disk,
            Err(e) => {
                return Err(e);
            },
        };
        proof {
            disk.lemma_view_wf();
        }
        let mut super_block: Vec<u8> = Vec::new();
        let _ = disk.read_block(0, &mut super_block);
        if !is_new && super_block[0] & 1u8 != 0 {
            proof {
                assert(1u8 << 0u8 == 1u8) by (bit_vector);
            }
            return Ok(BasicFileSys { disk });
        }
        proof {
            assert(1u8 << 0u8 == 1u8) by (bit_vector);
            if bytes.len() == 0 {
                assert(disk@[0][0] == 0u8);
                assert(0u8 & 1u8 == 0u8) by (bit_vector);
            }
            assert(!holds_file_system(bytes));
        }
        let mut fresh: Vec<u8> = vec![0u8; BLOCK_SIZE];
        assert(fresh@ =~= zero_block());
        let mut n: usize = 2;
        while n < NUM_BLOCKS
            invariant
                2 <= n <= NUM_BLOCKS,
                fresh@ == zero_block(),
                image_wf(disk@),
                forall|m: int| 2 <= m < n ==> #[trigger] disk@[m] == zero_block(),
            decreases NUM_BLOCKS - n,
        {
            let _ = disk.write_block(n, &fresh);
            n += 1;
        }
        fresh[0] = 3u8;
        assert(fresh@ =~= initial_bitmap());
        let _ = disk.write_block(0, &fresh);
        let home = match DirBlock::new().to_bytes() {
            Ok(bytes) => bytes,
            Err(e) => {
                return Err(e);
            },
        };
        let home = match pad_block(home) {
            Ok(block) => block,
            Err(e) => {
                return Err(e);
            },
        };
        let _ = disk.write_block(1, &home);
        assert(disk@ =~= formatted_image());
        Ok(BasicFileSys { disk })
    }

    /// Gives the image back as the bytes of the backing file.
    pub fn unmount(self) -> (image: Vec<u8>)
        ensures
            image@.len() == NUM_BLOCKS * BLOCK_SIZE,
            blocks_of(image@) == self@,
    {
        proof {
            self.disk.lemma_view_wf();
        }
        self.disk.unmount()
    }

    /// A copy of the image as the bytes of the backing file.
    pub fn snapshot(&self) -> (image: Vec<u8>)
        ensures
            image@.len() == NUM_BLOCKS * BLOCK_SIZE,
            blocks_of(image@) == self@,
    {
        proof {
            self.disk.lemma_view_wf();
        }
        self.disk.snapshot()
    }

    /// Takes the lowest free block: marks it in the bitmap, writes the bitmap
    /// back and returns the block's id. `None`, with nothing changed, when no
    /// block is free.
    pub fn get_free_block(&mut self) -> (r: Option<usize>)
        ensures
            match r {
                Some(id) => {
                    &&& is_first_free(old(self)@[0], id as int)
                    &&& final(self)@ == old(self)@.update(0, set_bit(old(self)@[0], id as int))
                },
                None => !has_free(old(self)@[0]) && final(self)@ == old(self)@,
            },
    {
        proof {
            self.disk.lemma_view_wf();
        }
        let mut super_block: Vec<u8> = Vec::new();
        let _ = self.disk.read_block(0, &mut super_block);
        match find_free(&super_block) {
            Some(id) => {
                let byte: usize = id / 8;
                let bit: u8 = (id % 8) as u8;
                super_block[byte] = super_block[byte] | (1u8 << bit);
                assert(super_block@ =~= set_bit(old(self)@[0], id as int));
                let _ = self.disk.write_block(0, &super_block);
                Some(id)
            },
            None => None,
        }
    }

    /// Marks block `block_num` as free and writes the bitmap back; a block
    /// that is free already stays so. Fails with `BlockError`, with nothing
    /// changed, when the image has no such block.
    pub fn reclaim_block(&mut self, block_num: usize) -> (r: Result<(), FSError>)
        ensures
            block_num < NUM_BLOCKS ==> r is Ok && final(self)@ == old(self)@.update(
                0,
                clear_bit(old(self)@[0], block_num as int),
            ),
            block_num >= NUM_BLOCKS ==> r == Err::<(), FSError>(FSError::BlockError) && final(self)@ == old(
                self,
            )@,
    {
        if block_num >= NUM_BLOCKS {
            return Err(FSError::BlockError);
        }
        proof {
            self.disk.lemma_view_wf();
        }
        let mut super_block: Vec<u8> = Vec::new();
        let _ = self.disk.read_block(0, &mut super_block);
        let byte: usize = block_num / 8;
        let bit: u8 = (block_num % 8) as u8;
        super_block[byte] = super_block[byte] & !(1u8 << bit);
        assert(super_block@ =~= clear_bit(old(self)@[0], block_num as int));
        let _ = self.disk.write_block(0, &super_block);
        Ok(())
    }

    /// Copies block `block_num` into `block`. Fails with `BlockError`,
    /// leaving `block` as it was, when the image has no such block.
    pub fn read_block(&self, block_num: usize, block: &mut Vec<u8>) -> (r: Result<(), FSError>)
        ensures
            block_num < NUM_BLOCKS ==> r is Ok && final(block)@ == self@[block_num as int],
            block_num >= NUM_BLOCKS ==> r == Err::<(), FSError>(FSError::BlockError) && final(block)@ == old(
                block,
            )@,
    {
        self.disk.read_block(block_num, block)
    }

    /// Replaces block `block_num` by `block`. Fails with `BlockError`, with
    /// nothing changed, when the image has no such block or `block` is not
    /// exactly one block long.
    pub fn write_block(&mut self, block_num: usize, block: &Vec<u8>) -> (r: Result<(), FSError>)
        ensures
            block_num < NUM_BLOCKS && block@.len() == BLOCK_SIZE ==> r is Ok && final(self)@ == old(
                self,
            )@.update(block_num as int, block@),
            !(block_num < NUM_BLOCKS && block@.len() == BLOCK_SIZE) ==> r == Err::<(), FSError>(
                FSError::BlockError,
            ) && final(self)@ == old(self)@,
    {
        self.disk.write_block(block_num, block)
    }
}

/// The owner of the image that the handles work through.
pub struct WrappedFileSys {
    bfs: BasicFileSys,
}

impl View for WrappedFileSys {
    type V = Seq<Seq<u8>>;

    closed spec fn view(&self) -> Seq<Seq<u8>> {
        self.bfs@
    }
}

impl WrappedFileSys {
    /// The view always has the shape of an image.
    pub proof fn lemma_view_wf(&self)
        ensures
            image_wf(self@),
    {
        self.bfs.lemma_view_wf();
    }

    /// Mounts the bytes of the backing file, as `BasicFileSys::mount` does.
    pub fn new(image: Vec<u8>) -> (r: Result<Self, FSError>)
        ensures
            r is Ok <==> image@.len() == 0 || image@.len() == NUM_BLOCKS * BLOCK_SIZE,
            r matches Ok(fs) ==> fs@ == mounted_image(image@),
            r matches Err(e) ==> e == FSError::IOError,
    {
        match BasicFileSys::mount(image) {
            Ok(bfs) => Ok(WrappedFileSys { bfs }),
            Err(e) => Err(e),
        }
    }

    /// The file system inside, to read it.
    pub fn file_sys_ref(&self) -> (bfs: &BasicFileSys)
        ensures
            bfs@ == self@,
    {
        &self.bfs
    }

    /// The file system inside, to read and change it.
    pub fn file_sys(&mut self) -> (bfs: &mut BasicFileSys)
        ensures
            bfs@ == old(self)@,
            final(self)@ == final(bfs)@,
    {
        &mut self.bfs
    }

    /// Gives up the wrapper for the file system inside.
    pub fn into_inner(self) -> (bfs: BasicFileSys)
        ensures
            bfs@ == self@,
    {
        self.bfs
    }
}

/// What the file system is at a moment: the image and the block of the
/// current working directory.
pub struct FileSysView {
    pub image: Seq<Seq<u8>>,
    pub cwd: usize,
}

/// Whether a name is empty: nothing but zero padding.
pub open spec fn name_is_empty(name: Seq<u8>) -> bool {
    forall|j: int| 0 <= j < name.len() ==> name[j] == 0u8
}

/// Whether an entry of the list holds `name`.
pub open spec fn has_named(entries: Seq<EntryView>, name: Seq<u8>) -> bool {
    names(entries).contains(name)
}

/// The first entry of the list that holds `name`.
pub open spec fn entry_named(entries: Seq<EntryView>, name: Seq<u8>) -> EntryView {
    entries[first_at(names(entries), name)]
}

/// Why the directory cannot take a new entry called `name`, if it cannot: its
/// count has reached the table's size, a slot in use holds the name already,
/// or the name is empty.
pub open spec fn new_entry_error(dir: DirInodeView, name: Seq<u8>) -> Option<FSError> {
    if dir.raw.num_entries >= MAX_DIR_ENTRIES {
        Some(FSError::DirFullError)
    } else if table_has_name(dir.raw.entries, name) {
        Some(FSError::FileExistsError)
    } else if name_is_empty(name) {
        Some(FSError::FileNameTooLongError)
    } else {
        None
    }
}

/// The image after the lowest free block was taken and `block` written to it.
pub open spec fn with_new_block(image: Seq<Seq<u8>>, block: Seq<u8>) -> Seq<Seq<u8>> {
    image.update(0, set_bit(image[0], first_free(image[0]))).update(first_free(image[0]), block)
}

/// The image after the directory in block `cwd` received `entry` in its
/// first free slot.
pub open spec fn with_entry_added(image: Seq<Seq<u8>>, dir: DirInodeView, entry: EntryView) -> Seq<Seq<u8>> {
    image.update(dir.id as int, padded(dir_block_bytes(with_entry(dir.raw, entry))))
}

/// What creating something called `name` in the current working directory
/// does, where `block` is what the new block holds at first: the image
/// afterwards and the error, if it fails. In this order: the directory must
/// load; it must be able to take the entry; a block must be free. Then the
/// lowest free block is taken and `block` written to it. If the directory
/// then has no free slot after all, the new block stays taken and the result
/// is `DirFullError`; else the entry goes into the first free slot.
pub open spec fn new_entry_result(s: FileSysView, name: Seq<u8>, block: Seq<u8>) -> (
    Seq<Seq<u8>>,
    Option<FSError>,
) {
    let dir = dir_at(s.image, s.cwd as int);
    let taken = with_new_block(s.image, block);
    let entry = EntryView { name, block_num: first_free(s.image[0]) as usize };
    if dir_load_error(s.image, s.cwd as int) is Some {
        (s.image, dir_load_error(s.image, s.cwd as int))
    } else if new_entry_error(dir, name) is Some {
        (s.image, new_entry_error(dir, name))
    } else if !has_free(s.image[0]) {
        (s.image, Some(FSError::DiskFullError))
    } else if !takes_entry(dir.raw) {
        (taken, Some(FSError::DirFullError))
    } else {
        (with_entry_added(taken, dir, entry), None)
    }
}

/// Where `cd` leads: the block of the directory called `name` in the current
/// working directory. The current directory must load, an entry that leads
/// to a directory must hold the name (`FileNotFoundError` otherwise, also
/// where the name is a file's), and that directory must load.
pub open spec fn cd_result(s: FileSysView, name: Seq<u8>) -> Result<usize, FSError> {
    let dir = dir_at(s.image, s.cwd as int);
    let target = entry_named(dir.dir_entries, name).block_num;
    if dir_load_error(s.image, s.cwd as int) is Some {
        Err(dir_load_error(s.image, s.cwd as int)->0)
    } else if !has_named(dir.dir_entries, name) {
        Err(FSError::FileNotFoundError)
    } else if dir_load_error(s.image, target as int) is Some {
        Err(dir_load_error(s.image, target as int)->0)
    } else {
        Ok(target)
    }
}

/// The bitmap after each of the blocks `ids` was marked as free.
pub open spec fn cleared(bitmap: Seq<u8>, ids: Seq<usize>) -> Seq<u8>
    decreases ids.len(),
{
    if ids.len() == 0 {
        bitmap
    } else {
        clear_bit(cleared(bitmap, ids.drop_last()), ids.last() as int)
    }
}

/// What removing the directory called `name` from the current working
/// directory does: the image afterwards and the error, if it fails. In this
/// order: the current directory must load; an entry that leads to a directory
/// must hold the name (`FileNotFoundError`); that directory must load; its
/// count must be zero (`DirNotEmptyError`); the current directory's count
/// must not be zero (`FileSysError`). Then the first slot that leads to the
/// directory is freed and the directory's block is marked as free.
pub open spec fn rmdir_result(s: FileSysView, name: Seq<u8>) -> (Seq<Seq<u8>>, Option<FSError>) {
    let dir = dir_at(s.image, s.cwd as int);
    let target = entry_named(dir.dir_entries, name).block_num;
    let unlinked = s.image.update(
        s.cwd as int,
        padded(dir_block_bytes(with_slot_freed(dir.raw, target))),
    );
    if dir_load_error(s.image, s.cwd as int) is Some {
        (s.image, dir_load_error(s.image, s.cwd as int))
    } else if !has_named(dir.dir_entries, name) {
        (s.image, Some(FSError::FileNotFoundError))
    } else if dir_load_error(s.image, target as int) is Some {
        (s.image, dir_load_error(s.image, target as int))
    } else if dir_at(s.image, target as int).raw.num_entries > 0 {
        (s.image, Some(FSError::DirNotEmptyError))
    } else if dir.raw.num_entries == 0 {
        (s.image, Some(FSError::FileSysError))
    } else {
        (unlinked.update(0, clear_bit(unlinked[0], target as int)), None)
    }
}

/// Which file `name` stands for in the current working directory: the
/// current directory must load, no entry that leads to a directory may hold
/// the name (`NotAFileError`), and an entry that leads to a file must hold it
/// (`FileNotFoundError`).
pub open spec fn resolve_file(s: FileSysView, name: Seq<u8>) -> Result<usize, FSError> {
    let dir = dir_at(s.image, s.cwd as int);
    if dir_load_error(s.image, s.cwd as int) is Some {
        Err(dir_load_error(s.image, s.cwd as int)->0)
    } else if has_named(dir.dir_entries, name) {
        Err(FSError::NotAFileError)
    } else if !has_named(dir.file_entries, name) {
        Err(FSError::FileNotFoundError)
    } else {
        Ok(entry_named(dir.file_entries, name).block_num)
    }
}

/// What removing the file called `name` from the current working directory
/// does: the image afterwards and the error, if it fails. The current
/// directory must load and no entry that leads to a directory may hold the
/// name (`NotAFileError`). A name that no entry holds is no error and changes
/// nothing. Else the file must load and the current directory's count must
/// not be zero (`FileSysError`). Then the
/// first slot that leads to the file is freed, and the file's data blocks, in
/// slot order, and then its inode block are marked as free.
pub open spec fn rm_result(s: FileSysView, name: Seq<u8>) -> (Seq<Seq<u8>>, Option<FSError>) {
    let dir = dir_at(s.image, s.cwd as int);
    let id = entry_named(dir.file_entries, name).block_num;
    let file = file_at(s.image, id as int);
    let unlinked = s.image.update(s.cwd as int, padded(dir_block_bytes(with_slot_freed(dir.raw, id))));
    if dir_load_error(s.image, s.cwd as int) is Some {
        (s.image, dir_load_error(s.image, s.cwd as int))
    } else if has_named(dir.dir_entries, name) {
        (s.image, Some(FSError::NotAFileError))
    } else if !has_named(dir.file_entries, name) {
        (s.image, None)
    } else if file_load_error(s.image, id as int) is Some {
        (s.image, file_load_error(s.image, id as int))
    } else if dir.raw.num_entries == 0 {
        (s.image, Some(FSError::FileSysError))
    } else {
        (unlinked.update(0, cleared(unlinked[0], block_ids(file.blocks).push(id))), None)
    }
}

/// The bytes of a list of data blocks, block after block.
pub open spec fn concat(blocks: Seq<DataBlockView>) -> Seq<u8>
    decreases blocks.len(),
{
    if blocks.len() == 0 {
        Seq::empty()
    } else {
        concat(blocks.drop_last()) + blocks.last().data
    }
}

/// The bytes of a file: those of its data blocks in slot order, cut to the
/// file's size.
pub open spec fn file_content(file: FileInodeView) -> Seq<u8> {
    if file.raw.size <= concat(file.blocks).len() {
        concat(file.blocks).take(file.raw.size as int)
    } else {
        concat(file.blocks)
    }
}

/// What reading the file called `name` gives: the name must resolve to a
/// file and the file must load; then it is the file's bytes.
pub open spec fn cat_result(s: FileSysView, name: Seq<u8>) -> Result<Seq<u8>, FSError> {
    match resolve_file(s, name) {
        Err(e) => Err(e),
        Ok(id) => if file_load_error(s.image, id as int) is Some {
            Err(file_load_error(s.image, id as int)->0)
        } else {
            Ok(file_content(file_at(s.image, id as int)))
        },
    }
}

/// The items of a listing: the name of each entry that leads to a directory
/// with a slash behind it, then the name of each entry that leads to a file.
pub open spec fn listed(dirs: Seq<EntryView>, files: Seq<EntryView>) -> Seq<Seq<u8>> {
    Seq::new(dirs.len(), |i: int| dirs[i].name.push(47u8)) + Seq::new(files.len(), |i: int| files[i].name)
}

/// The items with one space between each two.
pub open spec fn joined(items: Seq<Seq<u8>>) -> Seq<u8>
    decreases items.len(),
{
    if items.len() == 0 {
        Seq::empty()
    } else if items.len() == 1 {
        items[0]
    } else {
        joined(items.drop_last()) + seq![32u8] + items.last()
    }
}

/// The bytes of the listing of a directory.
pub open spec fn listing(dir: DirInodeView) -> Seq<u8> {
    joined(listed(dir.dir_entries, dir.file_entries))
}

/// `String::from_utf8`: the string whose bytes are `bytes`, where they are
/// valid UTF-8, and nothing where they are not.
#[verifier::external_body]
fn string_from_utf8(bytes: Vec<u8>) -> (r: Option<String>)
    ensures
        r is Some <==> valid_utf8(bytes@),
        r matches Some(text) ==> encode_utf8(text@) == bytes@,
{
    String::from_utf8(bytes).ok()
}

/// Adds one item to a listing: a space first unless the item opens the
/// listing, then the name, then a slash if one is asked for.
fn push_item(out: &mut Vec<u8>, name: &[u8; MAX_FNAME_SIZE], slash: bool)
    ensures
        final(out)@ == old(out)@ + (if old(out)@.len() == 0 {
            Seq::<u8>::empty()
        } else {
            seq![32u8]
        }) + (if slash {
            name@.push(47u8)
        } else {
            name@
        }),
{
    let ghost start = out@;
    if out.len() > 0 {
        out.push(32u8);
    }
    let ghost mid = out@;
    let mut i: usize = 0;
    while i < MAX_FNAME_SIZE
        invariant
            i <= MAX_FNAME_SIZE,
            out@ == mid + name@.take(i as int),
        decreases MAX_FNAME_SIZE - i,
    {
        out.push(name[i]);
        assert(out@ =~= mid + name@.take(i + 1));
        i += 1;
    }
    assert(name@.take(MAX_FNAME_SIZE as int) =~= name@);
    if slash {
        out.push(47u8);
    }
    assert(out@ =~= start + (if start.len() == 0 {
        Seq::<u8>::empty()
    } else {
        seq![32u8]
    }) + (if slash {
        name@.push(47u8)
    } else {
        name@
    }));
}

/// How many of the bytes appended to a file of `size` bytes go into its last
/// data block: what is left of that block where it is not full, as far as
/// there are `len` bytes to put there.
pub open spec fn fill_len(size: usize, len: int) -> int {
    if size % BLOCK_SIZE == 0 {
        0
    } else if len <= BLOCK_SIZE - size % BLOCK_SIZE {
        len
    } else {
        BLOCK_SIZE - size % BLOCK_SIZE
    }
}

/// What appending `data` to the file called `name` does: the image
/// afterwards and the error, if it fails. In this order: the name must
/// resolve to a file; the file must load; the new size must not be above
/// `MAX_FILE_SIZE` (`FileFullError`); a file whose last block is not full must
/// have a block (`FileSysError`); the file must have an unused slot for each
/// block that it needs (`FileFullError`); and that many blocks must be free
/// (`DiskFullError`). Whatever the error, nothing has changed. Else the lowest
/// free blocks are taken; the last block is filled up; what is left of `data`
/// goes to the new blocks in chunks of one block, the last one padded with
/// zeros; and the inode block is written with the new blocks in its first
/// unused slots and the new size.
#[verifier::opaque]
pub open spec fn append_result(s: FileSysView, name: Seq<u8>, data: Seq<u8>) -> (
    Seq<Seq<u8>>,
    Option<FSError>,
) {
    let id = resolve_file(s, name)->Ok_0;
    let file = file_at(s.image, id as int);
    let size = file.raw.size;
    let fill = fill_len(size, data.len() as int);
    let rest = data.skip(fill);
    let k = blocks_for(rest.len() as int) as nat;
    let ids = taken_ids(s.image[0], k);
    let last = file.blocks.last();
    let marked = s.image.update(0, taken(s.image[0], k));
    let filled = if fill > 0 {
        marked.update(last.id as int, refilled(last.data, (size % BLOCK_SIZE) as int, data.take(fill)))
    } else {
        marked
    };
    let record = InodeView {
        size: (size + data.len()) as usize,
        blocks: with_refs(file.raw.blocks, ids),
        ..file.raw
    };
    if resolve_file(s, name) is Err {
        (s.image, Some(resolve_file(s, name)->Err_0))
    } else if file_load_error(s.image, id as int) is Some {
        (s.image, file_load_error(s.image, id as int))
    } else if size + data.len() > MAX_FILE_SIZE {
        (s.image, Some(FSError::FileFullError))
    } else if size % BLOCK_SIZE != 0 && file.blocks.len() == 0 {
        (s.image, Some(FSError::FileSysError))
    } else if free_slots(file.raw.blocks) < k {
        (s.image, Some(FSError::FileFullError))
    } else if !can_take(s.image[0], k) {
        (s.image, Some(FSError::DiskFullError))
    } else {
        (with_chunks(filled, ids, rest).update(id as int, padded(inode_bytes(record))), None)
    }
}

/// The file system: the image and the current working directory.
pub struct FileSys {
    wrapped_file_sys: WrappedFileSys,
    curr_dir: usize,
}

impl View for FileSys {
    type V = FileSysView;

    closed spec fn view(&self) -> FileSysView {
        FileSysView { image: self.wrapped_file_sys@, cwd: self.curr_dir }
    }
}

/// The first entry of the list that holds `name`, if any does.
pub fn find_entry(entries: &Vec<DirEntry>, name: &[u8; MAX_FNAME_SIZE]) -> (r: Option<DirEntry>)
    ensures
        match r {
            Some(entry) => has_named(dir_entry_views(entries@), name@) && entry@ == entry_named(
                dir_entry_views(entries@),
                name@,
            ),
            None => !has_named(dir_entry_views(entries@), name@),
        },
{
    let mut i: usize = 0;
    while i < entries.len()
        invariant
            i <= entries@.len(),
            forall|j: int| 0 <= j < i ==> names(dir_entry_views(entries@))[j] != name@,
        decreases entries@.len() - i,
    {
        let entry_name = entries[i].get_name();
        if same_name(&entry_name, name) {
            proof {
                lemma_first_at(names(dir_entry_views(entries@)), name@, i as int);
            }
            return Some(entries[i]);
        }
        i += 1;
    }
    None
}

/// Whether `name` is nothing but zero padding.
pub fn is_empty_name(name: &[u8; MAX_FNAME_SIZE]) -> (r: bool)
    ensures
        r == name_is_empty(name@),
{
    let mut i: usize = 0;
    while i < MAX_FNAME_SIZE
        invariant
            i <= MAX_FNAME_SIZE,
            forall|j: int| 0 <= j < i ==> name@[j] == 0u8,
        decreases MAX_FNAME_SIZE - i,
    {
        if name[i] != 0 {
            return false;
        }
        i += 1;
    }
    true
}

impl FileSys {
    /// The view's image always has the shape of an image.
    pub proof fn lemma_view_wf(&self)
        ensures
            image_wf(self@.image),
    {
        self.wrapped_file_sys.lemma_view_wf();
    }

    /// Mounts the bytes of the backing file and makes the home directory the
    /// current one. Fails with `IOError` when the file is neither empty nor
    /// one image long, and with what keeps the home directory from loading
    /// when it does not load.
    pub fn mount(image: Vec<u8>) -> (r: Result<Self, FSError>)
        ensures
            match r {
                Ok(fs) => {
                    &&& image@.len() == 0 || image@.len() == NUM_BLOCKS * BLOCK_SIZE
                    &&& dir_load_error(mounted_image(image@), HOME_DIR_ID as int) is None
                    &&& fs@ == (FileSysView { image: mounted_image(image@), cwd: HOME_DIR_ID as usize })
                },
                Err(e) => if image@.len() == 0 || image@.len() == NUM_BLOCKS * BLOCK_SIZE {
                    dir_load_error(mounted_image(image@), HOME_DIR_ID as int) == Some(e)
                } else {
                    e == FSError::IOError
                },
            },
    {
        let wrapped_file_sys = match WrappedFileSys::new(image) {
            Ok(wrapped_file_sys) => wrapped_file_sys,
            Err(e) => {
                return Err(e);
            },
        };
        let mut file_sys = Self { wrapped_file_sys, curr_dir: 1 };
        let home_dir = match DirInode::retrieve(&file_sys.wrapped_file_sys, HOME_DIR_ID as usize) {
            Ok(home_dir) => home_dir,
            Err(e) => {
                return Err(e);
            },
        };
        file_sys.set_working_dir(home_dir);
        Ok(file_sys)
    }

    /// Gives the image back as the bytes of the backing file.
    pub fn unmount(self) -> (image: Vec<u8>)
        ensures
            image@.len() == NUM_BLOCKS * BLOCK_SIZE,
            blocks_of(image@) == self@.image,
    {
        self.wrapped_file_sys.into_inner().unmount()
    }

    /// A copy of the image as the bytes of the backing file.
    pub fn snapshot(&self) -> (image: Vec<u8>)
        ensures
            image@.len() == NUM_BLOCKS * BLOCK_SIZE,
            blocks_of(image@) == self@.image,
    {
        self.wrapped_file_sys.file_sys_ref().snapshot()
    }

    /// Makes `dir` the current working directory.
    pub fn set_working_dir(&mut self, dir: DirInode)
        ensures
            final(self)@ == (FileSysView { cwd: dir@.id, ..old(self)@ }),
    {
        self.curr_dir = dir.get_id();
    }

    /// Loads the current working directory.
    pub fn get_working_dir(&self) -> (r: Result<DirInode, FSError>)
        ensures
            match r {
                Ok(dir) => dir_load_error(self@.image, self@.cwd as int) is None && dir@ == dir_at(
                    self@.image,
                    self@.cwd as int,
                ),
                Err(e) => dir_load_error(self@.image, self@.cwd as int) == Some(e),
            },
    {
        DirInode::retrieve(&self.wrapped_file_sys, self.curr_dir)
    }

    /// Checks that `dir` can take a new entry called `name`: fails exactly
    /// when `new_entry_error` says so, with the error it gives.
    pub fn validate_before_new_entry(&self, dir: &DirInode, name: [u8; MAX_FNAME_SIZE]) -> (r: Result<
        (),
        FSError,
    >)
        ensures
            match r {
                Ok(()) => new_entry_error(dir@, name@) is None,
                Err(e) => new_entry_error(dir@, name@) == Some(e),
            },
    {
        if !dir.has_free_entry() {
            return Err(FSError::DirFullError);
        }
        if dir.has_name(name) {
            return Err(FSError::FileExistsError);
        }
        if is_empty_name(&name) {
            return Err(FSError::FileNameTooLongError);
        }
        Ok(())
    }

    /// Makes an empty directory called `name` in the current working
    /// directory, as `new_entry_result` says.
    pub fn mkdir(&mut self, name: [u8; MAX_FNAME_SIZE]) -> (r: Result<(), FSError>)
        ensures
            final(self)@.cwd == old(self)@.cwd,
            (final(self)@.image, error_of(r)) == new_entry_result(
                old(self)@,
                name@,
                padded(dir_block_bytes(empty_dir_block())),
            ),
    {
        proof {
            self.lemma_view_wf();
        }
        let mut working_dir = match self.get_working_dir() {
            Ok(dir) => dir,
            Err(e) => {
                return Err(e);
            },
        };
        match self.validate_before_new_entry(&working_dir, name) {
            Ok(()) => {},
            Err(e) => {
                return Err(e);
            },
        }
        let new_dir = match DirInode::new(&mut self.wrapped_file_sys) {
            Ok(dir) => dir,
            Err(e) => {
                return Err(e);
            },
        };
        proof {
            lemma_first_free_unique(old(self)@.image[0], new_dir@.id as int);
        }
        let entry = DirEntry::new(name, new_dir.get_id());
        let ghost taken = self@.image;
        let r = working_dir.add_dir_entry(&mut self.wrapped_file_sys, entry);
        proof {
            let dir = dir_at(old(self)@.image, old(self)@.cwd as int);
            assert(entry@ == (EntryView { name: name@, block_num: first_free(old(self)@.image[0]) as usize }));
            if r is Ok {
                assert(self@.image == with_entry_added(taken, dir, entry@));
            }
        }
        r
    }

    /// Makes an empty file called `name` in the current working directory,
    /// as `new_entry_result` says.
    pub fn create(&mut self, name: [u8; MAX_FNAME_SIZE]) -> (r: Result<(), FSError>)
        ensures
            final(self)@.cwd == old(self)@.cwd,
            (final(self)@.image, error_of(r)) == new_entry_result(
                old(self)@,
                name@,
                padded(inode_bytes(empty_inode())),
            ),
    {
        proof {
            self.lemma_view_wf();
        }
        let mut working_dir = match self.get_working_dir() {
            Ok(dir) => dir,
            Err(e) => {
                return Err(e);
            },
        };
        match self.validate_before_new_entry(&working_dir, name) {
            Ok(()) => {},
            Err(e) => {
                return Err(e);
            },
        }
        let new_file = match FileInode::new(&mut self.wrapped_file_sys) {
            Ok(file) => file,
            Err(e) => {
                return Err(e);
            },
        };
        proof {
            lemma_first_free_unique(old(self)@.image[0], new_file@.id as int);
        }
        let entry = DirEntry::new(name, new_file.get_id());
        let ghost taken = self@.image;
        let r = working_dir.add_file_entry(&mut self.wrapped_file_sys, entry);
        proof {
            let dir = dir_at(old(self)@.image, old(self)@.cwd as int);
            assert(entry@ == (EntryView { name: name@, block_num: first_free(old(self)@.image[0]) as usize }));
            if r is Ok {
                assert(self@.image == with_entry_added(taken, dir, entry@));
            }
        }
        r
    }

    /// Makes the directory called `name` in the current working directory
    /// the current one, as `cd_result` says. The image stays as it is, and
    /// so does the current directory where this fails.
    pub fn cd(&mut self, name: [u8; MAX_FNAME_SIZE]) -> (r: Result<(), FSError>)
        ensures
            final(self)@.image == old(self)@.image,
            match r {
                Ok(()) => cd_result(old(self)@, name@) == Ok::<usize, FSError>(final(self)@.cwd),
                Err(e) => cd_result(old(self)@, name@) == Err::<usize, FSError>(e) && final(self)@.cwd == old(
                    self,
                )@.cwd,
            },
    {
        let working_dir = match self.get_working_dir() {
            Ok(dir) => dir,
            Err(e) => {
                return Err(e);
            },
        };
        match find_entry(working_dir.get_dir_inode_entries(), &name) {
            Some(entry) => {
                match DirInode::retrieve(&self.wrapped_file_sys, entry.get_id()) {
                    Ok(dir) => {
                        self.set_working_dir(dir);
                        Ok(())
                    },
                    Err(e) => Err(e),
                }
            },
            None => Err(FSError::FileNotFoundError),
        }
    }

    /// Makes the home directory the current one. This never fails.
    pub fn home(&mut self) -> (r: Result<(), FSError>)
        ensures
            r is Ok,
            final(self)@ == (FileSysView { cwd: HOME_DIR_ID as usize, ..old(self)@ }),
    {
        self.curr_dir = HOME_DIR_ID as usize;
        Ok(())
    }

    /// Removes the empty directory called `name` from the current working
    /// directory, as `rmdir_result` says.
    pub fn rmdir(&mut self, name: [u8; MAX_FNAME_SIZE]) -> (r: Result<(), FSError>)
        ensures
            final(self)@.cwd == old(self)@.cwd,
            (final(self)@.image, error_of(r)) == rmdir_result(old(self)@, name@),
    {
        proof {
            self.lemma_view_wf();
        }
        let mut working_dir = match self.get_working_dir() {
            Ok(dir) => dir,
            Err(e) => {
                return Err(e);
            },
        };
        let entry = match find_entry(working_dir.get_dir_inode_entries(), &name) {
            Some(entry) => entry,
            None => {
                return Err(FSError::FileNotFoundError);
            },
        };
        let dir = match DirInode::retrieve(&self.wrapped_file_sys, entry.get_id()) {
            Ok(dir) => dir,
            Err(e) => {
                return Err(e);
            },
        };
        if dir.get_num_entries() > 0 {
            return Err(FSError::DirNotEmptyError);
        }
        proof {
            let table = working_dir@.raw.entries;
            let picked = working_dir@.dir_entries;
            lemma_entries_to_members(old(self)@.image, table, crate::virtual_file_sys::block::DIR_MAGIC_NUM);
            let k = first_at(names(picked), name@);
            crate::virtual_file_sys::inode::lemma_first_at_exists(names(picked), name@);
            assert(picked[k] == entry@);
            lemma_member_target(table, entry@);
        }
        match working_dir.remove_dir_entry(&mut self.wrapped_file_sys, entry.get_id()) {
            Ok(()) => {},
            Err(e) => {
                return Err(e);
            },
        }
        dir.destroy(&mut self.wrapped_file_sys);
        Ok(())
    }

    /// Lists the current working directory: the names of the entries that
    /// lead to directories, each with a slash behind it, then the names of
    /// the entries that lead to files, with one space between each two and
    /// every name at its full width. Fails with what keeps the directory from
    /// loading, when it does not load, and with `FileSysError` exactly when it
    /// loads and the listing is no valid UTF-8.
    pub fn ls(&self) -> (r: Result<String, FSError>)
        ensures
            match r {
                Ok(text) => {
                    &&& dir_load_error(self@.image, self@.cwd as int) is None
                    &&& valid_utf8(listing(dir_at(self@.image, self@.cwd as int)))
                    &&& encode_utf8(text@) == listing(dir_at(self@.image, self@.cwd as int))
                },
                Err(e) => if dir_load_error(self@.image, self@.cwd as int) is Some {
                    dir_load_error(self@.image, self@.cwd as int) == Some(e)
                } else {
                    e == FSError::FileSysError && !valid_utf8(listing(dir_at(self@.image, self@.cwd as int)))
                },
            },
    {
        let working_dir = match self.get_working_dir() {
            Ok(dir) => dir,
            Err(e) => {
                return Err(e);
            },
        };
        let dirs = working_dir.get_dir_inode_entries();
        let files = working_dir.get_file_inode_entries();
        let ghost items = listed(working_dir@.dir_entries, working_dir@.file_entries);
        let mut out: Vec<u8> = Vec::new();
        assert(items.take(0) =~= Seq::<Seq<u8>>::empty());
        let mut i: usize = 0;
        while i < dirs.len()
            invariant
                i <= dirs@.len(),
                dir_entry_views(dirs@) == working_dir@.dir_entries,
                dir_entry_views(files@) == working_dir@.file_entries,
                items == listed(working_dir@.dir_entries, working_dir@.file_entries),
                out@ == joined(items.take(i as int)),
                i > 0 ==> out@.len() > 0,
            decreases dirs@.len() - i,
        {
            let name = dirs[i].get_name();
            proof {
                assert(items.take(i + 1).drop_last() =~= items.take(i as int));
                assert(items.take(i + 1).last() == name@.push(47u8));
                if i > 0 {
                    assert(items.take(i as int).len() > 0);
                }
            }
            push_item(&mut out, &name, true);
            assert(out@ =~= joined(items.take(i + 1)));
            i += 1;
        }
        let mut j: usize = 0;
        while j < files.len()
            invariant
                j <= files@.len(),
                i == dirs@.len(),
                dir_entry_views(dirs@) == working_dir@.dir_entries,
                dir_entry_views(files@) == working_dir@.file_entries,
                items == listed(working_dir@.dir_entries, working_dir@.file_entries),
                out@ == joined(items.take(i + j)),
                i + j > 0 ==> out@.len() > 0,
            decreases files@.len() - j,
        {
            let name = files[j].get_name();
            proof {
                assert(items.take(i + j + 1).drop_last() =~= items.take(i + j));
                assert(items.take(i + j + 1).last() == name@);
                vstd::array::array_len_matches_n(&name);
            }
            push_item(&mut out, &name, false);
            assert(out@ =~= joined(items.take(i + j + 1)));
            j += 1;
        }
        assert(items.take(i + j) =~= items);
        match string_from_utf8(out) {
            Some(text) => Ok(text),
            None => Err(FSError::FileSysError),
        }
    }

    /// Reads the file called `name` in the current working directory, as
    /// `cat_result` says.
    pub fn cat(&self, name: [u8; MAX_FNAME_SIZE]) -> (r: Result<Vec<u8>, FSError>)
        ensures
            match r {
                Ok(bytes) => cat_result(self@, name@) == Ok::<Seq<u8>, FSError>(bytes@),
                Err(e) => cat_result(self@, name@) == Err::<Seq<u8>, FSError>(e),
            },
    {
        let id = match self.resolve(&name) {
            Ok(id) => id,
            Err(e) => {
                return Err(e);
            },
        };
        let file = match FileInode::retrieve(&self.wrapped_file_sys, id) {
            Ok(file) => file,
            Err(e) => {
                return Err(e);
            },
        };
        let blocks = file.get_blocks();
        let ghost views = block_views(blocks@);
        let mut content: Vec<u8> = Vec::new();
        assert(views.take(0) =~= Seq::<DataBlockView>::empty());
        let mut i: usize = 0;
        while i < blocks.len()
            invariant
                i <= blocks@.len(),
                views == block_views(blocks@),
                content@ == concat(views.take(i as int)),
            decreases blocks@.len() - i,
        {
            let data = blocks[i].get_data();
            proof {
                assert(views.take(i + 1).drop_last() =~= views.take(i as int));
                assert(views.take(i + 1).last() == blocks@[i as int]@);
            }
            let ghost before = content@;
            let mut k: usize = 0;
            while k < BLOCK_SIZE
                invariant
                    k <= BLOCK_SIZE,
                    data@.len() == BLOCK_SIZE,
                    content@ == before + data@.take(k as int),
                decreases BLOCK_SIZE - k,
            {
                content.push(data[k]);
                assert(content@ =~= before + data@.take(k + 1));
                k += 1;
            }
            assert(data@.take(BLOCK_SIZE as int) =~= data@);
            i += 1;
        }
        assert(views.take(i as int) =~= views);
        content.truncate(file.get_size());
        Ok(content)
    }

    /// Removes the file called `name` from the current working directory,
    /// as `rm_result` says.
    pub fn rm(&mut self, name: [u8; MAX_FNAME_SIZE]) -> (r: Result<(), FSError>)
        ensures
            final(self)@.cwd == old(self)@.cwd,
            (final(self)@.image, error_of(r)) == rm_result(old(self)@, name@),
    {
        proof {
            self.lemma_view_wf();
        }
        let mut working_dir = match self.get_working_dir() {
            Ok(dir) => dir,
            Err(e) => {
                return Err(e);
            },
        };
        if find_entry(working_dir.get_dir_inode_entries(), &name).is_some() {
            return Err(FSError::NotAFileError);
        }
        let entry = match find_entry(working_dir.get_file_inode_entries(), &name) {
            Some(entry) => entry,
            None => {
                return Ok(());
            },
        };
        let file = match FileInode::retrieve(&self.wrapped_file_sys, entry.get_id()) {
            Ok(file) => file,
            Err(e) => {
                return Err(e);
            },
        };
        proof {
            let table = working_dir@.raw.entries;
            let picked = working_dir@.file_entries;
            lemma_entries_to_members(old(self)@.image, table, crate::virtual_file_sys::block::INODE_MAGIC_NUM);
            let k = first_at(names(picked), name@);
            crate::virtual_file_sys::inode::lemma_first_at_exists(names(picked), name@);
            assert(picked[k] == entry@);
            lemma_member_target(table, entry@);
        }
        match working_dir.remove_file_entry(&mut self.wrapped_file_sys, entry.get_id()) {
            Ok(()) => {},
            Err(e) => {
                return Err(e);
            },
        }
        let ghost unlinked = self@.image;
        proof {
            self.lemma_view_wf();
        }
        let blocks = file.get_blocks();
        let ghost ids = block_ids(block_views(blocks@));
        assert(ids.take(0) =~= Seq::<usize>::empty());
        assert(unlinked =~= unlinked.update(0, cleared(unlinked[0], ids.take(0))));
        let mut i: usize = 0;
        while i < blocks.len()
            invariant
                i <= blocks@.len(),
                ids == block_ids(block_views(blocks@)),
                image_wf(unlinked),
                self.curr_dir == old(self).curr_dir,
                self@.image == unlinked.update(0, cleared(unlinked[0], ids.take(i as int))),
            decreases blocks@.len() - i,
        {
            let id = blocks[i].get_id();
            proof {
                assert(ids.take(i + 1).drop_last() =~= ids.take(i as int));
                assert(ids.take(i + 1).last() == id);
            }
            let _ = self.wrapped_file_sys.file_sys().reclaim_block(id);
            assert(self@.image =~= unlinked.update(0, cleared(unlinked[0], ids.take(i + 1))));
            i += 1;
        }
        proof {
            assert(ids.take(i as int) =~= ids);
            assert(ids.push(file@.id).drop_last() =~= ids);
        }
        file.destroy(&mut self.wrapped_file_sys);
        assert(self@.image =~= unlinked.update(0, cleared(unlinked[0], ids.push(entry@.block_num))));
        Ok(())
    }

    /// Appends `data` to the file called `name` in the current working
    /// directory, as `append_result` says.
    pub fn append(&mut self, name: [u8; MAX_FNAME_SIZE], data: &[u8]) -> (r: Result<(), FSError>)
        ensures
            final(self)@.cwd == old(self)@.cwd,
            (final(self)@.image, error_of(r)) == append_result(old(self)@, name@, data@),
    {
        proof {
            reveal(append_result);
            self.lemma_view_wf();
        }
        let id = match self.resolve(&name) {
            Ok(id) => id,
            Err(e) => {
                return Err(e);
            },
        };
        let mut file = match FileInode::retrieve(&self.wrapped_file_sys, id) {
            Ok(file) => file,
            Err(e) => {
                return Err(e);
            },
        };
        let size = file.get_size();
        if data.len() > MAX_FILE_SIZE || size > MAX_FILE_SIZE - data.len() {
            return Err(FSError::FileFullError);
        }
        let frag_size = file.internal_flag_size();
        if frag_size > 0 && file.get_blocks().len() == 0 {
            return Err(FSError::FileSysError);
        }
        let fill: usize = if frag_size == 0 {
            0
        } else if data.len() <= BLOCK_SIZE - frag_size {
            data.len()
        } else {
            BLOCK_SIZE - frag_size
        };
        let rest = slice_subrange(data, fill, data.len());
        let needed: usize = (rest.len() + BLOCK_SIZE - 1) / BLOCK_SIZE;
        if count_free_slots(file.get_raw().get_blocks()) < needed {
            return Err(FSError::FileFullError);
        }
        let new_blocks = match allocate_blocks(&mut self.wrapped_file_sys, needed) {
            Ok(blocks) => blocks,
            Err(e) => {
                return Err(e);
            },
        };
        let ghost image = old(self)@.image;
        let ghost before_file = file@;
        let ghost ids = block_ids(block_views(new_blocks@));
        let ghost marked = self@.image;
        proof {
            lemma_taken_len(image[0], needed as nat);
            assert(rest@ == data@.skip(fill as int));
            assert(fill == fill_len(size, data@.len() as int));
            assert(needed == blocks_for(rest@.len() as int));
            assert(ids == taken_ids(image[0], needed as nat));
            assert(new_blocks@.len() == ids.len());
        }
        if fill > 0 {
            let blocks = file.get_blocks();
            let last = &blocks[blocks.len() - 1];
            let mut bytes = last.get_raw();
            let ghost before = bytes@;
            assert(last@ == before_file.blocks.last());
            let mut i: usize = 0;
            assert(bytes@ =~= refilled(before, frag_size as int, data@.take(0)));
            while i < fill
                invariant
                    i <= fill,
                    fill <= data@.len(),
                    frag_size + fill <= BLOCK_SIZE,
                    bytes@.len() == BLOCK_SIZE,
                    before.len() == BLOCK_SIZE,
                    bytes@ == refilled(before, frag_size as int, data@.take(i as int)),
                decreases fill - i,
            {
                bytes[frag_size + i] = data[i];
                assert(bytes@ =~= refilled(before, frag_size as int, data@.take(i + 1)));
                i += 1;
            }
            let _ = self.wrapped_file_sys.file_sys().write_block(last.get_id(), &bytes);
            assert(self@.image == marked.update(
                before_file.blocks.last().id as int,
                refilled(before_file.blocks.last().data, frag_size as int, data@.take(fill as int)),
            ));
        }
        let ghost filled = self@.image;
        let new_blocks = write_chunks(&mut self.wrapped_file_sys, new_blocks, rest);
        let ghost chunked = self@.image;
        proof {
            self.lemma_view_wf();
            assert(chunked == with_chunks(filled, ids, rest@));
        }
        register_blocks(&mut file, &mut self.wrapped_file_sys, new_blocks);
        let ghost registered = self@.image;
        let _ = file.set_size(&mut self.wrapped_file_sys, size + data.len());
        proof {
            let record = InodeView {
                size: (size + data@.len()) as usize,
                blocks: with_refs(before_file.raw.blocks, ids),
                ..before_file.raw
            };
            assert(file@.raw == record);
            assert(self@.image == registered.update(id as int, padded(inode_bytes(record))));
            assert(self@.image =~= chunked.update(id as int, padded(inode_bytes(record))));
            let want = append_result(old(self)@, name@, data@).0;
            assert(want == chunked.update(id as int, padded(inode_bytes(record))));
        }
        Ok(())
    }

    /// Resolves `name` to the inode block of a file, as `resolve_file` says.
    fn resolve(&self, name: &[u8; MAX_FNAME_SIZE]) -> (r: Result<usize, FSError>)
        ensures
            r == resolve_file(self@, name@),
    {
        let working_dir = match self.get_working_dir() {
            Ok(dir) => dir,
            Err(e) => {
                return Err(e);
            },
        };
        if find_entry(working_dir.get_dir_inode_entries(), name).is_some() {
            return Err(FSError::NotAFileError);
        }
        match find_entry(working_dir.get_file_inode_entries(), name) {
            Some(entry) => Ok(entry.get_id()),
            None => Err(FSError::FileNotFoundError),
        }
    }
}

} // verus!
