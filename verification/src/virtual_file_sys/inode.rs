//! Inode blocks and directory blocks: their records on disk and the handles
//! over them.

use vstd::prelude::*;
use vstd::bytes::{
    lemma_auto_spec_u16_to_from_le_bytes, lemma_auto_spec_u64_to_from_le_bytes,
    spec_u16_from_le_bytes, spec_u16_to_le_bytes, spec_u64_from_le_bytes, spec_u64_to_le_bytes,
    u16_from_le_bytes, u16_to_le_bytes, u64_from_le_bytes, u64_to_le_bytes,
};
use vstd::slice::slice_subrange;
use crate::error::FSError;
use crate::virtual_file_sys::bitmap::{clear_bit, has_free, is_first_free, set_bit};
use crate::virtual_file_sys::block::{
    BlockBinary, DataBlock, DataBlockView, BLOCK_SIZE, DIR_MAGIC_NUM, INODE_MAGIC_NUM,
    MAX_DATA_BLOCKS, MAX_DIR_ENTRIES, MAX_FNAME_SIZE, NUM_BLOCKS,
};
use crate::virtual_file_sys::disk::image_wf;
use crate::virtual_file_sys::file_sys::WrappedFileSys;
use crate::virtual_file_sys::record::{
    decode_record, encode_record, lemma_record_round_trip, pad_block, padded, record_bytes,
    record_decodable, record_first, record_len, record_payload, record_second, RECORD_HEADER_SIZE,
};

verus! {

/// The block id that marks a free slot.
pub const UNUSED_ID: u8 = 0;

/// The block of the home directory.
pub const HOME_DIR_ID: u8 = 1;

/// Bytes that one reference to a data block takes in an inode block.
pub const REF_SIZE: usize = 2;

/// Bytes that one directory entry takes in a directory block.
pub const ENTRY_SIZE: usize = 17;

/// What an inode block holds.
pub struct InodeView {
    pub magic: usize,
    pub size: usize,
    pub blocks: Seq<u16>,
}

/// The bytes of a list of block references, two per reference, least
/// significant byte first.
pub open spec fn refs_payload(blocks: Seq<u16>) -> Seq<u8> {
    Seq::new(
        (REF_SIZE * blocks.len()) as nat,
        |i: int| spec_u16_to_le_bytes(blocks[i / REF_SIZE as int])[i % REF_SIZE as int],
    )
}

/// The block references that a payload holds.
pub open spec fn payload_refs(payload: Seq<u8>) -> Seq<u16> {
    Seq::new(
        (payload.len() as int / REF_SIZE as int) as nat,
        |i: int| spec_u16_from_le_bytes(payload.subrange(REF_SIZE * i, REF_SIZE * i + REF_SIZE)),
    )
}

/// The bytes of an inode record.
pub open spec fn inode_bytes(v: InodeView) -> Seq<u8> {
    record_bytes(v.magic as u64, v.size as u64, refs_payload(v.blocks))
}

/// Whether `bytes` starts with an inode record: a record whose header fields
/// fit the machine word and whose payload is one reference per slot.
pub open spec fn inode_readable(bytes: Seq<u8>) -> bool {
    &&& record_decodable(bytes)
    &&& record_first(bytes) <= usize::MAX
    &&& record_second(bytes) <= usize::MAX
    &&& record_len(bytes) == REF_SIZE * MAX_DATA_BLOCKS
}

/// The inode record that `bytes` starts with.
pub open spec fn inode_read(bytes: Seq<u8>) -> InodeView {
    InodeView {
        magic: record_first(bytes) as usize,
        size: record_second(bytes) as usize,
        blocks: payload_refs(record_payload(bytes)),
    }
}

/// Unpacking undoes packing.
pub proof fn lemma_refs_round_trip(blocks: Seq<u16>)
    ensures
        refs_payload(blocks).len() == REF_SIZE * blocks.len(),
        payload_refs(refs_payload(blocks)) == blocks,
{
    lemma_auto_spec_u16_to_from_le_bytes();
    let p = refs_payload(blocks);
    assert forall|i: int| 0 <= i < blocks.len() implies #[trigger] payload_refs(p)[i] == blocks[i] by {
        let two = spec_u16_to_le_bytes(blocks[i]);
        assert(p.subrange(2 * i, 2 * i + 2) =~= two) by {
            assert(p[2 * i] == two[0]);
            assert(p[2 * i + 1] == two[1]);
        }
    }
    assert(payload_refs(p) =~= blocks);
}

/// Packing undoes unpacking, for a payload of whole references.
pub proof fn lemma_payload_round_trip(payload: Seq<u8>)
    requires
        payload.len() as int % REF_SIZE as int == 0,
    ensures
        refs_payload(payload_refs(payload)) == payload,
{
    lemma_auto_spec_u16_to_from_le_bytes();
    let blocks = payload_refs(payload);
    let p = refs_payload(blocks);
    assert forall|k: int| 0 <= k < payload.len() implies p[k] == payload[k] by {
        let i = k / 2;
        let two = payload.subrange(2 * i, 2 * i + 2);
        assert(spec_u16_to_le_bytes(spec_u16_from_le_bytes(two)) == two);
        assert(two[k % 2] == payload[k]);
    }
    assert(p =~= payload);
}

/// The record of an inode block: the index node of a data file.
#[derive(Debug)]
pub struct Inode {
    magic: usize,
    size: usize,
    blocks: Vec<u16>,
}

impl View for Inode {
    type V = InodeView;

    closed spec fn view(&self) -> InodeView {
        InodeView { magic: self.magic, size: self.size, blocks: self.blocks@ }
    }
}

impl Inode {
    /// The record always has one slot for each data block that an inode can index.
    #[verifier::type_invariant]
    pub closed spec fn inv(self) -> bool {
        self.blocks@.len() == MAX_DATA_BLOCKS
    }

    /// The slots of the record.
    pub fn get_blocks(&self) -> (blocks: &Vec<u16>)
        ensures
            blocks@ == self@.blocks,
            blocks@.len() == MAX_DATA_BLOCKS,
    {
        proof {
            use_type_invariant(self);
        }
        &self.blocks
    }

    /// The record of an empty file: no bytes, every slot unused.
    pub fn new() -> (r: Inode)
        ensures
            r@.magic == INODE_MAGIC_NUM,
            r@.size == 0,
            r@.blocks == Seq::new(MAX_DATA_BLOCKS as nat, |i: int| 0u16),
    {
        let blocks: Vec<u16> = vec![0u16; MAX_DATA_BLOCKS];
        assert(blocks@ =~= Seq::new(MAX_DATA_BLOCKS as nat, |i: int| 0u16));
        Inode { magic: INODE_MAGIC_NUM, size: 0, blocks }
    }
}

impl BlockBinary for Inode {
    open spec fn encoding(&self) -> Seq<u8> {
        inode_bytes(self@)
    }

    open spec fn readable(block_data: Seq<u8>) -> bool {
        inode_readable(block_data)
    }

    fn to_bytes(&self) -> (r: Result<Vec<u8>, FSError>)
        ensures
            r matches Ok(bytes) ==> bytes@.len() == RECORD_HEADER_SIZE + REF_SIZE * MAX_DATA_BLOCKS,
    {
        proof {
            use_type_invariant(self);
        }
        let mut payload: Vec<u8> = Vec::with_capacity(REF_SIZE * MAX_DATA_BLOCKS);
        let mut i: usize = 0;
        while i < MAX_DATA_BLOCKS
            invariant
                i <= MAX_DATA_BLOCKS,
                self.blocks@.len() == MAX_DATA_BLOCKS,
                payload@.len() == REF_SIZE * i,
                forall|k: int|
                    0 <= k < payload@.len() ==> payload@[k] == spec_u16_to_le_bytes(
                        self.blocks@[k / REF_SIZE as int],
                    )[k % REF_SIZE as int],
            decreases MAX_DATA_BLOCKS - i,
        {
            let two = u16_to_le_bytes(self.blocks[i]);
            payload.push(two[0]);
            payload.push(two[1]);
            i += 1;
        }
        assert(payload@ =~= refs_payload(self.blocks@));
        proof {
            lemma_record_round_trip(self.magic as u64, self.size as u64, payload@, Seq::empty());
        }
        encode_record(self.magic as u64, self.size as u64, payload)
    }

    fn from_bytes(block_data: &[u8]) -> (r: Result<Self, FSError>)
        ensures
            r matches Ok(record) ==> record@ == inode_read(block_data@),
    {
        let (magic, size, payload) = match decode_record(block_data) {
            Ok(record) => record,
            Err(e) => {
                return Err(e);
            },
        };
        if magic > usize::MAX as u64 || size > usize::MAX as u64 || payload.len() != REF_SIZE
            * MAX_DATA_BLOCKS {
            return Err(FSError::SerializeError);
        }
        let mut blocks: Vec<u16> = Vec::with_capacity(MAX_DATA_BLOCKS);
        let mut i: usize = 0;
        while i < MAX_DATA_BLOCKS
            invariant
                i <= MAX_DATA_BLOCKS,
                payload@.len() == REF_SIZE * MAX_DATA_BLOCKS,
                blocks@.len() == i,
                forall|k: int|
                    0 <= k < i ==> blocks@[k] == spec_u16_from_le_bytes(
                        payload@.subrange(REF_SIZE * k, REF_SIZE * k + REF_SIZE),
                    ),
            decreases MAX_DATA_BLOCKS - i,
        {
            let two = slice_subrange(payload.as_slice(), REF_SIZE * i, REF_SIZE * i + REF_SIZE);
            blocks.push(u16_from_le_bytes(two));
            i += 1;
        }
        assert(blocks@ =~= payload_refs(payload@));
        let record = Inode { magic: magic as usize, size: size as usize, blocks };
        proof {
            lemma_payload_round_trip(payload@);
            lemma_auto_spec_u64_to_from_le_bytes();
            let enc = record.encoding();
            assert(enc.len() == RECORD_HEADER_SIZE + payload@.len()) by {
                lemma_record_round_trip(magic, size, payload@, Seq::empty());
            }
            assert(enc =~= block_data@.subrange(0, enc.len() as int)) by {
                let b = block_data@;
                assert(spec_u64_to_le_bytes(magic) == b.subrange(0, 8));
                assert(spec_u64_to_le_bytes(size) == b.subrange(8, 16));
                assert(spec_u64_to_le_bytes(payload@.len() as u64) == b.subrange(16, 24));
            }
        }
        Ok(record)
    }
}

/// What one slot of a directory block holds.
pub struct EntryView {
    pub name: Seq<u8>,
    pub block_num: usize,
}

/// What a directory block holds.
pub struct DirBlockView {
    pub magic: usize,
    pub num_entries: usize,
    pub entries: Seq<EntryView>,
}

/// The bytes of one slot: the name, then the target block as eight bytes,
/// least significant first.
pub open spec fn entry_bytes(e: EntryView) -> Seq<u8> {
    e.name + spec_u64_to_le_bytes(e.block_num as u64)
}

/// The bytes of an entry table, slot after slot.
pub open spec fn entries_payload(entries: Seq<EntryView>) -> Seq<u8> {
    Seq::new(
        (ENTRY_SIZE * entries.len()) as nat,
        |k: int| entry_bytes(entries[k / ENTRY_SIZE as int])[k % ENTRY_SIZE as int],
    )
}

/// The target block that slot `i` of a payload names, as it stands on disk.
pub open spec fn payload_target(payload: Seq<u8>, i: int) -> u64 {
    spec_u64_from_le_bytes(
        payload.subrange(ENTRY_SIZE * i + MAX_FNAME_SIZE, ENTRY_SIZE * i + ENTRY_SIZE),
    )
}

/// Slot `i` of a payload.
pub open spec fn payload_entry(payload: Seq<u8>, i: int) -> EntryView {
    EntryView {
        name: payload.subrange(ENTRY_SIZE * i, ENTRY_SIZE * i + MAX_FNAME_SIZE),
        block_num: payload_target(payload, i) as usize,
    }
}

/// The entry table that a payload holds.
pub open spec fn payload_entries(payload: Seq<u8>) -> Seq<EntryView> {
    Seq::new((payload.len() as int / ENTRY_SIZE as int) as nat, |i: int| payload_entry(payload, i))
}

/// The bytes of a directory record.
pub open spec fn dir_block_bytes(v: DirBlockView) -> Seq<u8> {
    record_bytes(v.magic as u64, v.num_entries as u64, entries_payload(v.entries))
}

/// Whether `bytes` starts with a directory record: a record whose header
/// fields and targets fit the machine word and whose payload is one entry per
/// slot.
pub open spec fn dir_block_readable(bytes: Seq<u8>) -> bool {
    &&& record_decodable(bytes)
    &&& record_first(bytes) <= usize::MAX
    &&& record_second(bytes) <= usize::MAX
    &&& record_len(bytes) == ENTRY_SIZE * MAX_DIR_ENTRIES
    &&& forall|i: int|
        0 <= i < MAX_DIR_ENTRIES ==> #[trigger] payload_target(record_payload(bytes), i)
            <= usize::MAX
}

/// The directory record that `bytes` starts with.
pub open spec fn dir_block_read(bytes: Seq<u8>) -> DirBlockView {
    DirBlockView {
        magic: record_first(bytes) as usize,
        num_entries: record_second(bytes) as usize,
        entries: payload_entries(record_payload(bytes)),
    }
}

/// A directory with no entries: the magic number, a count of zero and every
/// slot free with an all-zero name.
pub open spec fn empty_dir_block() -> DirBlockView {
    DirBlockView {
        magic: DIR_MAGIC_NUM,
        num_entries: 0,
        entries: Seq::new(
            MAX_DIR_ENTRIES as nat,
            |i: int| EntryView { name: Seq::new(MAX_FNAME_SIZE as nat, |j: int| 0u8), block_num: 0 },
        ),
    }
}

/// Whether every slot of a table has a name of full width.
pub open spec fn names_full_width(entries: Seq<EntryView>) -> bool {
    forall|i: int| 0 <= i < entries.len() ==> (#[trigger] entries[i]).name.len() == MAX_FNAME_SIZE
}

/// Unpacking an entry table undoes packing it.
pub proof fn lemma_entries_round_trip(entries: Seq<EntryView>)
    requires
        names_full_width(entries),
    ensures
        entries_payload(entries).len() == ENTRY_SIZE * entries.len(),
        payload_entries(entries_payload(entries)) == entries,
        forall|i: int|
            0 <= i < entries.len() ==> #[trigger] payload_target(entries_payload(entries), i)
                == entries[i].block_num,
{
    lemma_auto_spec_u64_to_from_le_bytes();
    let p = entries_payload(entries);
    assert forall|i: int| 0 <= i < entries.len() implies #[trigger] payload_entries(p)[i]
        == entries[i] && payload_target(p, i) == entries[i].block_num by {
        let e = entries[i];
        let eb = entry_bytes(e);
        assert forall|j: int| 0 <= j < ENTRY_SIZE implies #[trigger] p[ENTRY_SIZE * i + j]
            == eb[j] by {
            let k = ENTRY_SIZE * i + j;
            assert(k / ENTRY_SIZE as int == i && k % ENTRY_SIZE as int == j);
        }
        let head = p.subrange(ENTRY_SIZE * i, ENTRY_SIZE * i + MAX_FNAME_SIZE);
        assert forall|j: int| 0 <= j < MAX_FNAME_SIZE implies #[trigger] head[j] == e.name[j] by {
            assert(p[ENTRY_SIZE * i + j] == eb[j]);
        }
        assert(head =~= e.name);
        let tail = p.subrange(ENTRY_SIZE * i + MAX_FNAME_SIZE, ENTRY_SIZE * i + ENTRY_SIZE);
        let want = spec_u64_to_le_bytes(e.block_num as u64);
        assert forall|j: int| 0 <= j < 8 implies #[trigger] tail[j] == want[j] by {
            assert(p[ENTRY_SIZE * i + (MAX_FNAME_SIZE + j)] == eb[MAX_FNAME_SIZE + j]);
        }
        assert(tail =~= want);
    }
    assert(payload_entries(p) =~= entries);
}

/// Packing an entry table undoes unpacking it, for a payload of whole entries
/// whose targets fit the machine word.
pub proof fn lemma_entries_payload_round_trip(payload: Seq<u8>)
    requires
        payload.len() as int % ENTRY_SIZE as int == 0,
        forall|i: int|
            0 <= i < payload.len() as int / ENTRY_SIZE as int ==> #[trigger] payload_target(payload, i)
                <= usize::MAX,
    ensures
        entries_payload(payload_entries(payload)) == payload,
        names_full_width(payload_entries(payload)),
{
    lemma_auto_spec_u64_to_from_le_bytes();
    let entries = payload_entries(payload);
    let p = entries_payload(entries);
    assert forall|k: int| 0 <= k < payload.len() implies p[k] == payload[k] by {
        let i = k / ENTRY_SIZE as int;
        let j = k % ENTRY_SIZE as int;
        let e = entries[i];
        let tail = payload.subrange(ENTRY_SIZE * i + MAX_FNAME_SIZE, ENTRY_SIZE * i + ENTRY_SIZE);
        assert(payload_target(payload, i) <= usize::MAX);
        assert(spec_u64_to_le_bytes(spec_u64_from_le_bytes(tail)) == tail);
        assert(e.block_num as u64 == spec_u64_from_le_bytes(tail));
        if j < MAX_FNAME_SIZE {
            assert(entry_bytes(e)[j] == e.name[j]);
            assert(e.name[j] == payload[k]);
        } else {
            assert(entry_bytes(e)[j] == tail[j - MAX_FNAME_SIZE]);
            assert(tail[j - MAX_FNAME_SIZE] == payload[k]);
        }
    }
    assert(p =~= payload);
}

/// One slot of a directory block: a name and the block it leads to. A target
/// of zero marks the slot as free.
#[derive(Debug, Copy, Clone)]
pub struct Entry {
    name: [u8; MAX_FNAME_SIZE],
    block_num: usize,
}

impl View for Entry {
    type V = EntryView;

    closed spec fn view(&self) -> EntryView {
        EntryView { name: self.name@, block_num: self.block_num }
    }
}

impl Default for Entry {
    /// The free slot: an all-zero name and no target.
    fn default() -> (r: Entry)
        ensures
            r@ == (EntryView { name: Seq::new(MAX_FNAME_SIZE as nat, |j: int| 0u8), block_num: 0 }),
    {
        let name = [0u8; MAX_FNAME_SIZE];
        assert(name@ =~= Seq::new(MAX_FNAME_SIZE as nat, |j: int| 0u8));
        Entry { name, block_num: 0 }
    }
}

/// The views of a table of slots.
pub open spec fn entry_views(entries: Seq<Entry>) -> Seq<EntryView> {
    Seq::new(entries.len(), |i: int| entries[i]@)
}

/// The record of a directory block.
#[derive(Debug)]
pub struct DirBlock {
    magic: usize,
    num_entries: usize,
    dir_entries: Vec<Entry>,
}

impl View for DirBlock {
    type V = DirBlockView;

    closed spec fn view(&self) -> DirBlockView {
        DirBlockView {
            magic: self.magic,
            num_entries: self.num_entries,
            entries: entry_views(self.dir_entries@),
        }
    }
}

impl DirBlock {
    /// The record always has one slot for each entry of the table.
    #[verifier::type_invariant]
    pub closed spec fn inv(self) -> bool {
        self.dir_entries@.len() == MAX_DIR_ENTRIES
    }

    /// The record of an empty directory.
    pub fn new() -> (r: DirBlock)
        ensures
            r@ == empty_dir_block(),
    {
        let mut dir_entries: Vec<Entry> = Vec::with_capacity(MAX_DIR_ENTRIES);
        let mut i: usize = 0;
        while i < MAX_DIR_ENTRIES
            invariant
                i <= MAX_DIR_ENTRIES,
                dir_entries@.len() == i,
                forall|k: int| 0 <= k < i ==> (#[trigger] dir_entries@[k])@ == empty_dir_block().entries[k],
            decreases MAX_DIR_ENTRIES - i,
        {
            dir_entries.push(Entry::default());
            i += 1;
        }
        let r = DirBlock { magic: DIR_MAGIC_NUM, num_entries: 0, dir_entries };
        assert(r@.entries =~= empty_dir_block().entries);
        r
    }

    /// Every name in the record has full width.
    pub proof fn lemma_names_full_width(self)
        ensures
            names_full_width(self@.entries),
    {
        assert forall|i: int| 0 <= i < self@.entries.len() implies (#[trigger] self@.entries[i]).name.len()
            == MAX_FNAME_SIZE by {
            vstd::array::array_len_matches_n(&self.dir_entries@[i].name);
        }
    }
}

impl BlockBinary for DirBlock {
    open spec fn encoding(&self) -> Seq<u8> {
        dir_block_bytes(self@)
    }

    open spec fn readable(block_data: Seq<u8>) -> bool {
        dir_block_readable(block_data)
    }

    fn to_bytes(&self) -> (r: Result<Vec<u8>, FSError>)
        ensures
            r matches Ok(bytes) ==> bytes@.len() == RECORD_HEADER_SIZE + ENTRY_SIZE * MAX_DIR_ENTRIES,
    {
        proof {
            use_type_invariant(self);
            self.lemma_names_full_width();
        }
        let mut payload: Vec<u8> = Vec::with_capacity(ENTRY_SIZE * MAX_DIR_ENTRIES);
        let mut i: usize = 0;
        while i < MAX_DIR_ENTRIES
            invariant
                i <= MAX_DIR_ENTRIES,
                self.dir_entries@.len() == MAX_DIR_ENTRIES,
                names_full_width(self@.entries),
                payload@.len() == ENTRY_SIZE * i,
                forall|k: int|
                    0 <= k < payload@.len() ==> payload@[k] == entry_bytes(
                        self@.entries[k / ENTRY_SIZE as int],
                    )[k % ENTRY_SIZE as int],
            decreases MAX_DIR_ENTRIES - i,
        {
            let entry = self.dir_entries[i];
            let ghost before = payload@;
            let ghost eb = entry_bytes(entry@);
            assert(entry@ == self@.entries[i as int]);
            assert(entry@.name.len() == MAX_FNAME_SIZE);
            let mut j: usize = 0;
            while j < MAX_FNAME_SIZE
                invariant
                    j <= MAX_FNAME_SIZE,
                    entry@.name.len() == MAX_FNAME_SIZE,
                    eb == entry_bytes(entry@),
                    payload@.len() == before.len() + j,
                    payload@.subrange(0, before.len() as int) == before,
                    forall|m: int| 0 <= m < j ==> payload@[before.len() + m] == eb[m],
                decreases MAX_FNAME_SIZE - j,
            {
                payload.push(entry.name[j]);
                assert(payload@.subrange(0, before.len() as int) =~= before);
                j += 1;
            }
            let eight = u64_to_le_bytes(entry.block_num as u64);
            let mut j: usize = 0;
            while j < 8
                invariant
                    j <= 8,
                    entry@.name.len() == MAX_FNAME_SIZE,
                    eb == entry_bytes(entry@),
                    eight@ == spec_u64_to_le_bytes(entry@.block_num as u64),
                    eight@.len() == 8,
                    payload@.len() == before.len() + MAX_FNAME_SIZE + j,
                    payload@.subrange(0, before.len() as int) == before,
                    forall|m: int| 0 <= m < MAX_FNAME_SIZE + j ==> payload@[before.len() + m] == eb[m],
                decreases 8 - j,
            {
                payload.push(eight[j]);
                assert(payload@.subrange(0, before.len() as int) =~= before);
                j += 1;
            }
            proof {
                assert forall|k: int| 0 <= k < payload@.len() implies payload@[k] == entry_bytes(
                    self@.entries[k / ENTRY_SIZE as int],
                )[k % ENTRY_SIZE as int] by {
                    if k < before.len() {
                        assert(payload@[k] == before[k]);
                    } else {
                        let m = k - before.len();
                        assert(k / ENTRY_SIZE as int == i && k % ENTRY_SIZE as int == m);
                        assert(payload@[before.len() + m] == eb[m]);
                    }
                }
            }
            i += 1;
        }
        assert(payload@ =~= entries_payload(self@.entries));
        proof {
            lemma_record_round_trip(
                self.magic as u64,
                self.num_entries as u64,
                payload@,
                Seq::empty(),
            );
        }
        encode_record(self.magic as u64, self.num_entries as u64, payload)
    }

    fn from_bytes(block_data: &[u8]) -> (r: Result<Self, FSError>)
        ensures
            r matches Ok(record) ==> record@ == dir_block_read(block_data@),
    {
        let (magic, num_entries, payload) = match decode_record(block_data) {
            Ok(record) => record,
            Err(e) => {
                return Err(e);
            },
        };
        if magic > usize::MAX as u64 || num_entries > usize::MAX as u64 || payload.len()
            != ENTRY_SIZE * MAX_DIR_ENTRIES {
            return Err(FSError::SerializeError);
        }
        let mut dir_entries: Vec<Entry> = Vec::with_capacity(MAX_DIR_ENTRIES);
        let mut i: usize = 0;
        while i < MAX_DIR_ENTRIES
            invariant
                i <= MAX_DIR_ENTRIES,
                payload@.len() == ENTRY_SIZE * MAX_DIR_ENTRIES,
                payload@ == record_payload(block_data@),
                dir_entries@.len() == i,
                forall|k: int| 0 <= k < i ==> payload_target(payload@, k) <= usize::MAX,
                forall|k: int| 0 <= k < i ==> (#[trigger] dir_entries@[k])@ == payload_entry(payload@, k),
            decreases MAX_DIR_ENTRIES - i,
        {
            let mut name = [0u8; MAX_FNAME_SIZE];
            let mut j: usize = 0;
            while j < MAX_FNAME_SIZE
                invariant
                    j <= MAX_FNAME_SIZE,
                    i < MAX_DIR_ENTRIES,
                    payload@.len() == ENTRY_SIZE * MAX_DIR_ENTRIES,
                    forall|m: int| 0 <= m < j ==> name@[m] == payload@[ENTRY_SIZE * i + m],
                decreases MAX_FNAME_SIZE - j,
            {
                name[j] = payload[ENTRY_SIZE * i + j];
                j += 1;
            }
            assert(name@ =~= payload@.subrange(ENTRY_SIZE * i, ENTRY_SIZE * i + MAX_FNAME_SIZE));
            let eight = slice_subrange(
                payload.as_slice(),
                ENTRY_SIZE * i + MAX_FNAME_SIZE,
                ENTRY_SIZE * i + ENTRY_SIZE,
            );
            let target = u64_from_le_bytes(eight);
            if target > usize::MAX as u64 {
                assert(payload_target(record_payload(block_data@), i as int) > usize::MAX);
                return Err(FSError::SerializeError);
            }
            dir_entries.push(Entry { name, block_num: target as usize });
            i += 1;
        }
        let record = DirBlock { magic: magic as usize, num_entries: num_entries as usize, dir_entries };
        assert(record@.entries =~= payload_entries(payload@));
        proof {
            lemma_entries_payload_round_trip(payload@);
            lemma_auto_spec_u64_to_from_le_bytes();
            let enc = record.encoding();
            assert(enc.len() == RECORD_HEADER_SIZE + payload@.len()) by {
                lemma_record_round_trip(magic, num_entries, payload@, Seq::empty());
            }
            assert(enc =~= block_data@.subrange(0, enc.len() as int)) by {
                let b = block_data@;
                assert(spec_u64_to_le_bytes(magic) == b.subrange(0, 8));
                assert(spec_u64_to_le_bytes(num_entries) == b.subrange(8, 16));
                assert(spec_u64_to_le_bytes(payload@.len() as u64) == b.subrange(16, 24));
            }
        }
        Ok(record)
    }
}

/// Whether `i` is the first place where `x` stands in `s`.
pub open spec fn is_first_at<T>(s: Seq<T>, x: T, i: int) -> bool {
    &&& 0 <= i < s.len()
    &&& s[i] == x
    &&& forall|j: int| 0 <= j < i ==> s[j] != x
}

/// The first place where `x` stands in `s`, where it stands anywhere.
pub open spec fn first_at<T>(s: Seq<T>, x: T) -> int {
    choose|i: int| is_first_at(s, x, i)
}

/// The first place of a value in a sequence is unique, and there is one
/// whenever the value occurs.
pub proof fn lemma_first_at<T>(s: Seq<T>, x: T, i: int)
    requires
        is_first_at(s, x, i),
    ensures
        first_at(s, x) == i,
        s.contains(x),
{
    let f = first_at(s, x);
    assert(is_first_at(s, x, f));
    if f < i {
        assert(s[f] != x);
    } else if i < f {
        assert(s[i] != x);
    }
}

/// A value that occurs in a sequence has a first place there.
pub proof fn lemma_first_at_exists<T>(s: Seq<T>, x: T)
    requires
        s.contains(x),
    ensures
        is_first_at(s, x, first_at(s, x)),
    decreases s.len(),
{
    let k = choose|k: int| 0 <= k < s.len() && s[k] == x;
    if exists|j: int| 0 <= j < k && s[j] == x {
        let t = s.take(k);
        let j = choose|j: int| 0 <= j < k && s[j] == x;
        assert(t[j] == x);
        lemma_first_at_exists(t, x);
        let f = first_at(t, x);
        assert(is_first_at(s, x, f)) by {
            assert(t[f] == s[f]);
            assert forall|m: int| 0 <= m < f implies s[m] != x by {
                assert(t[m] == s[m]);
            }
        }
    } else {
        assert(is_first_at(s, x, k));
    }
}

/// The references that are in use, in slot order.
pub open spec fn used_refs(blocks: Seq<u16>) -> Seq<u16>
    decreases blocks.len(),
{
    if blocks.len() == 0 {
        Seq::empty()
    } else if blocks.last() != 0 {
        used_refs(blocks.drop_last()).push(blocks.last())
    } else {
        used_refs(blocks.drop_last())
    }
}

/// Whether every reference that is in use names a block of the image.
pub open spec fn refs_in_range(blocks: Seq<u16>) -> bool {
    forall|k: int| 0 <= k < blocks.len() ==> #[trigger] blocks[k] < NUM_BLOCKS
}

/// The data blocks of the image that `ids` name, as handles hold them.
pub open spec fn loaded_blocks(image: Seq<Seq<u8>>, ids: Seq<u16>) -> Seq<DataBlockView> {
    Seq::new(ids.len(), |i: int| DataBlockView { id: ids[i] as usize, data: image[ids[i] as int] })
}

/// The views of a list of data-block handles.
pub open spec fn block_views(blocks: Seq<DataBlock>) -> Seq<DataBlockView> {
    Seq::new(blocks.len(), |i: int| blocks[i]@)
}

/// The record of an empty file.
pub open spec fn empty_inode() -> InodeView {
    InodeView {
        magic: INODE_MAGIC_NUM,
        size: 0,
        blocks: Seq::new(MAX_DATA_BLOCKS as nat, |i: int| 0u16),
    }
}

/// Why block `id` of the image cannot be loaded as a file, if it cannot: the
/// image has no such block, the block opens with the wrong magic number, it
/// holds no inode record, or a reference in use leads out of the image.
pub open spec fn file_load_error(image: Seq<Seq<u8>>, id: int) -> Option<FSError> {
    if id >= NUM_BLOCKS {
        Some(FSError::BlockError)
    } else if record_first(image[id]) != INODE_MAGIC_NUM {
        Some(FSError::FileSysError)
    } else if !inode_readable(image[id]) {
        Some(FSError::SerializeError)
    } else if !refs_in_range(inode_read(image[id]).blocks) {
        Some(FSError::BlockError)
    } else {
        None
    }
}

/// What a handle over a file holds: the inode block's id, its record, and
/// the data blocks that the record's used slots name, in slot order.
pub struct FileInodeView {
    pub id: usize,
    pub raw: InodeView,
    pub blocks: Seq<DataBlockView>,
}

/// The handle that loading block `id` of the image as a file gives.
pub open spec fn file_at(image: Seq<Seq<u8>>, id: int) -> FileInodeView {
    FileInodeView {
        id: id as usize,
        raw: inode_read(image[id]),
        blocks: loaded_blocks(image, used_refs(inode_read(image[id]).blocks)),
    }
}

/// A handle over an inode block, with the file's data blocks loaded.
pub struct FileInode {
    id: usize,
    raw: Inode,
    blocks: Vec<DataBlock>,
}

impl View for FileInode {
    type V = FileInodeView;

    closed spec fn view(&self) -> FileInodeView {
        FileInodeView { id: self.id, raw: self.raw@, blocks: block_views(self.blocks@) }
    }
}

/// The magic number that a block opens with: its first eight bytes, least
/// significant first.
fn block_magic(block: &Vec<u8>) -> (magic: u64)
    requires
        block@.len() == BLOCK_SIZE,
    ensures
        magic == record_first(block@),
{
    u64_from_le_bytes(slice_subrange(block.as_slice(), 0, 8))
}

/// Writes the record `raw` into block `id`, right-padded with zeros.
fn store_inode(wrapped_file_sys: &mut WrappedFileSys, id: usize, raw: &Inode)
    requires
        id < NUM_BLOCKS,
    ensures
        final(wrapped_file_sys)@ == old(wrapped_file_sys)@.update(id as int, padded(inode_bytes(raw@))),
{
    let bytes = match raw.to_bytes() {
        Ok(bytes) => bytes,
        Err(_) => Vec::new(),
    };
    let block = match pad_block(bytes) {
        Ok(block) => block,
        Err(_) => Vec::new(),
    };
    let _ = wrapped_file_sys.file_sys().write_block(id, &block);
}

/// The first slot that holds `x`, if any does.
fn position_of_ref(blocks: &Vec<u16>, x: u16) -> (r: Option<usize>)
    ensures
        match r {
            Some(i) => is_first_at(blocks@, x, i as int),
            None => !blocks@.contains(x),
        },
{
    let mut i: usize = 0;
    while i < blocks.len()
        invariant
            i <= blocks@.len(),
            forall|j: int| 0 <= j < i ==> blocks@[j] != x,
        decreases blocks@.len() - i,
    {
        if blocks[i] == x {
            return Some(i);
        }
        i += 1;
    }
    None
}

/// The slots with slot `i` taken out: the slots behind it move up by one and
/// an unused slot closes the table.
fn without_ref(blocks: &Vec<u16>, i: usize) -> (r: Vec<u16>)
    requires
        i < blocks@.len(),
    ensures
        r@ == blocks@.remove(i as int).push(0u16),
{
    let mut r: Vec<u16> = Vec::with_capacity(blocks.len());
    let mut j: usize = 0;
    while j < blocks.len()
        invariant
            j <= blocks@.len(),
            i < blocks@.len(),
            r@.len() == (if j <= i { j as int } else { j - 1 }),
            forall|k: int| 0 <= k < r@.len() ==> r@[k] == (if k < i { blocks@[k] } else { blocks@[k + 1] }),
        decreases blocks@.len() - j,
    {
        if j != i {
            r.push(blocks[j]);
        }
        j += 1;
    }
    r.push(0);
    assert(r@ =~= blocks@.remove(i as int).push(0u16));
    r
}

/// The first loaded block whose id is `id`, if any is.
fn position_of_block(blocks: &Vec<DataBlock>, id: usize) -> (r: Option<usize>)
    ensures
        match r {
            Some(k) => k < blocks@.len() && is_first_at(block_ids(block_views(blocks@)), id, k as int),
            None => !block_ids(block_views(blocks@)).contains(id),
        },
{
    let mut k: usize = 0;
    while k < blocks.len()
        invariant
            k <= blocks@.len(),
            forall|m: int| 0 <= m < k ==> block_ids(block_views(blocks@))[m] != id,
        decreases blocks@.len() - k,
    {
        if blocks[k].get_id() == id {
            return Some(k);
        }
        k += 1;
    }
    None
}

impl FileInode {
    /// The id is always one of the image's.
    #[verifier::type_invariant]
    pub closed spec fn inv(self) -> bool {
        self.id < NUM_BLOCKS
    }

    /// Takes the lowest free block of the image for a new file and writes an
    /// empty inode into it. Fails with `DiskFullError`, with nothing changed,
    /// exactly when no block is free.
    pub fn new(wrapped_file_sys: &mut WrappedFileSys) -> (r: Result<Self, FSError>)
        ensures
            match r {
                Ok(file) => {
                    &&& is_first_free(old(wrapped_file_sys)@[0], file@.id as int)
                    &&& final(wrapped_file_sys)@ == old(wrapped_file_sys)@.update(
                        0,
                        set_bit(old(wrapped_file_sys)@[0], file@.id as int),
                    ).update(file@.id as int, padded(inode_bytes(empty_inode())))
                    &&& file@.raw == empty_inode()
                    &&& file@.blocks == Seq::<DataBlockView>::empty()
                },
                Err(e) => {
                    &&& e == FSError::DiskFullError
                    &&& !has_free(old(wrapped_file_sys)@[0])
                    &&& final(wrapped_file_sys)@ == old(wrapped_file_sys)@
                },
            },
    {
        let res = wrapped_file_sys.file_sys().get_free_block();
        match res {
            Some(id) => {
                let tmp_raw = Inode::new();
                assert(tmp_raw@ == empty_inode());
                store_inode(wrapped_file_sys, id, &tmp_raw);
                let file_inode = Self { id, raw: tmp_raw, blocks: Vec::new() };
                assert(file_inode@.blocks =~= Seq::<DataBlockView>::empty());
                Ok(file_inode)
            },
            None => Err(FSError::DiskFullError),
        }
    }

    /// Loads block `id` of the image as a file: reads the inode record,
    /// checks its magic number and loads every data block that a used slot
    /// names, in slot order. Fails exactly when `file_load_error` says so,
    /// with the error it gives.
    pub fn retrieve(wrapped_file_sys: &WrappedFileSys, id: usize) -> (r: Result<Self, FSError>)
        ensures
            match r {
                Ok(file) => file_load_error(wrapped_file_sys@, id as int) is None && file@ == file_at(
                    wrapped_file_sys@,
                    id as int,
                ),
                Err(e) => file_load_error(wrapped_file_sys@, id as int) == Some(e),
            },
    {
        proof {
            wrapped_file_sys.lemma_view_wf();
        }
        let mut block_data: Vec<u8> = Vec::new();
        match wrapped_file_sys.file_sys_ref().read_block(id, &mut block_data) {
            Ok(()) => {},
            Err(e) => {
                return Err(e);
            },
        }
        if block_magic(&block_data) != INODE_MAGIC_NUM as u64 {
            return Err(FSError::FileSysError);
        }
        let inode = match Inode::from_bytes(block_data.as_slice()) {
            Ok(inode) => inode,
            Err(e) => {
                return Err(e);
            },
        };
        proof {
            use_type_invariant(&inode);
        }
        let ghost refs = inode.blocks@;
        let mut blocks: Vec<DataBlock> = Vec::new();
        assert(refs.take(0) =~= Seq::<u16>::empty());
        assert(block_views(blocks@) =~= loaded_blocks(wrapped_file_sys@, used_refs(refs.take(0))));
        let mut i: usize = 0;
        while i < MAX_DATA_BLOCKS
            invariant
                i <= MAX_DATA_BLOCKS,
                refs == inode.blocks@,
                refs.len() == MAX_DATA_BLOCKS,
                image_wf(wrapped_file_sys@),
                refs == inode_read(wrapped_file_sys@[id as int]).blocks,
                id < NUM_BLOCKS,
                inode_readable(wrapped_file_sys@[id as int]),
                record_first(wrapped_file_sys@[id as int]) == INODE_MAGIC_NUM,
                forall|k: int| 0 <= k < i ==> #[trigger] refs[k] < NUM_BLOCKS,
                block_views(blocks@) == loaded_blocks(wrapped_file_sys@, used_refs(refs.take(i as int))),
            decreases MAX_DATA_BLOCKS - i,
        {
            let block_id = inode.blocks[i];
            proof {
                assert(refs.take(i + 1).drop_last() =~= refs.take(i as int));
                assert(refs.take(i + 1).last() == refs[i as int]);
            }
            if block_id as usize >= NUM_BLOCKS {
                return Err(FSError::BlockError);
            }
            if block_id != 0 {
                let ghost before = blocks@;
                match DataBlock::retrieve(wrapped_file_sys, block_id as usize) {
                    Ok(block) => {
                        blocks.push(block);
                    },
                    Err(e) => {
                        return Err(e);
                    },
                }
                proof {
                    let used = used_refs(refs.take(i as int));
                    assert(used_refs(refs.take(i + 1)) == used.push(block_id));
                    assert(block_views(blocks@) =~= block_views(before).push(blocks@.last()@));
                    assert(loaded_blocks(wrapped_file_sys@, used.push(block_id)) =~= loaded_blocks(
                        wrapped_file_sys@,
                        used,
                    ).push(blocks@.last()@));
                }
            } else {
                assert(used_refs(refs.take(i + 1)) == used_refs(refs.take(i as int)));
            }
            i += 1;
        }
        assert(refs.take(MAX_DATA_BLOCKS as int) =~= refs);
        Ok(Self { id, raw: inode, blocks })
    }

    /// Writes `tmp_raw` into the inode block and keeps it as the handle's
    /// record. The list of loaded data blocks stays as it is.
    pub fn write_and_set_raw_block(&mut self, wrapped_file_sys: &mut WrappedFileSys, tmp_raw: Inode) -> (r:
        Result<(), FSError>)
        ensures
            r is Ok,
            final(self)@ == (FileInodeView { raw: tmp_raw@, ..old(self)@ }),
            final(wrapped_file_sys)@ == old(wrapped_file_sys)@.update(
                old(self)@.id as int,
                padded(inode_bytes(tmp_raw@)),
            ),
    {
        proof {
            use_type_invariant(&*self);
        }
        store_inode(wrapped_file_sys, self.id, &tmp_raw);
        self.raw = tmp_raw;
        Ok(())
    }

    /// The record of the inode block.
    pub fn get_raw(&self) -> (raw: &Inode)
        ensures
            raw@ == self@.raw,
    {
        &self.raw
    }

    /// The file's size in bytes.
    pub fn get_size(&self) -> (size: usize)
        ensures
            size == self@.raw.size,
    {
        self.raw.size
    }

    /// The loaded data blocks.
    pub fn get_blocks(&self) -> (blocks: &Vec<DataBlock>)
        ensures
            block_views(blocks@) == self@.blocks,
    {
        &self.blocks
    }

    /// Puts `block` into the first unused slot, writes the inode block and
    /// adds `block` to the loaded ones. Fails with `FileFullError`, with
    /// nothing changed, exactly when no slot is unused.
    pub fn add_block(&mut self, wrapped_file_sys: &mut WrappedFileSys, block: DataBlock) -> (r: Result<
        (),
        FSError,
    >)
        ensures
            match r {
                Ok(()) => {
                    &&& old(self)@.raw.blocks.contains(0u16)
                    &&& final(self)@ == (FileInodeView {
                        raw: InodeView {
                            blocks: old(self)@.raw.blocks.update(
                                first_at(old(self)@.raw.blocks, 0u16),
                                block@.id as u16,
                            ),
                            ..old(self)@.raw
                        },
                        blocks: old(self)@.blocks.push(block@),
                        ..old(self)@
                    })
                    &&& final(wrapped_file_sys)@ == old(wrapped_file_sys)@.update(
                        old(self)@.id as int,
                        padded(inode_bytes(final(self)@.raw)),
                    )
                },
                Err(e) => {
                    &&& e == FSError::FileFullError
                    &&& !old(self)@.raw.blocks.contains(0u16)
                    &&& final(self)@ == old(self)@
                    &&& final(wrapped_file_sys)@ == old(wrapped_file_sys)@
                },
            },
    {
        proof {
            use_type_invariant(&*self);
            use_type_invariant(&self.raw);
        }
        let block_id = block.get_id();
        match position_of_ref(&self.raw.blocks, 0) {
            Some(i) => {
                proof {
                    lemma_first_at(self.raw.blocks@, 0u16, i as int);
                }
                self.raw.blocks[i] = block_id as u16;
                store_inode(wrapped_file_sys, self.id, &self.raw);
                let mut blocks: Vec<DataBlock> = Vec::new();
                std::mem::swap(&mut blocks, &mut self.blocks);
                blocks.push(block);
                self.blocks = blocks;
                assert(block_views(self.blocks@) =~= block_views(old(self).blocks@).push(block@));
                Ok(())
            },
            None => Err(FSError::FileFullError),
        }
    }

    /// Takes `block` out of the first slot that holds its id: the slots
    /// behind it move up by one and the last slot becomes unused. The first
    /// loaded block with that id leaves the loaded ones, and the inode block
    /// is written. Fails with `FileSysError`, with nothing changed, exactly
    /// when no slot holds the id.
    pub fn remove_block(&mut self, wrapped_file_sys: &mut WrappedFileSys, block: &DataBlock) -> (r: Result<
        (),
        FSError,
    >)
        ensures
            match r {
                Ok(()) => {
                    &&& old(self)@.raw.blocks.contains(block@.id as u16)
                    &&& final(self)@.id == old(self)@.id
                    &&& final(self)@.raw == (InodeView {
                        blocks: old(self)@.raw.blocks.remove(
                            first_at(old(self)@.raw.blocks, block@.id as u16),
                        ).push(0u16),
                        ..old(self)@.raw
                    })
                    &&& final(self)@.blocks == without_block(old(self)@.blocks, block@.id)
                    &&& final(wrapped_file_sys)@ == old(wrapped_file_sys)@.update(
                        old(self)@.id as int,
                        padded(inode_bytes(final(self)@.raw)),
                    )
                },
                Err(e) => {
                    &&& e == FSError::FileSysError
                    &&& !old(self)@.raw.blocks.contains(block@.id as u16)
                    &&& final(self)@ == old(self)@
                    &&& final(wrapped_file_sys)@ == old(wrapped_file_sys)@
                },
            },
    {
        proof {
            use_type_invariant(&*self);
            use_type_invariant(&self.raw);
        }
        let block_id = block.get_id();
        let target = block_id as u16;
        let i = match position_of_ref(&self.raw.blocks, target) {
            Some(i) => i,
            None => {
                return Err(FSError::FileSysError);
            },
        };
        proof {
            lemma_first_at(self.raw.blocks@, target, i as int);
        }
        let blocks = without_ref(&self.raw.blocks, i);
        self.raw = Inode { magic: self.raw.magic, size: self.raw.size, blocks };
        let mut loaded: Vec<DataBlock> = Vec::new();
        std::mem::swap(&mut loaded, &mut self.blocks);
        match position_of_block(&loaded, block_id) {
            Some(k) => {
                proof {
                    lemma_first_at(block_ids(block_views(loaded@)), block_id, k as int);
                    assert(block_views(loaded@.remove(k as int)) =~= block_views(loaded@).remove(k as int));
                }
                let _ = loaded.remove(k);
            },
            None => {},
        }
        self.blocks = loaded;
        store_inode(wrapped_file_sys, self.id, &self.raw);
        Ok(())
    }

    /// Sets the file's size to `size` bytes and writes the inode block.
    pub fn set_size(&mut self, wrapped_file_sys: &mut WrappedFileSys, size: usize) -> (r: Result<(), FSError>)
        ensures
            r is Ok,
            final(self)@ == (FileInodeView { raw: InodeView { size, ..old(self)@.raw }, ..old(self)@ }),
            final(wrapped_file_sys)@ == old(wrapped_file_sys)@.update(
                old(self)@.id as int,
                padded(inode_bytes(final(self)@.raw)),
            ),
    {
        proof {
            use_type_invariant(&*self);
            use_type_invariant(&self.raw);
        }
        self.raw.size = size;
        store_inode(wrapped_file_sys, self.id, &self.raw);
        Ok(())
    }

    /// Whether a slot is unused.
    pub fn has_free_block(&self) -> (b: bool)
        ensures
            b == self@.raw.blocks.contains(0u16),
    {
        proof {
            use_type_invariant(&self.raw);
        }
        let mut i: usize = 0;
        while i < MAX_DATA_BLOCKS
            invariant
                i <= MAX_DATA_BLOCKS,
                self.raw.blocks@.len() == MAX_DATA_BLOCKS,
                forall|j: int| 0 <= j < i ==> self.raw.blocks@[j] != 0u16,
            decreases MAX_DATA_BLOCKS - i,
        {
            if self.raw.blocks[i] == 0 {
                return true;
            }
            i += 1;
        }
        false
    }

    /// The bytes of the file that stand in its last data block when that
    /// block is not full: the size modulo the block size.
    pub fn internal_flag_size(&self) -> (n: usize)
        ensures
            n == self@.raw.size % BLOCK_SIZE,
    {
        self.raw.size % BLOCK_SIZE
    }

    /// Gives the inode block back to the free ones. The data blocks are not
    /// touched: whoever destroys a file destroys them first.
    pub fn destroy(self, wrapped_file_sys: &mut WrappedFileSys)
        ensures
            final(wrapped_file_sys)@ == old(wrapped_file_sys)@.update(
                0,
                clear_bit(old(wrapped_file_sys)@[0], self@.id as int),
            ),
    {
        proof {
            use_type_invariant(&self);
        }
        let _ = wrapped_file_sys.file_sys().reclaim_block(self.id);
    }

    /// The id of the inode block, which is always one of the image's.
    pub fn get_id(&self) -> (id: usize)
        ensures
            id == self@.id,
            id < NUM_BLOCKS,
    {
        proof {
            use_type_invariant(self);
        }
        self.id
    }
}

/// The ids of a list of data blocks.
pub open spec fn block_ids(blocks: Seq<DataBlockView>) -> Seq<usize> {
    Seq::new(blocks.len(), |i: int| blocks[i].id)
}

/// The list without the first block whose id is `id`; the list itself where
/// no block has that id.
pub open spec fn without_block(blocks: Seq<DataBlockView>, id: usize) -> Seq<DataBlockView> {
    if block_ids(blocks).contains(id) {
        blocks.remove(first_at(block_ids(blocks), id))
    } else {
        blocks
    }
}

/// An entry of a directory as the operations on the name space pass it
/// round: a name and the block it leads to.
#[derive(Debug, Copy, Clone)]
pub struct DirEntry {
    name: [u8; MAX_FNAME_SIZE],
    inode_id: usize,
}

impl View for DirEntry {
    type V = EntryView;

    closed spec fn view(&self) -> EntryView {
        EntryView { name: self.name@, block_num: self.inode_id }
    }
}

impl DirEntry {
    /// The entry that gives `name` to block `inode_id`.
    pub fn new(name: [u8; MAX_FNAME_SIZE], inode_id: usize) -> (r: Self)
        ensures
            r@ == (EntryView { name: name@, block_num: inode_id }),
    {
        Self { name, inode_id }
    }

    /// The entry's name, zero padding included.
    #[inline]
    pub fn get_name(&self) -> (name: [u8; MAX_FNAME_SIZE])
        ensures
            name@ == self@.name,
    {
        self.name
    }

    /// The block that the entry leads to.
    #[inline]
    pub fn get_id(&self) -> (id: usize)
        ensures
            id == self@.block_num,
    {
        self.inode_id
    }
}

/// The views of a list of entries.
pub open spec fn dir_entry_views(entries: Seq<DirEntry>) -> Seq<EntryView> {
    Seq::new(entries.len(), |i: int| entries[i]@)
}

/// The target blocks of a table of slots.
pub open spec fn targets(entries: Seq<EntryView>) -> Seq<usize> {
    Seq::new(entries.len(), |i: int| entries[i].block_num)
}

/// The names of a table of slots.
pub open spec fn names(entries: Seq<EntryView>) -> Seq<Seq<u8>> {
    Seq::new(entries.len(), |i: int| entries[i].name)
}

/// The free slot: an all-zero name and no target.
pub open spec fn free_entry() -> EntryView {
    EntryView { name: Seq::new(MAX_FNAME_SIZE as nat, |j: int| 0u8), block_num: 0 }
}

/// Whether a slot in use of the table holds `name`.
pub open spec fn table_has_name(entries: Seq<EntryView>, name: Seq<u8>) -> bool {
    exists|i: int| 0 <= i < entries.len() && (#[trigger] entries[i]).block_num != 0 && entries[i].name == name
}

/// Whether the slot is in use and leads to a block of the image that opens
/// with `magic`.
pub open spec fn leads_to(image: Seq<Seq<u8>>, e: EntryView, magic: usize) -> bool {
    &&& e.block_num != 0
    &&& e.block_num < NUM_BLOCKS
    &&& record_first(image[e.block_num as int]) == magic
}

/// What is wrong with a slot, if anything is: it is in use and leads out of
/// the image, or to a block that opens with neither magic number.
pub open spec fn slot_error(image: Seq<Seq<u8>>, e: EntryView) -> Option<FSError> {
    if e.block_num == 0 {
        None
    } else if e.block_num >= NUM_BLOCKS {
        Some(FSError::BlockError)
    } else if leads_to(image, e, INODE_MAGIC_NUM) || leads_to(image, e, DIR_MAGIC_NUM) {
        None
    } else {
        Some(FSError::FileSysError)
    }
}

/// What is wrong with the first slot of the table that has anything wrong.
pub open spec fn table_error(image: Seq<Seq<u8>>, entries: Seq<EntryView>) -> Option<FSError>
    decreases entries.len(),
{
    if entries.len() == 0 {
        None
    } else {
        match table_error(image, entries.drop_last()) {
            Some(e) => Some(e),
            None => slot_error(image, entries.last()),
        }
    }
}

/// The slots of the table that lead to a block opening with `magic`, in
/// table order.
pub open spec fn entries_to(image: Seq<Seq<u8>>, entries: Seq<EntryView>, magic: usize) -> Seq<EntryView>
    decreases entries.len(),
{
    if entries.len() == 0 {
        Seq::empty()
    } else if leads_to(image, entries.last(), magic) {
        entries_to(image, entries.drop_last(), magic).push(entries.last())
    } else {
        entries_to(image, entries.drop_last(), magic)
    }
}

/// Why block `id` of the image cannot be loaded as a directory, if it
/// cannot: the image has no such block, the block opens with the wrong magic
/// number, it holds no directory record, or a slot has something wrong.
pub open spec fn dir_load_error(image: Seq<Seq<u8>>, id: int) -> Option<FSError> {
    if id >= NUM_BLOCKS {
        Some(FSError::BlockError)
    } else if record_first(image[id]) != DIR_MAGIC_NUM {
        Some(FSError::FileSysError)
    } else if !dir_block_readable(image[id]) {
        Some(FSError::SerializeError)
    } else {
        table_error(image, dir_block_read(image[id]).entries)
    }
}

/// What a handle over a directory holds: the directory block's id, its
/// record, and the entries that lead to files and to directories.
pub struct DirInodeView {
    pub id: usize,
    pub raw: DirBlockView,
    pub file_entries: Seq<EntryView>,
    pub dir_entries: Seq<EntryView>,
}

/// The handle that loading block `id` of the image as a directory gives.
pub open spec fn dir_at(image: Seq<Seq<u8>>, id: int) -> DirInodeView {
    DirInodeView {
        id: id as usize,
        raw: dir_block_read(image[id]),
        file_entries: entries_to(image, dir_block_read(image[id]).entries, INODE_MAGIC_NUM),
        dir_entries: entries_to(image, dir_block_read(image[id]).entries, DIR_MAGIC_NUM),
    }
}

/// The list without the first entry that leads to block `id`; the list
/// itself where no entry does.
pub open spec fn without_entry(entries: Seq<EntryView>, id: usize) -> Seq<EntryView> {
    if targets(entries).contains(id) {
        entries.remove(first_at(targets(entries), id))
    } else {
        entries
    }
}

/// The record with `entry` in its first free slot and one more in its count.
pub open spec fn with_entry(raw: DirBlockView, entry: EntryView) -> DirBlockView {
    DirBlockView {
        num_entries: (raw.num_entries + 1) as usize,
        entries: raw.entries.update(first_at(targets(raw.entries), 0usize), entry),
        ..raw
    }
}

/// The record with the first slot that leads to block `id` freed and one
/// less in its count.
pub open spec fn with_slot_freed(raw: DirBlockView, id: usize) -> DirBlockView {
    DirBlockView {
        num_entries: (raw.num_entries - 1) as usize,
        entries: raw.entries.update(first_at(targets(raw.entries), id), free_entry()),
        ..raw
    }
}

/// Whether the record takes one more entry: its count is below the table's
/// size and a slot is free.
pub open spec fn takes_entry(raw: DirBlockView) -> bool {
    raw.num_entries < MAX_DIR_ENTRIES && targets(raw.entries).contains(0usize)
}

/// A handle over a directory block, with its entries told apart into those
/// that lead to files and those that lead to directories.
pub struct DirInode {
    id: usize,
    raw: DirBlock,
    file_entries: Vec<DirEntry>,
    dir_entries: Vec<DirEntry>,
}

impl View for DirInode {
    type V = DirInodeView;

    closed spec fn view(&self) -> DirInodeView {
        DirInodeView {
            id: self.id,
            raw: self.raw@,
            file_entries: dir_entry_views(self.file_entries@),
            dir_entries: dir_entry_views(self.dir_entries@),
        }
    }
}

/// Writes the record `raw` into block `id`, right-padded with zeros.
fn store_dir_block(wrapped_file_sys: &mut WrappedFileSys, id: usize, raw: &DirBlock)
    requires
        id < NUM_BLOCKS,
    ensures
        final(wrapped_file_sys)@ == old(wrapped_file_sys)@.update(
            id as int,
            padded(dir_block_bytes(raw@)),
        ),
{
    let bytes = match raw.to_bytes() {
        Ok(bytes) => bytes,
        Err(_) => Vec::new(),
    };
    let block = match pad_block(bytes) {
        Ok(block) => block,
        Err(_) => Vec::new(),
    };
    let _ = wrapped_file_sys.file_sys().write_block(id, &block);
}

/// Whether two names are the same, byte for byte.
pub fn same_name(a: &[u8; MAX_FNAME_SIZE], b: &[u8; MAX_FNAME_SIZE]) -> (r: bool)
    ensures
        r == (a@ == b@),
{
    let mut i: usize = 0;
    while i < MAX_FNAME_SIZE
        invariant
            i <= MAX_FNAME_SIZE,
            forall|j: int| 0 <= j < i ==> a@[j] == b@[j],
        decreases MAX_FNAME_SIZE - i,
    {
        if a[i] != b[i] {
            return false;
        }
        i += 1;
    }
    assert(a@ =~= b@);
    true
}

/// The first slot of the table that leads to block `id`, if any does.
fn position_of_target(entries: &Vec<Entry>, id: usize) -> (r: Option<usize>)
    ensures
        match r {
            Some(i) => is_first_at(targets(entry_views(entries@)), id, i as int),
            None => !targets(entry_views(entries@)).contains(id),
        },
{
    let mut i: usize = 0;
    while i < entries.len()
        invariant
            i <= entries@.len(),
            forall|j: int| 0 <= j < i ==> targets(entry_views(entries@))[j] != id,
        decreases entries@.len() - i,
    {
        if entries[i].block_num == id {
            return Some(i);
        }
        i += 1;
    }
    None
}

/// The first entry of the list that leads to block `id`, if any does.
fn position_of_entry(entries: &Vec<DirEntry>, id: usize) -> (r: Option<usize>)
    ensures
        match r {
            Some(i) => i < entries@.len() && is_first_at(targets(dir_entry_views(entries@)), id, i as int),
            None => !targets(dir_entry_views(entries@)).contains(id),
        },
{
    let mut i: usize = 0;
    while i < entries.len()
        invariant
            i <= entries@.len(),
            forall|j: int| 0 <= j < i ==> targets(dir_entry_views(entries@))[j] != id,
        decreases entries@.len() - i,
    {
        if entries[i].inode_id == id {
            return Some(i);
        }
        i += 1;
    }
    None
}

/// The list with `entry` at its end.
fn with_pushed(entries: &mut Vec<DirEntry>, entry: DirEntry)
    ensures
        dir_entry_views(final(entries)@) == dir_entry_views(old(entries)@).push(entry@),
{
    entries.push(entry);
    assert(dir_entry_views(entries@) =~= dir_entry_views(old(entries)@).push(entry@));
}

/// The list without its first entry that leads to block `id`.
fn with_removed(entries: &mut Vec<DirEntry>, id: usize)
    ensures
        dir_entry_views(final(entries)@) == without_entry(dir_entry_views(old(entries)@), id),
{
    match position_of_entry(entries, id) {
        Some(k) => {
            proof {
                lemma_first_at(targets(dir_entry_views(entries@)), id, k as int);
                assert(dir_entry_views(entries@.remove(k as int)) =~= dir_entry_views(entries@).remove(
                    k as int,
                ));
            }
            let _ = entries.remove(k);
        },
        None => {},
    }
}

impl DirInode {
    /// The id is always one of the image's.
    #[verifier::type_invariant]
    pub closed spec fn inv(self) -> bool {
        self.id < NUM_BLOCKS
    }

    /// Takes the lowest free block of the image for a new directory and
    /// writes an empty directory record into it. Fails with `DiskFullError`,
    /// with nothing changed, exactly when no block is free.
    pub fn new(wrapped_file_sys: &mut WrappedFileSys) -> (r: Result<Self, FSError>)
        ensures
            match r {
                Ok(dir) => {
                    &&& is_first_free(old(wrapped_file_sys)@[0], dir@.id as int)
                    &&& final(wrapped_file_sys)@ == old(wrapped_file_sys)@.update(
                        0,
                        set_bit(old(wrapped_file_sys)@[0], dir@.id as int),
                    ).update(dir@.id as int, padded(dir_block_bytes(empty_dir_block())))
                    &&& dir@.raw == empty_dir_block()
                    &&& dir@.file_entries == Seq::<EntryView>::empty()
                    &&& dir@.dir_entries == Seq::<EntryView>::empty()
                },
                Err(e) => {
                    &&& e == FSError::DiskFullError
                    &&& !has_free(old(wrapped_file_sys)@[0])
                    &&& final(wrapped_file_sys)@ == old(wrapped_file_sys)@
                },
            },
    {
        let res = wrapped_file_sys.file_sys().get_free_block();
        match res {
            Some(id) => {
                let tmp_raw = DirBlock::new();
                store_dir_block(wrapped_file_sys, id, &tmp_raw);
                let dir_inode = Self {
                    id,
                    raw: tmp_raw,
                    file_entries: Vec::new(),
                    dir_entries: Vec::new(),
                };
                assert(dir_inode@.file_entries =~= Seq::<EntryView>::empty());
                assert(dir_inode@.dir_entries =~= Seq::<EntryView>::empty());
                Ok(dir_inode)
            },
            None => Err(FSError::DiskFullError),
        }
    }

    /// Loads block `id` of the image as a directory: reads the directory
    /// record, checks its magic number, and reads the block that each slot in
    /// use leads to, to tell by its magic number whether the entry is a file
    /// or a directory. Fails exactly when `dir_load_error` says so, with the
    /// error it gives.
    pub fn retrieve(wrapped_file_sys: &WrappedFileSys, id: usize) -> (r: Result<Self, FSError>)
        ensures
            match r {
                Ok(dir) => dir_load_error(wrapped_file_sys@, id as int) is None && dir@ == dir_at(
                    wrapped_file_sys@,
                    id as int,
                ),
                Err(e) => dir_load_error(wrapped_file_sys@, id as int) == Some(e),
            },
    {
        proof {
            wrapped_file_sys.lemma_view_wf();
        }
        let mut block_data: Vec<u8> = Vec::new();
        match wrapped_file_sys.file_sys_ref().read_block(id, &mut block_data) {
            Ok(()) => {},
            Err(e) => {
                return Err(e);
            },
        }
        if block_magic(&block_data) != DIR_MAGIC_NUM as u64 {
            return Err(FSError::FileSysError);
        }
        let dir_block = match DirBlock::from_bytes(block_data.as_slice()) {
            Ok(dir_block) => dir_block,
            Err(e) => {
                return Err(e);
            },
        };
        proof {
            use_type_invariant(&dir_block);
        }
        let ghost image = wrapped_file_sys@;
        let ghost table = dir_block@.entries;
        let mut file_entries: Vec<DirEntry> = Vec::new();
        let mut dir_entries: Vec<DirEntry> = Vec::new();
        assert(table.take(0) =~= Seq::<EntryView>::empty());
        assert(dir_entry_views(file_entries@) =~= Seq::<EntryView>::empty());
        assert(dir_entry_views(dir_entries@) =~= Seq::<EntryView>::empty());
        let mut i: usize = 0;
        while i < MAX_DIR_ENTRIES
            invariant
                i <= MAX_DIR_ENTRIES,
                image == wrapped_file_sys@,
                image_wf(image),
                table == dir_block@.entries,
                table.len() == MAX_DIR_ENTRIES,
                dir_block.dir_entries@.len() == MAX_DIR_ENTRIES,
                id < NUM_BLOCKS,
                dir_block_readable(image[id as int]),
                dir_block@ == dir_block_read(image[id as int]),
                record_first(image[id as int]) == DIR_MAGIC_NUM,
                table_error(image, table.take(i as int)) is None,
                dir_entry_views(file_entries@) == entries_to(image, table.take(i as int), INODE_MAGIC_NUM),
                dir_entry_views(dir_entries@) == entries_to(image, table.take(i as int), DIR_MAGIC_NUM),
            decreases MAX_DIR_ENTRIES - i,
        {
            let name = dir_block.dir_entries[i].name;
            let block_id = dir_block.dir_entries[i].block_num;
            proof {
                assert(table.take(i + 1).drop_last() =~= table.take(i as int));
                assert(table.take(i + 1).last() == table[i as int]);
                assert(table[i as int] == (EntryView { name: name@, block_num: block_id }));
                assert(table.take(MAX_DIR_ENTRIES as int) =~= table);
            }
            if block_id != 0 {
                let mut target: Vec<u8> = Vec::new();
                match wrapped_file_sys.file_sys_ref().read_block(block_id, &mut target) {
                    Ok(()) => {},
                    Err(e) => {
                        proof {
                            assert(slot_error(image, table[i as int]) == Some(FSError::BlockError));
                            assert(table_error(image, table.take(i + 1)) == Some(FSError::BlockError));
                            lemma_table_error_stays(image, table, i as int + 1);
                        }
                        return Err(e);
                    },
                }
                let magic = block_magic(&target);
                if magic == INODE_MAGIC_NUM as u64 {
                    with_pushed(&mut file_entries, DirEntry::new(name, block_id));
                } else if magic == DIR_MAGIC_NUM as u64 {
                    with_pushed(&mut dir_entries, DirEntry::new(name, block_id));
                } else {
                    proof {
                        assert(slot_error(image, table[i as int]) == Some(FSError::FileSysError));
                        assert(table_error(image, table.take(i + 1)) == Some(FSError::FileSysError));
                        lemma_table_error_stays(image, table, i as int + 1);
                    }
                    return Err(FSError::FileSysError);
                }
            }
            i += 1;
        }
        assert(table.take(MAX_DIR_ENTRIES as int) =~= table);
        Ok(Self { id, raw: dir_block, file_entries, dir_entries })
    }

    /// Writes `tmp_raw` into the directory block and keeps it as the
    /// handle's record. The lists of entries stay as they are.
    pub fn write_and_set_raw_block(&mut self, wrapped_file_sys: &mut WrappedFileSys, tmp_raw: DirBlock) -> (r:
        Result<(), FSError>)
        ensures
            r is Ok,
            final(self)@ == (DirInodeView { raw: tmp_raw@, ..old(self)@ }),
            final(wrapped_file_sys)@ == old(wrapped_file_sys)@.update(
                old(self)@.id as int,
                padded(dir_block_bytes(tmp_raw@)),
            ),
    {
        proof {
            use_type_invariant(&*self);
        }
        store_dir_block(wrapped_file_sys, self.id, &tmp_raw);
        self.raw = tmp_raw;
        Ok(())
    }

    /// The count of entries that the record carries.
    pub fn get_num_entries(&self) -> (n: usize)
        ensures
            n == self@.raw.num_entries,
    {
        self.raw.num_entries
    }

    /// The entries that lead to files.
    pub fn get_file_inode_entries(&self) -> (entries: &Vec<DirEntry>)
        ensures
            dir_entry_views(entries@) == self@.file_entries,
    {
        &self.file_entries
    }

    /// The entries that lead to directories.
    pub fn get_dir_inode_entries(&self) -> (entries: &Vec<DirEntry>)
        ensures
            dir_entry_views(entries@) == self@.dir_entries,
    {
        &self.dir_entries
    }

    /// Puts `entry` into the first free slot, adds one to the count, writes
    /// the directory block and adds `entry` to the entries that lead to
    /// files. Whether the name is taken already is not looked at. Fails with
    /// `DirFullError`, with nothing changed, exactly when the record takes no
    /// more entry.
    pub fn add_file_entry(&mut self, wrapped_file_sys: &mut WrappedFileSys, entry: DirEntry) -> (r: Result<
        (),
        FSError,
    >)
        ensures
            match r {
                Ok(()) => {
                    &&& takes_entry(old(self)@.raw)
                    &&& final(self)@ == (DirInodeView {
                        raw: with_entry(old(self)@.raw, entry@),
                        file_entries: old(self)@.file_entries.push(entry@),
                        ..old(self)@
                    })
                    &&& final(wrapped_file_sys)@ == old(wrapped_file_sys)@.update(
                        old(self)@.id as int,
                        padded(dir_block_bytes(final(self)@.raw)),
                    )
                },
                Err(e) => {
                    &&& e == FSError::DirFullError
                    &&& !takes_entry(old(self)@.raw)
                    &&& final(self)@ == old(self)@
                    &&& final(wrapped_file_sys)@ == old(wrapped_file_sys)@
                },
            },
    {
        match self.place_entry(wrapped_file_sys, entry) {
            Ok(()) => {
                proof {
                    use_type_invariant(&*self);
                }
                let mut entries: Vec<DirEntry> = Vec::new();
                std::mem::swap(&mut entries, &mut self.file_entries);
                with_pushed(&mut entries, entry);
                self.file_entries = entries;
                Ok(())
            },
            Err(e) => Err(e),
        }
    }

    /// Puts `entry` into the first free slot, adds one to the count, writes
    /// the directory block and adds `entry` to the entries that lead to
    /// directories. Whether the name is taken already is not looked at. Fails
    /// with `DirFullError`, with nothing changed, exactly when the record
    /// takes no more entry.
    pub fn add_dir_entry(&mut self, wrapped_file_sys: &mut WrappedFileSys, entry: DirEntry) -> (r: Result<
        (),
        FSError,
    >)
        ensures
            match r {
                Ok(()) => {
                    &&& takes_entry(old(self)@.raw)
                    &&& final(self)@ == (DirInodeView {
                        raw: with_entry(old(self)@.raw, entry@),
                        dir_entries: old(self)@.dir_entries.push(entry@),
                        ..old(self)@
                    })
                    &&& final(wrapped_file_sys)@ == old(wrapped_file_sys)@.update(
                        old(self)@.id as int,
                        padded(dir_block_bytes(final(self)@.raw)),
                    )
                },
                Err(e) => {
                    &&& e == FSError::DirFullError
                    &&& !takes_entry(old(self)@.raw)
                    &&& final(self)@ == old(self)@
                    &&& final(wrapped_file_sys)@ == old(wrapped_file_sys)@
                },
            },
    {
        match self.place_entry(wrapped_file_sys, entry) {
            Ok(()) => {
                proof {
                    use_type_invariant(&*self);
                }
                let mut entries: Vec<DirEntry> = Vec::new();
                std::mem::swap(&mut entries, &mut self.dir_entries);
                with_pushed(&mut entries, entry);
                self.dir_entries = entries;
                Ok(())
            },
            Err(e) => Err(e),
        }
    }

    /// The part that adding a file and adding a directory share: the slot,
    /// the count and the write.
    fn place_entry(&mut self, wrapped_file_sys: &mut WrappedFileSys, entry: DirEntry) -> (r: Result<
        (),
        FSError,
    >)
        ensures
            match r {
                Ok(()) => {
                    &&& takes_entry(old(self)@.raw)
                    &&& final(self)@ == (DirInodeView {
                        raw: with_entry(old(self)@.raw, entry@),
                        ..old(self)@
                    })
                    &&& final(wrapped_file_sys)@ == old(wrapped_file_sys)@.update(
                        old(self)@.id as int,
                        padded(dir_block_bytes(final(self)@.raw)),
                    )
                },
                Err(e) => {
                    &&& e == FSError::DirFullError
                    &&& !takes_entry(old(self)@.raw)
                    &&& final(self)@ == old(self)@
                    &&& final(wrapped_file_sys)@ == old(wrapped_file_sys)@
                },
            },
    {
        proof {
            use_type_invariant(&*self);
            use_type_invariant(&self.raw);
        }
        if self.raw.num_entries >= MAX_DIR_ENTRIES {
            return Err(FSError::DirFullError);
        }
        match position_of_target(&self.raw.dir_entries, 0) {
            Some(i) => {
                proof {
                    lemma_first_at(targets(entry_views(self.raw.dir_entries@)), 0usize, i as int);
                }
                self.raw.dir_entries[i] = Entry { name: entry.name, block_num: entry.inode_id };
                self.raw.num_entries = self.raw.num_entries + 1;
                assert(self.raw@.entries =~= with_entry(old(self)@.raw, entry@).entries);
                store_dir_block(wrapped_file_sys, self.id, &self.raw);
                Ok(())
            },
            None => Err(FSError::DirFullError),
        }
    }

    /// Whether `remove_file_entry` and `remove_dir_entry` find a slot for
    /// block `block_id`: the id is not the mark of a free slot and a slot
    /// leads to it.
    pub open spec fn holds_target(raw: DirBlockView, block_id: usize) -> bool {
        block_id != 0 && targets(raw.entries).contains(block_id)
    }

    /// Frees the first slot that leads to block `block_id`, takes one from
    /// the count, writes the directory block and takes the first entry that
    /// leads there out of the entries that lead to files. Where no slot leads
    /// there, nothing happens and that is no error. Fails with
    /// `FileSysError`, with nothing changed, exactly when a slot leads there
    /// and the count is zero.
    pub fn remove_file_entry(&mut self, wrapped_file_sys: &mut WrappedFileSys, block_id: usize) -> (r: Result<
        (),
        FSError,
    >)
        ensures
            r is Err <==> Self::holds_target(old(self)@.raw, block_id) && old(self)@.raw.num_entries == 0,
            r matches Err(e) ==> e == FSError::FileSysError,
            !Self::holds_target(old(self)@.raw, block_id) || r is Err ==> {
                &&& final(self)@ == old(self)@
                &&& final(wrapped_file_sys)@ == old(wrapped_file_sys)@
            },
            Self::holds_target(old(self)@.raw, block_id) && r is Ok ==> {
                &&& final(self)@ == (DirInodeView {
                    raw: with_slot_freed(old(self)@.raw, block_id),
                    file_entries: without_entry(old(self)@.file_entries, block_id),
                    ..old(self)@
                })
                &&& final(wrapped_file_sys)@ == old(wrapped_file_sys)@.update(
                    old(self)@.id as int,
                    padded(dir_block_bytes(final(self)@.raw)),
                )
            },
    {
        match self.free_slot(wrapped_file_sys, block_id) {
            Ok(true) => {
                proof {
                    use_type_invariant(&*self);
                }
                let mut entries: Vec<DirEntry> = Vec::new();
                std::mem::swap(&mut entries, &mut self.file_entries);
                with_removed(&mut entries, block_id);
                self.file_entries = entries;
                Ok(())
            },
            Ok(false) => Ok(()),
            Err(e) => Err(e),
        }
    }

    /// Frees the first slot that leads to block `block_id`, takes one from
    /// the count, writes the directory block and takes the first entry that
    /// leads there out of the entries that lead to directories. Where no slot
    /// leads there, nothing happens and that is no error. Fails with
    /// `FileSysError`, with nothing changed, exactly when a slot leads there
    /// and the count is zero.
    pub fn remove_dir_entry(&mut self, wrapped_file_sys: &mut WrappedFileSys, block_id: usize) -> (r: Result<
        (),
        FSError,
    >)
        ensures
            r is Err <==> Self::holds_target(old(self)@.raw, block_id) && old(self)@.raw.num_entries == 0,
            r matches Err(e) ==> e == FSError::FileSysError,
            !Self::holds_target(old(self)@.raw, block_id) || r is Err ==> {
                &&& final(self)@ == old(self)@
                &&& final(wrapped_file_sys)@ == old(wrapped_file_sys)@
            },
            Self::holds_target(old(self)@.raw, block_id) && r is Ok ==> {
                &&& final(self)@ == (DirInodeView {
                    raw: with_slot_freed(old(self)@.raw, block_id),
                    dir_entries: without_entry(old(self)@.dir_entries, block_id),
                    ..old(self)@
                })
                &&& final(wrapped_file_sys)@ == old(wrapped_file_sys)@.update(
                    old(self)@.id as int,
                    padded(dir_block_bytes(final(self)@.raw)),
                )
            },
    {
        match self.free_slot(wrapped_file_sys, block_id) {
            Ok(true) => {
                proof {
                    use_type_invariant(&*self);
                }
                let mut entries: Vec<DirEntry> = Vec::new();
                std::mem::swap(&mut entries, &mut self.dir_entries);
                with_removed(&mut entries, block_id);
                self.dir_entries = entries;
                Ok(())
            },
            Ok(false) => Ok(()),
            Err(e) => Err(e),
        }
    }

    /// The part that removing a file and removing a directory share: the
    /// slot, the count and the write. `Ok(true)` where a slot was freed.
    fn free_slot(&mut self, wrapped_file_sys: &mut WrappedFileSys, block_id: usize) -> (r: Result<
        bool,
        FSError,
    >)
        ensures
            match r {
                Ok(true) => {
                    &&& Self::holds_target(old(self)@.raw, block_id)
                    &&& old(self)@.raw.num_entries > 0
                    &&& final(self)@ == (DirInodeView {
                        raw: with_slot_freed(old(self)@.raw, block_id),
                        ..old(self)@
                    })
                    &&& final(wrapped_file_sys)@ == old(wrapped_file_sys)@.update(
                        old(self)@.id as int,
                        padded(dir_block_bytes(final(self)@.raw)),
                    )
                },
                Ok(false) => {
                    &&& !Self::holds_target(old(self)@.raw, block_id)
                    &&& final(self)@ == old(self)@
                    &&& final(wrapped_file_sys)@ == old(wrapped_file_sys)@
                },
                Err(e) => {
                    &&& e == FSError::FileSysError
                    &&& Self::holds_target(old(self)@.raw, block_id)
                    &&& old(self)@.raw.num_entries == 0
                    &&& final(self)@ == old(self)@
                    &&& final(wrapped_file_sys)@ == old(wrapped_file_sys)@
                },
            },
    {
        proof {
            use_type_invariant(&*self);
            use_type_invariant(&self.raw);
        }
        if block_id == 0 {
            return Ok(false);
        }
        match position_of_target(&self.raw.dir_entries, block_id) {
            Some(i) => {
                proof {
                    lemma_first_at(targets(entry_views(self.raw.dir_entries@)), block_id, i as int);
                }
                if self.raw.num_entries == 0 {
                    return Err(FSError::FileSysError);
                }
                self.raw.dir_entries[i] = Entry::default();
                self.raw.num_entries = self.raw.num_entries - 1;
                assert(self.raw@.entries =~= with_slot_freed(old(self)@.raw, block_id).entries);
                store_dir_block(wrapped_file_sys, self.id, &self.raw);
                Ok(true)
            },
            None => Ok(false),
        }
    }

    /// Whether the count is below the table's size.
    pub fn has_free_entry(&self) -> (b: bool)
        ensures
            b == (self@.raw.num_entries < MAX_DIR_ENTRIES),
    {
        self.raw.num_entries < MAX_DIR_ENTRIES
    }

    /// Whether a slot in use holds `name`.
    pub fn has_name(&self, name: [u8; MAX_FNAME_SIZE]) -> (b: bool)
        ensures
            b == table_has_name(self@.raw.entries, name@),
    {
        proof {
            use_type_invariant(&self.raw);
        }
        let mut i: usize = 0;
        while i < MAX_DIR_ENTRIES
            invariant
                i <= MAX_DIR_ENTRIES,
                self.raw.dir_entries@.len() == MAX_DIR_ENTRIES,
                forall|j: int|
                    0 <= j < i ==> !((#[trigger] self@.raw.entries[j]).block_num != 0
                        && self@.raw.entries[j].name == name@),
            decreases MAX_DIR_ENTRIES - i,
        {
            let slot = &self.raw.dir_entries[i];
            if slot.block_num != 0 && same_name(&slot.name, &name) {
                assert(self@.raw.entries[i as int].block_num != 0 && self@.raw.entries[i as int].name == name@);
                return true;
            }
            i += 1;
        }
        false
    }

    /// Gives the directory block back to the free ones.
    pub fn destroy(self, wrapped_file_sys: &mut WrappedFileSys)
        ensures
            final(wrapped_file_sys)@ == old(wrapped_file_sys)@.update(
                0,
                clear_bit(old(wrapped_file_sys)@[0], self@.id as int),
            ),
    {
        proof {
            use_type_invariant(&self);
        }
        let _ = wrapped_file_sys.file_sys().reclaim_block(self.id);
    }

    /// The id of the directory block, which is always one of the image's.
    pub fn get_id(&self) -> (id: usize)
        ensures
            id == self@.id,
            id < NUM_BLOCKS,
    {
        proof {
            use_type_invariant(self);
        }
        self.id
    }
}

/// Once a slot among the first `n` of a table has something wrong, the table
/// as a whole has that wrong.
pub proof fn lemma_table_error_stays(image: Seq<Seq<u8>>, table: Seq<EntryView>, n: int)
    requires
        0 <= n <= table.len(),
        table_error(image, table.take(n)) is Some,
    ensures
        table_error(image, table) == table_error(image, table.take(n)),
    decreases table.len() - n,
{
    if n < table.len() {
        assert(table.take(n + 1).drop_last() =~= table.take(n));
        lemma_table_error_stays(image, table, n + 1);
    } else {
        assert(table.take(n) =~= table);
    }
}

/// Every entry that `entries_to` picks is a slot of the table that leads to
/// a block opening with the magic number asked for.
pub proof fn lemma_entries_to_members(image: Seq<Seq<u8>>, table: Seq<EntryView>, magic: usize)
    ensures
        forall|k: int|
            0 <= k < entries_to(image, table, magic).len() ==> {
                &&& leads_to(image, #[trigger] entries_to(image, table, magic)[k], magic)
                &&& table.contains(entries_to(image, table, magic)[k])
            },
    decreases table.len(),
{
    if table.len() > 0 {
        let front = table.drop_last();
        lemma_entries_to_members(image, front, magic);
        let picked = entries_to(image, table, magic);
        assert forall|k: int| 0 <= k < picked.len() implies leads_to(image, #[trigger] picked[k], magic)
            && table.contains(picked[k]) by {
            if k < entries_to(image, front, magic).len() {
                let e = entries_to(image, front, magic)[k];
                assert(front.contains(e));
                let i = choose|i: int| 0 <= i < front.len() && front[i] == e;
                assert(table[i] == e);
            } else {
                assert(picked[k] == table.last());
                assert(table[table.len() - 1] == table.last());
            }
        }
    }
}

/// An entry of the table that leads somewhere has its target among the
/// table's targets.
pub proof fn lemma_member_target(table: Seq<EntryView>, e: EntryView)
    requires
        table.contains(e),
    ensures
        targets(table).contains(e.block_num),
{
    let i = choose|i: int| 0 <= i < table.len() && table[i] == e;
    assert(targets(table)[i] == e.block_num);
}

} // verus!
