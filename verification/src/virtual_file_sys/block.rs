//! The geometry of the image and the handle over one data block.

use vstd::prelude::*;
use crate::error::FSError;
use crate::virtual_file_sys::bitmap::{clear_bit, has_free, is_first_free, set_bit};
use crate::virtual_file_sys::file_sys::{zero_block, WrappedFileSys};
use crate::virtual_file_sys::record::{pad_block, padded};

verus! {

/// Bytes in one block.
pub const BLOCK_SIZE: usize = 1024;

/// Blocks in the image: one bitmap block covers them all.
pub const NUM_BLOCKS: usize = BLOCK_SIZE * 8;

/// Width of a name, right-padded with zero bytes.
pub const MAX_FNAME_SIZE: usize = 9;

/// Entries in one directory block.
pub const MAX_DIR_ENTRIES: usize = (BLOCK_SIZE - 8) / 32;

/// Data blocks that one inode can index.
pub const MAX_DATA_BLOCKS: usize = (BLOCK_SIZE - 8) / 4;

/// Largest file, in bytes.
pub const MAX_FILE_SIZE: usize = MAX_DATA_BLOCKS * BLOCK_SIZE;

/// Magic number that opens a directory block.
pub const DIR_MAGIC_NUM: usize = 0xFFFFFFFF;

/// Magic number that opens an inode block.
pub const INODE_MAGIC_NUM: usize = 0xFFFFFFFE;

/// What a handle over a data block holds: the block's id and its bytes.
pub struct DataBlockView {
    pub id: usize,
    pub data: Seq<u8>,
}

/// A handle over an allocated data block: its id and a copy of its bytes.
pub struct DataBlock {
    id: usize,
    raw: Vec<u8>,
}

impl View for DataBlock {
    type V = DataBlockView;

    closed spec fn view(&self) -> DataBlockView {
        DataBlockView { id: self.id, data: self.raw@ }
    }
}

impl DataBlock {
    /// The id is always one of the image's and the bytes are one block long.
    #[verifier::type_invariant]
    pub closed spec fn inv(self) -> bool {
        self.id < NUM_BLOCKS && self.raw@.len() == BLOCK_SIZE
    }

    /// Takes the lowest free block of the image for data. The handle holds
    /// zeros; nothing but the bitmap is written. Fails with `DiskFullError`,
    /// with nothing changed, exactly when no block is free.
    pub fn new(wrapped_file_sys: &mut WrappedFileSys) -> (r: Result<Self, FSError>)
        ensures
            match r {
                Ok(block) => {
                    &&& is_first_free(old(wrapped_file_sys)@[0], block@.id as int)
                    &&& final(wrapped_file_sys)@ == old(wrapped_file_sys)@.update(
                        0,
                        set_bit(old(wrapped_file_sys)@[0], block@.id as int),
                    )
                    &&& block@.data == zero_block()
                },
                Err(e) => {
                    &&& e == FSError::DiskFullError
                    &&& !has_free(old(wrapped_file_sys)@[0])
                    &&& final(wrapped_file_sys)@ == old(wrapped_file_sys)@
                },
            },
    {
        match wrapped_file_sys.file_sys().get_free_block() {
            Some(id) => {
                let raw: Vec<u8> = vec![0u8; BLOCK_SIZE];
                assert(raw@ =~= zero_block());
                Ok(Self { id, raw })
            },
            None => Err(FSError::DiskFullError),
        }
    }

    /// Loads block `id` of the image. Fails with `BlockError` exactly when
    /// the image has no such block.
    pub fn retrieve(wrapped_file_sys: &WrappedFileSys, id: usize) -> (r: Result<Self, FSError>)
        ensures
            match r {
                Ok(block) => id < NUM_BLOCKS && block@ == (DataBlockView {
                    id,
                    data: wrapped_file_sys@[id as int],
                }),
                Err(e) => e == FSError::BlockError && id >= NUM_BLOCKS,
            },
    {
        proof {
            wrapped_file_sys.lemma_view_wf();
        }
        let mut block_data: Vec<u8> = Vec::new();
        match wrapped_file_sys.file_sys_ref().read_block(id, &mut block_data) {
            Ok(()) => Ok(Self { id, raw: block_data }),
            Err(e) => Err(e),
        }
    }

    /// Gives the block back to the free ones; its bytes stay as they are.
    pub fn destroy(self, wrapped_file_sys: &mut WrappedFileSys)
        ensures
            final(wrapped_file_sys)@ == old(wrapped_file_sys)@.update(
                0,
                clear_bit(old(wrapped_file_sys)@[0], self@.id as int),
            ),
    {
        proof {
            use_type_invariant(&self);
        }
        let _ = wrapped_file_sys.file_sys().reclaim_block(self.id);
    }

    /// The block's id, which is always one of the image's.
    pub fn get_id(&self) -> (id: usize)
        ensures
            id == self@.id,
            id < NUM_BLOCKS,
    {
        proof {
            use_type_invariant(self);
        }
        self.id
    }

    /// A copy of the bytes that the handle holds: always one block.
    pub fn get_raw(&self) -> (raw: Vec<u8>)
        ensures
            raw@ == self@.data,
            raw@.len() == BLOCK_SIZE,
    {
        proof {
            use_type_invariant(self);
        }
        self.raw.clone()
    }

    /// The bytes that the handle holds: always one block.
    pub fn get_data(&self) -> (data: &Vec<u8>)
        ensures
            data@ == self@.data,
            data@.len() == BLOCK_SIZE,
    {
        proof {
            use_type_invariant(self);
        }
        &self.raw
    }

    /// Writes `tmp_raw`, right-padded with zeros to one block, to the block
    /// on disk and keeps it in the handle. Fails with `BlockError`, with
    /// nothing changed, exactly when `tmp_raw` is longer than a block.
    pub fn write_and_set_raw_block(
        &mut self,
        wrapped_file_sys: &mut WrappedFileSys,
        tmp_raw: Vec<u8>,
    ) -> (r: Result<(), FSError>)
        ensures
            final(self)@.id == old(self)@.id,
            match r {
                Ok(()) => {
                    &&& tmp_raw@.len() <= BLOCK_SIZE
                    &&& final(self)@.data == padded(tmp_raw@)
                    &&& final(wrapped_file_sys)@ == old(wrapped_file_sys)@.update(
                        old(self)@.id as int,
                        padded(tmp_raw@),
                    )
                },
                Err(e) => {
                    &&& e == FSError::BlockError
                    &&& tmp_raw@.len() > BLOCK_SIZE
                    &&& final(self)@ == old(self)@
                    &&& final(wrapped_file_sys)@ == old(wrapped_file_sys)@
                },
            },
    {
        proof {
            use_type_invariant(&*self);
        }
        let block = match pad_block(tmp_raw) {
            Ok(block) => block,
            Err(e) => {
                return Err(e);
            },
        };
        let _ = wrapped_file_sys.file_sys().write_block(self.id, &block);
        self.raw = block;
        Ok(())
    }
}

/// A record that lives in a block: it can be written out as bytes and read
/// back from the bytes of a block.
pub trait BlockBinary: Sized {
    /// The bytes that stand for this record.
    spec fn encoding(&self) -> Seq<u8>;

    /// Whether `block_data` starts with the bytes of such a record.
    spec fn readable(block_data: Seq<u8>) -> bool;

    /// Writes the record out. This never fails.
    fn to_bytes(&self) -> (r: Result<Vec<u8>, FSError>)
        ensures
            r is Ok,
            r matches Ok(bytes) ==> bytes@ == self.encoding(),
    ;

    /// Reads the record that `block_data` starts with: `Ok` exactly when it
    /// starts with one, and then the record is the one whose bytes are there.
    fn from_bytes(block_data: &[u8]) -> (r: Result<Self, FSError>)
        ensures
            r is Ok <==> Self::readable(block_data@),
            r matches Ok(record) ==> record.encoding() == block_data@.subrange(0, record.encoding().len() as int),
            r matches Err(e) ==> e == FSError::SerializeError,
    ;
}

} // verus!
