//! The backing image as a fixed-size array of equal-length blocks.

use vstd::prelude::*;
use crate::error::FSError;
use crate::virtual_file_sys::block::{BLOCK_SIZE, NUM_BLOCKS};

verus! {

/// Whether `image` has the shape of a disk: `NUM_BLOCKS` blocks of `BLOCK_SIZE` bytes.
pub open spec fn image_wf(image: Seq<Seq<u8>>) -> bool {
    &&& image.len() == NUM_BLOCKS
    &&& forall|n: int| 0 <= n < NUM_BLOCKS ==> (#[trigger] image[n]).len() == BLOCK_SIZE
}

/// The blocks that a flat byte image holds: block `n` is the bytes from
/// `n * BLOCK_SIZE` up to `(n + 1) * BLOCK_SIZE`.
pub open spec fn blocks_of(bytes: Seq<u8>) -> Seq<Seq<u8>> {
    Seq::new(NUM_BLOCKS as nat, |n: int| Seq::new(BLOCK_SIZE as nat, |i: int| bytes[n * BLOCK_SIZE + i]))
}

/// The in-memory image of the backing file.
pub struct Disk {
    data: Vec<u8>,
}

impl View for Disk {
    type V = Seq<Seq<u8>>;

    closed spec fn view(&self) -> Seq<Seq<u8>> {
        blocks_of(self.data@)
    }
}

impl Disk {
    /// The bytes are always one image long.
    #[verifier::type_invariant]
    spec fn inv(self) -> bool {
        self.data@.len() == NUM_BLOCKS * BLOCK_SIZE
    }

    /// The flat bytes of the image, block after block.
    pub closed spec fn bytes(&self) -> Seq<u8> {
        self.data@
    }

    /// The view of a disk always has the shape of an image.
    pub proof fn lemma_view_wf(&self)
        ensures
            image_wf(self@),
            self@ == blocks_of(self.bytes()),
    {
    }

    /// Takes the bytes of the backing file as the image. An empty file is a
    /// new image and reads as all zeros; any other length than that of a full
    /// image cannot serve every block and is refused.
    pub fn mount(image: Vec<u8>) -> (r: Result<Disk, FSError>)
        ensures
            match r {
                Ok(disk) => {
                    &&& image@.len() == 0 || image@.len() == NUM_BLOCKS * BLOCK_SIZE
                    &&& image@.len() == 0 ==> disk.bytes() == Seq::new((NUM_BLOCKS * BLOCK_SIZE) as nat, |i: int| 0u8)
                    &&& image@.len() != 0 ==> disk.bytes() == image@
                },
                Err(e) => {
                    &&& e == FSError::IOError
                    &&& image@.len() != 0
                    &&& image@.len() != NUM_BLOCKS * BLOCK_SIZE
                },
            },
    {
        if image.len() == 0 {
            let data: Vec<u8> = vec![0u8; NUM_BLOCKS * BLOCK_SIZE];
            assert(data@ =~= Seq::new((NUM_BLOCKS * BLOCK_SIZE) as nat, |i: int| 0u8));
            Ok(Disk { data })
        } else if image.len() == NUM_BLOCKS * BLOCK_SIZE {
            Ok(Disk { data: image })
        } else {
            Err(FSError::IOError)
        }
    }

    /// Gives the image back as the bytes of the backing file.
    pub fn unmount(self) -> (image: Vec<u8>)
        ensures
            image@ == self.bytes(),
            image@.len() == NUM_BLOCKS * BLOCK_SIZE,
    {
        proof {
            use_type_invariant(&self);
        }
        self.data
    }

    /// A copy of the image as the bytes of the backing file.
    pub fn snapshot(&self) -> (image: Vec<u8>)
        ensures
            image@ == self.bytes(),
            image@.len() == NUM_BLOCKS * BLOCK_SIZE,
    {
        proof {
            use_type_invariant(self);
        }
        self.data.clone()
    }

    /// Copies block `block_num` into `block`. Fails, leaving `block` as it
    /// was, when the image has no such block.
    pub fn read_block(&self, block_num: usize, block: &mut Vec<u8>) -> (r: Result<(), FSError>)
        ensures
            block_num < NUM_BLOCKS ==> r is Ok && final(block)@ == self@[block_num as int],
            block_num >= NUM_BLOCKS ==> r == Err::<(), FSError>(FSError::BlockError) && final(block)@ == old(block)@,
    {
        if block_num >= NUM_BLOCKS {
            return Err(FSError::BlockError);
        }
        proof {
            use_type_invariant(self);
        }
        let offset: usize = block_num * BLOCK_SIZE;
        let mut out: Vec<u8> = Vec::with_capacity(BLOCK_SIZE);
        let mut i: usize = 0;
        while i < BLOCK_SIZE
            invariant
                i <= BLOCK_SIZE,
                offset == block_num * BLOCK_SIZE,
                block_num < NUM_BLOCKS,
                self.data@.len() == NUM_BLOCKS * BLOCK_SIZE,
                out@.len() == i,
                forall|j: int| 0 <= j < i ==> out@[j] == self.data@[offset + j],
            decreases BLOCK_SIZE - i,
        {
            out.push(self.data[offset + i]);
            i += 1;
        }
        assert(out@ =~= self@[block_num as int]);
        *block = out;
        Ok(())
    }

    /// Replaces block `block_num` by `block`. Fails, leaving the image as it
    /// was, when the image has no such block or `block` is not exactly one
    /// block long.
    pub fn write_block(&mut self, block_num: usize, block: &Vec<u8>) -> (r: Result<(), FSError>)
        ensures
            block_num < NUM_BLOCKS && block@.len() == BLOCK_SIZE ==> r is Ok && final(self)@ == old(self)@.update(
                block_num as int,
                block@,
            ),
            !(block_num < NUM_BLOCKS && block@.len() == BLOCK_SIZE) ==> r == Err::<(), FSError>(FSError::BlockError)
                && final(self)@ == old(self)@,
    {
        if block_num >= NUM_BLOCKS || block.len() != BLOCK_SIZE {
            return Err(FSError::BlockError);
        }
        proof {
            use_type_invariant(&*self);
        }
        let offset: usize = block_num * BLOCK_SIZE;
        let mut i: usize = 0;
        while i < BLOCK_SIZE
            invariant
                i <= BLOCK_SIZE,
                offset == block_num * BLOCK_SIZE,
                block_num < NUM_BLOCKS,
                block@.len() == BLOCK_SIZE,
                self.data@.len() == NUM_BLOCKS * BLOCK_SIZE,
                forall|k: int| 0 <= k < offset ==> self.data@[k] == old(self).data@[k],
                forall|k: int| offset + BLOCK_SIZE <= k < NUM_BLOCKS * BLOCK_SIZE ==> self.data@[k] == old(self).data@[k],
                forall|k: int| offset + i <= k < offset + BLOCK_SIZE ==> self.data@[k] == old(self).data@[k],
                forall|j: int| 0 <= j < i ==> self.data@[offset + j] == block@[j],
            decreases BLOCK_SIZE - i,
        {
            self.data[offset + i] = block[i];
            i += 1;
        }
        proof {
            let new = self@;
            let want = old(self)@.update(block_num as int, block@);
            assert forall|n: int| 0 <= n < NUM_BLOCKS implies #[trigger] new[n] =~= want[n] by {
                if n < block_num {
                    assert((n + 1) * BLOCK_SIZE <= offset) by (nonlinear_arith)
                        requires n + 1 <= block_num, offset == block_num * BLOCK_SIZE;
                } else if n > block_num {
                    assert(n * BLOCK_SIZE >= offset + BLOCK_SIZE) by (nonlinear_arith)
                        requires n >= block_num + 1, offset == block_num * BLOCK_SIZE;
                }
            }
            assert(new =~= want);
        }
        Ok(())
    }
}

} // verus!
