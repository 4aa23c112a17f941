//! Concrete low-level transports. The memory-backed image is the one
//! transport whose I/O is a plain memory copy, so it is verified in full
//! against the transport contract.

use vstd::prelude::*;
use crate::{DevError, SECTOR_SIZE, update_range};
use crate::interface::LowBlockDevice;

verus! {

/// A block medium backed by an in-memory byte image. Unlike a hardware
/// transport it never fails on an addressable sector, and its impl contract
/// says so: every in-range transfer returns `Ok`, and the only error it
/// reports is `OutOfRange`.
pub struct MemoryFat32Img {
    data: Vec<u8>,
}

impl MemoryFat32Img {
    /// Wraps a byte image as a sector-addressed medium. Bytes past the last
    /// whole sector are not addressable through the transport.
    pub fn new(data: Vec<u8>) -> (r: MemoryFat32Img)
        ensures
            r.medium() == data@,
    {
        MemoryFat32Img { data }
    }
}

/// Sector index `b` is addressable exactly when `(b + 1) * SECTOR_SIZE`
/// fits in a medium of `len` bytes, which the capacity check decides.
proof fn lemma_sector_bounds(len: int, b: int)
    requires
        0 <= len,
        0 <= b,
    ensures
        b < len / (SECTOR_SIZE as int) ==> (b + 1) * (SECTOR_SIZE as int) <= len,
        b >= len / (SECTOR_SIZE as int) ==> (b + 1) * (SECTOR_SIZE as int) > len,
{
    vstd::arithmetic::div_mod::lemma_fundamental_div_mod(len, SECTOR_SIZE as int);
    vstd::arithmetic::div_mod::lemma_mod_bound(len, SECTOR_SIZE as int);
}

impl LowBlockDevice for MemoryFat32Img {
    closed spec fn medium(&self) -> Seq<u8> {
        self.data@
    }

    fn read_block(&mut self, block_id: usize, buf: &mut Vec<u8>) -> (r: Result<(), DevError>)
        ensures
            (block_id + 1) * (SECTOR_SIZE as int) <= old(self).medium().len() ==> r is Ok,
            r is Err ==> r == Err::<(), DevError>(DevError::OutOfRange) && final(buf)@ == old(
                buf,
            )@,
    {
        proof {
            lemma_sector_bounds(self.data@.len() as int, block_id as int);
        }
        if block_id >= self.data.len() / SECTOR_SIZE {
            return Err(DevError::OutOfRange);
        }
        let start = block_id * SECTOR_SIZE;
        let mut j: usize = 0;
        while j < SECTOR_SIZE
            invariant
                j <= SECTOR_SIZE,
                start == block_id * (SECTOR_SIZE as int),
                start + SECTOR_SIZE <= self.data@.len(),
                buf@.len() == SECTOR_SIZE,
                self == old(self),
                forall|i: int| 0 <= i < j ==> buf@[i] == self.data@[start + i],
            decreases SECTOR_SIZE - j,
        {
            let b = self.data[start + j];
            buf[j] = b;
            j += 1;
        }
        proof {
            assert(buf@ =~= self.data@.subrange(
                block_id * (SECTOR_SIZE as int),
                (block_id + 1) * (SECTOR_SIZE as int),
            ));
        }
        Ok(())
    }

    fn write_block(&mut self, block_id: usize, buf: &Vec<u8>) -> (r: Result<(), DevError>)
        ensures
            (block_id + 1) * (SECTOR_SIZE as int) <= old(self).medium().len() ==> r is Ok,
            r is Err ==> r == Err::<(), DevError>(DevError::OutOfRange),
    {
        proof {
            lemma_sector_bounds(self.data@.len() as int, block_id as int);
        }
        if block_id >= self.data.len() / SECTOR_SIZE {
            return Err(DevError::OutOfRange);
        }
        let start = block_id * SECTOR_SIZE;
        let mut j: usize = 0;
        while j < SECTOR_SIZE
            invariant
                j <= SECTOR_SIZE,
                start == block_id * (SECTOR_SIZE as int),
                start + SECTOR_SIZE <= self.data@.len(),
                buf@.len() == SECTOR_SIZE,
                self.data@.len() == old(self).data@.len(),
                forall|i: int| 0 <= i < self.data@.len() && !(start <= i < start + j)
                    ==> self.data@[i] == old(self).data@[i],
                forall|i: int| start <= i < start + j ==> self.data@[i] == buf@[i - start],
            decreases SECTOR_SIZE - j,
        {
            let b = buf[j];
            self.data[start + j] = b;
            j += 1;
        }
        proof {
            assert(self.data@ =~= update_range(
                old(self).data@,
                block_id * (SECTOR_SIZE as int),
                buf@,
            ));
        }
        Ok(())
    }

    fn capacity(&self) -> (r: usize) {
        self.data.len() / SECTOR_SIZE
    }
}

} // verus!
