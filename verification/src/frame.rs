//! The frame tracker: exclusive ownership of one physical frame's worth of
//! bytes for the lifetime of a cached page, identified by a handle that is
//! unique among live frames.

use vstd::prelude::*;
use crate::PAGE_CACHE_SIZE;

verus! {

/// Owns one physical frame backing one cached page. Dropping the tracker
/// releases the frame. The handle identifies the frame; the cache keeps
/// handles of live entries pairwise distinct.
pub struct FrameTracker {
    pub(crate) handle: usize,
    pub(crate) data: Vec<u8>,
}

impl FrameTracker {
    /// The frame handle this tracker owns.
    pub open(crate) spec fn id(self) -> usize {
        self.handle
    }

    /// The bytes of the frame.
    pub open(crate) spec fn bytes(self) -> Seq<u8> {
        self.data@
    }

    /// A fresh, zero-filled frame under the given handle.
    pub fn new(handle: usize) -> (r: FrameTracker)
        ensures
            r.id() == handle,
            r.bytes().len() == PAGE_CACHE_SIZE,
            forall|i: int| 0 <= i < r.bytes().len() ==> r.bytes()[i] == 0u8,
    {
        let mut data: Vec<u8> = Vec::new();
        while data.len() < PAGE_CACHE_SIZE
            invariant
                data.len() <= PAGE_CACHE_SIZE,
                forall|i: int| 0 <= i < data.len() ==> data@[i] == 0u8,
            decreases PAGE_CACHE_SIZE - data.len(),
        {
            data.push(0u8);
        }
        FrameTracker { handle, data }
    }

    /// Bounds-checked read of one byte of the frame.
    pub fn read_byte(&self, i: usize) -> (b: u8)
        requires
            i < self.bytes().len(),
        ensures
            b == self.bytes()[i as int],
    {
        self.data[i]
    }

    /// Bounds-checked write of one byte of the frame.
    pub fn write_byte(&mut self, i: usize, b: u8)
        requires
            i < old(self).bytes().len(),
        ensures
            final(self).id() == old(self).id(),
            final(self).bytes() == old(self).bytes().update(i as int, b),
    {
        self.data[i] = b;
    }
}

} // verus!
