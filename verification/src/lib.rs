//! A verified page cache for block devices.
//!
//! The crate converts arbitrarily-offset, arbitrarily-sized byte reads and
//! writes into aligned, page-granular block transfers over a sector-addressed
//! transport, caching recently used pages in a bounded LRU structure and
//! writing dirty pages back on eviction or on an explicit flush.

use vstd::prelude::*;

pub mod recency;
pub mod interface;
pub mod frame;
pub mod cache;
pub mod device;
pub mod transports;
pub mod registry;
pub mod laws;

pub use frame::FrameTracker;
pub use cache::PageCache;
pub use device::GenericBlockDevice;
pub use transports::MemoryFat32Img;
pub use interface::{
    DeviceBase, LowBlockDevice, InputDevice, UartDevice, NetDevice, GpuDevice, RtcDevice, RtcTime,
};
pub use registry::{DeviceSlot, init_uart, init_block_device};

verus! {

/// Size in bytes of one cached page: one physical frame.
pub const PAGE_CACHE_SIZE: usize = 4096;

/// Size in bytes of one transport sector.
pub const SECTOR_SIZE: usize = 512;

/// Number of transport sectors that make up one cached page.
pub const SECTORS_PER_PAGE: usize = 8;

/// `s` with the range starting at `off` replaced by `b`; bytes outside the
/// range keep their value, and the length is unchanged.
pub open spec fn update_range(s: Seq<u8>, off: int, b: Seq<u8>) -> Seq<u8> {
    Seq::new(s.len(), |i: int| if off <= i < off + b.len() { b[i - off] } else { s[i] })
}

/// The error kinds the block-device layer reports to its callers.
#[derive(Clone, Copy, Debug, PartialEq, Eq, Structural)]
pub enum DevError {
    /// A low-level transport read or write failed.
    IoError,
    /// The requested offset or size exceeds the device capacity.
    OutOfRange,
    /// No further physical frame could be acquired.
    ResourceExhausted,
}

} // verus!
