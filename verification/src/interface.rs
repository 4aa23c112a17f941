//! The device interfaces: the sector-granular transport contract that the
//! page cache builds on, and the other device capabilities of the kernel's
//! device model.

use vstd::prelude::*;
use crate::{DevError, SECTOR_SIZE, update_range};

verus! {

/// The base capability of every device: interrupt dispatch.
pub trait DeviceBase: Sync + Send {
    fn hand_irq(&self);
}

/// A sector-addressed low-level block transport. Implementations perform no
/// caching and no batching; each call transfers exactly one 512-byte sector,
/// synchronously.
///
/// The whole medium is modelled as the byte sequence `medium()`. A transport
/// may fail on any call (hardware may), but it must fail on an out-of-range
/// sector, must transfer the exact sector on success, and must leave the
/// medium's bytes untouched by reads and failed writes.
pub trait LowBlockDevice: Sized {
    /// The full byte contents of the backing medium. Implementations
    /// outside the verified world may keep the default, which models an
    /// empty medium.
    open spec fn medium(&self) -> Seq<u8> {
        Seq::empty()
    }

    /// Reads sector `block_id` into `buf`, which must be exactly one sector.
    fn read_block(&mut self, block_id: usize, buf: &mut Vec<u8>) -> (r: Result<(), DevError>)
        requires
            old(buf).len() == SECTOR_SIZE,
        ensures
            final(self).medium() == old(self).medium(),
            final(buf).len() == SECTOR_SIZE,
            r is Ok ==> (block_id + 1) * (SECTOR_SIZE as int) <= old(self).medium().len()
                && final(buf)@ == old(self).medium().subrange(
                block_id * (SECTOR_SIZE as int),
                (block_id + 1) * (SECTOR_SIZE as int),
            ),
            (block_id + 1) * (SECTOR_SIZE as int) > old(self).medium().len() ==> r is Err,
    ;

    /// Writes `buf`, exactly one sector, to sector `block_id`. A failed
    /// write leaves the medium unchanged.
    fn write_block(&mut self, block_id: usize, buf: &Vec<u8>) -> (r: Result<(), DevError>)
        requires
            buf.len() == SECTOR_SIZE,
        ensures
            r is Ok ==> (block_id + 1) * (SECTOR_SIZE as int) <= old(self).medium().len()
                && final(self).medium() == update_range(
                old(self).medium(),
                block_id * (SECTOR_SIZE as int),
                buf@,
            ),
            r is Err ==> final(self).medium() == old(self).medium(),
            (block_id + 1) * (SECTOR_SIZE as int) > old(self).medium().len() ==> r is Err,
    ;

    /// The medium's capacity, in sectors. Immutable for the device's lifetime.
    fn capacity(&self) -> (r: usize)
        ensures
            r == self.medium().len() as int / (SECTOR_SIZE as int),
    ;

    /// Asks the transport to persist any buffering of its own. The page
    /// cache does not rely on it; transports without such buffering keep
    /// the default no-op.
    fn flush(&mut self)
        ensures
            final(self).medium() == old(self).medium(),
    {
    }
}

/// A wall-clock time as a real-time clock chip reports it.
#[derive(Clone, Copy, Debug, PartialEq, Eq, Structural, Default)]
pub struct RtcTime {
    pub year: u32,
    pub month: u32,
    pub day: u32,
    pub hour: u32,
    pub minute: u32,
    pub second: u32,
}

/// A real-time clock device.
pub trait RtcDevice: Sync + Send {
    fn read_time(&self) -> RtcTime;
}

/// A display device exposing a framebuffer.
pub trait GpuDevice: Sync + Send {
    fn update_cursor(&self);

    fn get_framebuffer(&mut self) -> &mut Vec<u8>;

    fn flush(&self);

    fn resolution(&self) -> (u32, u32);
}

/// An input device delivering 64-bit event records.
pub trait InputDevice: Sync + Send {
    fn is_empty(&self) -> bool;

    fn read_event_with_block(&self) -> u64;

    fn read_event_without_block(&self) -> Option<u64>;
}

/// A character device moving single bytes in and out.
pub trait UartDevice: Sync + Send {
    fn put(&self, c: u8);

    fn get(&self) -> Option<u8>;

    fn put_bytes(&self, bytes: &Vec<u8>);

    fn have_data_to_get(&self) -> bool;

    fn have_space_to_put(&self) -> bool;
}

/// A network device; only the base capability is required of it here.
pub trait NetDevice: DeviceBase {

}

} // verus!
