//! Explicit one-time device registration. The kernel builds one slot per
//! device class during device discovery and passes it by reference to all
//! consumers; a slot accepts exactly one device and refuses re-initialization.

use vstd::prelude::*;
use crate::interface::{UartDevice, LowBlockDevice};
use crate::device::GenericBlockDevice;

verus! {

/// A slot holding at most one device, filled exactly once.
pub struct DeviceSlot<T> {
    pub(crate) dev: Option<T>,
}

impl<T> DeviceSlot<T> {
    /// The installed device, if any.
    pub open(crate) spec fn device(self) -> Option<T> {
        self.dev
    }

    /// An empty slot.
    pub fn empty() -> (r: DeviceSlot<T>)
        ensures
            r.device() is None,
    {
        DeviceSlot { dev: None }
    }

    /// Installs a device. Returns true and installs it when the slot was
    /// empty; returns false and leaves the slot unchanged when it was
    /// already initialized.
    pub fn init(&mut self, dev: T) -> (r: bool)
        ensures
            r == (old(self).device() is None),
            old(self).device() is None ==> final(self).device() == Some(dev),
            old(self).device() is Some ==> final(self).device() == old(self).device(),
    {
        if self.dev.is_none() {
            self.dev = Some(dev);
            true
        } else {
            false
        }
    }

    /// The installed device, or `None` before initialization.
    pub fn get(&self) -> (r: Option<&T>)
        ensures
            match r {
                Some(d) => self.device() == Some(*d),
                None => self.device() is None,
            },
    {
        self.dev.as_ref()
    }
}

/// Registers the system console device, once.
pub fn init_uart<T: UartDevice>(slot: &mut DeviceSlot<T>, uart: T) -> (r: bool)
    ensures
        r == (old(slot).device() is None),
        old(slot).device() is None ==> final(slot).device() == Some(uart),
        old(slot).device() is Some ==> final(slot).device() == old(slot).device(),
{
    slot.init(uart)
}

/// Registers the system block device, once.
pub fn init_block_device<T: LowBlockDevice>(
    slot: &mut DeviceSlot<GenericBlockDevice<T>>,
    device: GenericBlockDevice<T>,
) -> (r: bool)
    ensures
        r == (old(slot).device() is None),
        old(slot).device() is None ==> final(slot).device() == Some(device),
        old(slot).device() is Some ==> final(slot).device() == old(slot).device(),
{
    slot.init(device)
}

} // verus!
