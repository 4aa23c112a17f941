use block_cache::{
    init_block_device, init_uart, DeviceSlot, FrameTracker, GenericBlockDevice, MemoryFat32Img,
    UartDevice, PAGE_CACHE_SIZE,
};

struct DummyUart;

impl UartDevice for DummyUart {
    fn put(&self, _c: u8) {}

    fn get(&self) -> Option<u8> {
        Some(b'\r')
    }

    fn put_bytes(&self, _bytes: &Vec<u8>) {}

    fn have_data_to_get(&self) -> bool {
        true
    }

    fn have_space_to_put(&self) -> bool {
        true
    }
}

#[test]
fn device_slot_initializes_exactly_once() {
    let mut slot: DeviceSlot<u32> = DeviceSlot::empty();
    assert!(slot.get().is_none());
    assert!(slot.init(7));
    assert_eq!(slot.get(), Some(&7));
    assert!(!slot.init(9), "a second initialization is refused");
    assert_eq!(slot.get(), Some(&7));
}

#[test]
fn uart_registration_is_once_only() {
    let mut slot: DeviceSlot<DummyUart> = DeviceSlot::empty();
    assert!(init_uart(&mut slot, DummyUart));
    assert!(!init_uart(&mut slot, DummyUart));
    assert!(slot.get().is_some());
}

#[test]
fn block_device_registration_is_once_only() {
    let mut slot: DeviceSlot<GenericBlockDevice<MemoryFat32Img>> = DeviceSlot::empty();
    let dev = GenericBlockDevice::new(MemoryFat32Img::new(vec![0u8; PAGE_CACHE_SIZE]), 1);
    assert!(init_block_device(&mut slot, dev));
    let dev2 = GenericBlockDevice::new(MemoryFat32Img::new(vec![0u8; PAGE_CACHE_SIZE]), 1);
    assert!(!init_block_device(&mut slot, dev2));
}

#[test]
fn frame_tracker_owns_zeroed_bytes() {
    let mut ft = FrameTracker::new(42);
    assert_eq!(ft.read_byte(0), 0);
    assert_eq!(ft.read_byte(PAGE_CACHE_SIZE - 1), 0);
    ft.write_byte(5, 0xAB);
    assert_eq!(ft.read_byte(5), 0xAB);
    assert_eq!(ft.read_byte(4), 0);
}
