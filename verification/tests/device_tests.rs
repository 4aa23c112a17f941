use block_cache::{DevError, GenericBlockDevice, LowBlockDevice, MemoryFat32Img, PAGE_CACHE_SIZE};

const PAGE: usize = PAGE_CACHE_SIZE;

fn image_device(pages: usize, cap: usize) -> GenericBlockDevice<MemoryFat32Img> {
    let img = MemoryFat32Img::new(vec![0u8; pages * PAGE]);
    GenericBlockDevice::new(img, cap)
}

#[test]
fn size_reports_medium_bytes() {
    let dev = image_device(4, 2);
    assert_eq!(dev.size(), 4 * PAGE);
}

#[test]
fn read_back_zeroed_image() {
    let mut dev = image_device(2, 2);
    let mut buf = vec![1u8; 64];
    let n = dev.read(&mut buf, 100).unwrap();
    assert_eq!(n, 64);
    assert!(buf.iter().all(|&b| b == 0));
}

#[test]
fn read_after_write_same_range() {
    let mut dev = image_device(4, 2);
    let data: Vec<u8> = (0..200u16).map(|i| (i % 251) as u8).collect();
    let n = dev.write(&data, 777).unwrap();
    assert_eq!(n, 200);
    let mut back = vec![0u8; 200];
    dev.read(&mut back, 777).unwrap();
    assert_eq!(back, data);
}

#[test]
fn eviction_write_back_two_page_cache() {
    // Page size 4096, capacity 2 pages. Writing pages 0, 1 and 2 evicts
    // page 0; reading it afterwards reloads the durable bytes from the
    // medium, proving the eviction wrote them back.
    let mut dev = image_device(4, 2);
    let page_a = vec![0xAAu8; PAGE];
    let page_b = vec![0xBBu8; PAGE];
    let page_c = vec![0xCCu8; PAGE];
    assert_eq!(dev.write(&page_a, 0).unwrap(), PAGE);
    assert_eq!(dev.write(&page_b, PAGE).unwrap(), PAGE);
    assert_eq!(dev.write(&page_c, 2 * PAGE).unwrap(), PAGE);

    let mut back = vec![0u8; PAGE];
    dev.read(&mut back, 0).unwrap();
    assert_eq!(back, page_a);
    dev.read(&mut back, PAGE).unwrap();
    assert_eq!(back, page_b);
    dev.read(&mut back, 2 * PAGE).unwrap();
    assert_eq!(back, page_c);
}

#[test]
fn eviction_durability_single_frame_cache() {
    let mut dev = image_device(3, 1);
    let data = vec![0x5Au8; 300];
    dev.write(&data, 10).unwrap();
    // Touching another page evicts page 0 from the one-frame cache.
    let other = vec![0x33u8; 10];
    dev.write(&other, PAGE + 5).unwrap();
    let mut back = vec![0u8; 300];
    dev.read(&mut back, 10).unwrap();
    assert_eq!(back, data);
}

#[test]
fn write_spanning_two_pages_keeps_other_bytes() {
    // Last 100 bytes of page 0 plus first 50 bytes of page 1.
    let mut dev = image_device(4, 2);
    let backdrop = vec![0x11u8; 2 * PAGE];
    dev.write(&backdrop, 0).unwrap();

    let span = vec![0x7Fu8; 150];
    let off = PAGE - 100;
    assert_eq!(dev.write(&span, off).unwrap(), 150);

    let mut all = vec![0u8; 2 * PAGE];
    dev.read(&mut all, 0).unwrap();
    for i in 0..2 * PAGE {
        if i >= off && i < off + 150 {
            assert_eq!(all[i], 0x7F, "inside the span at {i}");
        } else {
            assert_eq!(all[i], 0x11, "outside the span at {i}");
        }
    }
}

#[test]
fn out_of_range_read_and_write_are_refused() {
    let mut dev = image_device(2, 2);
    let mut buf = vec![0u8; 10];
    assert_eq!(dev.read(&mut buf, 2 * PAGE - 5), Err(DevError::OutOfRange));
    assert_eq!(dev.write(&buf.clone(), 2 * PAGE - 5), Err(DevError::OutOfRange));
    // The very end of the device is still readable.
    assert_eq!(dev.read(&mut buf, 2 * PAGE - 10).unwrap(), 10);
}

#[test]
fn memory_image_transport_roundtrip() {
    let mut img = MemoryFat32Img::new(vec![0u8; 1024]);
    assert_eq!(img.capacity(), 2);
    let sector = vec![9u8; 512];
    img.write_block(1, &sector).unwrap();
    let mut back = vec![0u8; 512];
    img.read_block(1, &mut back).unwrap();
    assert_eq!(back, sector);
    assert!(img.read_block(2, &mut back).is_err());
    assert!(img.write_block(2, &sector).is_err());
}
