use block_cache::{DevError, GenericBlockDevice, LowBlockDevice, PAGE_CACHE_SIZE};
use std::cell::Cell;
use std::rc::Rc;

const PAGE: usize = PAGE_CACHE_SIZE;

/// A memory-backed transport that counts its sector transfers, to observe
/// how much I/O the cache really performs.
struct CountingDevice {
    data: Vec<u8>,
    reads: Rc<Cell<usize>>,
    writes: Rc<Cell<usize>>,
}

impl LowBlockDevice for CountingDevice {
    fn read_block(&mut self, block_id: usize, buf: &mut Vec<u8>) -> Result<(), DevError> {
        let start = block_id * 512;
        if start + 512 > self.data.len() {
            return Err(DevError::OutOfRange);
        }
        buf.copy_from_slice(&self.data[start..start + 512]);
        self.reads.set(self.reads.get() + 1);
        Ok(())
    }

    fn write_block(&mut self, block_id: usize, buf: &Vec<u8>) -> Result<(), DevError> {
        let start = block_id * 512;
        if start + 512 > self.data.len() {
            return Err(DevError::OutOfRange);
        }
        self.data[start..start + 512].copy_from_slice(buf);
        self.writes.set(self.writes.get() + 1);
        Ok(())
    }

    fn capacity(&self) -> usize {
        self.data.len() / 512
    }
}

fn counting_device(
    pages: usize,
    cap: usize,
) -> (GenericBlockDevice<CountingDevice>, Rc<Cell<usize>>, Rc<Cell<usize>>) {
    let reads = Rc::new(Cell::new(0));
    let writes = Rc::new(Cell::new(0));
    let transport = CountingDevice {
        data: vec![0u8; pages * PAGE],
        reads: reads.clone(),
        writes: writes.clone(),
    };
    (GenericBlockDevice::new(transport, cap), reads, writes)
}

#[test]
fn flush_writes_dirty_pages_once() {
    let (mut dev, _reads, writes) = counting_device(4, 2);
    let data = vec![0xEEu8; 100];
    dev.write(&data, 50).unwrap();
    assert_eq!(writes.get(), 0, "write-back happens only on eviction or flush");
    dev.flush().unwrap();
    assert_eq!(writes.get(), 8, "one dirty page is eight sectors");
    let mut back = vec![0u8; 100];
    dev.read(&mut back, 50).unwrap();
    assert_eq!(back, data);
}

#[test]
fn flush_twice_performs_no_additional_io() {
    let (mut dev, reads, writes) = counting_device(4, 2);
    let data = vec![0xEEu8; 2 * PAGE];
    dev.write(&data, 0).unwrap();
    dev.flush().unwrap();
    let writes_after_first = writes.get();
    let reads_after_first = reads.get();
    dev.flush().unwrap();
    assert_eq!(writes.get(), writes_after_first);
    assert_eq!(reads.get(), reads_after_first);
}

#[test]
fn cache_hits_perform_no_io() {
    let (mut dev, reads, writes) = counting_device(4, 2);
    let mut buf = vec![0u8; 16];
    dev.read(&mut buf, 0).unwrap();
    assert_eq!(reads.get(), 8, "the miss fills the whole page");
    dev.read(&mut buf, 100).unwrap();
    dev.read(&mut buf, 2000).unwrap();
    assert_eq!(reads.get(), 8, "hits on the resident page read nothing");
    assert_eq!(writes.get(), 0);
}

#[test]
fn capacity_bounds_resident_pages() {
    // With two frames, touching a third page must push one out: re-reading
    // the least recently used page costs a full page reload.
    let (mut dev, reads, _writes) = counting_device(4, 2);
    let mut buf = vec![0u8; 1];
    dev.read(&mut buf, 0).unwrap();
    dev.read(&mut buf, PAGE).unwrap();
    dev.read(&mut buf, 2 * PAGE).unwrap();
    assert_eq!(reads.get(), 24);
    dev.read(&mut buf, 0).unwrap();
    assert_eq!(reads.get(), 32, "page 0 had left the two-frame cache");
}

#[test]
fn least_recently_used_page_is_the_victim() {
    let (mut dev, reads, _writes) = counting_device(4, 2);
    let mut buf = vec![0u8; 1];
    dev.read(&mut buf, 0).unwrap();
    dev.read(&mut buf, PAGE).unwrap();
    // Touch page 0 again: page 1 becomes the least recently used.
    dev.read(&mut buf, 0).unwrap();
    // Page 2 evicts page 1, not page 0.
    dev.read(&mut buf, 2 * PAGE).unwrap();
    let before = reads.get();
    dev.read(&mut buf, 0).unwrap();
    assert_eq!(reads.get(), before, "page 0 stayed resident");
    dev.read(&mut buf, PAGE).unwrap();
    assert_eq!(reads.get(), before + 8, "page 1 was the eviction victim");
}

/// A transport whose reads fail outright, as a broken medium would.
struct BrokenDevice;

impl LowBlockDevice for BrokenDevice {
    fn read_block(&mut self, _block_id: usize, _buf: &mut Vec<u8>) -> Result<(), DevError> {
        Err(DevError::IoError)
    }

    fn write_block(&mut self, _block_id: usize, _buf: &Vec<u8>) -> Result<(), DevError> {
        Err(DevError::IoError)
    }

    fn capacity(&self) -> usize {
        16
    }
}

#[test]
fn transport_failure_propagates_as_io_error() {
    let mut dev = GenericBlockDevice::new(BrokenDevice, 2);
    let mut buf = vec![0u8; 4];
    assert_eq!(dev.read(&mut buf, 0), Err(DevError::IoError));
    assert_eq!(dev.write(&buf.clone(), 0), Err(DevError::IoError));
}
