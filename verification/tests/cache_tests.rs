use blockcore::cache::Cache;
use blockcore::disk::{page_total, Disk};
use std::cell::{Cell, RefCell};
use std::collections::HashMap;
use std::rc::Rc;
use syscall::error::{Error, EIO, ENOSPC};

/// What the tests can see of the disk behind a cache.
#[derive(Default)]
struct Record {
    pages: RefCell<HashMap<u64, [u8; 512]>>,
    reads: RefCell<Vec<(u64, Vec<u8>)>>,
    writes: RefCell<Vec<(u64, usize)>>,
    fail_reads: Cell<bool>,
    fail_writes: Cell<bool>,
    short: Cell<bool>,
}

/// A disk in memory. Pages that were never written read as 0xee.
struct MemDisk {
    record: Rc<Record>,
}

impl Disk for MemDisk {
    fn read_at(&mut self, block: u64, buffer: &mut [u8]) -> Result<usize, Error> {
        self.record.reads.borrow_mut().push((block, buffer.to_vec()));
        if self.record.fail_reads.get() {
            return Err(Error::new(EIO));
        }
        let pages = self.record.pages.borrow();
        for (i, chunk) in buffer.chunks_mut(512).enumerate() {
            let page = pages.get(&(block + i as u64)).copied().unwrap_or([0xee; 512]);
            chunk.copy_from_slice(&page[..chunk.len()]);
        }
        if self.record.short.get() {
            Ok(1)
        } else {
            Ok(buffer.len())
        }
    }

    fn write_at(&mut self, block: u64, buffer: &[u8]) -> Result<usize, Error> {
        self.record.writes.borrow_mut().push((block, buffer.len()));
        if self.record.fail_writes.get() {
            return Err(Error::new(ENOSPC));
        }
        let mut pages = self.record.pages.borrow_mut();
        for (i, chunk) in buffer.chunks(512).enumerate() {
            let page = pages.entry(block + i as u64).or_insert([0; 512]);
            page[..chunk.len()].copy_from_slice(chunk);
        }
        if self.record.short.get() {
            Ok(1)
        } else {
            Ok(buffer.len())
        }
    }

    fn size(&mut self) -> Result<u64, Error> {
        if self.record.fail_reads.get() {
            Err(Error::new(EIO))
        } else {
            Ok(12345)
        }
    }
}

fn disk() -> (MemDisk, Rc<Record>) {
    let record = Rc::new(Record::default());
    (MemDisk { record: record.clone() }, record)
}

fn pattern(len: usize, seed: u8) -> Vec<u8> {
    (0..len).map(|i| (i as u8).wrapping_mul(31).wrapping_add(seed)).collect()
}

#[test]
fn page_total_rounds_up() {
    assert_eq!(page_total(0), 0);
    assert_eq!(page_total(1), 1);
    assert_eq!(page_total(511), 1);
    assert_eq!(page_total(512), 1);
    assert_eq!(page_total(513), 2);
    assert_eq!(page_total(1024), 2);
    assert_eq!(page_total(usize::MAX), usize::MAX / 512 + 1);
}

#[test]
fn read_after_write_is_served_from_the_cache() {
    let (inner, record) = disk();
    let mut cache = Cache::new(inner);
    let data = pattern(512, 3);
    assert_eq!(cache.write_at(9, &data).unwrap(), 512);
    assert_eq!(record.writes.borrow().as_slice(), &[(9, 512)]);
    let mut buffer = [0u8; 512];
    assert_eq!(cache.read_at(9, &mut buffer).unwrap(), 512);
    assert_eq!(&buffer[..], &data[..]);
    assert!(record.reads.borrow().is_empty());
}

#[test]
fn read_after_write_of_several_pages() {
    let (inner, record) = disk();
    let mut cache = Cache::new(inner);
    let data = pattern(512 * 5, 8);
    assert_eq!(cache.write_at(100, &data).unwrap(), 2560);
    let mut buffer = vec![0u8; 2560];
    assert_eq!(cache.read_at(100, &mut buffer).unwrap(), 2560);
    assert_eq!(buffer, data);
    let mut page = [0u8; 512];
    assert_eq!(cache.read_at(103, &mut page).unwrap(), 512);
    assert_eq!(&page[..], &data[1536..2048]);
    assert!(record.reads.borrow().is_empty());
}

#[test]
fn write_goes_through_to_the_disk() {
    let (inner, record) = disk();
    let mut cache = Cache::new(inner);
    let data = pattern(1024, 1);
    cache.write_at(4, &data).unwrap();
    let pages = record.pages.borrow();
    assert_eq!(&pages[&4][..], &data[..512]);
    assert_eq!(&pages[&5][..], &data[512..]);
}

#[test]
fn write_overwrites_what_the_cache_held() {
    let (inner, record) = disk();
    let mut cache = Cache::new(inner);
    cache.write_at(4, &pattern(512, 1)).unwrap();
    cache.write_at(4, &pattern(512, 2)).unwrap();
    let mut buffer = [0u8; 512];
    cache.read_at(4, &mut buffer).unwrap();
    assert_eq!(&buffer[..], &pattern(512, 2)[..]);
    assert!(record.reads.borrow().is_empty());
    assert_eq!(record.writes.borrow().len(), 2);
}

#[test]
fn miss_reads_the_disk_and_fills_the_cache() {
    let (inner, record) = disk();
    record.pages.borrow_mut().insert(7, [7; 512]);
    let mut cache = Cache::new(inner);
    let mut buffer = [0u8; 512];
    assert_eq!(cache.read_at(7, &mut buffer).unwrap(), 512);
    assert_eq!(buffer, [7; 512]);
    assert_eq!(record.reads.borrow().len(), 1);
    let mut again = [0u8; 512];
    assert_eq!(cache.read_at(7, &mut again).unwrap(), 512);
    assert_eq!(again, [7; 512]);
    assert_eq!(record.reads.borrow().len(), 1);
}

#[test]
fn eviction_drops_the_least_recently_used() {
    let (inner, record) = disk();
    let mut cache = Cache::with_capacity(inner, 2);
    cache.write_at(1, &[1; 512]).unwrap();
    cache.write_at(2, &[2; 512]).unwrap();
    cache.write_at(3, &[3; 512]).unwrap();
    let mut buffer = [0u8; 512];
    cache.read_at(2, &mut buffer).unwrap();
    assert_eq!(buffer, [2; 512]);
    cache.read_at(3, &mut buffer).unwrap();
    assert_eq!(buffer, [3; 512]);
    assert!(record.reads.borrow().is_empty());
    cache.read_at(1, &mut buffer).unwrap();
    assert_eq!(buffer, [1; 512]);
    assert_eq!(record.reads.borrow().len(), 1);
    assert_eq!(record.reads.borrow()[0].0, 1);
}

#[test]
fn a_read_hit_counts_as_use() {
    let (inner, record) = disk();
    let mut cache = Cache::with_capacity(inner, 2);
    cache.write_at(1, &[1; 512]).unwrap();
    cache.write_at(2, &[2; 512]).unwrap();
    let mut buffer = [0u8; 512];
    cache.read_at(1, &mut buffer).unwrap();
    cache.write_at(3, &[3; 512]).unwrap();
    cache.read_at(1, &mut buffer).unwrap();
    assert_eq!(buffer, [1; 512]);
    assert!(record.reads.borrow().is_empty());
    cache.read_at(2, &mut buffer).unwrap();
    assert_eq!(buffer, [2; 512]);
    assert_eq!(record.reads.borrow().len(), 1);
}

#[test]
fn default_capacity_is_65536_pages() {
    let (inner, record) = disk();
    let mut cache = Cache::new(inner);
    let page = [5u8; 512];
    for block in 0..=65536u64 {
        cache.write_at(block, &page).unwrap();
    }
    let mut buffer = [0u8; 512];
    cache.read_at(1, &mut buffer).unwrap();
    cache.read_at(65536, &mut buffer).unwrap();
    assert!(record.reads.borrow().is_empty());
    cache.read_at(0, &mut buffer).unwrap();
    assert_eq!(record.reads.borrow().len(), 1);
}

#[test]
fn partly_cached_read_asks_the_disk_once_for_all() {
    let (inner, record) = disk();
    record.pages.borrow_mut().insert(11, [11; 512]);
    let mut cache = Cache::new(inner);
    cache.write_at(10, &[10; 512]).unwrap();
    let mut buffer = [0u8; 1024];
    assert_eq!(cache.read_at(10, &mut buffer).unwrap(), 1024);
    assert_eq!(&buffer[..512], &[10; 512]);
    assert_eq!(&buffer[512..], &[11; 512]);
    assert_eq!(record.reads.borrow().len(), 1);
    assert_eq!(record.reads.borrow()[0].0, 10);
    assert_eq!(record.reads.borrow()[0].1.len(), 1024);
    // Both pages are in the cache now.
    let mut page = [0u8; 512];
    cache.read_at(11, &mut page).unwrap();
    assert_eq!(page, [11; 512]);
    cache.read_at(10, &mut page).unwrap();
    assert_eq!(page, [10; 512]);
    let mut both = [0u8; 1024];
    cache.read_at(10, &mut both).unwrap();
    assert_eq!(both, buffer);
    assert_eq!(record.reads.borrow().len(), 1);
}

#[test]
fn partly_cached_read_with_the_second_page_cached() {
    let (inner, record) = disk();
    record.pages.borrow_mut().insert(20, [20; 512]);
    let mut cache = Cache::new(inner);
    cache.write_at(21, &[21; 512]).unwrap();
    let mut buffer = [0u8; 1024];
    assert_eq!(cache.read_at(20, &mut buffer).unwrap(), 1024);
    assert_eq!(&buffer[..512], &[20; 512]);
    assert_eq!(&buffer[512..], &[21; 512]);
    assert_eq!(record.reads.borrow().len(), 1);
    assert_eq!(record.reads.borrow()[0], (20, vec![0u8; 1024]));
}

#[test]
fn the_disk_sees_the_pages_found_so_far() {
    let (inner, record) = disk();
    let mut cache = Cache::new(inner);
    cache.write_at(10, &[10; 512]).unwrap();
    let mut buffer = [0x55u8; 1024];
    cache.read_at(10, &mut buffer).unwrap();
    let mut seen = vec![10u8; 512];
    seen.extend_from_slice(&[0x55; 512]);
    assert_eq!(record.reads.borrow()[0], (10, seen));
}

#[test]
fn refill_takes_what_the_disk_gave() {
    let (inner, record) = disk();
    let mut cache = Cache::new(inner);
    cache.write_at(10, &[10; 512]).unwrap();
    // The disk holds something else for page 10 by now.
    record.pages.borrow_mut().insert(10, [99; 512]);
    let mut buffer = [0u8; 1024];
    cache.read_at(10, &mut buffer).unwrap();
    assert_eq!(&buffer[..512], &[99; 512]);
    let mut page = [0u8; 512];
    cache.read_at(10, &mut page).unwrap();
    assert_eq!(page, [99; 512]);
    assert_eq!(record.reads.borrow().len(), 1);
}

#[test]
fn partial_last_page() {
    let (inner, record) = disk();
    let mut cache = Cache::new(inner);
    let data = pattern(700, 4);
    assert_eq!(cache.write_at(5, &data).unwrap(), 700);
    let mut buffer = vec![0xaau8; 700];
    assert_eq!(cache.read_at(5, &mut buffer).unwrap(), 700);
    assert_eq!(buffer, data);
    let mut short = vec![0u8; 100];
    assert_eq!(cache.read_at(6, &mut short).unwrap(), 100);
    assert_eq!(&short[..], &data[512..612]);
    // The rest of the cached last page is zero.
    let mut page = [0xaau8; 512];
    assert_eq!(cache.read_at(6, &mut page).unwrap(), 512);
    assert_eq!(&page[..188], &data[512..]);
    assert_eq!(&page[188..], &[0u8; 324][..]);
    assert!(record.reads.borrow().is_empty());
}

#[test]
fn empty_buffer_touches_nothing() {
    let (inner, record) = disk();
    let mut cache = Cache::new(inner);
    let mut buffer = [0u8; 0];
    assert_eq!(cache.read_at(3, &mut buffer).unwrap(), 0);
    assert!(record.reads.borrow().is_empty());
    assert_eq!(cache.write_at(3, &buffer).unwrap(), 0);
    assert_eq!(record.writes.borrow().as_slice(), &[(3, 0)]);
}

#[test]
fn read_error_is_handed_on() {
    let (inner, record) = disk();
    let mut cache = Cache::new(inner);
    record.fail_reads.set(true);
    let mut buffer = [0u8; 512];
    let err = cache.read_at(1, &mut buffer).unwrap_err();
    assert_eq!(err.errno, EIO);
    assert_eq!(record.reads.borrow().len(), 1);
    // Nothing was cached: the next read asks the disk again.
    record.fail_reads.set(false);
    assert_eq!(cache.read_at(1, &mut buffer).unwrap(), 512);
    assert_eq!(record.reads.borrow().len(), 2);
}

#[test]
fn read_error_keeps_the_cached_pages() {
    let (inner, record) = disk();
    let mut cache = Cache::new(inner);
    cache.write_at(1, &[1; 512]).unwrap();
    record.fail_reads.set(true);
    let mut buffer = [0u8; 1024];
    assert_eq!(cache.read_at(1, &mut buffer).unwrap_err().errno, EIO);
    let mut page = [0u8; 512];
    assert_eq!(cache.read_at(1, &mut page).unwrap(), 512);
    assert_eq!(page, [1; 512]);
    assert_eq!(record.reads.borrow().len(), 1);
}

#[test]
fn write_error_is_handed_on_and_nothing_is_cached() {
    let (inner, record) = disk();
    let mut cache = Cache::new(inner);
    record.fail_writes.set(true);
    let err = cache.write_at(2, &[2; 512]).unwrap_err();
    assert_eq!(err.errno, ENOSPC);
    record.fail_writes.set(false);
    let mut buffer = [0u8; 512];
    cache.read_at(2, &mut buffer).unwrap();
    assert_eq!(buffer, [0xee; 512]);
    assert_eq!(record.reads.borrow().len(), 1);
}

#[test]
fn write_error_keeps_the_cached_page() {
    let (inner, record) = disk();
    let mut cache = Cache::new(inner);
    cache.write_at(2, &[2; 512]).unwrap();
    record.fail_writes.set(true);
    assert!(cache.write_at(2, &[3; 512]).is_err());
    let mut buffer = [0u8; 512];
    cache.read_at(2, &mut buffer).unwrap();
    assert_eq!(buffer, [2; 512]);
    assert!(record.reads.borrow().is_empty());
}

#[test]
fn the_count_is_the_length_of_the_buffer() {
    let (inner, record) = disk();
    record.short.set(true);
    let mut cache = Cache::new(inner);
    assert_eq!(cache.write_at(1, &[1; 1000]).unwrap(), 1000);
    let mut buffer = [0u8; 2000];
    assert_eq!(cache.read_at(1, &mut buffer).unwrap(), 2000);
    assert_eq!(cache.read_at(1, &mut buffer).unwrap(), 2000);
    assert_eq!(record.reads.borrow().len(), 1);
}

#[test]
fn size_is_the_size_of_the_disk() {
    let (inner, record) = disk();
    let mut cache = Cache::new(inner);
    cache.write_at(1, &[1; 512]).unwrap();
    assert_eq!(cache.size().unwrap(), 12345);
    record.fail_reads.set(true);
    assert_eq!(cache.size().unwrap_err().errno, EIO);
}

#[test]
fn more_pages_than_room() {
    let (inner, record) = disk();
    let mut cache = Cache::with_capacity(inner, 2);
    let data = pattern(512 * 3, 9);
    cache.write_at(40, &data).unwrap();
    // The first page has left again: a read of the range asks the disk.
    let mut buffer = vec![0u8; 512 * 3];
    cache.read_at(40, &mut buffer).unwrap();
    assert_eq!(buffer, data);
    assert_eq!(record.reads.borrow().len(), 1);
    let mut page = [0u8; 512];
    cache.read_at(42, &mut page).unwrap();
    assert_eq!(&page[..], &data[1024..]);
    assert_eq!(record.reads.borrow().len(), 1);
}

#[test]
fn a_cache_without_room_always_asks_the_disk() {
    let (inner, record) = disk();
    let mut cache = Cache::with_capacity(inner, 0);
    cache.write_at(1, &[1; 512]).unwrap();
    let mut buffer = [0u8; 512];
    cache.read_at(1, &mut buffer).unwrap();
    cache.read_at(1, &mut buffer).unwrap();
    assert_eq!(buffer, [1; 512]);
    assert_eq!(record.reads.borrow().len(), 2);
}

#[test]
fn a_cache_is_a_disk() {
    let (inner, record) = disk();
    let mut cache = Cache::with_capacity(Cache::with_capacity(inner, 4), 1);
    cache.write_at(1, &[1; 512]).unwrap();
    cache.write_at(2, &[2; 512]).unwrap();
    let mut buffer = [0u8; 512];
    // The outer cache has lost page 1; the inner one still has it.
    cache.read_at(1, &mut buffer).unwrap();
    assert_eq!(buffer, [1; 512]);
    assert!(record.reads.borrow().is_empty());
    assert_eq!(record.writes.borrow().len(), 2);
}
