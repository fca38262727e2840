use buddy_slab_allocator::page_allocator::{CompositeBlockTracker, MAX_COMPOSITE_ALLOCS};
use buddy_slab_allocator::{AllocError, BaseAllocator, CompositePageAllocator, PageAllocator};

const PAGE_SIZE: usize = 0x1000;
const TEST_HEAP_SIZE: usize = 16 * 1024 * 1024;
const HEAP_ADDR: usize = 0x8000_0000;

fn allocator() -> CompositePageAllocator<PAGE_SIZE> {
    let mut allocator = CompositePageAllocator::<PAGE_SIZE>::new();
    allocator.init(HEAP_ADDR, TEST_HEAP_SIZE);
    allocator
}

#[test]
fn test_composite_block_tracker() {
    let mut tracker = CompositeBlockTracker::new();

    let parts = [(0x1000, 3), (0x2000, 2)];
    assert!(tracker.insert(0x1000, &parts, 2));
    assert_eq!(tracker.count, 1);

    let info = tracker.find(0x1000);
    assert!(info.is_some());
    let info = info.unwrap();
    assert_eq!(info.base_addr, 0x1000);
    assert_eq!(info.part_count, 2);
    assert_eq!(info.parts[0], (0x1000, 3));
    assert_eq!(info.parts[1], (0x2000, 2));

    assert!(tracker.remove(0x1000));
    assert_eq!(tracker.count, 0);
    assert!(tracker.find(0x1000).is_none());
}

#[test]
fn test_composite_block_tracker_capacity() {
    let mut tracker = CompositeBlockTracker::new();

    for i in 0..MAX_COMPOSITE_ALLOCS {
        let parts = [(0x1000 + i * 0x1000, 3)];
        assert!(tracker.insert(0x1000 + i * 0x1000, &parts, 1));
    }

    assert_eq!(tracker.count, MAX_COMPOSITE_ALLOCS);

    let parts = [(0x10000, 3)];
    assert!(!tracker.insert(0x10000, &parts, 1));

    assert!(tracker.remove(0x1000));
    assert!(tracker.insert(0x10000, &parts, 1));
}

#[test]
fn test_composite_tracker_find_nonexistent() {
    let tracker = CompositeBlockTracker::new();
    assert!(tracker.find(0x1000).is_none());
}

#[test]
fn test_composite_tracker_remove_nonexistent() {
    let mut tracker = CompositeBlockTracker::new();
    assert!(!tracker.remove(0x1000));
}

#[test]
fn test_composite_tracker_multiple_blocks() {
    let mut tracker = CompositeBlockTracker::new();

    let parts1 = [(0x1000, 3), (0x2000, 2)];
    let parts2 = [(0x3000, 4), (0x4000, 3), (0x5000, 2)];

    tracker.insert(0x1000, &parts1, 2);
    tracker.insert(0x3000, &parts2, 3);

    assert_eq!(tracker.count, 2);

    let info1 = tracker.find(0x1000);
    assert!(info1.is_some());
    assert_eq!(info1.unwrap().part_count, 2);

    let info2 = tracker.find(0x3000);
    assert!(info2.is_some());
    assert_eq!(info2.unwrap().part_count, 3);
}

#[test]
fn test_composite_allocator_basic() {
    let mut allocator = allocator();

    let addr1 = allocator.alloc_pages(1, PAGE_SIZE).unwrap();
    let addr2 = allocator.alloc_pages(4, PAGE_SIZE).unwrap();

    assert!(addr1 >= HEAP_ADDR && addr1 < HEAP_ADDR + TEST_HEAP_SIZE);
    assert!(addr2 >= HEAP_ADDR && addr2 < HEAP_ADDR + TEST_HEAP_SIZE);

    allocator.dealloc_pages(addr1, 1);
    allocator.dealloc_pages(addr2, 4);
}

#[test]
fn test_composite_allocator_alignment() {
    let mut allocator = allocator();

    let addr = allocator.alloc_pages(1, PAGE_SIZE * 4).unwrap();
    assert_eq!(addr & (PAGE_SIZE * 4 - 1), 0);

    allocator.dealloc_pages(addr, 1);
}

#[test]
fn test_composite_page_allocator_basic() {
    let mut allocator = allocator();

    let addr1 = allocator.alloc_pages(1, PAGE_SIZE).unwrap();
    assert!(addr1 >= HEAP_ADDR && addr1 < HEAP_ADDR + TEST_HEAP_SIZE);

    let addr2 = allocator.alloc_pages(4, PAGE_SIZE).unwrap();
    assert!(addr2 >= HEAP_ADDR && addr2 < HEAP_ADDR + TEST_HEAP_SIZE);

    allocator.dealloc_pages(addr1, 1);
    allocator.dealloc_pages(addr2, 4);
}

#[test]
fn test_composite_page_allocator_alignment() {
    let mut allocator = allocator();

    let addr1 = allocator.alloc_pages(1, PAGE_SIZE).unwrap();
    assert_eq!(addr1 & (PAGE_SIZE - 1), 0);

    let addr2 = allocator.alloc_pages(1, PAGE_SIZE * 2).unwrap();
    assert_eq!(addr2 & (PAGE_SIZE * 2 - 1), 0);

    let addr3 = allocator.alloc_pages(1, PAGE_SIZE * 4).unwrap();
    assert_eq!(addr3 & (PAGE_SIZE * 4 - 1), 0);

    allocator.dealloc_pages(addr1, 1);
    allocator.dealloc_pages(addr2, 1);
    allocator.dealloc_pages(addr3, 1);
}

#[test]
fn test_composite_page_allocator_large_allocation() {
    let mut allocator = allocator();

    let large_pages = 1024;
    let addr = allocator.alloc_pages(large_pages, PAGE_SIZE).unwrap();
    assert!(addr >= HEAP_ADDR && addr < HEAP_ADDR + TEST_HEAP_SIZE);

    allocator.dealloc_pages(addr, large_pages);
}

#[test]
fn test_composite_page_allocator_fragmentation() {
    let mut allocator = allocator();

    let mut addrs = Vec::new();
    for _ in 0..10 {
        let addr = allocator.alloc_pages(1, PAGE_SIZE).unwrap();
        addrs.push((addr, 1));
    }

    for i in (0..addrs.len()).step_by(2) {
        allocator.dealloc_pages(addrs[i].0, addrs[i].1);
    }

    let result = allocator.alloc_pages(5, PAGE_SIZE);
    assert!(result.is_ok());

    for i in (1..addrs.len()).step_by(2) {
        allocator.dealloc_pages(addrs[i].0, addrs[i].1);
    }
    if let Ok(addr) = result {
        allocator.dealloc_pages(addr, 5);
    }
}

#[test]
fn test_composite_page_allocator_alloc_at() {
    let mut allocator = allocator();

    let target_addr = HEAP_ADDR + PAGE_SIZE * 100;
    let _result = allocator.alloc_pages_at(target_addr, 4, PAGE_SIZE);
}

#[test]
fn test_error_conditions() {
    let mut allocator = allocator();

    let result = allocator.alloc_pages(0, PAGE_SIZE);
    assert_eq!(result, Err(AllocError::InvalidParam));

    let huge_pages = TEST_HEAP_SIZE / PAGE_SIZE + 1000;
    let result = allocator.alloc_pages(huge_pages, PAGE_SIZE);
    assert_eq!(result, Err(AllocError::NoMemory));
}

#[test]
fn test_composite_release_restores_free_pages() {
    let mut allocator = allocator();
    let before = allocator.available_pages();
    let addr = allocator.alloc_pages(5, PAGE_SIZE).unwrap();
    assert!(allocator.available_pages() <= before - 5);
    allocator.dealloc_pages(addr, 5);
    assert_eq!(allocator.available_pages(), before);
}

#[test]
fn test_composite_combines_contiguous_blocks() {
    let mut allocator = allocator();
    let before = allocator.available_pages();
    // No single buddy block holds 4096 pages, so the two largest free blocks
    // that lie next to each other (8 MiB and the 4 MiB below it) are combined.
    let addr = allocator.alloc_pages(3000, PAGE_SIZE).unwrap();
    assert_eq!(addr, HEAP_ADDR + 4 * 1024 * 1024);
    assert_eq!(allocator.available_pages(), before - 3072);
    allocator.dealloc_pages(addr, 3000);
    assert_eq!(allocator.available_pages(), before);
}

#[test]
fn test_composite_accepts_any_nonzero_alignment() {
    let mut allocator = allocator();
    let addr = allocator.alloc_pages(1, 3 * PAGE_SIZE).unwrap();
    assert!(addr >= HEAP_ADDR && addr < HEAP_ADDR + TEST_HEAP_SIZE);
    allocator.dealloc_pages(addr, 1);
}

#[test]
fn test_composite_alloc_free_round_trip() {
    let mut allocator = CompositePageAllocator::<0x1000>::new();
    allocator.init(0x8000_0000, 16 * 1024 * 1024);
    let before = allocator.available_pages();
    let a = allocator.alloc_pages(3, 0x1000).unwrap();
    assert_eq!(allocator.available_pages(), before - 4);
    allocator.dealloc_pages(a, 3);
    assert_eq!(allocator.available_pages(), before);
}
