use buddy_slab_allocator::buddy_page_allocator::{BuddyPageAllocator, BuddySet, PAGE_SIZE};
use buddy_slab_allocator::{AllocError, BaseAllocator, PageAllocator};

#[test]
fn test_buddy_allocator_basic() {
    let mut allocator = BuddyPageAllocator::new();

    let base_addr = 0x80000000;
    let size = 0x100000;
    allocator.init(base_addr, size);

    match PageAllocator::alloc_pages(&mut allocator, 1, PAGE_SIZE) {
        Ok(page_addr) => {
            PageAllocator::dealloc_pages(&mut allocator, page_addr, 1);
        }
        Err(_) => panic!("Page allocation failed"),
    }

    let stats = allocator.get_stats();
    assert!(stats.total_pages > 0);
}

#[test]
fn test_buddy_merge() {
    let mut allocator = BuddyPageAllocator::new();

    let base_addr = 0x80000000;
    let size = 0x10000;
    allocator.init(base_addr, size);

    let addr1 = PageAllocator::alloc_pages(&mut allocator, 1, PAGE_SIZE).unwrap();
    let addr2 = PageAllocator::alloc_pages(&mut allocator, 1, PAGE_SIZE).unwrap();

    PageAllocator::dealloc_pages(&mut allocator, addr1, 1);
    PageAllocator::dealloc_pages(&mut allocator, addr2, 1);

    let stats = allocator.get_stats();
    assert_eq!(stats.free_pages, 16);
}

#[test]
fn test_legacy_zone_splits_lowest_block_first() {
    let mut zone = BuddySet::new(0x8000_0000, 16 * PAGE_SIZE, 0);
    zone.init(0x8000_0000, 16 * PAGE_SIZE);
    let stats = zone.get_stats();
    assert_eq!(stats.free_pages, 16);
    assert_eq!(stats.free_pages_by_order[4], 1);

    let a = zone.alloc_pages(3, PAGE_SIZE).unwrap();
    assert_eq!(a, 0x8000_0000);
    let stats = zone.get_stats();
    // the 4-page block and the upper halves of 8 and 16 pages
    assert_eq!(stats.free_pages, 12);
    assert_eq!(stats.free_pages_by_order[2], 1);
    assert_eq!(stats.free_pages_by_order[3], 1);
    assert_eq!(zone.alloc_pages(0, PAGE_SIZE), Err(AllocError::InvalidParam));
    assert_eq!(zone.alloc_pages(32, PAGE_SIZE), Err(AllocError::NoMemory));
}

#[test]
fn test_legacy_zone_ignores_bad_frees() {
    let mut zone = BuddySet::new(0x8000_0000, 16 * PAGE_SIZE, 0);
    zone.init(0x8000_0000, 16 * PAGE_SIZE);
    let a = zone.alloc_pages(2, PAGE_SIZE).unwrap();
    let before = zone.get_stats().free_pages;
    // outside the zone, misaligned for the order, and empty
    zone.dealloc_pages(0x9000_0000, 1);
    zone.dealloc_pages(a + PAGE_SIZE, 2);
    zone.dealloc_pages(a, 0);
    assert_eq!(zone.get_stats().free_pages, before);
    zone.dealloc_pages(a, 2);
    assert_eq!(zone.get_stats().free_pages, 16);
}

#[test]
fn test_legacy_zone_full_list_drops_block() {
    let mut zone = BuddySet::new(0x8000_0000, 256 * PAGE_SIZE, 0);
    zone.init(0x8000_0000, 256 * PAGE_SIZE);
    let mut pages = Vec::new();
    for _ in 0..256 {
        pages.push(zone.alloc_pages(1, PAGE_SIZE).unwrap());
    }
    assert_eq!(zone.get_stats().free_pages, 0);
    // every other page: no buddy is free, and a list holds 64 blocks
    for p in pages.iter().step_by(2) {
        zone.dealloc_pages(*p, 1);
    }
    assert_eq!(zone.get_stats().free_pages_by_order[0], 64);
    assert_eq!(zone.get_stats().free_pages, 64);
}

#[test]
fn test_legacy_allocator_zones() {
    let mut allocator = BuddyPageAllocator::new();
    allocator.init(0x8000_0000, 16 * PAGE_SIZE);
    // a region bordering the zone is joined to it
    assert!(allocator.add_memory(0x8001_0000, 16 * PAGE_SIZE).is_ok());
    assert_eq!(allocator.get_stats().total_pages, 32);
    assert_eq!(allocator.get_stats().free_pages, 32);
    // an overlapping region is refused, a distant one is a new zone
    assert_eq!(allocator.add_memory(0x8001_8000, PAGE_SIZE), Err(AllocError::MemoryOverlap));
    assert!(allocator.add_memory(0x9000_0000, 4 * PAGE_SIZE).is_ok());
    assert_eq!(PageAllocator::total_pages(&allocator), 36);
    assert_eq!(PageAllocator::available_pages(&allocator), 36);

    let a = PageAllocator::alloc_pages(&mut allocator, 32, PAGE_SIZE).unwrap();
    assert_eq!(a, 0x8000_0000);
    let b = PageAllocator::alloc_pages(&mut allocator, 1, PAGE_SIZE).unwrap();
    assert_eq!(b, 0x9000_0000);
    assert_eq!(PageAllocator::used_pages(&allocator), 33);
    assert_eq!(PageAllocator::alloc_pages(&mut allocator, 8, PAGE_SIZE), Err(AllocError::NoMemory));
}

#[test]
fn test_legacy_allocator_alloc_at() {
    let mut allocator = BuddyPageAllocator::new();
    allocator.init(0x8000_0000, 16 * PAGE_SIZE);
    assert_eq!(PageAllocator::alloc_pages_at(&mut allocator, 0x8000_0000, 4, PAGE_SIZE), Ok(0x8000_0000));
    // those pages are taken now
    assert_eq!(
        PageAllocator::alloc_pages_at(&mut allocator, 0x8000_0000, 4, PAGE_SIZE),
        Err(AllocError::NoMemory)
    );
    // a base off its block's order is refused
    assert_eq!(
        PageAllocator::alloc_pages_at(&mut allocator, 0x8000_5000, 2, PAGE_SIZE),
        Err(AllocError::InvalidParam)
    );
    assert_eq!(
        PageAllocator::alloc_pages_at(&mut allocator, 0x9000_0000, 1, PAGE_SIZE),
        Err(AllocError::InvalidParam)
    );
    assert_eq!(allocator.get_stats().free_pages, 12);
}

#[test]
fn test_legacy_allocator_alloc_at_inside_block() {
    let mut allocator = BuddyPageAllocator::new();
    allocator.init(0x8000_0000, 0x10000);
    assert_eq!(PageAllocator::alloc_pages_at(&mut allocator, 0x8000_4000, 1, 0x1000), Ok(0x8000_4000));
    assert_eq!(PageAllocator::used_pages(&allocator), 1);
    assert_eq!(PageAllocator::available_pages(&allocator), 15);
    // the rest of the block stays free around it
    assert_eq!(PageAllocator::alloc_pages_at(&mut allocator, 0x8000_5000, 1, 0x1000), Ok(0x8000_5000));
    assert_eq!(PageAllocator::alloc_pages_at(&mut allocator, 0x8000_0000, 4, 0x1000), Ok(0x8000_0000));
    assert_eq!(PageAllocator::available_pages(&allocator), 10);
}

#[test]
fn test_legacy_zone_honours_alignment() {
    let mut zone = BuddySet::new(0x8000_0000, 0x10000, 0);
    zone.init(0x8000_0000, 0x10000);
    assert_eq!(zone.alloc_pages(1, 0x1000), Ok(0x8000_0000));
    // the free blocks at 0x8000_1000 and 0x8000_2000 miss the alignment
    assert_eq!(zone.alloc_pages(1, 0x4000), Ok(0x8000_4000));
    assert_eq!(zone.alloc_pages(1, 0), Ok(0x8000_1000));
    assert_eq!(zone.alloc_pages(1, 0x20000), Err(AllocError::NoMemory));
}

#[test]
fn test_legacy_allocator_honours_alignment() {
    let mut allocator = BuddyPageAllocator::new();
    allocator.init(0x8000_0000, 0x10000);
    assert_eq!(PageAllocator::alloc_pages(&mut allocator, 1, 0x1000), Ok(0x8000_0000));
    assert_eq!(PageAllocator::alloc_pages(&mut allocator, 2, 0x8000), Ok(0x8000_8000));
    assert_eq!(PageAllocator::used_pages(&allocator), 3);
}

#[test]
fn test_legacy_merge_keeps_pages_in_use() {
    let mut allocator = BuddyPageAllocator::new();
    allocator.init(0x8000_0000, 0x10000);
    assert_eq!(PageAllocator::alloc_pages(&mut allocator, 1, 0x1000), Ok(0x8000_0000));
    assert!(allocator.add_memory(0x8001_0000, 0x10000).is_ok());
    assert_eq!(allocator.get_zone_count(), 1);
    let zone = allocator.zone(0).unwrap();
    let info = zone.zone_info();
    assert_eq!(info.start_addr, 0x8000_0000);
    assert_eq!(info.end_addr, 0x8002_0000);
    assert_eq!(zone.get_stats().free_pages, 31);
    assert_eq!(zone.get_stats().used_pages, 1);
    // the page in use is not handed out again
    assert_ne!(PageAllocator::alloc_pages(&mut allocator, 1, 0x1000), Ok(0x8000_0000));
}

#[test]
fn test_memory_region_fields() {
    let region = buddy_slab_allocator::buddy_page_allocator::MemoryRegion { start_addr: 0x8000_0000, size: 0x10000 };
    let copy = region.clone();
    assert_eq!(copy.start_addr, 0x8000_0000);
    assert_eq!(copy.size, 0x10000);
}
