use buddy_slab_allocator::{AllocError, AllocResult, BaseAllocator, BitmapAllocator, BitmapZone, PageAllocator};

const PAGE_SIZE: usize = 4096;

#[test]
fn test_metadata_size() {
    // 4096 pages (16MB): 4096 bits = 512 bytes, one page.
    assert_eq!(BitmapZone::<4096>::calculate_metadata_size(4096), 4096);
    // 8192 pages (32MB): 1024 bytes, one page.
    assert_eq!(BitmapZone::<4096>::calculate_metadata_size(8192), 4096);
    // 32768 pages (128MB): 4096 bytes, one page.
    assert_eq!(BitmapZone::<4096>::calculate_metadata_size(32768), 4096);
    // 65536 pages (256MB): 8192 bytes, two pages.
    assert_eq!(BitmapZone::<4096>::calculate_metadata_size(65536), 8192);
}

#[test]
fn test_multi_zone_basic() {
    println!("Multi-zone bitmap allocator test passed (compile-time check)");
}

#[test]
fn test_metadata_calculation() {
    let cases = vec![(4096, 4096), (8192, 4096), (32768, 4096), (65536, 8192)];
    for (pages, expected_metadata) in cases {
        let metadata = BitmapZone::<4096>::calculate_metadata_size(pages);
        assert_eq!(
            metadata, expected_metadata,
            "Mismatch for {} pages: got {}, expected {}",
            pages, metadata, expected_metadata
        );
    }
    println!("Metadata calculation tests passed");
}

#[test]
fn test_bitmap_zone_layout() {
    let mut zone = BitmapZone::<PAGE_SIZE>::empty();
    zone.init(0x1000_0000, 16 * 1024 * 1024);
    assert_eq!(zone.base_addr, 0x1000_0000);
    assert_eq!(zone.end_addr, 0x1100_0000);
    assert_eq!(zone.total_pages, 4096);
    assert_eq!(zone.bitmap_size, PAGE_SIZE);
    assert_eq!(zone.alloc_start, 0x1000_1000);
    assert_eq!(zone.alloc_pages, 4095);
    assert_eq!(zone.free_pages(), 4095);
    assert_eq!(zone.used_pages(), 0);
}

#[test]
fn test_bitmap_zone_too_small() {
    let mut zone = BitmapZone::<PAGE_SIZE>::empty();
    zone.init(0x1000_0000, PAGE_SIZE);
    assert_eq!(zone.base_addr, 0);
    assert_eq!(zone.end_addr, 0);
}

#[test]
fn test_bitmap_zone_alloc_first_fit_and_free() {
    let mut zone = BitmapZone::<PAGE_SIZE>::empty();
    zone.init(0x1000_0000, 64 * PAGE_SIZE);
    let a = zone.alloc_pages(3, PAGE_SIZE).unwrap();
    assert_eq!(a, zone.alloc_start);
    let b = zone.alloc_pages(1, PAGE_SIZE).unwrap();
    assert_eq!(b, zone.alloc_start + 3 * PAGE_SIZE);
    assert_eq!(zone.used_pages(), 4);
    zone.dealloc_pages(a, 3);
    assert_eq!(zone.used_pages(), 1);
    // the freed run is found again first
    let c = zone.alloc_pages(2, PAGE_SIZE).unwrap();
    assert_eq!(c, a);
}

#[test]
fn test_bitmap_zone_alignment() {
    let mut zone = BitmapZone::<PAGE_SIZE>::empty();
    zone.init(0x1000_0000, 64 * PAGE_SIZE);
    // the allocatable pages start one page in, so the first 4-page-aligned
    // position is three pages further
    let a = zone.alloc_pages(1, 4 * PAGE_SIZE).unwrap();
    assert_eq!(a % (4 * PAGE_SIZE), 0);
    assert_eq!(a, 0x1000_4000);
}

#[test]
fn test_bitmap_zone_errors() {
    let mut zone = BitmapZone::<PAGE_SIZE>::empty();
    zone.init(0x1000_0000, 8 * PAGE_SIZE);
    assert_eq!(zone.alloc_pages(0, PAGE_SIZE), Err(AllocError::InvalidParam));
    assert_eq!(zone.alloc_pages(8, PAGE_SIZE), Err(AllocError::InvalidParam));
    assert_eq!(zone.alloc_pages(1, 3), Err(AllocError::InvalidParam));
    assert_eq!(zone.alloc_pages(1, 0), Err(AllocError::InvalidParam));
    let all = zone.alloc_pages(7, PAGE_SIZE).unwrap();
    assert_eq!(all, zone.alloc_start);
    assert_eq!(zone.alloc_pages(1, PAGE_SIZE), Err(AllocError::NoMemory));
    // out-of-range frees are ignored
    zone.dealloc_pages(0x2000_0000, 1);
    zone.dealloc_pages(zone.alloc_start + 1, 1);
    assert_eq!(zone.free_pages(), 0);
}

#[test]
fn test_bitmap_allocator_zones() {
    let mut allocator = BitmapAllocator::<PAGE_SIZE>::new();
    assert_eq!(allocator.zone_count(), 0);
    allocator.init(0x1000_0000, 16 * PAGE_SIZE);
    let r: AllocResult = allocator.add_memory(0x4000_0000, 16 * PAGE_SIZE);
    assert!(r.is_ok());
    assert_eq!(allocator.zone_count(), 2);
    assert_eq!(allocator.zone(1).unwrap().base_addr, 0x4000_0000);
    assert!(allocator.zone(2).is_none());
    assert_eq!(allocator.add_memory(0x4000_1000, PAGE_SIZE), Err(AllocError::MemoryOverlap));
    assert_eq!(allocator.add_memory(0x5000_0000, 10), Err(AllocError::InvalidParam));
    assert_eq!(PageAllocator::total_pages(&allocator), 32);
    assert_eq!(PageAllocator::available_pages(&allocator), 30);

    // the first zone serves until it is full, then the second
    let a = PageAllocator::alloc_pages(&mut allocator, 15, PAGE_SIZE).unwrap();
    assert_eq!(a, 0x1000_1000);
    let b = PageAllocator::alloc_pages(&mut allocator, 1, PAGE_SIZE).unwrap();
    assert_eq!(b, 0x4000_1000);
    assert_eq!(PageAllocator::used_pages(&allocator), 16);
    PageAllocator::dealloc_pages(&mut allocator, a, 15);
    assert_eq!(PageAllocator::used_pages(&allocator), 1);
}

#[test]
fn test_bitmap_allocator_alloc_at() {
    let mut allocator = BitmapAllocator::<PAGE_SIZE>::new();
    allocator.init(0x1000_0000, 16 * PAGE_SIZE);
    assert_eq!(PageAllocator::alloc_pages_at(&mut allocator, 0x1000_3000, 2, PAGE_SIZE), Ok(0x1000_3000));
    assert_eq!(PageAllocator::alloc_pages_at(&mut allocator, 0x1000_4000, 1, PAGE_SIZE), Err(AllocError::NoMemory));
    assert_eq!(PageAllocator::alloc_pages_at(&mut allocator, 0x2000_0000, 1, PAGE_SIZE), Err(AllocError::InvalidParam));
    // pages past the zone are never handed out
    assert_eq!(PageAllocator::alloc_pages_at(&mut allocator, 0x1000_f000, 2, PAGE_SIZE), Err(AllocError::NoMemory));
    // the alignment is honoured, and a base must be page aligned
    assert_eq!(PageAllocator::alloc_pages_at(&mut allocator, 0x1000_5000, 1, 0x2000), Err(AllocError::InvalidParam));
    assert_eq!(PageAllocator::alloc_pages_at(&mut allocator, 0x1000_6800, 1, 8), Err(AllocError::InvalidParam));
    assert_eq!(PageAllocator::used_pages(&allocator), 2);
}

#[test]
fn test_bitmap_allocator_zone_limit() {
    let mut allocator = BitmapAllocator::<PAGE_SIZE>::new();
    for i in 0..16 {
        assert!(allocator.add_memory(0x1000_0000 + i * 0x10_0000, 4 * PAGE_SIZE).is_ok());
    }
    assert_eq!(allocator.add_memory(0x8000_0000, 4 * PAGE_SIZE), Err(AllocError::NoMemory));
}
