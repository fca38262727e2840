use buddy_slab_allocator::{AddrTranslator, AllocError, GlobalAllocator, Layout, PageAllocator};

const PAGE_SIZE: usize = 0x1000;
const TEST_HEAP_SIZE: usize = 16 * 1024 * 1024;
const HEAP_ADDR: usize = 0x4000_0000;
const SECOND_HEAP_ADDR: usize = 0x6000_0000;

/// Maps every address into the low 2GiB of physical memory.
struct MockAddrTranslator;

impl AddrTranslator for MockAddrTranslator {
    fn translation(&self, va: usize) -> Option<usize> {
        Some(va & 0x7fff_ffff)
    }

    fn virt_to_phys(&self, va: usize) -> Option<usize> {
        self.translation(va)
    }
}

fn translator() -> &'static MockAddrTranslator {
    Box::leak(Box::new(MockAddrTranslator))
}

fn initialized() -> GlobalAllocator<PAGE_SIZE> {
    let mut allocator = GlobalAllocator::<PAGE_SIZE>::new();
    allocator.init(HEAP_ADDR, TEST_HEAP_SIZE).unwrap();
    allocator
}

fn initialized_with_translator() -> GlobalAllocator<PAGE_SIZE> {
    let mut allocator = GlobalAllocator::<PAGE_SIZE>::new();
    allocator.set_addr_translator(translator());
    let init_result = allocator.init(HEAP_ADDR, TEST_HEAP_SIZE);
    assert!(init_result.is_ok(), "Failed to initialize allocator: {:?}", init_result);
    allocator
}

#[test]
fn test_global_allocator_init() {
    let mut allocator = GlobalAllocator::<PAGE_SIZE>::new();
    let result = allocator.init(HEAP_ADDR, TEST_HEAP_SIZE);
    assert!(result.is_ok());

    let addr = allocator.alloc_pages(1, PAGE_SIZE);
    assert!(addr.is_ok());
    if let Ok(a) = addr {
        allocator.dealloc_pages(a, 1);
    }
}

#[test]
fn test_global_allocator_small_alloc() {
    let mut allocator = initialized();
    let layout = Layout::from_size_align(64, 8).unwrap();
    let ptr = allocator.alloc_bytes(layout).unwrap();
    assert!(ptr != 0);
    allocator.dealloc(ptr, layout);
}

#[test]
fn test_global_allocator_large_alloc() {
    let mut allocator = initialized();
    let layout = Layout::from_size_align(8192, PAGE_SIZE).unwrap();
    let ptr = allocator.alloc_bytes(layout).unwrap();
    assert!(ptr != 0);
    allocator.dealloc(ptr, layout);
}

#[test]
fn test_global_allocator_mixed_alloc() {
    let mut allocator = initialized();
    let mut allocations = Vec::new();
    for i in 0..20 {
        let size = if i % 2 == 0 { 64 } else { 8192 };
        let layout = Layout::from_size_align(size, 8).unwrap();
        let ptr = allocator.alloc_bytes(layout).unwrap();
        allocations.push((ptr, layout));
    }
    assert_eq!(allocations.len(), 20);
    for (ptr, layout) in allocations {
        allocator.dealloc(ptr, layout);
    }
}

#[test]
fn test_global_allocator_page_alloc() {
    let mut allocator = initialized();
    let addr1 = allocator.alloc_pages(4, PAGE_SIZE).unwrap();
    assert!(addr1 >= HEAP_ADDR && addr1 < HEAP_ADDR + TEST_HEAP_SIZE);
    let addr2 = allocator.alloc_pages(8, PAGE_SIZE).unwrap();
    assert!(addr2 >= HEAP_ADDR && addr2 < HEAP_ADDR + TEST_HEAP_SIZE);
    allocator.dealloc_pages(addr1, 4);
    allocator.dealloc_pages(addr2, 8);
}

#[test]
fn test_global_allocator_add_memory() {
    let mut allocator = initialized();
    let _total_before = PageAllocator::total_pages(&allocator);
    // May fail once the zone table is full; it must not panic.
    let _result = allocator.add_memory(SECOND_HEAP_ADDR, TEST_HEAP_SIZE);
}

#[test]
fn test_statistics_tracking() {
    let mut allocator = initialized();
    let stats_initial = allocator.get_stats();
    assert_eq!(stats_initial.total_pages, TEST_HEAP_SIZE / PAGE_SIZE);
    assert_eq!(stats_initial.used_pages, 0);

    let layout = Layout::from_size_align(64, 8).unwrap();
    let _ptr = allocator.alloc_bytes(layout).unwrap();
    let stats_after = allocator.get_stats();
    assert!(stats_after.slab_bytes > 0);
}

#[test]
fn test_buddy_statistics() {
    let allocator = initialized();
    let buddy_stats = allocator.get_buddy_stats();
    assert!(buddy_stats.total_pages > 0);
    assert_eq!(buddy_stats.used_pages, 0);
}

#[test]
fn test_stress_allocation_deallocation() {
    let mut allocator = initialized();
    for _round in 0..5 {
        let mut allocations = Vec::new();
        for i in 0..50 {
            let size = match i % 5 {
                0 => 8,
                1 => 32,
                2 => 128,
                3 => 512,
                _ => 2048,
            };
            let layout = Layout::from_size_align(size, 8).unwrap();
            if let Ok(ptr) = allocator.alloc_bytes(layout) {
                allocations.push((ptr, layout));
            }
        }
        while let Some((ptr, layout)) = allocations.pop() {
            allocator.dealloc(ptr, layout);
        }
        let test_layout = Layout::from_size_align(64, 8).unwrap();
        let ptr = allocator.alloc_bytes(test_layout).unwrap();
        allocator.dealloc(ptr, test_layout);
    }
}

#[test]
fn test_alloc_dma32_pages_uninitialized() {
    let mut allocator = GlobalAllocator::<PAGE_SIZE>::new();
    let result = allocator.alloc_dma32_pages(1, PAGE_SIZE);
    assert!(result.is_err(), "Expected error when allocating from uninitialized allocator");
    assert_eq!(result.unwrap_err(), AllocError::NoMemory, "Expected NoMemory error");
}

fn assert_in_heap(addr: usize) {
    assert!(addr >= HEAP_ADDR, "Allocated address is below memory start");
    assert!(addr < HEAP_ADDR + TEST_HEAP_SIZE, "Allocated address is beyond memory end");
}

#[test]
fn test_alloc_dma32_pages_initialized() {
    let mut allocator = initialized_with_translator();

    let result1 = allocator.alloc_dma32_pages(1, PAGE_SIZE);
    assert!(result1.is_ok(), "Failed to allocate 1 page: {:?}", result1);
    let addr1 = result1.unwrap();
    assert_in_heap(addr1);
    assert_eq!(addr1 % PAGE_SIZE, 0, "Allocated address is not page-aligned");

    let result2 = allocator.alloc_dma32_pages(4, PAGE_SIZE);
    assert!(result2.is_ok(), "Failed to allocate 4 pages: {:?}", result2);
    let addr2 = result2.unwrap();
    assert_in_heap(addr2);
    assert_eq!(addr2 % PAGE_SIZE, 0, "Allocated address is not page-aligned");

    let result3 = allocator.alloc_dma32_pages(1, 2 * PAGE_SIZE);
    assert!(result3.is_ok(), "Failed to allocate 1 page with 8KB alignment: {:?}", result3);
    let addr3 = result3.unwrap();
    assert_in_heap(addr3);
    assert_eq!(addr3 % (2 * PAGE_SIZE), 0, "Allocated address is not 8KB-aligned");
}

#[test]
fn test_alloc_dma32_pages_memory_structure() {
    let mut allocator = initialized_with_translator();
    let alloc_results = vec![
        allocator.alloc_dma32_pages(1, PAGE_SIZE),
        allocator.alloc_dma32_pages(2, PAGE_SIZE),
        allocator.alloc_dma32_pages(4, PAGE_SIZE),
    ];
    for (i, result) in alloc_results.iter().enumerate() {
        assert!(result.is_ok(), "Failed to allocate DMA32 pages (iteration {}): {:?}", i, result);
    }
    let alloc_addrs: Vec<usize> = alloc_results.into_iter().map(|r| r.unwrap()).collect();
    for addr in &alloc_addrs {
        assert_in_heap(*addr);
    }

    let stats_after_alloc = allocator.get_stats();
    assert!(stats_after_alloc.used_pages > 0, "Used pages should be greater than 0 after allocations");
    let buddy_stats = allocator.get_buddy_stats();
    assert!(buddy_stats.total_pages > 0, "Buddy total pages should be greater than 0");

    for (i, addr) in alloc_addrs.iter().enumerate() {
        let num_pages = match i {
            0 => 1,
            1 => 2,
            2 => 4,
            _ => 1,
        };
        allocator.dealloc_pages(*addr, num_pages);
    }
    let stats_after_dealloc = allocator.get_stats();
    assert!(stats_after_dealloc.used_pages < 100, "Used pages should be low after deallocation");
}

#[test]
fn test_alloc_dma32_pages_memory_stats() {
    let mut allocator = initialized_with_translator();

    let stats_before = allocator.get_stats();
    assert!(stats_before.total_pages > 0, "Total pages should be greater than 0");
    assert!(stats_before.free_pages > 0, "Free pages should be greater than 0");
    assert_eq!(stats_before.used_pages, 0, "Used pages should be 0 initially");

    let result = allocator.alloc_dma32_pages(2, PAGE_SIZE);
    assert!(result.is_ok(), "Failed to allocate DMA32 pages: {:?}", result);
    let addr = result.unwrap();

    let stats_after = allocator.get_stats();
    assert_eq!(stats_after.used_pages, stats_before.used_pages + 2, "Used pages should increase by 2");
    assert_eq!(stats_after.free_pages, stats_before.free_pages - 2, "Free pages should decrease by 2");

    allocator.dealloc_pages(addr, 2);
    let stats_final = allocator.get_stats();
    assert_eq!(stats_final.used_pages, stats_before.used_pages, "Used pages should return to initial value");
    assert_eq!(stats_final.free_pages, stats_before.free_pages, "Free pages should return to initial value");
}

#[test]
fn test_alloc_dma32_pages_multiple_zones() {
    let heap_addr1 = HEAP_ADDR;
    let heap_addr2 = SECOND_HEAP_ADDR;
    let mut allocator = GlobalAllocator::<PAGE_SIZE>::new();
    allocator.set_addr_translator(translator());
    let init_result = allocator.init(heap_addr1, TEST_HEAP_SIZE / 2);
    assert!(init_result.is_ok(), "Failed to initialize allocator: {:?}", init_result);
    let add_result = allocator.add_memory(heap_addr2, TEST_HEAP_SIZE / 2);
    assert!(add_result.is_ok(), "Failed to add memory region: {:?}", add_result);

    let result1 = allocator.alloc_dma32_pages(1, PAGE_SIZE);
    assert!(result1.is_ok(), "Failed to allocate 1 page from multiple zones: {:?}", result1);
    let addr1 = result1.unwrap();
    assert!(addr1 >= heap_addr1 || addr1 >= heap_addr2, "Allocated address is not in any zone");
    assert!(
        (addr1 < heap_addr1 + TEST_HEAP_SIZE / 2) || (addr1 < heap_addr2 + TEST_HEAP_SIZE / 2),
        "Allocated address is beyond memory end"
    );

    let result2 = allocator.alloc_dma32_pages(2, PAGE_SIZE);
    assert!(result2.is_ok(), "Failed to allocate 2 pages from multiple zones: {:?}", result2);
    let addr2 = result2.unwrap();
    assert!(addr2 >= heap_addr1 || addr2 >= heap_addr2, "Allocated address is not in any zone");
    assert!(
        (addr2 < heap_addr1 + TEST_HEAP_SIZE / 2) || (addr2 < heap_addr2 + TEST_HEAP_SIZE / 2),
        "Allocated address is beyond memory end"
    );
}

#[test]
fn test_alloc_dma32_pages_vs_normal_pages() {
    let mut allocator = initialized_with_translator();

    let result_dma32 = allocator.alloc_dma32_pages(1, PAGE_SIZE);
    assert!(result_dma32.is_ok(), "Failed to allocate DMA32 pages: {:?}", result_dma32);
    let addr_dma32 = result_dma32.unwrap();
    assert_in_heap(addr_dma32);

    let result_normal = allocator.alloc_pages(1, PAGE_SIZE);
    assert!(result_normal.is_ok(), "Failed to allocate normal pages: {:?}", result_normal);
    let addr_normal = result_normal.unwrap();
    assert_in_heap(addr_normal);

    assert_ne!(addr_dma32, addr_normal, "DMA32 and normal pages should have different addresses");

    let result_dma32_multi = allocator.alloc_dma32_pages(4, PAGE_SIZE);
    assert!(result_dma32_multi.is_ok(), "Failed to allocate multiple DMA32 pages: {:?}", result_dma32_multi);
    let result_normal_multi = allocator.alloc_pages(4, PAGE_SIZE);
    assert!(result_normal_multi.is_ok(), "Failed to allocate multiple normal pages: {:?}", result_normal_multi);
}

#[test]
fn test_alloc_dma32_pages_edge_cases() {
    let mut allocator = initialized_with_translator();
    let result = allocator.alloc_dma32_pages(0, PAGE_SIZE);
    match result {
        Ok(addr) => assert_eq!(addr, 0, "Expected 0 for 0 pages allocation"),
        Err(_) => {}
    }
}

#[test]
fn test_alloc_dma32_pages_stress() {
    let mut allocator = initialized_with_translator();
    let mut allocated_addrs = Vec::new();
    for i in 0..10 {
        let num_pages = (i % 4) + 1;
        let alignment = if i % 2 == 0 { PAGE_SIZE } else { 2 * PAGE_SIZE };
        let result = allocator.alloc_dma32_pages(num_pages, alignment);
        assert!(
            result.is_ok(),
            "Failed to allocate {} pages with alignment {}: {:?}",
            num_pages,
            alignment,
            result
        );
        allocated_addrs.push(result.unwrap());
    }
    for addr in &allocated_addrs {
        assert_in_heap(*addr);
    }
}

#[test]
fn test_global_allocator_realloc() {
    let mut allocator = initialized();
    let small = Layout::from_size_align(64, 8).unwrap();
    // a null block is allocated afresh
    let p = allocator.realloc(0, small, 64);
    assert!(p != 0 && p % 8 == 0);
    assert_eq!(allocator.get_stats().slab_bytes, 64);
    // shrinking keeps the block
    assert_eq!(allocator.realloc(p, small, 32), p);
    // growing moves it to a block of the new size and frees the old one
    let q = allocator.realloc(p, small, 8192);
    assert!(q != 0 && q != p && q % 8 == 0);
    assert_eq!(allocator.get_stats().slab_bytes, 0);
    assert_eq!(allocator.get_stats().heap_bytes, 8192);
    // size zero frees it
    let big = Layout::from_size_align(8192, 8).unwrap();
    assert_eq!(allocator.realloc(q, big, 0), 0);
    assert_eq!(allocator.get_stats().heap_bytes, 0);
}

#[test]
fn test_global_allocator_small_objects_aligned() {
    let mut allocator = initialized();
    for align in [8usize, 64, 256, 2048] {
        let layout = Layout::from_size_align(24, align).unwrap();
        let p = allocator.alloc_bytes(layout).unwrap();
        assert_eq!(p % align, 0);
    }
}
