use buddy_slab_allocator::metrics::{AllocatorMetrics, SizeCategory};
use buddy_slab_allocator::usage::{AccountedAllocator, UsageKind, Usages, USAGE_KINDS};
use buddy_slab_allocator::{AllocError, Layout};

const PAGE_SIZE: usize = 0x1000;
const HEAP_ADDR: usize = 0x4000_0000;
const HEAP_SIZE: usize = 16 * 1024 * 1024;

#[test]
fn test_usage_kind_index_roundtrip() {
    for i in 0..USAGE_KINDS {
        let kind = UsageKind::from_index(i).unwrap();
        assert_eq!(kind.index(), i);
    }
    assert!(UsageKind::from_index(USAGE_KINDS).is_none());
    assert_eq!(UsageKind::Dma.index(), 4);
}

#[test]
fn test_usages_counts_by_kind() {
    let mut usages = Usages::new();
    usages.record_alloc(UsageKind::PageTable, 8192);
    usages.record_alloc(UsageKind::Dma, 4096);
    usages.record_dealloc(UsageKind::PageTable, 4096);
    assert_eq!(usages.get(UsageKind::PageTable), 4096);
    assert_eq!(usages.get(UsageKind::Dma), 4096);
    assert_eq!(usages.get(UsageKind::RustHeap), 0);
}

#[test]
fn test_accounted_allocator_counts() {
    let mut allocator = AccountedAllocator::<PAGE_SIZE>::new();
    assert_eq!(allocator.name(), "axvisor allocator");
    let layout = Layout::from_size_align(100, 8).unwrap();
    assert_eq!(allocator.alloc_bytes(layout), Err(AllocError::NoMemory));
    assert_eq!(allocator.usages().get(UsageKind::RustHeap), 0);

    allocator.init(HEAP_ADDR, HEAP_SIZE).unwrap();
    let p = allocator.alloc_bytes(layout).unwrap();
    assert_eq!(allocator.usages().get(UsageKind::RustHeap), 100);
    let pages = allocator.alloc_pages(2, PAGE_SIZE, UsageKind::PageCache).unwrap();
    assert_eq!(pages % PAGE_SIZE, 0);
    assert_eq!(allocator.usages().get(UsageKind::PageCache), 2 * PAGE_SIZE);
    assert_eq!(allocator.used_pages(), 2);
    assert_eq!(allocator.used_bytes(), 100);

    allocator.dealloc_pages(pages, 2, UsageKind::PageCache);
    allocator.dealloc(p, layout);
    assert_eq!(allocator.usages().get(UsageKind::PageCache), 0);
    assert_eq!(allocator.usages().get(UsageKind::RustHeap), 0);
    assert_eq!(allocator.used_pages(), 0);
}

#[test]
fn test_accounted_allocator_refuses_small_heap() {
    let mut allocator = AccountedAllocator::<PAGE_SIZE>::new();
    assert_eq!(allocator.init(HEAP_ADDR, 0x8000), Err(AllocError::InvalidParam));
}

#[test]
fn test_size_category_boundaries() {
    assert_eq!(SizeCategory::from_size(0), SizeCategory::Small);
    assert_eq!(SizeCategory::from_size(4095), SizeCategory::Small);
    assert_eq!(SizeCategory::from_size(4096), SizeCategory::Medium);
    assert_eq!(SizeCategory::from_size(1024 * 1024 - 1), SizeCategory::Medium);
    assert_eq!(SizeCategory::from_size(1024 * 1024), SizeCategory::Large);
}

#[test]
fn test_allocator_metrics_record() {
    let mut metrics = AllocatorMetrics::new();
    assert_eq!(metrics.min_alloc_time_ns, u64::MAX);
    metrics.record_alloc(100, 50);
    metrics.record_alloc(8192, 20);
    metrics.record_alloc(2 * 1024 * 1024, 90);
    assert_eq!(metrics.total_allocations, 3);
    assert_eq!(metrics.total_alloc_time_ns, 160);
    assert_eq!(metrics.min_alloc_time_ns, 20);
    assert_eq!(metrics.max_alloc_time_ns, 90);
    assert_eq!((metrics.small_allocs, metrics.medium_allocs, metrics.large_allocs), (1, 1, 1));
    assert_eq!(metrics.current_allocated_bytes, 100 + 8192 + 2 * 1024 * 1024);
    assert_eq!(metrics.peak_allocated_bytes, 100 + 8192 + 2 * 1024 * 1024);
    assert!(!metrics.check_leaks());

    metrics.record_dealloc(8192, 5);
    metrics.record_dealloc(100, 5);
    metrics.record_dealloc(2 * 1024 * 1024, 5);
    assert!(metrics.check_leaks());
    assert_eq!(metrics.current_allocated_bytes, 0);
    assert_eq!(metrics.peak_allocated_bytes, 100 + 8192 + 2 * 1024 * 1024);
    assert_eq!(metrics.total_dealloc_time_ns, 15);
}

#[test]
fn test_allocator_metrics_default() {
    let metrics = AllocatorMetrics::default();
    assert_eq!(metrics.min_alloc_time_ns, 0);
    assert_eq!(metrics.total_allocations, 0);
}
