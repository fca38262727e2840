use buddy_slab_allocator::page_slab::{SlabMeta, SlabPage};
use buddy_slab_allocator::slab::slab_cache::SlabCache;
use buddy_slab_allocator::slab::slab_node::{SlabNode, MAX_OBJECTS};
use buddy_slab_allocator::{
    BaseAllocator, ByteAllocator, CompositePageAllocator, Layout, PageAllocator, SizeClass, SlabByteAllocator,
};

const PAGE_SIZE: usize = 0x1000;
const TEST_HEAP_SIZE: usize = 16 * 1024 * 1024;
const HEAP_ADDR: usize = 0x8000_0000;

fn page_allocator() -> CompositePageAllocator<PAGE_SIZE> {
    let mut allocator = CompositePageAllocator::<PAGE_SIZE>::new();
    allocator.init(HEAP_ADDR, TEST_HEAP_SIZE);
    allocator
}

#[test]
fn slab_byte_allocator_test_size_class() {
    assert_eq!(SizeClass::from_layout(Layout::from_size_align(8, 8).unwrap()), Some(SizeClass::Bytes8));
    assert_eq!(SizeClass::from_layout(Layout::from_size_align(16, 8).unwrap()), Some(SizeClass::Bytes16));
    assert_eq!(SizeClass::from_layout(Layout::from_size_align(2048, 8).unwrap()), Some(SizeClass::Bytes2048));
    assert_eq!(SizeClass::from_layout(Layout::from_size_align(2049, 8).unwrap()), None);
}

#[test]
fn test_size_class_boundaries() {
    assert_eq!(SizeClass::Bytes8.size(), 8);
    assert_eq!(SizeClass::Bytes16.size(), 16);
    assert_eq!(SizeClass::Bytes32.size(), 32);
    assert_eq!(SizeClass::Bytes64.size(), 64);
    assert_eq!(SizeClass::Bytes128.size(), 128);
    assert_eq!(SizeClass::Bytes256.size(), 256);
    assert_eq!(SizeClass::Bytes512.size(), 512);
    assert_eq!(SizeClass::Bytes1024.size(), 1024);
    assert_eq!(SizeClass::Bytes2048.size(), 2048);
}

#[test]
fn test_size_class_alignment_limits() {
    assert_eq!(SizeClass::from_layout(Layout::from_size_align(64, 4096).unwrap()), None);
}

#[test]
fn test_size_class_index_roundtrip() {
    for i in 0..9 {
        let c = SizeClass::from_index(i).unwrap();
        assert_eq!(c.to_index(), i);
    }
    assert_eq!(SizeClass::from_index(9), None);
    assert_eq!(SizeClass::from_layout(Layout::from_size_align(3, 16).unwrap()), Some(SizeClass::Bytes16));
    assert_eq!(SizeClass::from_layout(Layout::from_size_align(0, 1).unwrap()), Some(SizeClass::Bytes8));
    assert_eq!(SizeClass::Bytes64.objects_per_page(4096), 64);
    assert!(Layout::from_size_align(8, 3).is_err());
}

#[test]
fn slab_cache_test_alloc_dealloc() {
    let mut cache = SlabCache::new(SizeClass::Bytes64);
    let mut page_allocator = page_allocator();

    let (obj_addr, _) = cache.alloc_object(&mut page_allocator, 4096).unwrap();

    assert_ne!(obj_addr, 0);

    cache.dealloc_object(obj_addr, &mut page_allocator, 4096);
}

#[test]
fn slab_cache_test_multiple_allocs() {
    let mut cache = SlabCache::new(SizeClass::Bytes64);
    let mut page_allocator = page_allocator();

    let mut addrs = Vec::new();
    for _ in 0..10 {
        let (addr, _) = cache.alloc_object(&mut page_allocator, 4096).unwrap();
        addrs.push(addr);
    }

    assert_eq!(addrs.len(), 10);

    for addr in addrs {
        cache.dealloc_object(addr, &mut page_allocator, 4096);
    }
}

#[test]
fn test_empty_node_management() {
    let mut cache = SlabCache::new(SizeClass::Bytes64);
    let mut page_allocator = page_allocator();

    let (addr1, _) = cache.alloc_object(&mut page_allocator, 4096).unwrap();
    cache.dealloc_object(addr1, &mut page_allocator, 4096);

    let (addr2, _) = cache.alloc_object(&mut page_allocator, 4096).unwrap();
    cache.dealloc_object(addr2, &mut page_allocator, 4096);

    let (addr3, _) = cache.alloc_object(&mut page_allocator, 4096).unwrap();
    cache.dealloc_object(addr3, &mut page_allocator, 4096);

    assert!(cache.empty.len() <= 2);
}

#[test]
fn test_slab_cache_double_free_and_release() {
    let mut cache = SlabCache::new(SizeClass::Bytes2048);
    let mut page_allocator = page_allocator();

    // The first object comes from a new slab; a second empty slab is
    // prepared right away.
    let (a, bytes) = cache.alloc_object(&mut page_allocator, 4096).unwrap();
    assert_eq!(bytes, 2 * 512 * 2048);
    assert_eq!(cache.dealloc_object(a, &mut page_allocator, 4096), (0, true));
    // Freeing it again is a double free.
    assert_eq!(cache.dealloc_object(a, &mut page_allocator, 4096), (0, false));
    // An address inside a slab that starts no object is ignored.
    assert_eq!(cache.dealloc_object(a + 1, &mut page_allocator, 4096), (0, true));
    // An address with no slab at its base is a double free.
    assert_eq!(cache.dealloc_object(0x10, &mut page_allocator, 4096), (0, false));
}

#[test]
fn test_slab_node() {
    let mut node = SlabNode::new(0, SizeClass::Bytes64);
    let slab_pages = node.page_count(4096);
    let slab_bytes = slab_pages * 4096;
    node.addr = HEAP_ADDR;
    node.init_header(slab_bytes);

    assert!(node.is_empty());
    assert!(!node.is_full());
    assert!(node.free_count() <= MAX_OBJECTS as u32);
    assert_eq!(node.in_use(), 0);

    let obj_idx = node.alloc_object().unwrap();
    assert_eq!(node.object_addr(obj_idx), HEAP_ADDR + 128);
    assert_eq!(node.in_use(), 1);
    assert_eq!(node.free_count(), 510 - 1);

    node.dealloc_object(obj_idx);
    assert!(node.is_empty());
    assert_eq!(node.in_use(), 0);
    assert_eq!(node.free_count(), 510);
}

#[test]
fn test_object_index_from_addr() {
    let mut node = SlabNode::new(0, SizeClass::Bytes64);
    let slab_pages = node.page_count(4096);
    let slab_bytes = slab_pages * 4096;
    node.addr = HEAP_ADDR;
    node.init_header(slab_bytes);

    let obj0 = node.object_addr(0);
    assert_eq!(node.object_index_from_addr(obj0), Some(0));
    assert_eq!(node.object_index_from_addr(obj0 + 64), Some(1));
    assert_eq!(node.object_index_from_addr(obj0 + 63), None);
    assert_eq!(node.object_index_from_addr(obj0 + slab_bytes), None);
}

#[test]
fn test_page_count() {
    let node8 = SlabNode::new(0, SizeClass::Bytes8);
    assert_eq!(node8.page_count(4096), 1);

    let node64 = SlabNode::new(0, SizeClass::Bytes64);
    assert_eq!(node64.page_count(4096), 8);

    let node2048 = SlabNode::new(0, SizeClass::Bytes2048);
    assert_eq!(node2048.page_count(4096), 256);
}

#[test]
fn test_slab_node_links_and_validity() {
    let mut node = SlabNode::new(0x4000, SizeClass::Bytes8);
    assert!(!node.is_valid_for_size_class());
    node.init_header(16);
    // Too small for one object: the header stays blank.
    assert!(!node.is_valid_for_size_class());
    node.init_header(4096);
    assert!(node.is_valid_for_size_class());
    assert_eq!(node.prev(), None);
    node.set_prev(Some(0x2000));
    node.set_next(Some(0x9000));
    assert_eq!(node.prev(), Some(0x2000));
    assert_eq!(node.next(), Some(0x9000));
    assert!(!node.dealloc_object(3));
}

fn slab_allocator() -> SlabByteAllocator<CompositePageAllocator<PAGE_SIZE>, PAGE_SIZE> {
    let mut slab_allocator = SlabByteAllocator::<CompositePageAllocator<PAGE_SIZE>, PAGE_SIZE>::new();
    slab_allocator.init();
    slab_allocator.set_page_allocator(page_allocator());
    slab_allocator
}

#[test]
fn test_slab_allocator_basic() {
    let mut slab_allocator = slab_allocator();

    let layout8 = Layout::from_size_align(8, 8).unwrap();
    let ptr8 = slab_allocator.alloc_bytes(layout8).unwrap();
    assert_ne!(ptr8, 0);

    let layout64 = Layout::from_size_align(64, 8).unwrap();
    let ptr64 = slab_allocator.alloc_bytes(layout64).unwrap();
    assert_ne!(ptr64, 0);

    let layout2048 = Layout::from_size_align(2048, 8).unwrap();
    let ptr2048 = slab_allocator.alloc_bytes(layout2048).unwrap();
    assert_ne!(ptr2048, 0);

    slab_allocator.dealloc(ptr8, layout8);
    slab_allocator.dealloc(ptr64, layout64);
    slab_allocator.dealloc(ptr2048, layout2048);
}

#[test]
fn test_slab_allocator_many_objects() {
    let mut slab_allocator = slab_allocator();

    let mut ptrs = Vec::new();
    let layout = Layout::from_size_align(32, 8).unwrap();

    for _ in 0..100 {
        let ptr = slab_allocator.alloc_bytes(layout).unwrap();
        ptrs.push(ptr);
    }

    assert_eq!(ptrs.len(), 100);

    for ptr in ptrs {
        slab_allocator.dealloc(ptr, layout);
    }
}

#[test]
fn test_slab_allocator_accounting() {
    let mut slab_allocator = slab_allocator();
    let layout = Layout::from_size_align(24, 8).unwrap();
    let a = slab_allocator.alloc_bytes(layout).unwrap();
    let b = slab_allocator.alloc_bytes(layout).unwrap();
    assert_ne!(a, b);
    assert_eq!(slab_allocator.used_bytes(), 48);
    assert!(slab_allocator.total_bytes() >= 512 * 32);
    slab_allocator.dealloc(a, layout);
    assert_eq!(slab_allocator.used_bytes(), 24);
    // A double free leaves the charge as it is.
    slab_allocator.dealloc(a, layout);
    assert_eq!(slab_allocator.used_bytes(), 24);
    assert_eq!(
        slab_allocator.available_bytes(),
        slab_allocator.total_bytes() - slab_allocator.used_bytes()
    );
    // Too large for a slab.
    let big = Layout::from_size_align(4096, 8).unwrap();
    assert_eq!(slab_allocator.alloc_bytes(big), Err(buddy_slab_allocator::AllocError::InvalidParam));
}

#[test]
fn test_slab_allocator_without_page_allocator() {
    let mut slab_allocator = SlabByteAllocator::<CompositePageAllocator<PAGE_SIZE>, PAGE_SIZE>::new();
    let layout = Layout::from_size_align(16, 8).unwrap();
    assert_eq!(slab_allocator.alloc_bytes(layout), Err(buddy_slab_allocator::AllocError::NoMemory));
}

#[test]
fn test_slab_allocator_with_borrowed_page_allocator() {
    let mut pages = page_allocator();
    let mut slab_allocator = SlabByteAllocator::<CompositePageAllocator<PAGE_SIZE>, PAGE_SIZE>::new();
    let layout = Layout::from_size_align(100, 4).unwrap();
    let a = slab_allocator.alloc_with(&mut pages, layout).unwrap();
    assert_eq!(slab_allocator.get_cache(SizeClass::Bytes128).partial.len(), 1);
    slab_allocator.dealloc_with(&mut pages, a, layout);
    assert_eq!(slab_allocator.used_bytes(), 0);
}

#[test]
fn test_slab_meta() {
    let mut meta = SlabMeta::new(SizeClass::Bytes64, buddy_slab_allocator::DEFAULT_PAGE_SIZE);
    assert_eq!(meta.total_objects, (buddy_slab_allocator::DEFAULT_PAGE_SIZE / 64) as u32);
    assert_eq!(meta.in_use, 0);
    assert!(!meta.is_full());
    assert!(meta.is_empty());

    let obj_idx = meta.alloc_object().unwrap();
    assert_eq!(obj_idx, 0);
    assert_eq!(meta.in_use, 1);
    assert!(!meta.is_full());
    assert!(!meta.is_empty());

    meta.dealloc_object(obj_idx);
    assert_eq!(meta.in_use, 0);
    assert!(meta.is_empty());
}

#[test]
fn test_slab_page_addresses() {
    let mut page = SlabPage::new(0x10_0000, SizeClass::Bytes256, 4096);
    assert_eq!(page.meta.free_count(), 16);
    for _ in 0..16 {
        page.meta.alloc_object().unwrap();
    }
    assert!(page.meta.is_full());
    assert_eq!(page.meta.alloc_object(), None);
    assert_eq!(page.object_addr(3, 4096), 0x10_0000 + 3 * 256);
    assert_eq!(page.object_index_from_addr(0x10_0000 + 3 * 256, 4096), Some(3));
    assert_eq!(page.object_index_from_addr(0x10_0000 + 3 * 256 + 1, 4096), None);
    assert_eq!(page.object_index_from_addr(0x10_0000 + 4096, 4096), None);
    page.meta.dealloc_object(99);
    assert_eq!(page.meta.in_use, 16);
}

#[test]
fn test_slab_allocator_cache_in_place() {
    let mut slab_allocator = slab_allocator();
    let cache = slab_allocator.get_cache_mut(SizeClass::Bytes64);
    assert_eq!(cache.partial.len(), 0);
    assert_eq!(cache.full.len(), 0);
}

#[test]
fn test_slab_cache_takes_aligned_slabs() {
    let mut cache = SlabCache::new(SizeClass::Bytes64);
    let mut page_allocator = page_allocator();
    let before = page_allocator.available_pages();
    let (a, bytes) = cache.alloc_object(&mut page_allocator, 4096).unwrap();
    // 512 objects of 64 bytes take 8 pages, aligned to the slab's bytes
    assert_eq!(a % 64, 0);
    assert!(bytes == 8 * 4096 || bytes == 16 * 4096);
    let slab = a - a % (8 * 4096);
    assert!(a - slab < 8 * 4096);
    assert_eq!(before - page_allocator.available_pages(), bytes / 4096);
}
