use buddy_slab_allocator::buddy::buddy_block::BuddyBlock;
use buddy_slab_allocator::buddy::global_node_pool::{GlobalNodePool, ListNode, NODE_SIZE};
use buddy_slab_allocator::buddy::linked_list::StaticLinkedList;
use buddy_slab_allocator::buddy::list_pool::StaticSharedPool;
use buddy_slab_allocator::buddy::pooled_list::PooledLinkedList;
use buddy_slab_allocator::buddy::BuddySet;
use buddy_slab_allocator::{BaseAllocator, BuddyPageAllocator, PageAllocator};

const TEST_HEAP_SIZE: usize = 16 * 1024 * 1024;
const TEST_PAGE_SIZE: usize = 0x1000;
const HEAP_ADDR: usize = 0x8000_0000;
const TEST_NODE_COUNT: usize = 512;
const NODE_REGION: usize = 0x10_0000;

fn node_pool(nodes: usize) -> GlobalNodePool {
    let mut pool = GlobalNodePool::new();
    pool.init(NODE_REGION, nodes * NODE_SIZE);
    pool
}

#[test]
fn test_buddy_allocator_init() {
    let mut allocator = BuddyPageAllocator::<TEST_PAGE_SIZE>::new();
    allocator.init(HEAP_ADDR, TEST_HEAP_SIZE);

    let addr = allocator.alloc_pages(1, TEST_PAGE_SIZE);
    assert!(addr.is_ok());
    if let Ok(a) = addr {
        allocator.dealloc_pages(a, 1);
    }
}

#[test]
fn test_buddy_allocator_multi_pages() {
    let mut allocator = BuddyPageAllocator::<TEST_PAGE_SIZE>::new();
    allocator.init(HEAP_ADDR, TEST_HEAP_SIZE);

    let addr1 = allocator.alloc_pages(4, TEST_PAGE_SIZE).unwrap();
    let addr2 = allocator.alloc_pages(8, TEST_PAGE_SIZE).unwrap();
    assert_ne!(addr1, addr2);

    allocator.dealloc_pages(addr1, 4);
    allocator.dealloc_pages(addr2, 8);
}

#[test]
fn test_buddy_allocator_alignment() {
    let mut allocator = BuddyPageAllocator::<TEST_PAGE_SIZE>::new();
    allocator.init(HEAP_ADDR, TEST_HEAP_SIZE);

    let addr = allocator.alloc_pages(1, TEST_PAGE_SIZE * 4).unwrap();
    assert_eq!(addr & (TEST_PAGE_SIZE * 4 - 1), 0);

    allocator.dealloc_pages(addr, 1);
}

#[test]
fn test_buddy_allocator_zone_count() {
    let mut allocator = BuddyPageAllocator::<TEST_PAGE_SIZE>::new();
    allocator.init(HEAP_ADDR, TEST_HEAP_SIZE);

    assert_eq!(allocator.get_zone_count(), 1);
}

#[test]
fn test_buddy_allocator_free_pages_restored() {
    let mut allocator = BuddyPageAllocator::<TEST_PAGE_SIZE>::new();
    allocator.init(HEAP_ADDR, TEST_HEAP_SIZE);
    let before = allocator.available_pages();
    let addr = allocator.alloc_pages(3, TEST_PAGE_SIZE).unwrap();
    assert_eq!(allocator.available_pages(), before - 4);
    allocator.dealloc_pages(addr, 3);
    assert_eq!(allocator.available_pages(), before);
}

#[test]
fn test_pool_init() {
    let pool = node_pool(TEST_NODE_COUNT);
    assert_eq!(pool.free_node_count(), TEST_NODE_COUNT);
    assert_eq!(pool.allocated_node_count(), 0);
}

#[test]
fn global_node_pool_test_alloc_dealloc() {
    let mut pool = node_pool(TEST_NODE_COUNT);

    let idx1 = pool.alloc_node().unwrap();
    assert_eq!(pool.free_node_count(), TEST_NODE_COUNT - 1);
    assert_eq!(pool.allocated_node_count(), 1);

    let idx2 = pool.alloc_node().unwrap();
    assert_eq!(pool.free_node_count(), TEST_NODE_COUNT - 2);

    pool.dealloc_node(idx1);
    assert_eq!(pool.free_node_count(), TEST_NODE_COUNT - 1);

    pool.dealloc_node(idx2);
    assert_eq!(pool.free_node_count(), TEST_NODE_COUNT);
}

#[test]
fn global_node_pool_test_pool_exhaustion() {
    let mut pool = node_pool(TEST_NODE_COUNT);

    let mut indices = Vec::new();
    for _ in 0..TEST_NODE_COUNT {
        indices.push(pool.alloc_node().unwrap());
    }

    assert_eq!(pool.free_node_count(), 0);
    assert!(pool.alloc_node().is_none());

    pool.dealloc_node(indices[0]);
    assert_eq!(pool.free_node_count(), 1);
    assert!(pool.alloc_node().is_some());
}

#[test]
fn test_stats() {
    let mut pool = node_pool(TEST_NODE_COUNT);

    let idx1 = pool.alloc_node().unwrap();
    let _idx2 = pool.alloc_node().unwrap();

    let stats = pool.get_stats();
    assert_eq!(stats.total_nodes, TEST_NODE_COUNT);
    assert_eq!(stats.free_nodes, TEST_NODE_COUNT - 2);
    assert_eq!(stats.allocated_nodes, 2);
    assert_eq!(stats.total_allocations, 2);
    assert_eq!(stats.total_deallocations, 0);

    pool.dealloc_node(idx1);
    let stats2 = pool.get_stats();
    assert_eq!(stats2.free_nodes, TEST_NODE_COUNT - 1);
    assert_eq!(stats2.total_deallocations, 1);
}

#[test]
fn test_linked_list_basic() {
    let mut list: StaticLinkedList<usize, 10> = StaticLinkedList::new();
    list.init();

    assert!(list.is_empty());
    assert_eq!(list.len(), 0);

    list.push_back(1);
    list.push_back(2);
    list.push_back(3);

    assert_eq!(list.len(), 3);
    assert_eq!(list.pop_front(), Some(1));
    assert_eq!(list.pop_front(), Some(2));
    assert_eq!(list.len(), 1);
}

#[test]
fn linked_list_test_insert_sorted() {
    let mut list: StaticLinkedList<usize, 10> = StaticLinkedList::new();
    list.init();

    list.insert_sorted(5);
    list.insert_sorted(3);
    list.insert_sorted(7);
    list.insert_sorted(1);

    let items: Vec<usize> = list.iter();
    assert_eq!(items, vec![1, 3, 5, 7]);
}

#[test]
fn test_linked_list_capacity_and_remove() {
    let mut list: StaticLinkedList<usize, 3> = StaticLinkedList::new();
    assert!(list.push_back(10));
    assert!(list.push_back(20));
    assert!(list.insert_sorted(15));
    assert!(!list.push_back(30));
    assert!(!list.insert_sorted(5));
    assert_eq!(list.iter(), vec![10, 15, 20]);
    assert_eq!(list.find_by_addr(15), Some(1));
    assert_eq!(list.find_by_addr(99), None);
    list.remove(1);
    assert_eq!(list.iter(), vec![10, 20]);
    list.remove(7);
    assert_eq!(list.len(), 2);
}

#[test]
fn test_pool_allocation() {
    let mut pool: StaticSharedPool<8, 4, 4> = StaticSharedPool::new();
    pool.init();

    assert_eq!(pool.free_list_count(), 8);

    let idx1 = pool.alloc_list(0).unwrap();
    assert_eq!(pool.free_list_count(), 7);
    assert_eq!(pool.order_list_count(0), 1);

    let _idx2 = pool.alloc_list(0).unwrap();
    assert_eq!(pool.free_list_count(), 6);
    assert_eq!(pool.order_list_count(0), 2);

    pool.free_list(idx1, 0);
    assert_eq!(pool.free_list_count(), 7);
    assert_eq!(pool.order_list_count(0), 1);

    let _idx3 = pool.alloc_list(2).unwrap();
    assert_eq!(pool.free_list_count(), 6);
    assert_eq!(pool.order_list_count(2), 1);
}

#[test]
fn list_pool_test_pool_exhaustion() {
    let mut pool: StaticSharedPool<4, 4, 4> = StaticSharedPool::new();
    pool.init();

    let mut indices = Vec::new();
    for _ in 0..4 {
        indices.push(pool.alloc_list(0).unwrap());
    }

    assert_eq!(pool.free_list_count(), 0);
    assert!(pool.alloc_list(0).is_none());

    pool.free_list(indices[0], 0);
    assert_eq!(pool.free_list_count(), 1);
    assert!(pool.alloc_list(0).is_some());
}

#[test]
fn test_get_order_lists() {
    let mut pool: StaticSharedPool<8, 4, 4> = StaticSharedPool::new();
    pool.init();

    let idx0_1 = pool.alloc_list(0).unwrap();
    let idx0_2 = pool.alloc_list(0).unwrap();
    let idx1_1 = pool.alloc_list(1).unwrap();
    let _idx2_1 = pool.alloc_list(2).unwrap();

    let order0_lists: Vec<usize> = pool.get_order_lists(0);
    assert_eq!(order0_lists.len(), 2);
    assert!(order0_lists.contains(&idx0_1));
    assert!(order0_lists.contains(&idx0_2));

    let order1_lists: Vec<usize> = pool.get_order_lists(1);
    assert_eq!(order1_lists.len(), 1);
    assert_eq!(order1_lists[0], idx1_1);
}

#[test]
fn test_order_total_blocks() {
    let mut pool: StaticSharedPool<4, 4, 4> = StaticSharedPool::new();
    pool.init();

    let idx = pool.alloc_list(0).unwrap();

    let list = pool.get_list_mut(idx);
    list.insert_sorted(BuddyBlock { order: 0, addr: 0x1000 });
    list.insert_sorted(BuddyBlock { order: 0, addr: 0x2000 });

    assert_eq!(pool.order_total_blocks(0), 2);
}

#[test]
fn test_list_pool_stats_and_lookup() {
    let mut pool: StaticSharedPool<4, 2, 4> = StaticSharedPool::new();
    pool.init();
    let a = pool.alloc_list(1).unwrap();
    let b = pool.alloc_list(1).unwrap();
    assert_eq!((a, b), (0, 1));
    {
        let list = pool.get_list_mut(a);
        list.push_back(BuddyBlock { order: 1, addr: 0x2000 });
        list.push_back(BuddyBlock { order: 1, addr: 0x4000 });
    }
    assert_eq!(pool.find_available_list_for_order(1), Some(b));
    assert_eq!(pool.find_available_list_for_order(3), None);
    assert_eq!(pool.get_list(a).len(), 2);
    let stats = pool.get_stats();
    assert_eq!(stats.total_lists, 4);
    assert_eq!(stats.free_lists, 2);
    assert_eq!(stats.used_lists, 2);
    assert_eq!(stats.lists_by_order[1], 2);
    assert_eq!(stats.blocks_by_order[1], 2);
    assert_eq!(stats.blocks_by_order[0], 0);
    assert_eq!(pool.order_list_count(9), 0);
}

#[test]
fn test_pooled_list_basic() {
    let mut pool = node_pool(TEST_NODE_COUNT);
    let mut list: PooledLinkedList = PooledLinkedList::new();

    assert!(list.is_empty());
    assert_eq!(list.len(), 0);
    assert_eq!(pool.free_node_count(), TEST_NODE_COUNT);

    list.insert_sorted(&mut pool, BuddyBlock { order: 0, addr: 0x1000 });
    list.insert_sorted(&mut pool, BuddyBlock { order: 0, addr: 0x2000 });
    list.insert_sorted(&mut pool, BuddyBlock { order: 0, addr: 0x3000 });

    assert_eq!(list.len(), 3);
    assert_eq!(pool.free_node_count(), TEST_NODE_COUNT - 3);

    assert_eq!(list.pop_front(&mut pool), Some(BuddyBlock { order: 0, addr: 0x1000 }));
    assert_eq!(list.pop_front(&mut pool), Some(BuddyBlock { order: 0, addr: 0x2000 }));
    assert_eq!(list.len(), 1);
    assert_eq!(pool.free_node_count(), TEST_NODE_COUNT - 1);

    list.clear(&mut pool);
    assert!(list.is_empty());
    assert_eq!(pool.free_node_count(), TEST_NODE_COUNT);
}

#[test]
fn pooled_list_test_insert_sorted() {
    let mut pool = node_pool(TEST_NODE_COUNT);
    let mut list: PooledLinkedList = PooledLinkedList::new();

    list.insert_sorted(&mut pool, BuddyBlock { order: 0, addr: 0x5000 });
    list.insert_sorted(&mut pool, BuddyBlock { order: 0, addr: 0x3000 });
    list.insert_sorted(&mut pool, BuddyBlock { order: 0, addr: 0x7000 });
    list.insert_sorted(&mut pool, BuddyBlock { order: 0, addr: 0x1000 });

    let items: Vec<BuddyBlock> = list.iter(&pool);
    assert_eq!(items.len(), 4);
    assert_eq!(items[0].addr, 0x1000);
    assert_eq!(items[1].addr, 0x3000);
    assert_eq!(items[2].addr, 0x5000);
    assert_eq!(items[3].addr, 0x7000);
}

#[test]
fn test_find_and_remove() {
    let mut pool = node_pool(TEST_NODE_COUNT);
    let mut list: PooledLinkedList = PooledLinkedList::new();

    list.insert_sorted(&mut pool, BuddyBlock { order: 0, addr: 0x1000 });
    list.insert_sorted(&mut pool, BuddyBlock { order: 0, addr: 0x2000 });
    list.insert_sorted(&mut pool, BuddyBlock { order: 0, addr: 0x3000 });

    let (node_idx, _) = list.find_by_addr(&pool, 0x2000).unwrap();
    assert!(list.remove(&mut pool, node_idx));

    assert_eq!(list.len(), 2);
    assert_eq!(pool.free_node_count(), TEST_NODE_COUNT - 2);

    let items: Vec<BuddyBlock> = list.iter(&pool);
    assert_eq!(items[0].addr, 0x1000);
    assert_eq!(items[1].addr, 0x3000);
}

/// A zone of `pages` pages at `base` with a node pool large enough for it.
fn zone(base: usize, pages: usize) -> (BuddySet<4096>, GlobalNodePool) {
    let mut pool = node_pool(8192);
    let mut buddy = BuddySet::<4096>::new(base, pages * 4096, 0);
    buddy.init(&mut pool, base, pages * 4096);
    (buddy, pool)
}

#[test]
fn test_basic_list_allocation() {
    let (mut buddy, mut pool) = zone(0x1000_0000, 1024);

    let mut allocations = Vec::new();
    for _ in 0..65 {
        if let Ok(addr) = buddy.alloc_pages(&mut pool, 1, 4096) {
            allocations.push(addr);
        }
    }
    assert_eq!(allocations.len(), 65, "Should allocate 65 blocks");

    for addr in allocations {
        buddy.dealloc_pages(&mut pool, addr, 1);
    }

    let total_free = buddy.get_stats().free_pages;
    assert_eq!(total_free, 1024, "Should have all 1024 pages freed");
}

#[test]
fn test_multiple_orders_share_pool() {
    let (mut buddy, mut pool) = zone(0x2000_0000, 1024);

    let mut allocs = Vec::new();
    for _ in 0..100 {
        if let Ok(addr) = buddy.alloc_pages(&mut pool, 1, 4096) {
            allocs.push((addr, 1));
        }
    }
    for _ in 0..50 {
        if let Ok(addr) = buddy.alloc_pages(&mut pool, 2, 4096) {
            allocs.push((addr, 2));
        }
    }
    for _ in 0..30 {
        if let Ok(addr) = buddy.alloc_pages(&mut pool, 4, 4096) {
            allocs.push((addr, 4));
        }
    }

    for (addr, size) in allocs {
        buddy.dealloc_pages(&mut pool, addr, size);
    }

    let total_free = buddy.get_stats().free_pages;
    assert_eq!(total_free, 1024, "Should have all 1024 pages freed");
}

#[test]
fn test_list_release_on_empty() {
    let (mut buddy, mut pool) = zone(0x3000_0000, 1024);

    let mut allocs = Vec::new();
    for _ in 0..65 {
        if let Ok(addr) = buddy.alloc_pages(&mut pool, 1, 4096) {
            allocs.push(addr);
        }
    }
    for i in 0..63 {
        buddy.dealloc_pages(&mut pool, allocs[i], 1);
    }

    let mut allocs2 = Vec::new();
    for _ in 0..65 {
        if let Ok(addr) = buddy.alloc_pages(&mut pool, 1, 4096) {
            allocs2.push(addr);
        }
    }
    for addr in allocs2 {
        buddy.dealloc_pages(&mut pool, addr, 1);
    }
    for i in 63..65 {
        buddy.dealloc_pages(&mut pool, allocs[i], 1);
    }

    let stats = pool.get_stats();
    assert!(stats.allocated_nodes <= stats.total_nodes, "Should not exceed total nodes");
    assert_eq!(buddy.get_stats().free_pages, 1024, "All pages should be freed");
}

#[test]
fn test_stress_small_blocks() {
    let (mut buddy, mut pool) = zone(0x4000_0000, 2048);

    let mut allocs = Vec::new();
    for _ in 0..200 {
        if let Ok(addr) = buddy.alloc_pages(&mut pool, 1, 4096) {
            allocs.push(addr);
        }
    }
    assert_eq!(allocs.len(), 200, "Should allocate 200 blocks");

    let mut indices: Vec<usize> = (0..200).collect();
    for i in (0..199).step_by(2) {
        indices.swap(i, i + 1);
    }
    for idx in indices {
        buddy.dealloc_pages(&mut pool, allocs[idx], 1);
    }

    assert_eq!(buddy.get_stats().free_pages, 2048, "All 2048 pages should be freed");
}

#[test]
fn test_merging_with_multiple_lists() {
    let (mut buddy, mut pool) = zone(0x5000_0000, 256);

    let mut allocs = Vec::new();
    for _ in 0..100 {
        if let Ok(addr) = buddy.alloc_pages(&mut pool, 1, 4096) {
            allocs.push(addr);
        }
    }
    for addr in allocs {
        buddy.dealloc_pages(&mut pool, addr, 1);
    }

    let addr = buddy.alloc_pages(&mut pool, 1, 4096).unwrap();
    buddy.dealloc_pages(&mut pool, addr, 1);

    assert_eq!(buddy.get_stats().free_pages, 256, "Should still have all 256 pages after merge");
}

#[test]
fn test_list_pool_test_pool_exhaustion() {
    let (mut buddy, mut pool) = zone(0x6000_0000, 4096);

    let mut allocs = Vec::new();
    for _ in 0..4100 {
        match buddy.alloc_pages(&mut pool, 1, 4096) {
            Ok(addr) => allocs.push(addr),
            Err(_) => break,
        }
    }
    assert!(allocs.len() >= 4000, "Should allocate most blocks");

    for addr in allocs {
        buddy.dealloc_pages(&mut pool, addr, 1);
    }

    assert_eq!(buddy.get_stats().free_pages, 4096, "All 4096 pages should be freed");
}

#[test]
fn test_list_reuse() {
    let (mut buddy, mut pool) = zone(0x7000_0000, 512);

    let mut allocs = Vec::new();
    for _ in 0..100 {
        if let Ok(addr) = buddy.alloc_pages(&mut pool, 1, 4096) {
            allocs.push(addr);
        }
    }
    for addr in allocs {
        buddy.dealloc_pages(&mut pool, addr, 1);
    }
    let stats1 = buddy.get_stats();

    let mut allocs = Vec::new();
    for _ in 0..100 {
        if let Ok(addr) = buddy.alloc_pages(&mut pool, 1, 4096) {
            allocs.push(addr);
        }
    }
    for addr in allocs {
        buddy.dealloc_pages(&mut pool, addr, 1);
    }
    let stats2 = buddy.get_stats();

    assert_eq!(stats1.free_pages, stats2.free_pages, "Free pages should be same");
    assert_eq!(stats1.free_pages, 512, "All pages should be freed");
}

#[test]
fn test_fragmentation_scenarios() {
    let (mut buddy, mut pool) = zone(0x8000_0000, 1024);

    let mut allocs = Vec::new();
    for i in 0..64 {
        if i % 2 == 0 {
            if let Ok(addr) = buddy.alloc_pages(&mut pool, 1, 4096) {
                allocs.push((addr, 1));
            }
        } else if let Ok(addr) = buddy.alloc_pages(&mut pool, 2, 4096) {
            allocs.push((addr, 2));
        }
    }
    for (addr, size) in allocs {
        buddy.dealloc_pages(&mut pool, addr, size);
    }

    assert_eq!(buddy.get_stats().free_pages, 1024, "All pages should be freed");
}

#[test]
fn test_order_transitions() {
    let (mut buddy, mut pool) = zone(0x9000_0000, 512);

    let mut allocs = Vec::new();
    for _ in 0..40 {
        if let Ok(addr) = buddy.alloc_pages(&mut pool, 4, 4096) {
            allocs.push((addr, 4));
        }
    }
    for (addr, size) in &allocs {
        buddy.dealloc_pages(&mut pool, *addr, *size);
    }

    let mut allocs2 = Vec::new();
    for _ in 0..160 {
        if let Ok(addr) = buddy.alloc_pages(&mut pool, 1, 4096) {
            allocs2.push(addr);
        }
    }
    for addr in allocs2 {
        buddy.dealloc_pages(&mut pool, addr, 1);
    }

    assert_eq!(buddy.get_stats().free_pages, 512, "All pages should be freed");
}

#[test]
fn test_max_order_scenarios() {
    let (mut buddy, mut pool) = zone(0xA000_0000, 4096);

    if let Ok(addr) = buddy.alloc_pages(&mut pool, 1024, 4096) {
        buddy.dealloc_pages(&mut pool, addr, 1024);
    }

    let mut allocs = Vec::new();
    for _ in 0..1000 {
        if let Ok(addr) = buddy.alloc_pages(&mut pool, 1, 4096) {
            allocs.push(addr);
        }
    }
    for addr in allocs {
        buddy.dealloc_pages(&mut pool, addr, 1);
    }

    assert_eq!(buddy.get_stats().free_pages, 4096, "All pages should be freed");
}

#[test]
fn test_no_memory_leak() {
    let (mut buddy, mut pool) = zone(0xB000_0000, 2048);

    for round in 0..10 {
        let num_allocs = 100 + round * 50;
        let mut allocs = Vec::new();
        for _ in 0..num_allocs {
            if let Ok(addr) = buddy.alloc_pages(&mut pool, 1, 4096) {
                allocs.push(addr);
            }
        }
        for addr in allocs {
            buddy.dealloc_pages(&mut pool, addr, 1);
        }
        assert_eq!(buddy.get_stats().free_pages, 2048, "Round {}: All pages should be freed", round);
    }
}

#[test]
fn test_extreme_fragmentation() {
    let (mut buddy, mut pool) = zone(0xC000_0000, 2048);

    let mut allocs = Vec::new();
    for _ in 0..500 {
        if let Ok(addr) = buddy.alloc_pages(&mut pool, 1, 4096) {
            allocs.push(addr);
        }
    }

    let mut indices: Vec<usize> = (0..500).collect();
    for i in 0..250 {
        let j = i * 2 + (i % 2);
        if j + 1 < 500 {
            indices.swap(j, j + 1);
        }
    }
    for idx in indices {
        buddy.dealloc_pages(&mut pool, allocs[idx], 1);
    }

    assert_eq!(buddy.get_stats().free_pages, 2048, "All pages should be freed");

    let mut allocs2 = Vec::new();
    for _ in 0..200 {
        if let Ok(addr) = buddy.alloc_pages(&mut pool, 1, 4096) {
            allocs2.push(addr);
        }
    }
    assert_eq!(allocs2.len(), 200, "Should be able to allocate after freeing");
}

#[test]
fn test_double_free_is_ignored() {
    let (mut buddy, mut pool) = zone(0x1000_0000, 64);
    let addr = buddy.alloc_pages(&mut pool, 2, 4096).unwrap();
    buddy.dealloc_pages(&mut pool, addr, 2);
    let free = buddy.get_stats().free_pages;
    buddy.dealloc_pages(&mut pool, addr, 2);
    assert_eq!(buddy.get_stats().free_pages, free);
    assert_eq!(free, 64);
}

#[test]
fn test_alloc_pages_at_then_release() {
    let (mut buddy, mut pool) = zone(0x1000_0000, 64);
    let target = 0x1000_0000 + 8 * 4096;
    assert_eq!(buddy.alloc_pages_at(&mut pool, target, 4, 4096), Ok(target));
    assert_eq!(buddy.get_stats().free_pages, 60);
    buddy.dealloc_pages(&mut pool, target, 4);
    assert_eq!(buddy.get_stats().free_pages, 64);
}

#[test]
fn test_node_access() {
    let mut pool = node_pool(TEST_NODE_COUNT);
    let idx = pool.alloc_node().unwrap();

    pool.write_node(idx, ListNode { data: BuddyBlock { order: 0, addr: 0x1000 }, next: None });

    if let Some(node) = pool.get_node(idx) {
        assert_eq!(node.data.order, 0);
        assert_eq!(node.data.addr, 0x1000);
    }
}

#[test]
fn test_alloc_pages_at_splits_around_base() {
    let (mut buddy, mut pool) = zone(0x10000, 4);
    assert_eq!(buddy.get_order_block_count(2), 1);
    assert_eq!(buddy.alloc_pages_at(&mut pool, 0x11000, 1, 0x1000), Ok(0x11000));
    assert_eq!(buddy.get_order_block_count(0), 1);
    assert_eq!(buddy.get_order_block_count(1), 1);
    assert_eq!(buddy.get_order_block_count(2), 0);
    // freeing it merges the pieces back into the one block
    buddy.dealloc_pages(&mut pool, 0x11000, 1);
    assert_eq!(buddy.get_order_block_count(0), 0);
    assert_eq!(buddy.get_order_block_count(1), 0);
    assert_eq!(buddy.get_order_block_count(2), 1);
}

#[test]
fn test_buddy_allocator_init_frees_whole_zone() {
    let mut allocator = BuddyPageAllocator::<TEST_PAGE_SIZE>::new();
    allocator.init(HEAP_ADDR, TEST_HEAP_SIZE);
    // the first ten pages hold the node pool; every other page is free
    let zone_pages = TEST_HEAP_SIZE / TEST_PAGE_SIZE - 10;
    assert_eq!(allocator.total_pages(), zone_pages);
    assert_eq!(allocator.available_pages(), zone_pages);
    assert_eq!(allocator.used_pages(), 0);
    assert!(allocator.add_memory(0x1_0000_0000, 64 * TEST_PAGE_SIZE).is_ok());
    assert_eq!(allocator.available_pages(), zone_pages + 64);
}

#[test]
fn test_page_size_supported() {
    assert!(buddy_slab_allocator::buddy::buddy_set::page_size_supported(0x1000));
    assert!(!buddy_slab_allocator::buddy::buddy_set::page_size_supported(0x1800));
    assert!(!buddy_slab_allocator::buddy::buddy_set::page_size_supported(0));
}
