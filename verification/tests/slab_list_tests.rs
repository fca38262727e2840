use buddy_slab_allocator::slab::slab_node::SlabNode;
use buddy_slab_allocator::slab::slab_node_pool::{DynamicRegion, GlobalSlabNodePool, ListNode};
use buddy_slab_allocator::slab::slab_pooled_list::SlabPooledLinkedList;
use buddy_slab_allocator::{BaseAllocator, CompositePageAllocator, SizeClass};

fn page_allocator() -> CompositePageAllocator<4096> {
    let mut allocator = CompositePageAllocator::<4096>::new();
    allocator.init(0x8000_0000, 16 * 1024 * 1024);
    allocator
}

#[test]
fn test_static_pool_initialization() {
    let mut pool = GlobalSlabNodePool::new();
    pool.init();

    assert!(pool.has_available());
    assert_eq!(pool.available_count(), 27);
    assert_eq!(pool.used_count(), 0);
}

#[test]
fn test_alloc_free_cycle() {
    let mut pool = GlobalSlabNodePool::new();
    pool.init();
    let mut page_allocator = page_allocator();

    let node = SlabNode::new(0x1000, SizeClass::Bytes64);

    let idx = pool.alloc_node(node, &mut page_allocator, 4096).unwrap();
    assert_eq!(pool.available_count(), 26);
    assert_eq!(pool.used_count(), 1);

    let data = pool.get(idx).unwrap();
    assert_eq!(data.addr, 0x1000);

    pool.free_node(idx, &mut page_allocator, 4096);
    assert_eq!(pool.available_count(), 27);
    assert_eq!(pool.used_count(), 0);
}

#[test]
fn slab_node_pool_test_multiple_allocs() {
    let mut pool = GlobalSlabNodePool::new();
    pool.init();
    let mut page_allocator = page_allocator();

    let mut indices = Vec::new();
    for i in 0..10 {
        let node = SlabNode::new(0x1000 + i * 0x1000, SizeClass::Bytes64);
        let idx = pool.alloc_node(node, &mut page_allocator, 4096).unwrap();
        indices.push(idx);
    }

    assert_eq!(pool.available_count(), 17);
    assert_eq!(pool.used_count(), 10);

    for idx in indices {
        pool.free_node(idx, &mut page_allocator, 4096);
    }

    assert_eq!(pool.available_count(), 27);
    assert_eq!(pool.used_count(), 0);
}

#[test]
fn test_dynamic_expansion() {
    let mut pool = GlobalSlabNodePool::new();
    pool.init();
    let mut page_allocator = page_allocator();

    let mut indices = Vec::new();
    for i in 0..30 {
        let node = SlabNode::new(0x1000 + i * 0x1000, SizeClass::Bytes64);
        let idx = pool.alloc_node(node, &mut page_allocator, 4096).unwrap();
        indices.push(idx);
    }

    assert_eq!(pool.used_count(), 30);

    for idx in indices {
        pool.free_node(idx, &mut page_allocator, 4096);
    }

    assert_eq!(pool.available_count(), 54);
    assert_eq!(pool.used_count(), 0);
}

#[test]
fn test_node_pool_addresses_and_access() {
    let mut pool = GlobalSlabNodePool::new();
    pool.init();
    let mut page_allocator = page_allocator();
    assert_eq!(pool.get_node_addr(2), Some(2 * 48));
    assert_eq!(pool.get_node_addr(27), None);
    let mut first = 0;
    for i in 0..28 {
        let idx = pool.alloc_node(SlabNode::new(0x1000 * (i + 1), SizeClass::Bytes8), &mut page_allocator, 4096).unwrap();
        if i == 0 {
            first = idx;
        }
        if i == 27 {
            assert_eq!(idx, 27);
        }
    }
    assert_eq!(first, 0);
    let base = pool.get_node_addr(27).unwrap();
    assert_eq!(pool.get_node_addr(28), Some(base + 48));
    if let Some(node) = pool.get_mut(27) {
        node.addr = 0x7777_0000;
    }
    assert_eq!(pool.get(27).unwrap().addr, 0x7777_0000);
    pool.set_next(3, Some(4));
    pool.set_prev(4, Some(3));
    assert_eq!(pool.get_next(3), Some(4));
    assert_eq!(pool.get_prev(4), Some(3));
    assert!(pool.get(999).is_none());
}

#[test]
fn test_dynamic_region_lookup() {
    let mut region = DynamicRegion::new();
    region.init();
    assert_eq!(region.get_node_addr(27), None);
    region.add_region(0x4000, 27);
    region.add_region(0x9000, 5);
    assert_eq!(region.total_allocated(), 32);
    assert_eq!(region.get_node_addr(27), Some(0x4000));
    assert_eq!(region.get_node_addr(27 + 26), Some(0x4000 + 26 * 48));
    assert_eq!(region.get_node_addr(27 + 27 + 4), Some(0x9000 + 4 * 48));
    assert_eq!(region.get_node_addr(27 + 27 + 5), None);
    let empty: ListNode<SlabNode> = ListNode::empty();
    assert!(empty.data.is_none() && empty.prev.is_none() && empty.next.is_none());
}

fn pool_with_nodes(n: usize) -> (GlobalSlabNodePool, Vec<usize>) {
    let mut pool = GlobalSlabNodePool::new();
    pool.init();
    let mut page_allocator = page_allocator();
    let mut indices = Vec::new();
    for i in 0..n {
        let node = SlabNode::new(0x1000 + i * 0x1000, SizeClass::Bytes64);
        indices.push(pool.alloc_node(node, &mut page_allocator, 4096).unwrap());
    }
    (pool, indices)
}

#[test]
fn test_empty_list() {
    let list = SlabPooledLinkedList::new();
    assert!(list.is_empty());
    assert_eq!(list.len(), 0);
    assert!(list.front().is_none());
    assert!(list.back().is_none());
}

#[test]
fn test_push_back() {
    let (mut pool, indices) = pool_with_nodes(1);
    let mut list = SlabPooledLinkedList::new();

    let idx1 = indices[0];
    list.push_back(&mut pool, idx1);

    assert!(!list.is_empty());
    assert_eq!(list.len(), 1);
    assert_eq!(list.front(), Some(idx1));
    assert_eq!(list.back(), Some(idx1));
}

#[test]
fn test_push_multiple() {
    let (mut pool, indices) = pool_with_nodes(5);
    let mut list = SlabPooledLinkedList::new();

    for &idx in &indices {
        list.push_back(&mut pool, idx);
    }

    assert_eq!(list.len(), 5);
    assert_eq!(list.front(), Some(indices[0]));
    assert_eq!(list.back(), Some(indices[4]));

    let collected = list.indices(&pool);
    assert_eq!(collected, indices);
}

#[test]
fn test_pop_back() {
    let (mut pool, indices) = pool_with_nodes(2);
    let mut list = SlabPooledLinkedList::new();

    let idx1 = indices[0];
    let idx2 = indices[1];
    list.push_back(&mut pool, idx1);
    list.push_back(&mut pool, idx2);

    let popped = list.pop_back(&mut pool).unwrap();
    assert_eq!(popped, idx2);
    assert_eq!(list.len(), 1);
    assert_eq!(list.back(), Some(idx1));

    let popped = list.pop_back(&mut pool).unwrap();
    assert_eq!(popped, idx1);
    assert!(list.is_empty());
}

#[test]
fn test_remove_middle() {
    let (mut pool, indices) = pool_with_nodes(5);
    let mut list = SlabPooledLinkedList::new();
    for &idx in &indices {
        list.push_back(&mut pool, idx);
    }

    list.remove(&mut pool, indices[2]);

    assert_eq!(list.len(), 4);
    let collected = list.indices(&pool);
    assert_eq!(collected, vec![indices[0], indices[1], indices[3], indices[4]]);
}

#[test]
fn test_remove_front() {
    let (mut pool, indices) = pool_with_nodes(3);
    let mut list = SlabPooledLinkedList::new();
    for &idx in &indices {
        list.push_back(&mut pool, idx);
    }

    list.remove(&mut pool, indices[0]);

    assert_eq!(list.front(), Some(indices[1]));
    assert_eq!(list.len(), 2);
}

#[test]
fn test_remove_back() {
    let (mut pool, indices) = pool_with_nodes(3);
    let mut list = SlabPooledLinkedList::new();
    for &idx in &indices {
        list.push_back(&mut pool, idx);
    }

    list.remove(&mut pool, indices[2]);

    assert_eq!(list.back(), Some(indices[1]));
    assert_eq!(list.len(), 2);
}

#[test]
fn test_pop_front_and_contains() {
    let (mut pool, indices) = pool_with_nodes(3);
    let mut list = SlabPooledLinkedList::new();
    for &idx in &indices {
        list.push_back(&mut pool, idx);
    }
    assert!(list.contains(&pool, indices[1]));
    assert_eq!(list.pop_front(&mut pool), Some(indices[0]));
    assert!(!list.contains(&pool, indices[0]));
    assert_eq!(list.front(), Some(indices[1]));
    assert_eq!(list.len(), 2);
}
