use buddy_slab_allocator::tracking::{AllocationStats, AllocationTag, TrackingState};
use buddy_slab_allocator::Layout;

#[test]
fn test_allocation_tag() {
    assert_eq!(AllocationTag::from_string("kernel"), AllocationTag::Kernel);
    assert_eq!(AllocationTag::from_string("unknown"), AllocationTag::Unknown);
}

#[test]
fn test_allocation_tag_aliases() {
    assert_eq!(AllocationTag::from_string("fs"), AllocationTag::FileSystem);
    assert_eq!(AllocationTag::from_string("filesystem"), AllocationTag::FileSystem);
    assert_eq!(AllocationTag::from_string("vm"), AllocationTag::VMMemory);
    assert_eq!(AllocationTag::from_string("page_table"), AllocationTag::PageTable);
    assert_eq!(AllocationTag::from_string("buddy"), AllocationTag::Buddy);
    assert_eq!(AllocationTag::from_string("Kernel"), AllocationTag::Unknown);
    assert_eq!(AllocationTag::from_string(""), AllocationTag::Unknown);
}

#[test]
fn test_allocation_stats() {
    let mut stats = AllocationStats::new();
    assert_eq!(stats.allocation_count, 0);

    stats.record_allocation(1024);
    assert_eq!(stats.allocation_count, 1);
    assert_eq!(stats.current_bytes_in_use, 1024);

    stats.record_deallocation(1024);
    assert_eq!(stats.deallocation_count, 1);
    assert_eq!(stats.current_bytes_in_use, 0);
}

#[test]
fn test_tracking_state() {
    let mut state = TrackingState::new();
    let layout = Layout::from_size_align(1024, 8).unwrap();

    state.track_allocation(0x1000, layout, AllocationTag::Kernel);
    assert_eq!(state.get_overall_stats().current_allocations, 1);

    let info = state.track_deallocation(0x1000).unwrap();
    assert_eq!(info.layout.size(), 1024);
    assert_eq!(info.tag, AllocationTag::Kernel);
    assert_eq!(state.get_overall_stats().current_allocations, 0);
}

#[test]
fn test_tracking_state_counters_and_leaks() {
    let mut state = TrackingState::new();
    let small = Layout::from_size_align(64, 8).unwrap();
    let big = Layout::from_size_align(4096, 8).unwrap();
    state.track_allocation(0x3000, small, AllocationTag::Slab);
    state.track_allocation(0x1000, big, AllocationTag::Buddy);
    state.track_allocation(0x2000, small, AllocationTag::Slab);
    assert!(state.track_deallocation(0x9999).is_none());
    let info = state.track_deallocation(0x1000).unwrap();
    assert_eq!(info.generation, 1);
    let overall = state.get_overall_stats();
    assert_eq!(overall.total_allocations, 3);
    assert_eq!(overall.total_deallocations, 1);
    assert_eq!(overall.current_memory_usage, 128);
    assert_eq!(overall.peak_memory_usage, 64 + 4096 + 64);
    let leaks = state.get_leaks();
    assert_eq!(leaks.len(), 2);
    assert_eq!(leaks[0].0, 0x2000);
    assert_eq!(leaks[1].0, 0x3000);
    assert_eq!(leaks[0].1.generation, 2);
    let slab = state.get_stats_by_tag(AllocationTag::Slab);
    assert_eq!(slab.allocation_count, 2);
    assert_eq!(slab.current_bytes_in_use, 128);
    assert_eq!(state.get_stats_by_tag(AllocationTag::Buddy).deallocation_count, 1);
}
