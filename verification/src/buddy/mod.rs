//! Buddy page allocation: per-zone free lists drawn from a shared node pool.
pub mod buddy_block;
pub mod global_node_pool;
pub mod pooled_list;
pub mod linked_list;
pub mod list_pool;
pub mod buddy_set;
pub mod layout;
pub mod stats;
pub mod buddy_allocator;

pub use buddy_allocator::BuddyPageAllocator;
pub use buddy_block::{BuddyBlock, ZoneInfo, MAX_ZONES, DEFAULT_MAX_ORDER};
pub use buddy_set::BuddySet;
pub use global_node_pool::GlobalNodePool;
pub use pooled_list::PooledLinkedList;
pub use stats::BuddyStats;
