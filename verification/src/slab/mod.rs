//! Slab allocation of small objects on top of a page allocator.
pub mod free_bitmap;
pub mod slab_byte_allocator;
pub mod slab_node;
pub mod slab_cache;
pub mod slab_node_pool;
pub mod slab_pooled_list;

pub use slab_byte_allocator::{PageAllocatorForSlab, SizeClass, SlabByteAllocator};
