//! Bitmap page allocator with several zones.
//!
//! Each zone reserves the pages at the start of its region for a bitmap
//! with one bit per allocatable page, set while the page is free.
pub mod bitmap_allocator;

pub use bitmap_allocator::{BitmapAllocator, BitmapZone, MAX_ZONES};
