//! Buddy system constants and types.
use vstd::prelude::*;

verus! {

/// Maximum number of memory zones supported.
pub const MAX_ZONES: usize = 10;

/// Maximum order supported (blocks of up to `2^28` pages).
pub const DEFAULT_MAX_ORDER: usize = 28;

/// A free block: `2^order` pages starting at `addr`.
#[derive(Debug, Clone, Copy, PartialEq, Eq, Structural)]
pub struct BuddyBlock {
    pub order: usize,
    pub addr: usize,
}

/// A memory zone descriptor.
#[derive(Debug, Clone, Copy)]
pub struct ZoneInfo {
    pub start_addr: usize,
    pub end_addr: usize,
    pub total_pages: usize,
    pub zone_id: usize,
}

} // verus!
