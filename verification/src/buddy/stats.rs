//! Statistics of the buddy allocator.
use vstd::prelude::*;
pub use super::buddy_block::DEFAULT_MAX_ORDER;

verus! {

/// Buddy system statistics.
///
/// `free_pages_by_order[o]` counts the free blocks of order `o`.
#[derive(Debug, Clone, Copy)]
pub struct BuddyStats {
    pub total_pages: usize,
    pub free_pages: usize,
    pub used_pages: usize,
    pub free_pages_by_order: [usize; 29],
}

impl BuddyStats {
    /// All counters zero.
    pub fn new() -> (r: Self)
        ensures
            r.total_pages == 0,
            r.free_pages == 0,
            r.used_pages == 0,
            forall|o: int| 0 <= o < 29 ==> #[trigger] r.free_pages_by_order[o] == 0,
    {
        let counts: [usize; 29] = [0usize; 29];
        proof {
            vstd::array::axiom_spec_array_fill_for_copy_type::<usize, 29>(0usize);
        }
        BuddyStats { total_pages: 0, free_pages: 0, used_pages: 0, free_pages_by_order: counts }
    }

    /// Add the statistics of another zone.
    pub fn add(&mut self, other: &BuddyStats)
        requires
            old(self).total_pages + other.total_pages <= usize::MAX,
            old(self).free_pages + other.free_pages <= usize::MAX,
            old(self).used_pages + other.used_pages <= usize::MAX,
            forall|o: int| 0 <= o < 29 ==> #[trigger] old(self).free_pages_by_order[o] + other.free_pages_by_order[o] <= usize::MAX,
        ensures
            final(self).total_pages == old(self).total_pages + other.total_pages,
            final(self).free_pages == old(self).free_pages + other.free_pages,
            final(self).used_pages == old(self).used_pages + other.used_pages,
            forall|o: int| 0 <= o < 29 ==> #[trigger] final(self).free_pages_by_order[o] == old(self).free_pages_by_order[o]
                + other.free_pages_by_order[o],
    {
        self.total_pages = self.total_pages + other.total_pages;
        self.free_pages = self.free_pages + other.free_pages;
        self.used_pages = self.used_pages + other.used_pages;
        let mut i: usize = 0;
        while i < 29
            invariant
                i <= 29,
                self.total_pages == old(self).total_pages + other.total_pages,
                self.free_pages == old(self).free_pages + other.free_pages,
                self.used_pages == old(self).used_pages + other.used_pages,
                forall|o: int| 0 <= o < 29 ==> #[trigger] old(self).free_pages_by_order[o] + other.free_pages_by_order[o] <= usize::MAX,
                forall|o: int| 0 <= o < i ==> #[trigger] self.free_pages_by_order[o] == old(self).free_pages_by_order[o]
                    + other.free_pages_by_order[o],
                forall|o: int| i <= o < 29 ==> #[trigger] self.free_pages_by_order[o] == old(self).free_pages_by_order[o],
            decreases 29 - i,
        {
            let v = self.free_pages_by_order[i] + other.free_pages_by_order[i];
            self.free_pages_by_order[i] = v;
            i = i + 1;
        }
    }
}

impl Default for BuddyStats {
    fn default() -> (r: Self)
        ensures
            r.total_pages == 0,
            r.free_pages == 0,
            r.used_pages == 0,
            forall|o: int| 0 <= o < 29 ==> #[trigger] r.free_pages_by_order[o] == 0,
    {
        Self::new()
    }
}

/// Reporter of detailed memory statistics.
pub struct MemoryStatsReporter;

} // verus!
