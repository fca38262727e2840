//! Counters an allocator benchmark keeps: operations, sizes, timings and
//! the bytes in use.
use vstd::prelude::*;

verus! {

/// Allocation size category.
#[derive(Clone, Copy, Debug, PartialEq, Eq, Structural)]
pub enum SizeCategory {
    /// Under 4KiB.
    Small,
    /// From 4KiB up to 1MiB.
    Medium,
    /// 1MiB and more.
    Large,
}

impl SizeCategory {
    /// The category of an allocation of `size` bytes.
    pub fn from_size(size: usize) -> (r: Self)
        ensures
            size < 4096 ==> r == SizeCategory::Small,
            4096 <= size < 1024 * 1024 ==> r == SizeCategory::Medium,
            size >= 1024 * 1024 ==> r == SizeCategory::Large,
    {
        if size < 4096 {
            SizeCategory::Small
        } else if size < 1024 * 1024 {
            SizeCategory::Medium
        } else {
            SizeCategory::Large
        }
    }
}

/// Performance metrics for allocator operations. Counters wrap around on
/// overflow.
#[derive(Debug, Clone, Copy)]
pub struct AllocatorMetrics {
    pub total_allocations: usize,
    pub total_deallocations: usize,
    pub leaked_allocations: usize,
    pub small_allocs: usize,
    pub medium_allocs: usize,
    pub large_allocs: usize,
    pub total_alloc_time_ns: u64,
    pub total_dealloc_time_ns: u64,
    pub min_alloc_time_ns: u64,
    pub max_alloc_time_ns: u64,
    pub peak_allocated_bytes: usize,
    pub current_allocated_bytes: usize,
}

impl AllocatorMetrics {
    /// The metrics `new` gives.
    pub open spec fn new_spec() -> Self {
        AllocatorMetrics {
            total_allocations: 0,
            total_deallocations: 0,
            leaked_allocations: 0,
            small_allocs: 0,
            medium_allocs: 0,
            large_allocs: 0,
            total_alloc_time_ns: 0,
            total_dealloc_time_ns: 0,
            min_alloc_time_ns: u64::MAX,
            max_alloc_time_ns: 0,
            peak_allocated_bytes: 0,
            current_allocated_bytes: 0,
        }
    }

    /// No operation recorded yet: every counter zero, the minimum latency
    /// at its largest value.
    pub fn new() -> (r: Self)
        ensures
            r == Self::new_spec(),
    {
        AllocatorMetrics {
            total_allocations: 0,
            total_deallocations: 0,
            leaked_allocations: 0,
            small_allocs: 0,
            medium_allocs: 0,
            large_allocs: 0,
            total_alloc_time_ns: 0,
            total_dealloc_time_ns: 0,
            min_alloc_time_ns: u64::MAX,
            max_alloc_time_ns: 0,
            peak_allocated_bytes: 0,
            current_allocated_bytes: 0,
        }
    }

    /// Record an allocation of `size` bytes that took `duration_ns`.
    pub fn record_alloc(&mut self, size: usize, duration_ns: u64)
        requires
            old(self).current_allocated_bytes + size <= usize::MAX,
        ensures
            final(self).total_allocations == old(self).total_allocations.wrapping_add(1),
            final(self).total_alloc_time_ns == old(self).total_alloc_time_ns.wrapping_add(duration_ns),
            final(self).min_alloc_time_ns == (if duration_ns < old(self).min_alloc_time_ns {
                duration_ns
            } else {
                old(self).min_alloc_time_ns
            }),
            final(self).max_alloc_time_ns == (if duration_ns > old(self).max_alloc_time_ns {
                duration_ns
            } else {
                old(self).max_alloc_time_ns
            }),
            final(self).current_allocated_bytes == old(self).current_allocated_bytes + size,
            final(self).peak_allocated_bytes == (if old(self).current_allocated_bytes + size > old(self).peak_allocated_bytes {
                (old(self).current_allocated_bytes + size) as usize
            } else {
                old(self).peak_allocated_bytes
            }),
            final(self).small_allocs == (if size < 4096 {
                old(self).small_allocs.wrapping_add(1)
            } else {
                old(self).small_allocs
            }),
            final(self).medium_allocs == (if 4096 <= size < 1024 * 1024 {
                old(self).medium_allocs.wrapping_add(1)
            } else {
                old(self).medium_allocs
            }),
            final(self).large_allocs == (if size >= 1024 * 1024 {
                old(self).large_allocs.wrapping_add(1)
            } else {
                old(self).large_allocs
            }),
            final(self).total_deallocations == old(self).total_deallocations,
            final(self).total_dealloc_time_ns == old(self).total_dealloc_time_ns,
            final(self).leaked_allocations == old(self).leaked_allocations,
    {
        self.total_allocations = self.total_allocations.wrapping_add(1);
        self.total_alloc_time_ns = self.total_alloc_time_ns.wrapping_add(duration_ns);
        if duration_ns < self.min_alloc_time_ns {
            self.min_alloc_time_ns = duration_ns;
        }
        if duration_ns > self.max_alloc_time_ns {
            self.max_alloc_time_ns = duration_ns;
        }
        let new_bytes = self.current_allocated_bytes + size;
        self.current_allocated_bytes = new_bytes;
        if new_bytes > self.peak_allocated_bytes {
            self.peak_allocated_bytes = new_bytes;
        }
        match SizeCategory::from_size(size) {
            SizeCategory::Small => self.small_allocs = self.small_allocs.wrapping_add(1),
            SizeCategory::Medium => self.medium_allocs = self.medium_allocs.wrapping_add(1),
            SizeCategory::Large => self.large_allocs = self.large_allocs.wrapping_add(1),
        }
    }

    /// Record a deallocation of `size` bytes that took `duration_ns`.
    pub fn record_dealloc(&mut self, size: usize, duration_ns: u64)
        ensures
            *final(self) == (AllocatorMetrics {
                total_deallocations: old(self).total_deallocations.wrapping_add(1),
                total_dealloc_time_ns: old(self).total_dealloc_time_ns.wrapping_add(duration_ns),
                current_allocated_bytes: old(self).current_allocated_bytes.wrapping_sub(size),
                ..*old(self)
            }),
    {
        self.total_deallocations = self.total_deallocations.wrapping_add(1);
        self.total_dealloc_time_ns = self.total_dealloc_time_ns.wrapping_add(duration_ns);
        self.current_allocated_bytes = self.current_allocated_bytes.wrapping_sub(size);
    }

    /// Every allocation recorded has a deallocation recorded.
    pub fn check_leaks(&self) -> (r: bool)
        ensures
            r == (self.total_allocations == self.total_deallocations),
    {
        self.total_allocations == self.total_deallocations
    }
}

/// Every counter zero, the minimum latency included.
impl Default for AllocatorMetrics {
    fn default() -> (r: Self)
        ensures
            r == (AllocatorMetrics { min_alloc_time_ns: 0, ..AllocatorMetrics::new_spec() }),
    {
        AllocatorMetrics { min_alloc_time_ns: 0, ..Self::new() }
    }
}

} // verus!
