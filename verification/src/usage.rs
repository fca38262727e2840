//! Memory usage by kind, and an allocator that keeps it up to date.
use vstd::prelude::*;
use crate::{AllocError, AllocResult, Layout, PageAllocator};
use crate::global_allocator::{GlobalAllocator, UsageStats};

verus! {

/// Number of usage kinds.
pub const USAGE_KINDS: usize = 6;

/// Kinds of memory usage for tracking.
#[derive(Debug, Clone, Copy, PartialEq, Eq, Structural)]
pub enum UsageKind {
    /// Heap allocations made by kernel Rust code.
    RustHeap,
    /// Virtual memory, usually used for user space.
    VirtMem,
    /// Page cache for file systems.
    PageCache,
    /// Page tables.
    PageTable,
    /// DMA memory.
    Dma,
    /// Memory used by global pages.
    Global,
}

impl UsageKind {
    /// The position of the kind in declaration order.
    pub open spec fn spec_index(self) -> int {
        match self {
            UsageKind::RustHeap => 0,
            UsageKind::VirtMem => 1,
            UsageKind::PageCache => 2,
            UsageKind::PageTable => 3,
            UsageKind::Dma => 4,
            UsageKind::Global => 5,
        }
    }

    /// The position of the kind in declaration order.
    pub fn index(self) -> (r: usize)
        ensures
            r == self.spec_index(),
            r < USAGE_KINDS,
    {
        match self {
            UsageKind::RustHeap => 0,
            UsageKind::VirtMem => 1,
            UsageKind::PageCache => 2,
            UsageKind::PageTable => 3,
            UsageKind::Dma => 4,
            UsageKind::Global => 5,
        }
    }

    /// The kind at position `i` in declaration order.
    pub fn from_index(i: usize) -> (r: Option<UsageKind>)
        ensures
            i < USAGE_KINDS ==> (r matches Some(k) && k.spec_index() == i),
            i >= USAGE_KINDS ==> r is None,
    {
        match i {
            0 => Some(UsageKind::RustHeap),
            1 => Some(UsageKind::VirtMem),
            2 => Some(UsageKind::PageCache),
            3 => Some(UsageKind::PageTable),
            4 => Some(UsageKind::Dma),
            5 => Some(UsageKind::Global),
            _ => None,
        }
    }
}

/// Statistics of memory usages: bytes in use, by kind.
#[derive(Clone, Copy)]
pub struct Usages(pub [usize; 6]);

impl Usages {
    /// Bytes in use for `kind`.
    pub open spec fn of(self, kind: UsageKind) -> usize {
        self.0[kind.spec_index()]
    }

    /// No memory in use.
    pub fn new() -> (r: Self)
        ensures
            forall|k: UsageKind| #[trigger] r.of(k) == 0,
    {
        let counts: [usize; 6] = [0usize; 6];
        proof {
            vstd::array::axiom_spec_array_fill_for_copy_type::<usize, 6>(0usize);
        }
        Usages(counts)
    }

    /// Record `size` more bytes in use for `kind`.
    pub fn record_alloc(&mut self, kind: UsageKind, size: usize)
        requires
            old(self).of(kind) + size <= usize::MAX,
        ensures
            final(self).of(kind) == old(self).of(kind) + size,
            forall|k: UsageKind| k != kind ==> #[trigger] final(self).of(k) == old(self).of(k),
    {
        let i = kind.index();
        self.0[i] = self.0[i] + size;
    }

    /// Record `size` bytes of `kind` given back.
    pub fn record_dealloc(&mut self, kind: UsageKind, size: usize)
        requires
            old(self).of(kind) >= size,
        ensures
            final(self).of(kind) == old(self).of(kind) - size,
            forall|k: UsageKind| k != kind ==> #[trigger] final(self).of(k) == old(self).of(k),
    {
        let i = kind.index();
        self.0[i] = self.0[i] - size;
    }

    /// Bytes in use for `kind`.
    pub fn get(&self, kind: UsageKind) -> (r: usize)
        ensures
            r == self.of(kind),
    {
        self.0[kind.index()]
    }
}

/// A global allocator that also counts, by kind, the memory it hands out.
pub struct AccountedAllocator<const PAGE_SIZE: usize> {
    inner: GlobalAllocator<PAGE_SIZE>,
    usages: Usages,
}

impl<const PAGE_SIZE: usize> AccountedAllocator<PAGE_SIZE> {
    /// The underlying allocator.
    pub closed spec fn allocator(&self) -> GlobalAllocator<PAGE_SIZE> {
        self.inner
    }

    /// The usage counts.
    pub closed spec fn spec_usages(&self) -> Usages {
        self.usages
    }

    /// The underlying allocator is well formed.
    pub open spec fn wf(&self) -> bool {
        self.allocator().wf()
    }

    /// An allocator with no memory and no usage.
    pub fn new() -> (r: Self)
        ensures
            GlobalAllocator::<PAGE_SIZE>::page_size_fits() ==> r.wf(),
            !r.allocator().is_initialized(),
            forall|k: UsageKind| #[trigger] r.spec_usages().of(k) == 0,
    {
        AccountedAllocator { inner: GlobalAllocator::new(), usages: Usages::new() }
    }

    /// The name of the allocator.
    pub fn name(&self) -> (r: &'static str)
        ensures
            r@ == "axvisor allocator"@,
    {
        "axvisor allocator"
    }

    /// Number of memory zones.
    pub fn get_zone_count(&self) -> (r: usize)
        ensures
            r == self.allocator().pages().buddy().zone_count(),
    {
        self.inner.get_zone_count()
    }

    /// Initializes the allocator with the given region; see
    /// `GlobalAllocator::init` for when it is refused.
    pub fn init(&mut self, start_vaddr: usize, size: usize) -> (r: AllocResult)
        requires
            old(self).wf(),
            old(self).allocator().pages().buddy().zone_count() < crate::buddy::buddy_block::MAX_ZONES,
            size <= crate::global_allocator::MIN_HEAP_SIZE || size > crate::buddy::buddy_allocator::NODE_POOL_PAGES
                * PAGE_SIZE,
            start_vaddr + size + PAGE_SIZE <= usize::MAX,
        ensures
            final(self).wf(),
            final(self).spec_usages() == old(self).spec_usages(),
            r is Ok <==> size > crate::global_allocator::MIN_HEAP_SIZE,
            r is Ok ==> final(self).allocator().is_initialized(),
    {
        self.inner.init(start_vaddr, size)
    }

    /// Add the given region to the allocator.
    pub fn add_memory(&mut self, start_vaddr: usize, size: usize) -> (r: AllocResult)
        requires
            old(self).wf(),
            start_vaddr + size + PAGE_SIZE <= usize::MAX,
        ensures
            final(self).wf(),
            final(self).spec_usages() == old(self).spec_usages(),
            final(self).allocator().is_initialized() == old(self).allocator().is_initialized(),
            r is Ok <==> old(self).allocator().pages().buddy().zone_count() < crate::buddy::buddy_block::MAX_ZONES
                && crate::math::round_up(start_vaddr + size, PAGE_SIZE as int) - crate::math::round_down(
                start_vaddr as int,
                PAGE_SIZE as int,
            ) >= PAGE_SIZE && !old(self).allocator().pages().buddy().overlaps_zone(
                crate::math::round_down(start_vaddr as int, PAGE_SIZE as int),
                crate::math::round_up(start_vaddr + size, PAGE_SIZE as int),
            ),
            r is Ok ==> final(self).allocator().pages().buddy().zone_count() == old(self).allocator().pages().buddy().zone_count()
                + 1,
            r is Err ==> final(self).allocator().pages().free_set() == old(self).allocator().pages().free_set(),
    {
        self.inner.add_memory(start_vaddr, size)
    }

    /// Allocate a `layout` block, counted as Rust heap use.
    pub fn alloc_bytes(&mut self, layout: Layout) -> (r: AllocResult<usize>)
        requires
            old(self).wf(),
            old(self).spec_usages().of(UsageKind::RustHeap) + layout.spec_size() <= usize::MAX,
        ensures
            final(self).wf(),
            r is Ok ==> final(self).spec_usages().of(UsageKind::RustHeap) == old(self).spec_usages().of(UsageKind::RustHeap)
                + layout.spec_size(),
            r is Err ==> final(self).spec_usages() == old(self).spec_usages(),
            forall|k: UsageKind| k != UsageKind::RustHeap ==> #[trigger] final(self).spec_usages().of(k) == old(
                self,
            ).spec_usages().of(k),
            !old(self).allocator().is_initialized() ==> r == Err::<usize, AllocError>(AllocError::NoMemory),
    {
        let r = self.inner.alloc_bytes(layout);
        if r.is_ok() {
            self.usages.record_alloc(UsageKind::RustHeap, layout.size());
        }
        r
    }

    /// Give back the `layout` block at `pos`; its bytes leave the Rust heap
    /// count.
    pub fn dealloc(&mut self, pos: usize, layout: Layout)
        requires
            old(self).wf(),
            old(self).spec_usages().of(UsageKind::RustHeap) >= layout.spec_size(),
        ensures
            final(self).wf(),
            final(self).spec_usages().of(UsageKind::RustHeap) == old(self).spec_usages().of(UsageKind::RustHeap)
                - layout.spec_size(),
            forall|k: UsageKind| k != UsageKind::RustHeap ==> #[trigger] final(self).spec_usages().of(k) == old(
                self,
            ).spec_usages().of(k),
    {
        self.usages.record_dealloc(UsageKind::RustHeap, layout.size());
        self.inner.dealloc(pos, layout);
    }

    /// Allocate `num_pages` pages aligned to `align_pow2` bytes, counted
    /// under `kind`.
    pub fn alloc_pages(&mut self, num_pages: usize, align_pow2: usize, kind: UsageKind) -> (r: AllocResult<usize>)
        requires
            old(self).wf(),
            old(self).allocator().pages().alloc_ok(num_pages, align_pow2),
            old(self).spec_usages().of(kind) + num_pages * PAGE_SIZE <= usize::MAX,
        ensures
            final(self).wf(),
            r is Ok ==> final(self).spec_usages().of(kind) == old(self).spec_usages().of(kind) + num_pages * PAGE_SIZE,
            r is Err ==> final(self).spec_usages() == old(self).spec_usages(),
            forall|k: UsageKind| k != kind ==> #[trigger] final(self).spec_usages().of(k) == old(self).spec_usages().of(k),
            r matches Ok(a) ==> a as int % align_pow2 as int == 0,
            !old(self).allocator().is_initialized() ==> r == Err::<usize, AllocError>(AllocError::NoMemory),
    {
        let result = self.inner.alloc_pages(num_pages, align_pow2);
        if result.is_ok() {
            let size = num_pages * PAGE_SIZE;
            self.usages.record_alloc(kind, size);
        }
        result
    }

    /// Allocate `num_pages` pages at `start`, counted under `kind`.
    pub fn alloc_pages_at(&mut self, start: usize, num_pages: usize, align_pow2: usize, kind: UsageKind) -> (r: AllocResult<
        usize,
    >)
        requires
            old(self).wf(),
            old(self).allocator().pages().place_ok(start, num_pages, align_pow2),
            old(self).spec_usages().of(kind) + num_pages * PAGE_SIZE <= usize::MAX,
        ensures
            final(self).wf(),
            r is Ok ==> final(self).spec_usages().of(kind) == old(self).spec_usages().of(kind) + num_pages * PAGE_SIZE,
            r is Err ==> final(self).spec_usages() == old(self).spec_usages(),
            forall|k: UsageKind| k != kind ==> #[trigger] final(self).spec_usages().of(k) == old(self).spec_usages().of(k),
    {
        let result = PageAllocator::alloc_pages_at(&mut self.inner, start, num_pages, align_pow2);
        if result.is_ok() {
            let size = num_pages * PAGE_SIZE;
            self.usages.record_alloc(kind, size);
        }
        result
    }

    /// Give back `num_pages` pages at `pos`, counted under `kind`.
    pub fn dealloc_pages(&mut self, pos: usize, num_pages: usize, kind: UsageKind)
        requires
            old(self).wf(),
            num_pages * PAGE_SIZE <= old(self).spec_usages().of(kind),
        ensures
            final(self).wf(),
            final(self).spec_usages().of(kind) == old(self).spec_usages().of(kind) - num_pages * PAGE_SIZE,
            forall|k: UsageKind| k != kind ==> #[trigger] final(self).spec_usages().of(k) == old(self).spec_usages().of(k),
    {
        let size = num_pages * PAGE_SIZE;
        self.usages.record_dealloc(kind, size);
        self.inner.dealloc_pages(pos, num_pages);
    }

    /// Bytes handed out by the byte allocator, heap and slab together.
    pub fn used_bytes(&self) -> (r: usize)
        requires
            self.allocator().spec_stats().heap_bytes + self.allocator().spec_stats().slab_bytes <= usize::MAX,
        ensures
            r == self.allocator().spec_stats().heap_bytes + self.allocator().spec_stats().slab_bytes,
    {
        let stats: UsageStats = self.inner.get_stats();
        stats.heap_bytes + stats.slab_bytes
    }

    /// The bytes of the free pages.
    pub fn available_bytes(&self) -> (r: usize)
        requires
            self.allocator().spec_stats().free_pages * PAGE_SIZE <= usize::MAX,
        ensures
            r == self.allocator().spec_stats().free_pages * PAGE_SIZE,
    {
        let stats = self.inner.get_stats();
        stats.free_pages * PAGE_SIZE
    }

    /// Pages handed out.
    pub fn used_pages(&self) -> (r: usize)
        ensures
            r == self.allocator().spec_stats().used_pages,
    {
        self.inner.get_stats().used_pages
    }

    /// Pages free.
    pub fn available_pages(&self) -> (r: usize)
        ensures
            r == self.allocator().spec_stats().free_pages,
    {
        self.inner.get_stats().free_pages
    }

    /// The usage statistics.
    pub fn usages(&self) -> (r: Usages)
        ensures
            r == self.spec_usages(),
    {
        self.usages
    }
}

} // verus!
