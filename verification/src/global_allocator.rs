//! Global allocator: small blocks from the slab allocator, everything else
//! from the page allocator, with usage statistics.
use vstd::prelude::*;
use crate::{AllocError, AllocResult, BaseAllocator, Layout, PageAllocator};
use crate::math::is_pow2;
use crate::valid_layout;
use crate::buddy::buddy_block::MAX_ZONES;
use crate::buddy::buddy_allocator::NODE_POOL_PAGES;
use crate::buddy::buddy_set::page_size_ok;
use crate::buddy::stats::BuddyStats;
use crate::page_allocator::CompositePageAllocator;
use crate::slab::slab_byte_allocator::SlabByteAllocator;
use crate::slab::slab_node::MAX_OBJECTS;

verus! {

/// Smallest heap `init` accepts (exclusive), in bytes.
pub const MIN_HEAP_SIZE: usize = 0x8000;

/// Largest size and alignment served by the slab allocator.
pub const SLAB_LIMIT: usize = 2048;

/// Memory usage statistics.
#[derive(Debug, Clone, Copy)]
pub struct UsageStats {
    pub total_pages: usize,
    pub used_pages: usize,
    pub free_pages: usize,
    pub slab_bytes: usize,
    pub heap_bytes: usize,
}

impl Default for UsageStats {
    fn default() -> (r: Self)
        ensures
            r == (UsageStats { total_pages: 0, used_pages: 0, free_pages: 0, slab_bytes: 0, heap_bytes: 0 }),
    {
        UsageStats { total_pages: 0, used_pages: 0, free_pages: 0, slab_bytes: 0, heap_bytes: 0 }
    }
}

/// Pages a block of `size` bytes takes.
pub open spec fn pages_for(size: int, page_size: int) -> int {
    (size + page_size - 1) / page_size
}

/// Global allocator over a composite page allocator and a slab allocator.
pub struct GlobalAllocator<const PAGE_SIZE: usize> {
    page_allocator: CompositePageAllocator<PAGE_SIZE>,
    slab_allocator: SlabByteAllocator<CompositePageAllocator<PAGE_SIZE>, PAGE_SIZE>,
    stats: UsageStats,
    initialized: bool,
}

impl<const PAGE_SIZE: usize> GlobalAllocator<PAGE_SIZE> {
    /// The page allocator.
    pub closed spec fn pages(&self) -> CompositePageAllocator<PAGE_SIZE> {
        self.page_allocator
    }

    /// The slab allocator.
    pub closed spec fn slabs(&self) -> SlabByteAllocator<CompositePageAllocator<PAGE_SIZE>, PAGE_SIZE> {
        self.slab_allocator
    }

    /// The usage statistics.
    pub closed spec fn spec_stats(&self) -> UsageStats {
        self.stats
    }

    /// `init` has succeeded.
    pub closed spec fn is_initialized(&self) -> bool {
        self.initialized
    }

    /// The page size suits both allocators.
    pub open spec fn page_size_fits() -> bool {
        &&& page_size_ok(PAGE_SIZE as int)
        &&& SlabByteAllocator::<CompositePageAllocator<PAGE_SIZE>, PAGE_SIZE>::page_size_ok()
    }

    /// Both allocators are well formed, and the slab allocator holds no
    /// page allocator of its own: it is handed this one on each call.
    pub closed spec fn wf(&self) -> bool {
        &&& Self::page_size_fits()
        &&& self.page_allocator.wf()
        &&& self.slab_allocator.wf()
        &&& self.slab_allocator.source() is None
    }

    /// The block `alloc_bytes(layout)` is served from: the slab allocator
    /// when size and alignment are both at most 2048 bytes.
    pub open spec fn slab_sized(layout: Layout) -> bool {
        layout.spec_size() <= SLAB_LIMIT && layout.spec_align() <= SLAB_LIMIT
    }

    /// What `alloc_bytes(layout)` does, `after` being the allocator
    /// afterwards and `r` the result. Nothing before `init`; a small block
    /// comes from the slab allocator; a large one takes whole pages, which
    /// the page allocator grants whenever it owes them.
    pub open spec fn alloc_bytes_effect(&self, after: &Self, layout: Layout, r: AllocResult<usize>) -> bool {
        let n = pages_for(layout.spec_size() as int, PAGE_SIZE as int);
        &&& after.is_initialized() == self.is_initialized()
        &&& !self.is_initialized() ==> r == Err::<usize, AllocError>(AllocError::NoMemory) && after.pages().free_set()
            == self.pages().free_set()
        &&& self.is_initialized() && Self::slab_sized(layout) ==> {
            &&& self.slabs().alloc_result(&after.slabs(), layout, r)
            &&& r is Ok ==> after.spec_stats().slab_bytes == self.spec_stats().slab_bytes.wrapping_add(layout.spec_size())
        }
        &&& self.is_initialized() && !Self::slab_sized(layout) ==> {
            &&& after.slabs() == self.slabs()
            &&& after.pages().free_set().subset_of(self.pages().free_set())
            &&& r matches Ok(a) ==> a as int % layout.spec_align() as int == 0 && self.pages().buddy().took(
                &after.pages().buddy(),
                vstd::set_lib::set_int_range(a as int, a + n * PAGE_SIZE),
            )
            &&& r is Ok ==> after.spec_stats().heap_bytes == self.spec_stats().heap_bytes.wrapping_add(layout.spec_size())
                && after.spec_stats().used_pages == self.spec_stats().used_pages.wrapping_add(n as usize)
                && after.spec_stats().free_pages == self.spec_stats().free_pages.wrapping_sub(n as usize)
            &&& crate::math::order_for(n as nat) < usize::BITS && self.pages().alloc_owed(n as usize, layout.spec_align())
                ==> r is Ok
        }
    }

    /// What `dealloc(ptr, layout)` does, `after` being the allocator
    /// afterwards: nothing before `init`; a small block goes back to the
    /// slab allocator; a large one gives its whole pages back to the page
    /// allocator.
    pub open spec fn free_effect(&self, after: &Self, ptr: usize, layout: Layout) -> bool {
        let n = pages_for(layout.spec_size() as int, PAGE_SIZE as int);
        &&& after.is_initialized() == self.is_initialized()
        &&& !self.is_initialized() ==> *after == *self
        &&& self.is_initialized() && Self::slab_sized(layout) ==> {
            &&& exists|rr: (usize, bool)| self.slabs().dealloc_effect(&after.slabs(), ptr, layout, rr)
            &&& after.spec_stats().slab_bytes == vstd::math::clip(self.spec_stats().slab_bytes - layout.spec_size())
        }
        &&& self.is_initialized() && !Self::slab_sized(layout) ==> {
            &&& after.slabs() == self.slabs()
            &&& self.pages().dealloc_effect(&after.pages(), ptr, n as usize)
            &&& after.spec_stats().used_pages == vstd::math::clip(self.spec_stats().used_pages - n)
            &&& after.spec_stats().free_pages == self.spec_stats().free_pages.wrapping_add(n as usize)
            &&& after.spec_stats().heap_bytes == vstd::math::clip(self.spec_stats().heap_bytes - layout.spec_size())
        }
    }

    /// An allocator with no memory, not yet initialized.
    pub fn new() -> (r: Self)
        ensures
            Self::page_size_fits() ==> r.wf(),
            !r.is_initialized(),
            r.pages().buddy().zone_count() == 0,
            r.spec_stats() == (UsageStats { total_pages: 0, used_pages: 0, free_pages: 0, slab_bytes: 0, heap_bytes: 0 }),
    {
        GlobalAllocator {
            page_allocator: CompositePageAllocator::new(),
            slab_allocator: SlabByteAllocator::new(),
            stats: UsageStats { total_pages: 0, used_pages: 0, free_pages: 0, slab_bytes: 0, heap_bytes: 0 },
            initialized: false,
        }
    }

    /// Set the address translator of the page allocator, so it can tell
    /// which memory is low (below 4GiB) physical memory.
    pub fn set_addr_translator(&mut self, translator: &'static dyn crate::AddrTranslator)
        requires
            old(self).wf(),
        ensures
            final(self).wf(),
            final(self).pages().buddy().has_translator(),
            final(self).pages().free_set() == old(self).pages().free_set(),
            final(self).is_initialized() == old(self).is_initialized(),
    {
        self.page_allocator.set_addr_translator(translator);
    }

    /// Allocate low-memory pages (physical address below 4GiB); `NoMemory`
    /// before `init`.
    pub fn alloc_dma32_pages(&mut self, num_pages: usize, alignment: usize) -> (r: AllocResult<usize>)
        requires
            alignment == 0 || is_pow2(alignment as int),
            old(self).wf(),
            num_pages * PAGE_SIZE <= usize::MAX,
        ensures
            final(self).wf(),
            final(self).is_initialized() == old(self).is_initialized(),
            !old(self).is_initialized() ==> r == Err::<usize, AllocError>(AllocError::NoMemory) && *final(self) == *old(self),
            final(self).pages().free_set().subset_of(old(self).pages().free_set()),
            old(self).is_initialized() && (num_pages == 0 || !old(self).pages().buddy().has_translator()) ==> r
                == Err::<usize, AllocError>(AllocError::InvalidParam),
            r matches Ok(a) ==> (alignment > 0 ==> a as int % alignment as int == 0) && old(self).pages().buddy().in_marked_zone(
                a as int,
                true,
            ),
            r matches Ok(a) ==> old(self).pages().buddy().translator() matches Some(t) && crate::buddy::buddy_allocator::phys_low(
                t.translation(a),
            ) && crate::buddy::buddy_allocator::phys_low(t.translation((a + num_pages * PAGE_SIZE - 1) as usize)),
            r is Ok ==> final(self).spec_stats().used_pages == old(self).spec_stats().used_pages.wrapping_add(num_pages)
                && final(self).spec_stats().free_pages == old(self).spec_stats().free_pages.wrapping_sub(num_pages),
            r is Err ==> final(self).spec_stats() == old(self).spec_stats(),
            final(self).slabs() == old(self).slabs(),
            final(self).pages().tracker() == old(self).pages().tracker(),
            r matches Ok(a) ==> old(self).pages().buddy().took(
                &final(self).pages().buddy(),
                crate::buddy::buddy_set::block_range(
                    a as int,
                    crate::buddy::buddy_set::needed_order(num_pages as int, alignment as int, PAGE_SIZE as int) as int,
                    PAGE_SIZE as int,
                ),
            ),
    {
        if !self.initialized {
            return Err(AllocError::NoMemory);
        }
        let r = self.page_allocator.alloc_pages_lowmem(num_pages, alignment);
        if r.is_ok() {
            self.stats.used_pages = self.stats.used_pages.wrapping_add(num_pages);
            self.stats.free_pages = self.stats.free_pages.wrapping_sub(num_pages);
        }
        r
    }

    /// Initialize with the memory region `[start_vaddr, start_vaddr + size)`;
    /// a region of `MIN_HEAP_SIZE` bytes or less is refused. The statistics
    /// then count every page of the region in `total_pages`.
    pub fn init(&mut self, start_vaddr: usize, size: usize) -> (r: AllocResult)
        requires
            old(self).wf(),
            old(self).pages().buddy().zone_count() < MAX_ZONES,
            size <= MIN_HEAP_SIZE || size > NODE_POOL_PAGES * PAGE_SIZE,
            start_vaddr + size + PAGE_SIZE <= usize::MAX,
        ensures
            final(self).wf(),
            size <= MIN_HEAP_SIZE ==> r == Err::<(), AllocError>(AllocError::InvalidParam) && final(self).is_initialized()
                == old(self).is_initialized() && final(self).pages().free_set() == old(self).pages().free_set(),
            size > MIN_HEAP_SIZE ==> r is Ok && final(self).is_initialized() && final(self).pages().buddy().zone_count() == 1
                && final(self).pages().buddy().zone(0).end() == crate::math::round_up(start_vaddr + size, PAGE_SIZE as int),
            size > MIN_HEAP_SIZE ==> ({
                let b = final(self).pages().buddy();
                let range = vstd::set_lib::set_int_range(b.zone(0).base() as int, b.zone(0).end() as int);
                &&& b.zone(0).base() == crate::math::round_down(start_vaddr + NODE_POOL_PAGES * PAGE_SIZE, PAGE_SIZE as int)
                &&& final(self).pages().free_set() == range || b.pool().free_ids().len() == 0
                &&& crate::buddy::global_node_pool::region_node_count(start_vaddr as int, NODE_POOL_PAGES * PAGE_SIZE) * PAGE_SIZE
                    >= b.zone(0).end() - b.zone(0).base() ==> final(self).pages().free_set() == range
                &&& crate::buddy::global_node_pool::region_node_count(start_vaddr as int, NODE_POOL_PAGES * PAGE_SIZE)
                    >= crate::buddy::layout::layout_nodes(b.zone(0).base() as int, b.zone(0).end() as int, PAGE_SIZE as int)
                    ==> final(self).pages().free_set() == range
            }),
            size > MIN_HEAP_SIZE ==> ({
                let s = final(self).spec_stats();
                let b = final(self).pages().buddy();
                &&& s.total_pages == size / PAGE_SIZE
                &&& s.used_pages == b.spec_total_pages() - b.spec_free_pages()
                &&& s.free_pages == b.spec_free_pages()
                &&& s.slab_bytes == old(self).spec_stats().slab_bytes
                &&& s.heap_bytes == old(self).spec_stats().heap_bytes
            }),
    {
        if size <= MIN_HEAP_SIZE {
            return Err(AllocError::InvalidParam);
        }
        proof {
            self.page_allocator.lemma_buddy_wf();
        }
        BaseAllocator::init(&mut self.page_allocator, start_vaddr, size);
        self.slab_allocator.init();
        self.stats.total_pages = size / PAGE_SIZE;
        self.stats.used_pages = PageAllocator::used_pages(&self.page_allocator);
        self.stats.free_pages = PageAllocator::available_pages(&self.page_allocator);
        self.initialized = true;
        Ok(())
    }

    /// Add the memory region `[start_vaddr, start_vaddr + size)` as a new zone.
    pub fn add_memory(&mut self, start_vaddr: usize, size: usize) -> (r: AllocResult)
        requires
            old(self).wf(),
            start_vaddr + size + PAGE_SIZE <= usize::MAX,
        ensures
            final(self).wf(),
            final(self).is_initialized() == old(self).is_initialized(),
            r is Ok <==> old(self).pages().buddy().zone_count() < MAX_ZONES && crate::math::round_up(
                start_vaddr + size,
                PAGE_SIZE as int,
            ) - crate::math::round_down(start_vaddr as int, PAGE_SIZE as int) >= PAGE_SIZE && !old(
                self,
            ).pages().buddy().overlaps_zone(
                crate::math::round_down(start_vaddr as int, PAGE_SIZE as int),
                crate::math::round_up(start_vaddr + size, PAGE_SIZE as int),
            ),
            r is Ok ==> final(self).pages().buddy().zone_count() == old(self).pages().buddy().zone_count() + 1
                && final(self).spec_stats().total_pages == final(self).pages().buddy().spec_total_pages()
                && final(self).spec_stats().free_pages == final(self).pages().buddy().spec_free_pages(),
            r is Err ==> final(self).pages().free_set() == old(self).pages().free_set(),
            ({
                let range = vstd::set_lib::set_int_range(
                    crate::math::round_down(start_vaddr as int, PAGE_SIZE as int),
                    crate::math::round_up(start_vaddr + size, PAGE_SIZE as int),
                );
                &&& r is Ok ==> final(self).pages().free_set() == old(self).pages().free_set().union(range)
                    || final(self).pages().buddy().pool().free_ids().len() == 0
                &&& r is Ok && old(self).pages().buddy().pool().free_ids().len() * PAGE_SIZE >= crate::math::round_up(start_vaddr + size, PAGE_SIZE as int)
                    - crate::math::round_down(start_vaddr as int, PAGE_SIZE as int) ==> final(self).pages().free_set() == old(self).pages().free_set().union(range)
                &&& r is Ok && old(self).pages().buddy().pool().free_ids().len() >= crate::buddy::layout::layout_nodes(
                    crate::math::round_down(start_vaddr as int, PAGE_SIZE as int),
                    crate::math::round_up(start_vaddr + size, PAGE_SIZE as int),
                    PAGE_SIZE as int,
                ) ==> final(self).pages().free_set() == old(self).pages().free_set().union(range)
            }),
    {
        let r = BaseAllocator::add_memory(&mut self.page_allocator, start_vaddr, size);
        if r.is_ok() {
            self.stats.total_pages = PageAllocator::total_pages(&self.page_allocator);
            self.stats.free_pages = PageAllocator::available_pages(&self.page_allocator);
        }
        r
    }

    /// Allocate a `layout` block: one of at most 2048 bytes and alignment
    /// from the slab allocator, anything larger from whole pages.
    /// `NoMemory` before `init`.
    pub fn alloc_bytes(&mut self, layout: Layout) -> (r: AllocResult<usize>)
        requires
            old(self).wf(),
        ensures
            final(self).wf(),
            old(self).alloc_bytes_effect(&*final(self), layout, r),
    {
        if !self.initialized {
            return Err(AllocError::NoMemory);
        }
        let size = layout.size();
        let align = layout.align();
        if size <= SLAB_LIMIT && align <= SLAB_LIMIT {
            let r = self.slab_allocator.alloc_with(&mut self.page_allocator, layout);
            if r.is_ok() {
                self.stats.slab_bytes = self.stats.slab_bytes.wrapping_add(size);
            }
            return r;
        }
        let valid = layout.is_valid();
        proof {
            crate::math::lemma_is_pow2_pos(align as int);
            vstd::arithmetic::power2::lemma2_to64();
            crate::buddy::buddy_set::lemma_page_size_ok(PAGE_SIZE as int);
        }
        let pages_needed = (size + PAGE_SIZE - 1) / PAGE_SIZE;
        if !pages_round_up_fit(pages_needed) {
            return Err(AllocError::NoMemory);
        }
        let addr = match PageAllocator::alloc_pages(&mut self.page_allocator, pages_needed, align) {
            Ok(a) => a,
            Err(e) => {
                return Err(e);
            },
        };
        self.stats.used_pages = self.stats.used_pages.wrapping_add(pages_needed);
        self.stats.free_pages = self.stats.free_pages.wrapping_sub(pages_needed);
        self.stats.heap_bytes = self.stats.heap_bytes.wrapping_add(size);
        Ok(addr)
    }

    /// Allocate `num_pages` pages aligned to `alignment` bytes; `NoMemory`
    /// before `init`.
    pub fn alloc_pages(&mut self, num_pages: usize, alignment: usize) -> (r: AllocResult<usize>)
        requires
            old(self).wf(),
            old(self).pages().alloc_ok(num_pages, alignment),
        ensures
            final(self).wf(),
            final(self).is_initialized() == old(self).is_initialized(),
            final(self).pages().free_set().subset_of(old(self).pages().free_set()),
            !old(self).is_initialized() ==> r == Err::<usize, AllocError>(AllocError::NoMemory) && final(self).pages().free_set()
                == old(self).pages().free_set(),
            old(self).is_initialized() && num_pages == 0 ==> r == Err::<usize, AllocError>(AllocError::InvalidParam),
            r matches Ok(a) ==> a as int % alignment as int == 0 && old(self).pages().buddy().took(
                &final(self).pages().buddy(),
                vstd::set_lib::set_int_range(a as int, a + num_pages * PAGE_SIZE),
            ),
            r is Ok ==> final(self).spec_stats().used_pages == old(self).spec_stats().used_pages.wrapping_add(num_pages)
                && final(self).spec_stats().free_pages == old(self).spec_stats().free_pages.wrapping_sub(num_pages),
            r is Err ==> final(self).spec_stats() == old(self).spec_stats(),
            old(self).is_initialized() && num_pages > 0 && r is Err ==> r == Err::<usize, AllocError>(AllocError::NoMemory),
            old(self).is_initialized() && old(self).pages().alloc_owed(num_pages, alignment) ==> r is Ok,
            final(self).slabs() == old(self).slabs(),
    {
        if !self.initialized {
            return Err(AllocError::NoMemory);
        }
        let addr = match PageAllocator::alloc_pages(&mut self.page_allocator, num_pages, alignment) {
            Ok(a) => a,
            Err(e) => {
                return Err(e);
            },
        };
        self.stats.used_pages = self.stats.used_pages.wrapping_add(num_pages);
        self.stats.free_pages = self.stats.free_pages.wrapping_sub(num_pages);
        Ok(addr)
    }

    /// Free the `layout` block at `ptr`, to the allocator that serves its
    /// size; nothing happens before `init`.
    pub fn dealloc(&mut self, ptr: usize, layout: Layout)
        requires
            old(self).wf(),
        ensures
            final(self).wf(),
            old(self).free_effect(&*final(self), ptr, layout),
    {
        if !self.initialized {
            return;
        }
        let size = layout.size();
        let align = layout.align();
        if size <= SLAB_LIMIT && align <= SLAB_LIMIT {
            proof {
                crate::slab::slab_byte_allocator::lemma_class_fits(
                    vstd::math::max(layout.spec_size() as int, layout.spec_align() as int),
                );
            }
            let ghost s0 = self.slab_allocator;
            self.slab_allocator.dealloc_with(&mut self.page_allocator, ptr, layout);
            let ghost s1 = self.slab_allocator;
            self.stats.slab_bytes = self.stats.slab_bytes.saturating_sub(size);
            proof {
                let rr = choose|rr: (usize, bool)| s0.dealloc_effect(&s1, ptr, layout, rr);
                assert(old(self).slabs().dealloc_effect(&self.slabs(), ptr, layout, rr));
            }
            return;
        }
        let valid = layout.is_valid();
        proof {
            crate::math::lemma_is_pow2_pos(align as int);
            vstd::arithmetic::power2::lemma2_to64();
            crate::buddy::buddy_set::lemma_page_size_ok(PAGE_SIZE as int);
        }
        let pages_needed = (size + PAGE_SIZE - 1) / PAGE_SIZE;
        PageAllocator::dealloc_pages(&mut self.page_allocator, ptr, pages_needed);
        self.stats.used_pages = self.stats.used_pages.saturating_sub(pages_needed);
        self.stats.free_pages = self.stats.free_pages.wrapping_add(pages_needed);
        self.stats.heap_bytes = self.stats.heap_bytes.saturating_sub(size);
    }

    /// Free `num_pages` pages at `pos`; nothing happens before `init`.
    pub fn dealloc_pages(&mut self, pos: usize, num_pages: usize)
        requires
            old(self).wf(),
        ensures
            final(self).wf(),
            final(self).is_initialized() == old(self).is_initialized(),
            !old(self).is_initialized() ==> final(self).pages() == old(self).pages() && final(self).spec_stats()
                == old(self).spec_stats(),
            old(self).is_initialized() ==> old(self).pages().dealloc_effect(&final(self).pages(), pos, num_pages),
            old(self).is_initialized() ==> final(self).spec_stats().used_pages == vstd::math::clip(
                old(self).spec_stats().used_pages - num_pages,
            ) && final(self).spec_stats().free_pages == old(self).spec_stats().free_pages.wrapping_add(num_pages),
            final(self).spec_stats().total_pages == old(self).spec_stats().total_pages,
            final(self).spec_stats().slab_bytes == old(self).spec_stats().slab_bytes,
            final(self).spec_stats().heap_bytes == old(self).spec_stats().heap_bytes,
            final(self).slabs() == old(self).slabs(),
    {
        if !self.initialized {
            return;
        }
        PageAllocator::dealloc_pages(&mut self.page_allocator, pos, num_pages);
        self.stats.used_pages = self.stats.used_pages.saturating_sub(num_pages);
        self.stats.free_pages = self.stats.free_pages.wrapping_add(num_pages);
    }

    /// Resize the `layout` block at `ptr` to `new_size` bytes and return
    /// where it now is (0 on failure). A zero size frees it, a null block
    /// is allocated afresh, a block that already has room stays; otherwise
    /// a new block is allocated and the old one freed. Copying the contents
    /// to the new place is the caller's part.
    pub fn realloc(&mut self, ptr: usize, layout: Layout, new_size: usize) -> (r: usize)
        requires
            old(self).wf(),
        ensures
            final(self).wf(),
            final(self).is_initialized() == old(self).is_initialized(),
            new_size == 0 && ptr == 0 ==> r == 0 && *final(self) == *old(self),
            new_size == 0 && ptr != 0 ==> r == 0 && old(self).free_effect(&*final(self), ptr, layout),
            new_size > 0 && ptr != 0 && new_size <= layout.spec_size() ==> r == ptr && *final(self) == *old(self),
            new_size > 0 && (ptr == 0 || new_size > layout.spec_size()) ==> exists|nl: Layout, res: AllocResult<usize>, mid: Self|
                #[trigger] old(self).alloc_bytes_effect(&mid, nl, res) && mid.wf() && nl.spec_size() == (if valid_layout(
                    new_size as int,
                    layout.spec_align() as int,
                ) {
                    new_size
                } else {
                    1
                }) && nl.spec_align() == (if valid_layout(new_size as int, layout.spec_align() as int) {
                    layout.spec_align()
                } else {
                    1
                }) && (res matches Ok(p) ==> r == p && (ptr == 0 ==> *final(self) == mid) && (ptr != 0 ==> mid.free_effect(
                    &*final(self),
                    ptr,
                    layout,
                ))) && (res is Err ==> r == 0 && *final(self) == mid),
    {
        if new_size == 0 {
            if ptr != 0 {
                self.dealloc(ptr, layout);
            }
            return 0;
        }
        let new_layout = match Layout::from_size_align(new_size, layout.align()) {
            Ok(l) => l,
            Err(_) => {
                proof {
                    assert(vstd::arithmetic::power2::pow2(0) == 1) by {
                        vstd::arithmetic::power2::lemma2_to64();
                    }
                    assert(is_pow2(1));
                }
                Layout::from_size_align(1, 1).unwrap()
            },
        };
        if ptr == 0 {
            let res = self.alloc_bytes(new_layout);
            proof {
                assert(old(self).alloc_bytes_effect(&*self, new_layout, res));
            }
            return match res {
                Ok(p) => p,
                Err(_) => 0,
            };
        }
        if new_size <= layout.size() {
            return ptr;
        }
        let res = self.alloc_bytes(new_layout);
        let ghost mid = *self;
        proof {
            assert(old(self).alloc_bytes_effect(&mid, new_layout, res));
        }
        match res {
            Ok(new_ptr) => {
                self.dealloc(ptr, layout);
                new_ptr
            },
            Err(_) => 0,
        }
    }

    /// The usage statistics.
    pub fn get_stats(&self) -> (r: UsageStats)
        ensures
            r == self.spec_stats(),
    {
        self.stats
    }

    /// Number of memory zones.
    pub fn get_zone_count(&self) -> (r: usize)
        ensures
            r == self.pages().buddy().zone_count(),
    {
        self.page_allocator.get_zone_count()
    }

    /// The buddy allocator statistics.
    pub fn get_buddy_stats(&self) -> (r: BuddyStats)
        requires
            self.wf(),
        ensures
            r.total_pages == self.pages().buddy().spec_total_pages(),
            r.free_pages == self.pages().buddy().spec_free_pages(),
    {
        self.page_allocator.get_buddy_stats()
    }
}

/// The power-of-two round-up of `n` fits a machine word.
fn pages_round_up_fit(n: usize) -> (r: bool)
    ensures
        r ==> vstd::arithmetic::power2::pow2(crate::math::order_for(n as nat)) <= usize::MAX,
        r == (n == 0 || crate::math::order_for(n as nat) < usize::BITS),
{
    if n == 0 {
        proof {
            vstd::arithmetic::power2::lemma2_to64();
            crate::math::lemma_order_unique(0, 0);
        }
        return true;
    }
    let o = crate::math::order_of(n);
    if o >= 64 || o >= usize::BITS as usize {
        return false;
    }
    proof {
        crate::math::lemma_usize_bits();
        vstd::arithmetic::power2::lemma_pow2_strictly_increases(o as nat, usize::BITS as nat);
    }
    true
}

impl<const PAGE_SIZE: usize> Default for GlobalAllocator<PAGE_SIZE> {
    fn default() -> (r: Self)
        ensures
            Self::page_size_fits() ==> r.wf(),
            !r.is_initialized(),
    {
        Self::new()
    }
}

impl<const PAGE_SIZE: usize> BaseAllocator for GlobalAllocator<PAGE_SIZE> {
    open spec fn inv(&self) -> bool {
        self.wf()
    }

    open spec fn init_ok(&self, start: usize, size: usize) -> bool {
        &&& self.wf()
        &&& self.pages().buddy().init_ok(start, size)
    }

    open spec fn add_ok(&self, start: usize, size: usize) -> bool {
        start + size + PAGE_SIZE <= usize::MAX
    }

    /// Initialize the page allocator with the region; unlike the inherent
    /// `init`, this does not mark the allocator initialized.
    fn init(&mut self, start: usize, size: usize)
        ensures
            final(self).is_initialized() == old(self).is_initialized(),
            final(self).pages().buddy().zone_count() == 1,
            ({
                let b = final(self).pages().buddy();
                let range = vstd::set_lib::set_int_range(b.zone(0).base() as int, b.zone(0).end() as int);
                &&& b.zone(0).base() == crate::math::round_down(start + NODE_POOL_PAGES * PAGE_SIZE, PAGE_SIZE as int)
                &&& b.zone(0).end() == crate::math::round_up(start + size, PAGE_SIZE as int)
                &&& final(self).pages().free_set() == range || b.pool().free_ids().len() == 0
                &&& crate::buddy::global_node_pool::region_node_count(start as int, NODE_POOL_PAGES * PAGE_SIZE) * PAGE_SIZE
                    >= b.zone(0).end() - b.zone(0).base() ==> final(self).pages().free_set() == range
                &&& crate::buddy::global_node_pool::region_node_count(start as int, NODE_POOL_PAGES * PAGE_SIZE)
                    >= crate::buddy::layout::layout_nodes(b.zone(0).base() as int, b.zone(0).end() as int, PAGE_SIZE as int)
                    ==> final(self).pages().free_set() == range
            }),
            final(self).spec_stats() == old(self).spec_stats(),
            final(self).slabs() == old(self).slabs(),
    {
        proof {
            self.page_allocator.lemma_buddy_wf();
        }
        BaseAllocator::init(&mut self.page_allocator, start, size);
    }

    /// Add a zone to the page allocator; unlike the inherent `add_memory`,
    /// this leaves the statistics as they were.
    fn add_memory(&mut self, start: usize, size: usize) -> (r: AllocResult)
        ensures
            final(self).is_initialized() == old(self).is_initialized(),
            r is Ok <==> old(self).pages().buddy().zone_count() < MAX_ZONES && crate::math::round_up(
                start + size,
                PAGE_SIZE as int,
            ) - crate::math::round_down(start as int, PAGE_SIZE as int) >= PAGE_SIZE && !old(
                self,
            ).pages().buddy().overlaps_zone(
                crate::math::round_down(start as int, PAGE_SIZE as int),
                crate::math::round_up(start + size, PAGE_SIZE as int),
            ),
            r is Ok ==> final(self).pages().buddy().zone_count() == old(self).pages().buddy().zone_count() + 1,
            r is Err ==> final(self).pages().buddy() == old(self).pages().buddy(),
            r is Err ==> final(self).pages().free_set() == old(self).pages().free_set(),
            final(self).spec_stats() == old(self).spec_stats(),
            final(self).slabs() == old(self).slabs(),
            ({
                let range = vstd::set_lib::set_int_range(
                    crate::math::round_down(start as int, PAGE_SIZE as int),
                    crate::math::round_up(start + size, PAGE_SIZE as int),
                );
                &&& r is Ok ==> final(self).pages().free_set() == old(self).pages().free_set().union(range)
                    || final(self).pages().buddy().pool().free_ids().len() == 0
                &&& r is Ok && old(self).pages().buddy().pool().free_ids().len() * PAGE_SIZE >= crate::math::round_up(start + size, PAGE_SIZE as int)
                    - crate::math::round_down(start as int, PAGE_SIZE as int) ==> final(self).pages().free_set() == old(self).pages().free_set().union(range)
                &&& r is Ok && old(self).pages().buddy().pool().free_ids().len() >= crate::buddy::layout::layout_nodes(
                    crate::math::round_down(start as int, PAGE_SIZE as int),
                    crate::math::round_up(start + size, PAGE_SIZE as int),
                    PAGE_SIZE as int,
                ) ==> final(self).pages().free_set() == old(self).pages().free_set().union(range)
            }),
    {
        BaseAllocator::add_memory(&mut self.page_allocator, start, size)
    }
}

impl<const PAGE_SIZE: usize> PageAllocator for GlobalAllocator<PAGE_SIZE> {
    open spec fn alloc_ok(&self, num_pages: usize, alignment: usize) -> bool {
        self.pages().alloc_ok(num_pages, alignment)
    }

    open spec fn place_ok(&self, base: usize, num_pages: usize, alignment: usize) -> bool {
        self.pages().place_ok(base, num_pages, alignment)
    }

    fn alloc_pages(&mut self, num_pages: usize, alignment: usize) -> (r: AllocResult<usize>)
        ensures
            final(self).is_initialized() == old(self).is_initialized(),
            final(self).pages().free_set().subset_of(old(self).pages().free_set()),
            !old(self).is_initialized() ==> r == Err::<usize, AllocError>(AllocError::NoMemory) && final(self).pages().free_set()
                == old(self).pages().free_set(),
            old(self).is_initialized() && num_pages == 0 ==> r == Err::<usize, AllocError>(AllocError::InvalidParam),
            old(self).is_initialized() && num_pages > 0 && r is Err ==> r == Err::<usize, AllocError>(AllocError::NoMemory),
            r matches Ok(a) ==> a as int % alignment as int == 0 && old(self).pages().buddy().took(
                &final(self).pages().buddy(),
                vstd::set_lib::set_int_range(a as int, a + num_pages * PAGE_SIZE),
            ),
            r is Ok ==> final(self).spec_stats().used_pages == old(self).spec_stats().used_pages.wrapping_add(num_pages)
                && final(self).spec_stats().free_pages == old(self).spec_stats().free_pages.wrapping_sub(num_pages),
            r is Err ==> final(self).spec_stats() == old(self).spec_stats(),
            old(self).is_initialized() && old(self).pages().alloc_owed(num_pages, alignment) ==> r is Ok,
            final(self).slabs() == old(self).slabs(),
    {
        GlobalAllocator::alloc_pages(self, num_pages, alignment)
    }

    fn dealloc_pages(&mut self, pos: usize, num_pages: usize)
        ensures
            final(self).is_initialized() == old(self).is_initialized(),
            !old(self).is_initialized() ==> final(self).pages() == old(self).pages() && final(self).spec_stats()
                == old(self).spec_stats(),
            old(self).is_initialized() ==> old(self).pages().dealloc_effect(&final(self).pages(), pos, num_pages),
            old(self).is_initialized() ==> final(self).spec_stats().used_pages == vstd::math::clip(
                old(self).spec_stats().used_pages - num_pages,
            ) && final(self).spec_stats().free_pages == old(self).spec_stats().free_pages.wrapping_add(num_pages),
            final(self).spec_stats().total_pages == old(self).spec_stats().total_pages,
            final(self).slabs() == old(self).slabs(),
    {
        GlobalAllocator::dealloc_pages(self, pos, num_pages)
    }

    /// Allocate pages at `base`; `NoMemory` before `init`.
    fn alloc_pages_at(&mut self, base: usize, num_pages: usize, alignment: usize) -> (r: AllocResult<usize>)
        ensures
            !old(self).is_initialized() ==> r == Err::<usize, AllocError>(AllocError::NoMemory) && *final(self) == *old(self),
            r is Ok ==> r == Ok::<usize, AllocError>(base),
            final(self).is_initialized() == old(self).is_initialized(),
            old(self).is_initialized() ==> old(self).pages().buddy().place_effect(&final(self).pages().buddy(), base, num_pages, alignment, r),
            old(self).is_initialized() ==> final(self).pages().tracker() == old(self).pages().tracker(),
            r is Ok ==> final(self).spec_stats().used_pages == old(self).spec_stats().used_pages.wrapping_add(num_pages)
                && final(self).spec_stats().free_pages == old(self).spec_stats().free_pages.wrapping_sub(num_pages),
            r is Err ==> final(self).spec_stats() == old(self).spec_stats(),
            final(self).slabs() == old(self).slabs(),
    {
        if !self.initialized {
            return Err(AllocError::NoMemory);
        }
        let addr = match PageAllocator::alloc_pages_at(&mut self.page_allocator, base, num_pages, alignment) {
            Ok(a) => a,
            Err(e) => {
                return Err(e);
            },
        };
        self.stats.used_pages = self.stats.used_pages.wrapping_add(num_pages);
        self.stats.free_pages = self.stats.free_pages.wrapping_sub(num_pages);
        Ok(addr)
    }

    /// Pages counted by the statistics.
    fn total_pages(&self) -> (r: usize)
        ensures
            r == self.spec_stats().total_pages,
    {
        self.stats.total_pages
    }

    /// Pages handed out, by the statistics.
    fn used_pages(&self) -> (r: usize)
        ensures
            r == self.spec_stats().used_pages,
    {
        self.stats.used_pages
    }

    /// Pages free, by the statistics.
    fn available_pages(&self) -> (r: usize)
        ensures
            r == self.spec_stats().free_pages,
    {
        self.stats.free_pages
    }
}

} // verus!
