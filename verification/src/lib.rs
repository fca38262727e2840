//! Buddy + slab memory allocator with verified bookkeeping.
//!
//! Page-level allocation is served by a multi-zone buddy system whose
//! free lists draw their nodes from a shared node pool; small objects are
//! served by slab caches layered on top of a page allocator.
use vstd::prelude::*;

pub mod math;
pub mod buddy;
pub mod buddy_page_allocator;
pub mod page_allocator;
pub mod bitmap;
pub mod slab;
pub mod page_slab;
pub mod tracking;
pub mod global_allocator;
pub mod usage;
pub mod metrics;

pub use bitmap::{BitmapAllocator, BitmapZone};
pub use buddy::{BuddyPageAllocator, BuddyStats, DEFAULT_MAX_ORDER, MAX_ZONES};
pub use page_allocator::CompositePageAllocator;
pub use slab::{PageAllocatorForSlab, SizeClass, SlabByteAllocator};
pub use global_allocator::{GlobalAllocator, UsageStats};

verus! {

/// Default page size for backward compatibility.
pub const DEFAULT_PAGE_SIZE: usize = 0x1000;

/// The error type used for allocation.
#[derive(Debug, Clone, Copy, PartialEq, Eq, Structural)]
pub enum AllocError {
    /// Invalid `size` or alignment. (e.g. unaligned)
    InvalidParam,
    /// Memory added by `add_memory` overlapped with existed memory.
    MemoryOverlap,
    /// No enough memory to allocate.
    NoMemory,
    /// Deallocate an unallocated memory region.
    NotAllocated,
}

/// A `Result` type with [`AllocError`] as the error type.
pub type AllocResult<T = ()> = Result<T, AllocError>;

/// Size and alignment of a requested memory block.
///
/// `align` is always a power of two and `size`, rounded up to `align`,
/// does not exceed `isize::MAX`.
#[derive(Debug, Clone, Copy, PartialEq, Eq, Structural)]
pub struct Layout {
    size: usize,
    align: usize,
}

/// The conditions under which a size/alignment pair forms a valid layout.
pub open spec fn valid_layout(size: int, align: int) -> bool {
    &&& crate::math::is_pow2(align)
    &&& size + align - 1 <= isize::MAX
}

impl Layout {
    /// The view of a layout: its size and alignment.
    pub closed spec fn spec_size(self) -> usize {
        self.size
    }

    pub closed spec fn spec_align(self) -> usize {
        self.align
    }

    /// Invariant of every layout value.
    #[verifier::type_invariant]
    pub closed spec fn inv(self) -> bool {
        valid_layout(self.size as int, self.align as int)
    }

    /// Creates a layout; fails when `align` is not a power of two or when
    /// `size` rounded up to `align` exceeds `isize::MAX`.
    pub fn from_size_align(size: usize, align: usize) -> (r: Result<Layout, AllocError>)
        ensures
            r matches Ok(l) ==> l.spec_size() == size && l.spec_align() == align && l.inv(),
            r is Ok <==> valid_layout(size as int, align as int),
    {
        if !crate::math::is_power_of_two(align) {
            return Err(AllocError::InvalidParam);
        }
        proof {
            crate::math::lemma_is_pow2_pos(align as int);
        }
        if align - 1 > (isize::MAX as usize) || size > (isize::MAX as usize) - (align - 1) {
            return Err(AllocError::InvalidParam);
        }
        Ok(Layout { size, align })
    }

    /// The size and alignment of every layout form a valid layout.
    pub fn is_valid(&self) -> (r: bool)
        ensures
            r,
            valid_layout(self.spec_size() as int, self.spec_align() as int),
    {
        proof {
            use_type_invariant(self);
        }
        true
    }

    /// The size of the block, in bytes.
    pub fn size(&self) -> (r: usize)
        ensures r == self.spec_size(),
    {
        self.size
    }

    /// The alignment of the block, in bytes.
    pub fn align(&self) -> (r: usize)
        ensures
            r == self.spec_align(),
            crate::math::is_pow2(r as int),
    {
        proof {
            use_type_invariant(self);
        }
        self.align
    }
}

/// Address translator used by allocators to reason about physical addresses.
///
/// Implementations should provide a stable virtual-to-physical mapping
/// for the allocator-managed address range.
pub trait AddrTranslator: Sync {
    /// The physical address the stable mapping gives `va`; `None` where
    /// `va` is not valid or not mapped.
    spec fn translation(&self, va: usize) -> Option<usize>;

    /// Translate a virtual address to a physical address.
    ///
    /// Returns `None` if the address is not valid or not mapped.
    fn virt_to_phys(&self, va: usize) -> (r: Option<usize>)
        ensures
            r == self.translation(va),
    ;
}

/// The base allocator inherited by other allocators.
pub trait BaseAllocator {
    /// The invariant the allocator keeps between calls.
    spec fn inv(&self) -> bool;

    /// The regions `init` accepts.
    spec fn init_ok(&self, start: usize, size: usize) -> bool;

    /// The regions `add_memory` accepts.
    spec fn add_ok(&self, start: usize, size: usize) -> bool;

    /// Initialize the allocator with a free memory region.
    fn init(&mut self, start: usize, size: usize)
        requires
            old(self).init_ok(start, size),
        ensures
            final(self).inv(),
    ;

    /// Add a free memory region to the allocator.
    fn add_memory(&mut self, start: usize, size: usize) -> (r: AllocResult)
        requires
            old(self).inv(),
            old(self).add_ok(start, size),
        ensures
            final(self).inv(),
    ;
}

/// Byte-granularity allocator; addresses are plain machine words.
pub trait ByteAllocator {
    /// The invariant the allocator keeps between calls.
    spec fn inv(&self) -> bool;

    /// The blocks `dealloc` accepts.
    spec fn dealloc_ok(&self, pos: usize, layout: Layout) -> bool;

    /// Allocate memory with the given size (in bytes) and alignment.
    fn alloc_bytes(&mut self, layout: Layout) -> (r: AllocResult<usize>)
        requires
            old(self).inv(),
        ensures
            final(self).inv(),
    ;

    /// Deallocate memory at the given position, size, and alignment.
    fn dealloc(&mut self, pos: usize, layout: Layout)
        requires
            old(self).inv(),
            old(self).dealloc_ok(pos, layout),
        ensures
            final(self).inv(),
    ;

    /// Returns total memory size in bytes.
    fn total_bytes(&self) -> usize;

    /// Returns allocated memory size in bytes.
    fn used_bytes(&self) -> usize;

    /// Returns available memory size in bytes.
    fn available_bytes(&self) -> usize;
}

/// Page-granularity allocator.
pub trait PageAllocator: BaseAllocator {
    /// The requests `alloc_pages` accepts.
    spec fn alloc_ok(&self, num_pages: usize, alignment: usize) -> bool;

    /// The requests `alloc_pages_at` accepts.
    spec fn place_ok(&self, base: usize, num_pages: usize, alignment: usize) -> bool;

    /// Allocate contiguous memory pages with given count and alignment (in bytes).
    fn alloc_pages(&mut self, num_pages: usize, alignment: usize) -> (r: AllocResult<usize>)
        requires
            old(self).inv(),
            old(self).alloc_ok(num_pages, alignment),
        ensures
            final(self).inv(),
    ;

    /// Deallocate contiguous memory pages with given position and count.
    fn dealloc_pages(&mut self, pos: usize, num_pages: usize)
        requires
            old(self).inv(),
        ensures
            final(self).inv(),
    ;

    /// Allocate contiguous memory pages with given base address, count and alignment (in bytes).
    fn alloc_pages_at(&mut self, base: usize, num_pages: usize, alignment: usize) -> (r: AllocResult<usize>)
        requires
            old(self).inv(),
            old(self).place_ok(base, num_pages, alignment),
        ensures
            final(self).inv(),
    ;

    /// Returns the total number of memory pages.
    fn total_pages(&self) -> usize
        requires
            self.inv(),
    ;

    /// Returns the number of allocated memory pages.
    fn used_pages(&self) -> usize
        requires
            self.inv(),
    ;

    /// Returns the number of available memory pages.
    fn available_pages(&self) -> usize
        requires
            self.inv(),
    ;
}

/// Used to allocate unique IDs (e.g., thread ID).
pub trait IdAllocator: BaseAllocator {
    /// Allocate contiguous IDs with given count and alignment.
    fn alloc_id(&mut self, count: usize, alignment: usize) -> AllocResult<usize>;

    /// Deallocate contiguous IDs with given position and count.
    fn dealloc_id(&mut self, start_id: usize, count: usize);

    /// Whether the given `id` was allocated.
    fn is_allocated(&self, id: usize) -> bool;

    /// Mark the given `id` has been allocated and cannot be reallocated.
    fn alloc_fixed_id(&mut self, id: usize) -> AllocResult;

    /// Returns the maximum number of supported IDs.
    fn size(&self) -> usize;

    /// Returns the number of allocated IDs.
    fn used(&self) -> usize;

    /// Returns the number of available IDs.
    fn available(&self) -> usize;
}

/// Rounds `pos` down to a multiple of `align`.
pub fn align_down(pos: usize, align: usize) -> (r: usize)
    requires align > 0,
    ensures
        r <= pos,
        r % align == 0,
        pos - r < align,
        r == pos - pos % align,
{
    proof {
        vstd::arithmetic::div_mod::lemma_mod_bound(pos as int, align as int);
        vstd::arithmetic::div_mod::lemma_fundamental_div_mod(pos as int, align as int);
        vstd::arithmetic::div_mod::lemma_mod_multiples_basic((pos / align) as int, align as int);
        assert(pos - pos % align == (pos / align) * align) by (nonlinear_arith)
            requires pos == align * (pos / align) + pos % align;
    }
    pos - pos % align
}

/// Rounds `pos` up to a multiple of `align`.
pub fn align_up(pos: usize, align: usize) -> (r: usize)
    requires
        align > 0,
        crate::math::round_up(pos as int, align as int) <= usize::MAX,
    ensures
        r >= pos,
        r % align == 0,
        r - pos < align,
        r == crate::math::round_up(pos as int, align as int),
{
    let rem = pos % align;
    proof {
        vstd::arithmetic::div_mod::lemma_mod_bound(pos as int, align as int);
    }
    if rem == 0 {
        pos
    } else {
        proof {
            vstd::arithmetic::div_mod::lemma_fundamental_div_mod(pos as int, align as int);
            vstd::arithmetic::div_mod::lemma_mod_multiples_basic((pos / align) as int + 1, align as int);
            assert((pos - rem + align) == ((pos / align) + 1) * align) by (nonlinear_arith)
                requires pos == align * (pos / align) + rem;
        }
        pos - rem + align
    }
}

/// Checks whether the address has the demanded alignment.
pub fn is_aligned(base_addr: usize, align: usize) -> (r: bool)
    requires align > 0,
    ensures r == (base_addr % align == 0),
{
    base_addr % align == 0
}

} // verus!
