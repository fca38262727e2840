//! Zones whose pages are tracked by a bitmap, and an allocator over up to
//! `MAX_ZONES` of them.
//!
//! A zone's region starts with its bitmap (rounded up to whole pages); the
//! pages after it are the allocatable ones. Bit `i` of the bitmap is set
//! while allocatable page `i` is free. The bitmap is kept in 64-bit words.
use vstd::prelude::*;
use vstd::set_lib::set_int_range;
use crate::{AllocError, AllocResult};
use crate::math::{is_pow2, round_down, round_up};
use crate::slab::free_bitmap::{bit_of, lemma_clear_bit_word, lemma_set_bit_word, lemma_full_word};

verus! {

/// Maximum number of memory zones supported.
pub const MAX_ZONES: usize = 16;

/// Bits in one bitmap word.
pub const WORD_BITS: usize = 64;

/// Bytes in one bitmap word.
pub const WORD_BYTES: usize = 8;

/// Bytes of bitmap a zone of `total_pages` pages reserves: one bit per
/// page, in whole words, rounded up to whole pages.
pub open spec fn metadata_bytes(total_pages: int, page_size: int) -> int {
    ((total_pages + 63) / 64 * 8 + page_size - 1) / page_size * page_size
}

/// The page size a bitmap zone can work with: a power of two of at least
/// one word, so that a bitmap never takes more pages than it describes.
pub open spec fn page_size_fits(page_size: int) -> bool {
    is_pow2(page_size) && page_size >= 8
}

/// A single memory zone managed by a bitmap.
#[derive(Clone)]
pub struct BitmapZone<const PAGE_SIZE: usize> {
    /// Base address of zone (aligned)
    pub base_addr: usize,
    /// End address of zone (exclusive, aligned)
    pub end_addr: usize,
    /// Start address of allocatable pages (after bitmap)
    pub alloc_start: usize,
    /// Number of allocatable pages in this zone
    pub alloc_pages: usize,
    /// Base address of bitmap (in the zone)
    pub bitmap_base: usize,
    /// Size of bitmap in bytes
    pub bitmap_size: usize,
    /// Total number of pages in the zone (including bitmap pages)
    pub total_pages: usize,
    /// The bitmap words: bit `i % 64` of word `i / 64` is set while
    /// allocatable page `i` is free.
    pub bitmap: Vec<u64>,
}

impl<const PAGE_SIZE: usize> BitmapZone<PAGE_SIZE> {
    /// Allocatable page `i` is free.
    pub open spec fn is_free(&self, i: int) -> bool {
        &&& 0 <= i < self.alloc_pages
        &&& i / 64 < self.bitmap@.len()
        &&& bit_of(self.bitmap@[i / 64], i % 64)
    }

    /// The free allocatable pages, by index.
    pub open spec fn free_set(&self) -> Set<int> {
        Set::new(|i: int| self.is_free(i))
    }

    /// The bitmap covers every allocatable page, which lie page-aligned
    /// within the address space.
    pub open spec fn wf(&self) -> bool {
        &&& self.alloc_pages <= self.bitmap@.len() * 64
        &&& self.alloc_start as int % PAGE_SIZE as int == 0
        &&& self.alloc_start + self.alloc_pages * PAGE_SIZE <= usize::MAX
    }

    /// The descriptive fields of the two zones agree.
    pub open spec fn same_layout(&self, other: &Self) -> bool {
        &&& self.base_addr == other.base_addr
        &&& self.end_addr == other.end_addr
        &&& self.alloc_start == other.alloc_start
        &&& self.alloc_pages == other.alloc_pages
        &&& self.bitmap_base == other.bitmap_base
        &&& self.bitmap_size == other.bitmap_size
        &&& self.total_pages == other.total_pages
    }

    /// The zone lays out the page-aligned hull of `[start, start + size)`:
    /// the bitmap first, the allocatable pages after it.
    pub open spec fn laid_out(&self, start: int, size: int) -> bool {
        let a0 = round_down(start, PAGE_SIZE as int);
        let a1 = round_up(start + size, PAGE_SIZE as int);
        let total = (a1 - a0) / PAGE_SIZE as int;
        let meta = metadata_bytes(total, PAGE_SIZE as int);
        &&& self.base_addr == a0
        &&& self.end_addr == a1
        &&& self.total_pages == total
        &&& self.bitmap_base == a0
        &&& self.bitmap_size == meta
        &&& self.alloc_start == a0 + meta
        &&& self.alloc_pages == total - meta / PAGE_SIZE as int
    }

    /// The region `[start, start + size)` spans at least two pages once
    /// aligned, one for the bitmap and one to allocate.
    pub open spec fn region_fits(start: int, size: int) -> bool {
        round_up(start + size, PAGE_SIZE as int) - round_down(start, PAGE_SIZE as int) >= 2 * PAGE_SIZE
    }

    /// Pages `[p, p + n)` are all allocatable and free.
    pub open spec fn fits(&self, p: int, n: int) -> bool {
        &&& 0 <= p
        &&& p + n <= self.alloc_pages
        &&& forall|i: int| p <= i < p + n ==> #[trigger] self.is_free(i)
    }

    /// The first page index the search for `align_pages`-aligned blocks
    /// tries: the first one whose address is a multiple of
    /// `align_pages` pages.
    pub open spec fn start_offset(&self, align_pages: int) -> int {
        if align_pages > 1 {
            let align_bytes = align_pages * PAGE_SIZE;
            let misalign = self.alloc_start as int % align_bytes;
            if misalign != 0 {
                (align_bytes - misalign) / PAGE_SIZE as int
            } else {
                0
            }
        } else {
            0
        }
    }

    /// Page `p` is one of those the search for `align_pages`-aligned
    /// blocks tries.
    pub open spec fn candidate(&self, align_pages: int, p: int) -> bool {
        &&& p >= self.start_offset(align_pages)
        &&& (p - self.start_offset(align_pages)) % align_pages == 0
    }

    /// Pages per alignment step for an `alignment` in bytes.
    pub open spec fn align_pages(alignment: int) -> int {
        if alignment > PAGE_SIZE {
            alignment / PAGE_SIZE as int
        } else {
            1
        }
    }

    /// The request `alloc_pages` refuses as invalid.
    pub open spec fn bad_request(&self, num_pages: int, alignment: int) -> bool {
        num_pages == 0 || num_pages > self.alloc_pages || !is_pow2(alignment)
    }

    /// The first page at which `alloc_pages` places `num_pages` pages.
    pub open spec fn first_fit(&self, num_pages: int, alignment: int, p: int) -> bool {
        let ap = Self::align_pages(alignment);
        &&& self.candidate(ap, p)
        &&& self.fits(p, num_pages)
        &&& forall|q: int| #[trigger] self.candidate(ap, q) && q < p ==> !self.fits(q, num_pages)
    }

    /// Some page can take `num_pages` pages for `alignment`.
    pub open spec fn has_fit(&self, num_pages: int, alignment: int) -> bool {
        exists|p: int| #[trigger] self.candidate(Self::align_pages(alignment), p) && self.fits(p, num_pages)
    }

    /// `alloc_pages` succeeds on the request.
    pub open spec fn can_alloc(&self, num_pages: int, alignment: int) -> bool {
        !self.bad_request(num_pages, alignment) && self.has_fit(num_pages, alignment)
    }

    /// `after` is this zone once `alloc_pages(num_pages, alignment)` has
    /// handed out the block at `a`.
    pub open spec fn allocated(&self, after: &Self, num_pages: int, alignment: int, a: int) -> bool {
        let p = (a - self.alloc_start) / PAGE_SIZE as int;
        &&& after.wf()
        &&& after.same_layout(self)
        &&& self.first_fit(num_pages, alignment, p)
        &&& a == self.alloc_start + p * PAGE_SIZE
        &&& a % alignment == 0
        &&& after.free_set() == self.free_set().difference(set_int_range(p, p + num_pages))
    }

    /// `after` is this zone once `dealloc_pages(addr, num_pages)` has run.
    pub open spec fn freed(&self, after: &Self, addr: int, num_pages: int) -> bool {
        let p = (addr - self.alloc_start) / PAGE_SIZE as int;
        &&& after.wf()
        &&& after.same_layout(self)
        &&& self.frees(addr, num_pages) ==> after.free_set() == self.free_set().union(set_int_range(p, p + num_pages))
        &&& !self.frees(addr, num_pages) ==> after.free_set() == self.free_set()
    }

    /// Pages `[p, p + n)` are all free.
    pub open spec fn all_free(&self, p: int, n: int) -> bool {
        forall|i: int| p <= i < p + n ==> #[trigger] self.is_free(i)
    }

    /// Create an empty zone.
    pub fn empty() -> (r: Self)
        ensures
            r.base_addr == 0,
            r.end_addr == 0,
            r.alloc_start == 0,
            r.alloc_pages == 0,
            r.bitmap_base == 0,
            r.bitmap_size == 0,
            r.total_pages == 0,
            r.free_set() == Set::<int>::empty(),
            page_size_fits(PAGE_SIZE as int) ==> r.wf(),
    {
        let r = BitmapZone {
            base_addr: 0,
            end_addr: 0,
            alloc_start: 0,
            alloc_pages: 0,
            bitmap_base: 0,
            bitmap_size: 0,
            total_pages: 0,
            bitmap: Vec::new(),
        };
        proof {
            if page_size_fits(PAGE_SIZE as int) {
                crate::math::lemma_is_pow2_pos(PAGE_SIZE as int);
                vstd::arithmetic::div_mod::lemma_small_mod(0, PAGE_SIZE as nat);
            }
        }
        assert(r.free_set() =~= Set::<int>::empty());
        r
    }

    /// Calculate the metadata size (bitmap) needed for a given number of pages.
    pub fn calculate_metadata_size(total_pages: usize) -> (r: usize)
        requires
            PAGE_SIZE > 0,
            total_pages + 63 <= usize::MAX,
            (total_pages + 63) / 64 * 8 + PAGE_SIZE - 1 <= usize::MAX,
        ensures
            r == metadata_bytes(total_pages as int, PAGE_SIZE as int),
    {
        let words_needed = (total_pages + (WORD_BITS - 1)) / WORD_BITS;
        let bytes_needed = words_needed * WORD_BYTES;
        proof {
            let x = (bytes_needed + PAGE_SIZE - 1) as int;
            vstd::arithmetic::div_mod::lemma_fundamental_div_mod(x, PAGE_SIZE as int);
            vstd::arithmetic::div_mod::lemma_mod_bound(x, PAGE_SIZE as int);
            assert(x / PAGE_SIZE as int * PAGE_SIZE as int <= x) by (nonlinear_arith)
                requires x == PAGE_SIZE * (x / PAGE_SIZE as int) + x % PAGE_SIZE as int, x % PAGE_SIZE as int >= 0;
        }
        (bytes_needed + (PAGE_SIZE - 1)) / PAGE_SIZE * PAGE_SIZE
    }

    /// Initialize the zone with the memory region `[start, start + size)`.
    /// A region smaller than two pages once aligned leaves the zone with
    /// base and end zero.
    pub fn init(&mut self, start: usize, size: usize)
        requires
            page_size_fits(PAGE_SIZE as int),
            old(self).wf(),
            start + size + PAGE_SIZE <= usize::MAX,
        ensures
            final(self).wf(),
            !Self::region_fits(start as int, size as int) ==> {
                &&& final(self).base_addr == 0
                &&& final(self).end_addr == 0
                &&& final(self).alloc_start == old(self).alloc_start
                &&& final(self).alloc_pages == old(self).alloc_pages
                &&& final(self).bitmap_base == old(self).bitmap_base
                &&& final(self).bitmap_size == old(self).bitmap_size
                &&& final(self).total_pages == old(self).total_pages
                &&& final(self).bitmap == old(self).bitmap
            },
            Self::region_fits(start as int, size as int) ==> {
                &&& final(self).laid_out(start as int, size as int)
                &&& final(self).free_set() == set_int_range(0, final(self).alloc_pages as int)
            },
    {
        proof {
            crate::math::lemma_is_pow2_pos(PAGE_SIZE as int);
            crate::math::lemma_round_up((start + size) as int, PAGE_SIZE as int);
        }
        let aligned_start = crate::align_down(start, PAGE_SIZE);
        let aligned_end = crate::align_up(start + size, PAGE_SIZE);
        let aligned_size = aligned_end - aligned_start;
        if aligned_size / PAGE_SIZE < 2 {
            proof {
                lemma_two_pages(aligned_size as int, PAGE_SIZE as int);
            }
            self.base_addr = 0;
            self.end_addr = 0;
            return;
        }
        proof {
            lemma_two_pages(aligned_size as int, PAGE_SIZE as int);
            crate::math::lemma_mod_add(aligned_end as int, aligned_start as int, PAGE_SIZE as int);
        }
        let total_pages = aligned_size / PAGE_SIZE;
        proof {
            lemma_zone_sizes(aligned_size as int, total_pages as int, PAGE_SIZE as int);
        }
        let metadata_size = Self::calculate_metadata_size(total_pages);
        proof {
            lemma_layout(total_pages as int, PAGE_SIZE as int);
        }
        let metadata_pages = metadata_size / PAGE_SIZE;
        self.base_addr = aligned_start;
        self.end_addr = aligned_end;
        self.bitmap_base = aligned_start;
        self.bitmap_size = metadata_size;
        self.alloc_start = aligned_start + metadata_size;
        self.alloc_pages = total_pages - metadata_pages;
        self.total_pages = total_pages;
        let words_count = self.bitmap_size / WORD_BYTES;
        self.bitmap = vec![u64::MAX; words_count];
        proof {
            crate::math::lemma_mod_add(aligned_start as int, metadata_size as int, PAGE_SIZE as int);
            assert(self.alloc_start + self.alloc_pages * PAGE_SIZE == aligned_end) by (nonlinear_arith)
                requires
                    self.alloc_start == aligned_start + metadata_size,
                    self.alloc_pages == total_pages - metadata_pages,
                    metadata_size == metadata_pages * PAGE_SIZE,
                    aligned_end - aligned_start == total_pages * PAGE_SIZE;
            assert forall|i: int| self.free_set().contains(i) <==> set_int_range(0, self.alloc_pages as int).contains(i) by {
                if 0 <= i < self.alloc_pages {
                    assert(self.bitmap@[i / 64] == u64::MAX);
                    lemma_full_word((i % 64) as u64);
                }
            }
            assert(self.free_set() =~= set_int_range(0, self.alloc_pages as int));
        }
    }

    /// `dealloc_pages` frees `num_pages` pages at `addr`: a page-aligned
    /// address among the allocatable pages with the whole range inside them.
    pub open spec fn frees(&self, addr: int, num_pages: int) -> bool {
        &&& num_pages > 0
        &&& self.alloc_start <= addr < self.end_addr
        &&& addr % PAGE_SIZE as int == 0
        &&& (addr - self.alloc_start) / PAGE_SIZE as int + num_pages <= self.alloc_pages
    }

    /// The free pages among the first `n`.
    pub open spec fn free_below(&self, n: int) -> Set<int> {
        Set::new(|i: int| 0 <= i < n && self.is_free(i))
    }

    /// Allocate `num_pages` contiguous pages aligned to `alignment` bytes:
    /// the first fit among the aligned positions, lowest first.
    pub fn alloc_pages(&mut self, num_pages: usize, alignment: usize) -> (r: AllocResult<usize>)
        requires
            old(self).wf(),
            page_size_fits(PAGE_SIZE as int),
        ensures
            final(self).wf(),
            final(self).same_layout(&*old(self)),
            old(self).bad_request(num_pages as int, alignment as int) ==> r == Err::<usize, AllocError>(AllocError::InvalidParam),
            !old(self).bad_request(num_pages as int, alignment as int) && !old(self).has_fit(num_pages as int, alignment as int)
                ==> r == Err::<usize, AllocError>(AllocError::NoMemory),
            r is Ok <==> old(self).can_alloc(num_pages as int, alignment as int),
            r is Err ==> *final(self) == *old(self),
            r matches Ok(a) ==> old(self).allocated(&*final(self), num_pages as int, alignment as int, a as int),
            r matches Ok(a) ==> {
                let p = (a - old(self).alloc_start) / PAGE_SIZE as int;
                &&& old(self).first_fit(num_pages as int, alignment as int, p)
                &&& a == old(self).alloc_start + p * PAGE_SIZE
                &&& a as int % alignment as int == 0
                &&& final(self).free_set() == old(self).free_set().difference(set_int_range(p, p + num_pages))
            },
    {
        if num_pages == 0 || num_pages > self.alloc_pages {
            return Err(AllocError::InvalidParam);
        }
        if alignment == 0 || !crate::math::is_power_of_two(alignment) {
            proof {
                if alignment == 0 && is_pow2(0) {
                    crate::math::lemma_is_pow2_pos(0);
                }
            }
            return Err(AllocError::InvalidParam);
        }
        proof {
            crate::math::lemma_is_pow2_pos(PAGE_SIZE as int);
            if alignment > PAGE_SIZE {
                crate::math::lemma_pow2_le_divides(PAGE_SIZE as int, alignment as int);
            }
        }
        let align_pages = if alignment > PAGE_SIZE {
            alignment / PAGE_SIZE
        } else {
            1
        };
        proof {
            if alignment > PAGE_SIZE {
                assert(align_pages * PAGE_SIZE == alignment) by (nonlinear_arith)
                    requires alignment as int == PAGE_SIZE * (alignment as int / PAGE_SIZE as int), align_pages as int == alignment as int / PAGE_SIZE as int;
                assert(align_pages >= 1) by (nonlinear_arith)
                    requires align_pages * PAGE_SIZE == alignment, alignment > PAGE_SIZE, PAGE_SIZE > 0;
            }
        }
        assert(align_pages == Self::align_pages(alignment as int));
        match self.find_contiguous_free_pages(num_pages, align_pages) {
            Some(start_page) => {
                let ghost z0 = *self;
                assert(z0.has_fit(num_pages as int, alignment as int));
                let mut i: usize = 0;
                while i < num_pages
                    invariant
                        z0 == *old(self),
                        self.wf(),
                        self.same_layout(&z0),
                        i <= num_pages,
                        start_page + num_pages <= z0.alloc_pages,
                        self.free_set() == z0.free_set().difference(set_int_range(start_page as int, start_page + i)),
                    decreases num_pages - i,
                {
                    self.clear_bit(start_page + i);
                    i = i + 1;
                    proof {
                        assert(self.free_set() =~= z0.free_set().difference(set_int_range(start_page as int, start_page + i)));
                    }
                }
                proof {
                    assert(start_page * PAGE_SIZE <= z0.alloc_pages * PAGE_SIZE) by (nonlinear_arith)
                        requires start_page + num_pages <= z0.alloc_pages, PAGE_SIZE > 0;
                }
                let addr = self.alloc_start + start_page * PAGE_SIZE;
                proof {
                    lemma_candidate_aligned(z0.alloc_start as int, PAGE_SIZE as int, alignment as int, start_page as int);
                    vstd::arithmetic::div_mod::lemma_div_multiples_vanish(start_page as int, PAGE_SIZE as int);
                    assert((addr - z0.alloc_start) / PAGE_SIZE as int == start_page) by {
                        assert(start_page * PAGE_SIZE == PAGE_SIZE * start_page) by (nonlinear_arith);
                    }
                }
                if addr % alignment != 0 {
                    let mut j: usize = 0;
                    while j < num_pages
                        invariant
                            j <= num_pages,
                            self.wf(),
                            start_page + num_pages <= self.alloc_pages,
                        decreases num_pages - j,
                    {
                        self.set_bit(start_page + j);
                        j = j + 1;
                    }
                    return Err(AllocError::NoMemory);
                }
                Ok(addr)
            },
            None => Err(AllocError::NoMemory),
        }
    }

    /// Find the first `align_pages`-aligned position with `num_pages` free
    /// pages from it on.
    fn find_contiguous_free_pages(&self, num_pages: usize, align_pages: usize) -> (r: Option<usize>)
        requires
            self.wf(),
            page_size_fits(PAGE_SIZE as int),
            num_pages >= 1,
            align_pages >= 1,
            align_pages * PAGE_SIZE <= usize::MAX,
        ensures
            r matches Some(p) ==> self.candidate(align_pages as int, p as int) && self.fits(p as int, num_pages as int)
                && forall|q: int| #[trigger] self.candidate(align_pages as int, q) && q < p ==> !self.fits(q, num_pages as int),
            r is None ==> forall|q: int| #[trigger] self.candidate(align_pages as int, q) ==> !self.fits(q, num_pages as int),
    {
        proof {
            crate::math::lemma_is_pow2_pos(PAGE_SIZE as int);
        }
        let base_offset = if align_pages > 1 {
            let align_bytes = align_pages * PAGE_SIZE;
            assert(align_bytes > 0) by (nonlinear_arith) requires align_bytes == align_pages * PAGE_SIZE, align_pages > 1, PAGE_SIZE > 0;
            let misalign = self.alloc_start % align_bytes;
            if misalign != 0 {
                let adjust_bytes = align_bytes - misalign;
                proof {
                    vstd::arithmetic::div_mod::lemma_div_is_ordered(adjust_bytes as int, align_bytes as int, PAGE_SIZE as int);
                    vstd::arithmetic::div_mod::lemma_div_multiples_vanish(align_pages as int, PAGE_SIZE as int);
                    assert(align_bytes == PAGE_SIZE * align_pages) by (nonlinear_arith) requires align_bytes == align_pages * PAGE_SIZE;
                }
                adjust_bytes / PAGE_SIZE
            } else {
                0
            }
        } else {
            0
        };
        proof {
            vstd::arithmetic::div_mod::lemma_small_mod(0, align_pages as nat);
            assert(self.alloc_pages * PAGE_SIZE <= usize::MAX);
        }
        let mut start = base_offset;
        while start < self.alloc_pages
            invariant
                self.wf(),
                page_size_fits(PAGE_SIZE as int),
                PAGE_SIZE >= 8,
                num_pages >= 1,
                align_pages >= 1,
                align_pages * PAGE_SIZE <= usize::MAX,
                base_offset == self.start_offset(align_pages as int),
                self.candidate(align_pages as int, start as int),
                forall|q: int| #[trigger] self.candidate(align_pages as int, q) && q < start ==> !self.fits(q, num_pages as int),
                start <= self.alloc_pages + align_pages,
            decreases self.alloc_pages + align_pages - start,
        {
            if num_pages > self.alloc_pages - start {
                proof {
                    assert forall|q: int| #[trigger] self.candidate(align_pages as int, q) implies !self.fits(q, num_pages as int) by {
                    }
                }
                return None;
            }
            let mut i: usize = 0;
            while i < num_pages && self.is_bit_set(start + i)
                invariant
                    self.wf(),
                    i <= num_pages,
                    start + num_pages <= self.alloc_pages,
                    forall|k: int| start <= k < start + i ==> #[trigger] self.is_free(k),
                decreases num_pages - i,
            {
                i = i + 1;
            }
            if i == num_pages {
                return Some(start);
            }
            proof {
                assert(!self.fits(start as int, num_pages as int)) by {
                    assert(!self.is_free(start + i));
                }
                assert(start + align_pages <= usize::MAX) by (nonlinear_arith)
                    requires
                        start < self.alloc_pages,
                        self.alloc_pages * PAGE_SIZE <= usize::MAX,
                        align_pages * PAGE_SIZE <= usize::MAX,
                        PAGE_SIZE >= 8;
            }
            let ghost prev = start as int;
            start = start + align_pages;
            proof {
                let b = self.start_offset(align_pages as int);
                crate::math::lemma_mod_add(prev - b, align_pages as int, align_pages as int);
                assert forall|q: int| #[trigger] self.candidate(align_pages as int, q) && q < start implies !self.fits(q, num_pages as int) by {
                    if q > prev {
                        crate::math::lemma_multiples_gap(prev - b, q - b, align_pages as int);
                    }
                }
            }
        }
        None
    }

    /// Free `num_pages` pages at `addr`; a request outside the allocatable
    /// pages is ignored.
    pub fn dealloc_pages(&mut self, addr: usize, num_pages: usize)
        requires
            old(self).wf(),
            page_size_fits(PAGE_SIZE as int),
        ensures
            final(self).wf(),
            final(self).same_layout(&*old(self)),
            old(self).frees(addr as int, num_pages as int) ==> {
                let p = (addr - old(self).alloc_start) / PAGE_SIZE as int;
                final(self).free_set() == old(self).free_set().union(set_int_range(p, p + num_pages))
            },
            !old(self).frees(addr as int, num_pages as int) ==> final(self).free_set() == old(self).free_set(),
            old(self).freed(&*final(self), addr as int, num_pages as int),
    {
        proof {
            crate::math::lemma_is_pow2_pos(PAGE_SIZE as int);
        }
        if num_pages == 0 {
            return;
        }
        if addr < self.alloc_start || addr >= self.end_addr {
            return;
        }
        if addr % PAGE_SIZE != 0 {
            return;
        }
        let page_offset = (addr - self.alloc_start) / PAGE_SIZE;
        if page_offset > self.alloc_pages || num_pages > self.alloc_pages - page_offset {
            return;
        }
        let ghost z0 = *self;
        let mut i: usize = 0;
        while i < num_pages
            invariant
                z0 == *old(self),
                self.wf(),
                self.same_layout(&z0),
                i <= num_pages,
                page_offset + num_pages <= z0.alloc_pages,
                self.free_set() == z0.free_set().union(set_int_range(page_offset as int, page_offset + i)),
            decreases num_pages - i,
        {
            self.set_bit(page_offset + i);
            i = i + 1;
            proof {
                assert(self.free_set() =~= z0.free_set().union(set_int_range(page_offset as int, page_offset + i)));
            }
        }
    }

    /// Count the number of free pages in this zone.
    pub fn free_pages(&self) -> (r: usize)
        requires
            self.wf(),
        ensures
            r == self.free_set().len(),
            r <= self.alloc_pages,
            self.free_set().finite(),
    {
        let mut free_count: usize = 0;
        let mut i: usize = 0;
        proof {
            assert(self.free_below(0) =~= Set::<int>::empty());
        }
        while i < self.alloc_pages
            invariant
                self.wf(),
                i <= self.alloc_pages,
                self.free_below(i as int).finite(),
                free_count == self.free_below(i as int).len(),
                free_count <= i,
            decreases self.alloc_pages - i,
        {
            let ghost below = self.free_below(i as int);
            if self.is_bit_set(i) {
                free_count = free_count + 1;
                proof {
                    assert(self.free_below(i + 1) =~= below.insert(i as int));
                }
            } else {
                proof {
                    assert(self.free_below(i + 1) =~= below);
                }
            }
            i = i + 1;
        }
        proof {
            assert(self.free_set() =~= self.free_below(self.alloc_pages as int));
        }
        free_count
    }

    /// Count the number of used pages in this zone.
    pub fn used_pages(&self) -> (r: usize)
        requires
            self.wf(),
        ensures
            r == self.alloc_pages - self.free_set().len(),
    {
        self.alloc_pages - self.free_pages()
    }

    /// Whether allocatable page `page` is free; `false` for a page past the
    /// allocatable ones.
    fn is_bit_set(&self, page: usize) -> (r: bool)
        requires
            self.wf(),
        ensures
            r == self.is_free(page as int),
    {
        if page >= self.alloc_pages {
            return false;
        }
        let word_idx = page / WORD_BITS;
        let bit_idx = (page % WORD_BITS) as u64;
        (self.bitmap[word_idx] >> bit_idx) & 1u64 == 1u64
    }

    /// Mark allocatable page `page` as free.
    fn set_bit(&mut self, page: usize)
        requires
            old(self).wf(),
            page < old(self).alloc_pages,
        ensures
            final(self).wf(),
            final(self).same_layout(&*old(self)),
            final(self).bitmap@.len() == old(self).bitmap@.len(),
            final(self).free_set() == old(self).free_set().insert(page as int),
    {
        let word_idx = page / WORD_BITS;
        let bit_idx = (page % WORD_BITS) as u64;
        let w = self.bitmap[word_idx];
        self.bitmap.set(word_idx, w | (1u64 << bit_idx));
        proof {
            assert forall|j: int| #[trigger] self.is_free(j) <==> j == page || old(self).is_free(j) by {
                if 0 <= j < self.alloc_pages {
                    let jb = (j % 64) as u64;
                    if j / 64 == word_idx as int {
                        assert(jb == bit_idx <==> j == page) by {
                            vstd::arithmetic::div_mod::lemma_fundamental_div_mod(j, 64);
                            vstd::arithmetic::div_mod::lemma_fundamental_div_mod(page as int, 64);
                        }
                        lemma_set_bit_word(w, bit_idx, jb);
                    } else if j == page {
                        assert(false);
                    }
                }
            }
            assert(self.free_set() =~= old(self).free_set().insert(page as int));
        }
    }

    /// Mark allocatable page `page` as taken.
    fn clear_bit(&mut self, page: usize)
        requires
            old(self).wf(),
            page < old(self).alloc_pages,
        ensures
            final(self).wf(),
            final(self).same_layout(&*old(self)),
            final(self).bitmap@.len() == old(self).bitmap@.len(),
            final(self).free_set() == old(self).free_set().remove(page as int),
    {
        let word_idx = page / WORD_BITS;
        let bit_idx = (page % WORD_BITS) as u64;
        let w = self.bitmap[word_idx];
        self.bitmap.set(word_idx, w & !(1u64 << bit_idx));
        proof {
            assert forall|j: int| #[trigger] self.is_free(j) <==> j != page && old(self).is_free(j) by {
                if 0 <= j < self.alloc_pages {
                    let jb = (j % 64) as u64;
                    if j / 64 == word_idx as int {
                        assert(jb == bit_idx <==> j == page) by {
                            vstd::arithmetic::div_mod::lemma_fundamental_div_mod(j, 64);
                            vstd::arithmetic::div_mod::lemma_fundamental_div_mod(page as int, 64);
                        }
                        lemma_clear_bit_word(w, bit_idx, jb);
                    } else if j == page {
                        assert(false);
                    }
                }
            }
            assert(self.free_set() =~= old(self).free_set().remove(page as int));
        }
    }
}

/// A zone whose allocatable pages contain `addr`.
pub open spec fn zone_contains<const PAGE_SIZE: usize>(z: BitmapZone<PAGE_SIZE>, addr: int) -> bool {
    z.alloc_start <= addr < z.end_addr
}

/// The region `[start, start + size)` meets the zone's region.
pub open spec fn zone_overlaps<const PAGE_SIZE: usize>(z: BitmapZone<PAGE_SIZE>, start: int, size: int) -> bool {
    !(start + size <= z.base_addr || start >= z.end_addr)
}

/// The sum of `f` over the zones.
pub open spec fn zones_sum<const PAGE_SIZE: usize>(zs: Seq<BitmapZone<PAGE_SIZE>>, f: spec_fn(BitmapZone<PAGE_SIZE>) -> nat) -> nat
    decreases zs.len(),
{
    if zs.len() == 0 {
        0
    } else {
        zones_sum(zs.drop_last(), f) + f(zs.last())
    }
}

/// `n`, or `usize::MAX` if it is larger.
pub open spec fn saturate(n: nat) -> nat {
    if n > usize::MAX { usize::MAX as nat } else { n }
}

/// Multi-zone bitmap allocator.
pub struct BitmapAllocator<const PAGE_SIZE: usize> {
    zones: Vec<BitmapZone<PAGE_SIZE>>,
    num_zones: usize,
}

impl<const PAGE_SIZE: usize> BitmapAllocator<PAGE_SIZE> {
    /// The zones, in the order they were added.
    pub closed spec fn spec_zones(&self) -> Seq<BitmapZone<PAGE_SIZE>> {
        self.zones@
    }

    /// At most `MAX_ZONES` zones, each well formed, over a page size they
    /// can work with.
    pub closed spec fn wf(&self) -> bool {
        &&& self.zones@.len() == self.num_zones
        &&& self.num_zones <= MAX_ZONES
        &&& forall|i: int| 0 <= i < self.zones@.len() ==> #[trigger] self.zones@[i].wf()
        &&& page_size_fits(PAGE_SIZE as int)
    }

    /// Some zone's region meets `[start, start + size)`.
    pub open spec fn overlaps_any(&self, start: int, size: int) -> bool {
        exists|i: int| 0 <= i < self.spec_zones().len() && #[trigger] zone_overlaps(self.spec_zones()[i], start, size)
    }

    /// `add_memory_region_internal(start, size)` succeeds.
    pub open spec fn adds(&self, start: int, size: int) -> bool {
        &&& self.spec_zones().len() < MAX_ZONES
        &&& !self.overlaps_any(start, size)
        &&& BitmapZone::<PAGE_SIZE>::region_fits(start, size)
        &&& round_down(start, PAGE_SIZE as int) != 0
    }

    /// `after` holds these zones and, last, a fresh zone laid out over
    /// `[start, start + size)` with all its pages free.
    pub open spec fn added(&self, after: &Self, start: int, size: int) -> bool {
        let zs = after.spec_zones();
        &&& zs.len() == self.spec_zones().len() + 1
        &&& zs.drop_last() == self.spec_zones()
        &&& zs.last().laid_out(start, size)
        &&& zs.last().free_set() == set_int_range(0, zs.last().alloc_pages as int)
    }

    /// Zone `i` is the first zone that can serve the request.
    pub open spec fn first_serving_zone(&self, num_pages: int, alignment: int, i: int) -> bool {
        &&& 0 <= i < self.spec_zones().len()
        &&& self.spec_zones()[i].can_alloc(num_pages, alignment)
        &&& forall|j: int| 0 <= j < i ==> !(#[trigger] self.spec_zones()[j]).can_alloc(num_pages, alignment)
    }

    /// Some zone can serve the request.
    pub open spec fn serves(&self, num_pages: int, alignment: int) -> bool {
        exists|i: int| 0 <= i < self.spec_zones().len() && #[trigger] self.spec_zones()[i].can_alloc(num_pages, alignment)
    }

    /// The zones of `after` are those of this allocator, but for zone `i`.
    pub open spec fn others_kept(&self, after: &Self, i: int) -> bool {
        &&& after.spec_zones().len() == self.spec_zones().len()
        &&& forall|j: int| 0 <= j < self.spec_zones().len() && j != i ==> #[trigger] after.spec_zones()[j] == self.spec_zones()[j]
    }

    /// Zone `i` is the first whose allocatable pages contain `addr`.
    pub open spec fn first_zone_for(&self, addr: int, i: int) -> bool {
        &&& 0 <= i < self.spec_zones().len()
        &&& zone_contains(self.spec_zones()[i], addr)
        &&& forall|j: int| 0 <= j < i ==> !zone_contains(#[trigger] self.spec_zones()[j], addr)
    }

    /// No zone's allocatable pages contain `addr`.
    pub open spec fn no_zone_for(&self, addr: int) -> bool {
        forall|j: int| 0 <= j < self.spec_zones().len() ==> !zone_contains(#[trigger] self.spec_zones()[j], addr)
    }

    /// Create a new bitmap allocator.
    pub fn new() -> (r: Self)
        ensures
            r.spec_zones() == Seq::<BitmapZone<PAGE_SIZE>>::empty(),
            page_size_fits(PAGE_SIZE as int) ==> r.wf(),
    {
        BitmapAllocator { zones: Vec::new(), num_zones: 0 }
    }

    /// Initialize with a single memory region; a region that cannot be
    /// added is ignored.
    pub fn init_internal(&mut self, start: usize, size: usize)
        requires
            old(self).wf(),
            start + size + PAGE_SIZE <= usize::MAX,
        ensures
            final(self).wf(),
            old(self).adds(start as int, size as int) ==> old(self).added(&*final(self), start as int, size as int),
            !old(self).adds(start as int, size as int) ==> final(self).spec_zones() == old(self).spec_zones(),
    {
        let _ = self.add_memory_region_internal(start, size);
    }

    /// Add a memory region to the allocator as a new zone.
    pub fn add_memory_region_internal(&mut self, start: usize, size: usize) -> (r: AllocResult)
        requires
            old(self).wf(),
            start + size + PAGE_SIZE <= usize::MAX,
        ensures
            final(self).wf(),
            r is Ok <==> old(self).adds(start as int, size as int),
            r is Ok ==> old(self).added(&*final(self), start as int, size as int),
            r is Err ==> final(self).spec_zones() == old(self).spec_zones(),
            old(self).spec_zones().len() >= MAX_ZONES ==> r == Err::<(), AllocError>(AllocError::NoMemory),
            old(self).spec_zones().len() < MAX_ZONES && old(self).overlaps_any(start as int, size as int) ==> r == Err::<
                (),
                AllocError,
            >(AllocError::MemoryOverlap),
            old(self).spec_zones().len() < MAX_ZONES && !old(self).overlaps_any(start as int, size as int) && !old(self).adds(
                start as int,
                size as int,
            ) ==> r == Err::<(), AllocError>(AllocError::InvalidParam),
    {
        if self.num_zones >= MAX_ZONES {
            return Err(AllocError::NoMemory);
        }
        let mut k: usize = 0;
        while k < self.zones.len()
            invariant
                self.wf(),
                *self == *old(self),
                self.num_zones < MAX_ZONES,
                k <= self.zones@.len(),
                start + size + PAGE_SIZE <= usize::MAX,
                forall|j: int| 0 <= j < k ==> !zone_overlaps(#[trigger] self.zones@[j], start as int, size as int),
            decreases self.zones@.len() - k,
        {
            let zone = &self.zones[k];
            if !(start + size <= zone.base_addr || start >= zone.end_addr) {
                proof {
                    assert(zone_overlaps(self.spec_zones()[k as int], start as int, size as int));
                }
                return Err(AllocError::MemoryOverlap);
            }
            k = k + 1;
        }
        let mut zone = BitmapZone::empty();
        zone.init(start, size);
        if zone.base_addr == 0 {
            return Err(AllocError::InvalidParam);
        }
        let ghost z0 = self.zones@;
        self.zones.push(zone);
        self.num_zones = self.num_zones + 1;
        proof {
            assert(self.spec_zones().drop_last() =~= z0);
        }
        Ok(())
    }

    /// Find the first zone whose allocatable pages contain `addr`.
    fn find_zone_for_addr(&self, addr: usize) -> (r: Option<usize>)
        requires
            self.wf(),
        ensures
            r matches Some(i) ==> self.first_zone_for(addr as int, i as int),
            r is None ==> self.no_zone_for(addr as int),
    {
        let mut i: usize = 0;
        while i < self.zones.len()
            invariant
                self.wf(),
                i <= self.zones@.len(),
                forall|j: int| 0 <= j < i ==> !zone_contains(#[trigger] self.zones@[j], addr as int),
            decreases self.zones@.len() - i,
        {
            let z = &self.zones[i];
            if addr >= z.alloc_start && addr < z.end_addr {
                return Some(i);
            }
            i = i + 1;
        }
        None
    }

    /// Allocate pages from the first zone that can serve the request.
    fn alloc_pages_internal(&mut self, num_pages: usize, alignment: usize) -> (r: AllocResult<usize>)
        requires
            old(self).wf(),
        ensures
            final(self).wf(),
            r is Ok <==> old(self).serves(num_pages as int, alignment as int),
            r is Err ==> r == Err::<usize, AllocError>(AllocError::NoMemory) && final(self).spec_zones() == old(self).spec_zones(),
            r matches Ok(a) ==> exists|i: int|
                #[trigger] old(self).first_serving_zone(num_pages as int, alignment as int, i) && old(self).spec_zones()[i].allocated(
                    &final(self).spec_zones()[i],
                    num_pages as int,
                    alignment as int,
                    a as int,
                ) && old(self).others_kept(&*final(self), i),
    {
        let mut i: usize = 0;
        while i < self.num_zones
            invariant
                self.wf(),
                self.zones@ == old(self).zones@,
                self.num_zones == old(self).num_zones,
                i <= self.num_zones,
                forall|j: int| 0 <= j < i ==> !(#[trigger] self.zones@[j]).can_alloc(num_pages as int, alignment as int),
            decreases self.num_zones - i,
        {
            let ghost zs = self.zones@;
            let ghost z = zs[i as int];
            let r = self.zones[i].alloc_pages(num_pages, alignment);
            match r {
                Ok(addr) => {
                    proof {
                        assert(self.zones@[i as int] == self.spec_zones()[i as int]);
                        assert(old(self).first_serving_zone(num_pages as int, alignment as int, i as int));
                        assert forall|j: int| 0 <= j < self.zones@.len() implies #[trigger] self.zones@[j].wf() by {
                            if j != i {
                                assert(self.zones@[j] == zs[j]);
                            }
                        }
                    }
                    return Ok(addr);
                },
                Err(_) => {
                    proof {
                        assert(self.zones@ =~= zs);
                    }
                },
            }
            i = i + 1;
        }
        Err(AllocError::NoMemory)
    }

    /// Free pages in the zone that holds them; an address outside every
    /// zone is ignored.
    fn dealloc_pages_internal(&mut self, addr: usize, num_pages: usize)
        requires
            old(self).wf(),
        ensures
            final(self).wf(),
            old(self).no_zone_for(addr as int) ==> final(self).spec_zones() == old(self).spec_zones(),
            forall|i: int| #[trigger] old(self).first_zone_for(addr as int, i) ==> old(self).spec_zones()[i].freed(
                &final(self).spec_zones()[i],
                addr as int,
                num_pages as int,
            ) && old(self).others_kept(&*final(self), i),
    {
        if let Some(zone_idx) = self.find_zone_for_addr(addr) {
            let ghost zs = self.zones@;
            self.zones[zone_idx].dealloc_pages(addr, num_pages);
            proof {
                assert forall|j: int| 0 <= j < self.zones@.len() implies #[trigger] self.zones@[j].wf() by {
                    if j != zone_idx {
                        assert(self.zones@[j] == zs[j]);
                    }
                }
                assert forall|i: int| #[trigger] old(self).first_zone_for(addr as int, i) implies i == zone_idx by {
                    if i < zone_idx {
                    } else if i > zone_idx {
                        assert(zone_contains(zs[zone_idx as int], addr as int));
                    }
                }
            }
        }
    }

    /// Get total number of zones.
    pub fn zone_count(&self) -> (r: usize)
        requires
            self.wf(),
        ensures
            r == self.spec_zones().len(),
    {
        self.num_zones
    }

    /// Get zone by index.
    pub fn zone(&self, index: usize) -> (r: Option<&BitmapZone<PAGE_SIZE>>)
        ensures
            index < self.spec_zones().len() ==> r == Some(&self.spec_zones()[index as int]),
            index >= self.spec_zones().len() ==> r is None,
    {
        if index < self.zones.len() {
            Some(&self.zones[index])
        } else {
            None
        }
    }
}

/// The pages of a zone, bitmap included.
pub open spec fn zone_total<const PAGE_SIZE: usize>() -> spec_fn(BitmapZone<PAGE_SIZE>) -> nat {
    |z: BitmapZone<PAGE_SIZE>| z.total_pages as nat
}

/// The free pages of a zone.
pub open spec fn zone_free<const PAGE_SIZE: usize>() -> spec_fn(BitmapZone<PAGE_SIZE>) -> nat {
    |z: BitmapZone<PAGE_SIZE>| z.free_set().len()
}

/// The allocated pages of a zone.
pub open spec fn zone_used<const PAGE_SIZE: usize>() -> spec_fn(BitmapZone<PAGE_SIZE>) -> nat {
    |z: BitmapZone<PAGE_SIZE>| (z.alloc_pages - z.free_set().len()) as nat
}

impl<const PAGE_SIZE: usize> BitmapAllocator<PAGE_SIZE> {
    /// `after` is this allocator once `alloc_pages_at(base, num_pages, _)`
    /// has run and returned `r`: the pages `[p, p + num_pages)` of the first
    /// zone holding `base`, `p` its page there, are taken when all free.
    pub open spec fn placed(&self, after: &Self, base: int, num_pages: int, r: AllocResult<usize>) -> bool {
        &&& self.no_zone_for(base) ==> r == Err::<usize, AllocError>(AllocError::InvalidParam) && after.spec_zones() == self.spec_zones()
        &&& forall|i: int| #[trigger] self.first_zone_for(base, i) ==> {
            let z = self.spec_zones()[i];
            let p = (base - z.alloc_start) / PAGE_SIZE as int;
            &&& z.all_free(p, num_pages) ==> r == Ok::<usize, AllocError>(base as usize) && after.spec_zones()[i].wf()
                && after.spec_zones()[i].same_layout(&z) && after.spec_zones()[i].free_set() == z.free_set().difference(
                set_int_range(p, p + num_pages),
            ) && self.others_kept(after, i)
            &&& !z.all_free(p, num_pages) ==> r == Err::<usize, AllocError>(AllocError::NoMemory) && after.spec_zones()
                == self.spec_zones()
        }
    }

    /// Take the pages `[base, base + num_pages * PAGE_SIZE)` if they are all
    /// free in the zone holding `base`.
    fn alloc_pages_at_internal(&mut self, base: usize, num_pages: usize) -> (r: AllocResult<usize>)
        requires
            old(self).wf(),
        ensures
            final(self).wf(),
            old(self).placed(&*final(self), base as int, num_pages as int, r),
    {
        let zone_idx = match self.find_zone_for_addr(base) {
            Some(i) => i,
            None => {
                return Err(AllocError::InvalidParam);
            },
        };
        proof {
            crate::math::lemma_is_pow2_pos(PAGE_SIZE as int);
            assert forall|i: int| #[trigger] old(self).first_zone_for(base as int, i) implies i == zone_idx by {
                if i > zone_idx {
                    assert(zone_contains(self.zones@[zone_idx as int], base as int));
                }
            }
        }
        let page_offset = (base - self.zones[zone_idx].alloc_start) / PAGE_SIZE;
        let mut i: usize = 0;
        while i < num_pages
            invariant
                self.wf(),
                *self == *old(self),
                zone_idx < self.zones@.len(),
                i <= num_pages,
                i > 0 ==> page_offset + i <= self.zones@[zone_idx as int].alloc_pages,
                old(self).first_zone_for(base as int, zone_idx as int),
                forall|i2: int| #[trigger] old(self).first_zone_for(base as int, i2) ==> i2 == zone_idx,
                page_offset == (base - self.zones@[zone_idx as int].alloc_start) / PAGE_SIZE as int,
                forall|k: int| page_offset <= k < page_offset + i ==> #[trigger] self.zones@[zone_idx as int].is_free(k),
            decreases num_pages - i,
        {
            if !self.zones[zone_idx].is_bit_set(page_offset + i) {
                proof {
                    let z = self.zones@[zone_idx as int];
                    assert(!z.is_free(page_offset + i));
                    assert(!z.all_free(page_offset as int, num_pages as int));
                }
                return Err(AllocError::NoMemory);
            }
            i = i + 1;
        }
        let ghost zs = self.zones@;
        let mut j: usize = 0;
        while j < num_pages
            invariant
                self.wf(),
                zone_idx < self.zones@.len(),
                self.zones@.len() == zs.len(),
                self.num_zones == old(self).num_zones,
                zs == old(self).zones@,
                forall|k: int| 0 <= k < zs.len() && k != zone_idx ==> #[trigger] self.zones@[k] == zs[k],
                self.zones@[zone_idx as int].same_layout(&zs[zone_idx as int]),
                j <= num_pages,
                num_pages > 0 ==> page_offset + num_pages <= zs[zone_idx as int].alloc_pages,
                self.zones@[zone_idx as int].free_set() == zs[zone_idx as int].free_set().difference(
                    set_int_range(page_offset as int, page_offset + j),
                ),
            decreases num_pages - j,
        {
            self.zones[zone_idx].clear_bit(page_offset + j);
            j = j + 1;
            proof {
                assert(self.zones@[zone_idx as int].free_set() =~= zs[zone_idx as int].free_set().difference(
                    set_int_range(page_offset as int, page_offset + j),
                ));
                assert forall|k: int| 0 <= k < self.zones@.len() implies #[trigger] self.zones@[k].wf() by {
                    if k != zone_idx {
                        assert(self.zones@[k] == zs[k]);
                    }
                }
            }
        }
        Ok(base)
    }

    /// The sum of `f` over the zones, saturated at `usize::MAX`.
    fn sum_zones(&self, which: u8) -> (r: usize)
        requires
            self.wf(),
            which < 3,
        ensures
            which == 0 ==> r == saturate(zones_sum(self.spec_zones(), zone_total::<PAGE_SIZE>())),
            which == 1 ==> r == saturate(zones_sum(self.spec_zones(), zone_used::<PAGE_SIZE>())),
            which == 2 ==> r == saturate(zones_sum(self.spec_zones(), zone_free::<PAGE_SIZE>())),
    {
        let ghost f = if which == 0 {
            zone_total::<PAGE_SIZE>()
        } else if which == 1 {
            zone_used::<PAGE_SIZE>()
        } else {
            zone_free::<PAGE_SIZE>()
        };
        let mut acc: usize = 0;
        let mut i: usize = 0;
        proof {
            assert(self.zones@.take(0) =~= Seq::<BitmapZone<PAGE_SIZE>>::empty());
        }
        while i < self.zones.len()
            invariant
                self.wf(),
                which < 3,
                f == (if which == 0 {
                    zone_total::<PAGE_SIZE>()
                } else if which == 1 {
                    zone_used::<PAGE_SIZE>()
                } else {
                    zone_free::<PAGE_SIZE>()
                }),
                i <= self.zones@.len(),
                acc == saturate(zones_sum(self.zones@.take(i as int), f)),
            decreases self.zones@.len() - i,
        {
            let z = &self.zones[i];
            let v = if which == 0 {
                z.total_pages
            } else if which == 1 {
                z.used_pages()
            } else {
                z.free_pages()
            };
            assert(v == f(self.zones@[i as int]));
            proof {
                assert(self.zones@.take(i + 1).drop_last() =~= self.zones@.take(i as int));
            }
            acc = acc.saturating_add(v);
            i = i + 1;
        }
        proof {
            assert(self.zones@.take(i as int) =~= self.zones@);
        }
        acc
    }
}

impl<const PAGE_SIZE: usize> crate::BaseAllocator for BitmapAllocator<PAGE_SIZE> {
    open spec fn inv(&self) -> bool {
        self.wf()
    }

    open spec fn init_ok(&self, start: usize, size: usize) -> bool {
        self.wf() && start + size + PAGE_SIZE <= usize::MAX
    }

    open spec fn add_ok(&self, start: usize, size: usize) -> bool {
        start + size + PAGE_SIZE <= usize::MAX
    }

    fn init(&mut self, start: usize, size: usize)
        ensures
            old(self).adds(start as int, size as int) ==> old(self).added(&*final(self), start as int, size as int),
            !old(self).adds(start as int, size as int) ==> final(self).spec_zones() == old(self).spec_zones(),
    {
        self.init_internal(start, size);
    }

    fn add_memory(&mut self, start: usize, size: usize) -> (r: AllocResult)
        ensures
            r is Ok <==> old(self).adds(start as int, size as int),
            r is Ok ==> old(self).added(&*final(self), start as int, size as int),
            r is Err ==> final(self).spec_zones() == old(self).spec_zones(),
    {
        self.add_memory_region_internal(start, size)
    }
}

impl<const PAGE_SIZE: usize> Default for BitmapAllocator<PAGE_SIZE> {
    fn default() -> (r: Self)
        ensures
            r.spec_zones() == Seq::<BitmapZone<PAGE_SIZE>>::empty(),
    {
        Self::new()
    }
}

impl<const PAGE_SIZE: usize> crate::PageAllocator for BitmapAllocator<PAGE_SIZE> {
    open spec fn alloc_ok(&self, num_pages: usize, alignment: usize) -> bool {
        true
    }

    open spec fn place_ok(&self, base: usize, num_pages: usize, alignment: usize) -> bool {
        true
    }

    fn alloc_pages(&mut self, num_pages: usize, alignment: usize) -> (r: AllocResult<usize>)
        ensures
            r is Ok <==> old(self).serves(num_pages as int, alignment as int),
            r is Err ==> r == Err::<usize, AllocError>(AllocError::NoMemory) && final(self).spec_zones() == old(self).spec_zones(),
            r matches Ok(a) ==> exists|i: int|
                #[trigger] old(self).first_serving_zone(num_pages as int, alignment as int, i) && old(self).spec_zones()[i].allocated(
                    &final(self).spec_zones()[i],
                    num_pages as int,
                    alignment as int,
                    a as int,
                ) && old(self).others_kept(&*final(self), i),
    {
        self.alloc_pages_internal(num_pages, alignment)
    }

    fn dealloc_pages(&mut self, pos: usize, num_pages: usize)
        ensures
            old(self).no_zone_for(pos as int) ==> final(self).spec_zones() == old(self).spec_zones(),
            forall|i: int| #[trigger] old(self).first_zone_for(pos as int, i) ==> old(self).spec_zones()[i].freed(
                &final(self).spec_zones()[i],
                pos as int,
                num_pages as int,
            ) && old(self).others_kept(&*final(self), i),
    {
        self.dealloc_pages_internal(pos, num_pages)
    }

    /// Allocate the pages at `base`; a base that is not page aligned or
    /// misses a nonzero `alignment` is refused with `InvalidParam`.
    fn alloc_pages_at(&mut self, base: usize, num_pages: usize, alignment: usize) -> (r: AllocResult<usize>)
        ensures
            base % PAGE_SIZE != 0 || (alignment > 0 && base % alignment != 0) ==> r == Err::<usize, AllocError>(
                AllocError::InvalidParam,
            ) && final(self).spec_zones() == old(self).spec_zones(),
            base % PAGE_SIZE == 0 && (alignment == 0 || base % alignment == 0) ==> old(self).placed(
                &*final(self),
                base as int,
                num_pages as int,
                r,
            ),
    {
        proof {
            crate::math::lemma_is_pow2_pos(PAGE_SIZE as int);
        }
        if base % PAGE_SIZE != 0 || (alignment > 0 && base % alignment != 0) {
            return Err(AllocError::InvalidParam);
        }
        self.alloc_pages_at_internal(base, num_pages)
    }

    fn total_pages(&self) -> (r: usize)
        ensures
            r == saturate(zones_sum(self.spec_zones(), zone_total::<PAGE_SIZE>())),
    {
        self.sum_zones(0)
    }

    fn used_pages(&self) -> (r: usize)
        ensures
            r == saturate(zones_sum(self.spec_zones(), zone_used::<PAGE_SIZE>())),
    {
        self.sum_zones(1)
    }

    fn available_pages(&self) -> (r: usize)
        ensures
            r == saturate(zones_sum(self.spec_zones(), zone_free::<PAGE_SIZE>())),
    {
        self.sum_zones(2)
    }
}

/// Freeing a block `alloc_pages` handed out gives the zone back the free
/// pages it had before, when the zone's region ends with its allocatable
/// pages (as `init` lays it out).
pub proof fn lemma_free_undoes_alloc<const PAGE_SIZE: usize>(
    z0: BitmapZone<PAGE_SIZE>,
    z1: BitmapZone<PAGE_SIZE>,
    z2: BitmapZone<PAGE_SIZE>,
    num_pages: int,
    alignment: int,
    a: int,
)
    requires
        page_size_fits(PAGE_SIZE as int),
        z0.wf(),
        z0.end_addr == z0.alloc_start + z0.alloc_pages * PAGE_SIZE,
        num_pages > 0,
        z0.allocated(&z1, num_pages, alignment, a),
        z1.freed(&z2, a, num_pages),
    ensures
        z2.free_set() == z0.free_set(),
{
    crate::math::lemma_is_pow2_pos(PAGE_SIZE as int);
    let p = (a - z0.alloc_start) / PAGE_SIZE as int;
    assert(z0.fits(p, num_pages));
    vstd::arithmetic::div_mod::lemma_mod_multiples_basic(p, PAGE_SIZE as int);
    crate::math::lemma_mod_add(z0.alloc_start as int, p * PAGE_SIZE, PAGE_SIZE as int);
    assert(a < z0.end_addr) by (nonlinear_arith)
        requires
            a == z0.alloc_start + p * PAGE_SIZE,
            p + num_pages <= z0.alloc_pages,
            num_pages > 0,
            z0.end_addr == z0.alloc_start + z0.alloc_pages * PAGE_SIZE,
            PAGE_SIZE > 0;
    assert(p >= 0);
    assert(a >= z0.alloc_start) by (nonlinear_arith) requires a == z0.alloc_start + p * PAGE_SIZE, p >= 0, PAGE_SIZE > 0;
    assert(z1.frees(a, num_pages));
    assert(z2.free_set() =~= z0.free_set()) by {
        assert forall|i: int| p <= i < p + num_pages implies z0.free_set().contains(i) by {
            assert(z0.is_free(i));
        }
    }
}

/// A page-aligned size spans fewer than two pages exactly when it is
/// under two pages' worth of bytes.
proof fn lemma_two_pages(aligned_size: int, ps: int)
    requires
        ps > 0,
        aligned_size >= 0,
    ensures
        aligned_size / ps < 2 <==> aligned_size < 2 * ps,
{
    vstd::arithmetic::div_mod::lemma_fundamental_div_mod(aligned_size, ps);
    vstd::arithmetic::div_mod::lemma_mod_bound(aligned_size, ps);
    let q = aligned_size / ps;
    let r = aligned_size % ps;
    assert(q < 2 <==> aligned_size < 2 * ps) by (nonlinear_arith)
        requires aligned_size == ps * q + r, 0 <= r < ps, ps > 0;
}

/// A page-aligned region of at least two pages in the address space has
/// room for the bitmap arithmetic.
proof fn lemma_zone_sizes(aligned_size: int, total: int, ps: int)
    requires
        page_size_fits(ps),
        aligned_size % ps == 0,
        total == aligned_size / ps,
        total >= 2,
        aligned_size <= usize::MAX,
    ensures
        aligned_size == total * ps,
        total + 63 <= usize::MAX,
        (total + 63) / 64 * 8 + ps - 1 <= usize::MAX,
{
    crate::math::lemma_mod_zero_mul(aligned_size, ps);
    assert(total * 8 <= aligned_size) by (nonlinear_arith)
        requires aligned_size == total * ps, ps >= 8, total >= 0;
    assert(2 * ps <= aligned_size) by (nonlinear_arith)
        requires aligned_size == total * ps, ps >= 8, total >= 2;
}

/// The bitmap of a zone of `total` pages takes a whole number of pages,
/// no more than it has, and has a bit for each of them.
proof fn lemma_layout(total: int, ps: int)
    requires
        page_size_fits(ps),
        total >= 1,
    ensures
        metadata_bytes(total, ps) % ps == 0,
        metadata_bytes(total, ps) == metadata_bytes(total, ps) / ps * ps,
        metadata_bytes(total, ps) / ps <= total,
        metadata_bytes(total, ps) / 8 * 64 >= total,
        metadata_bytes(total, ps) >= 0,
        metadata_bytes(total, ps) <= total * ps,
{
    let w = (total + 63) / 64;
    let b = w * 8;
    let k = (b + ps - 1) / ps;
    let m = k * ps;
    assert(crate::math::is_pow2(8)) by {
        vstd::arithmetic::power2::lemma2_to64();
        assert(vstd::arithmetic::power2::pow2(3) == 8);
    }
    crate::math::lemma_pow2_le_divides(8, ps);
    vstd::arithmetic::div_mod::lemma_fundamental_div_mod(total + 63, 64);
    vstd::arithmetic::div_mod::lemma_mod_bound(total + 63, 64);
    vstd::arithmetic::div_mod::lemma_fundamental_div_mod(b + ps - 1, ps);
    vstd::arithmetic::div_mod::lemma_mod_bound(b + ps - 1, ps);
    vstd::arithmetic::div_mod::lemma_mod_multiples_basic(k, ps);
    vstd::arithmetic::div_mod::lemma_div_multiples_vanish(k, ps);
    assert(1 <= w <= total) by (nonlinear_arith)
        requires total + 63 == 64 * w + (total + 63) % 64, 0 <= (total + 63) % 64 < 64, total >= 1;
    assert(m >= b) by (nonlinear_arith)
        requires b + ps - 1 == ps * k + (b + ps - 1) % ps, 0 <= (b + ps - 1) % ps < ps, m == k * ps;
    assert(k <= w) by (nonlinear_arith)
        requires b + ps - 1 == ps * k + (b + ps - 1) % ps, 0 <= (b + ps - 1) % ps, b == w * 8, ps >= 8, w >= 1;
    assert(m / 8 >= w) by {
        vstd::arithmetic::div_mod::lemma_fundamental_div_mod(m, 8);
        vstd::arithmetic::div_mod::lemma_mod_bound(m, 8);
    }
    assert(m / 8 * 64 >= total) by (nonlinear_arith)
        requires m / 8 >= w, total + 63 == 64 * w + (total + 63) % 64, (total + 63) % 64 < 64;
    assert(k >= 0) by (nonlinear_arith)
        requires b + ps - 1 == ps * k + (b + ps - 1) % ps, (b + ps - 1) % ps < ps, b >= 0, ps > 0;
    assert(m >= 0) by (nonlinear_arith) requires m == k * ps, k >= 0, ps > 0;
    assert(metadata_bytes(total, ps) == m);
    assert(m / ps == k) by {
        assert(m == ps * k) by (nonlinear_arith) requires m == k * ps;
    }
    assert(m <= total * ps) by (nonlinear_arith) requires m == k * ps, k <= w, w <= total, ps > 0;
}

/// A position the search tries gives an address aligned as asked: the
/// first position brings `alloc_start` up to a multiple of the alignment,
/// and each step moves by a whole alignment.
proof fn lemma_candidate_aligned(alloc_start: int, ps: int, alignment: int, p: int)
    requires
        page_size_fits(ps),
        alloc_start >= 0,
        alloc_start % ps == 0,
        is_pow2(alignment),
        ({
            let ap = if alignment > ps { alignment / ps } else { 1 };
            let b = if ap > 1 {
                let mis = alloc_start % (ap * ps);
                if mis != 0 { (ap * ps - mis) / ps } else { 0 }
            } else {
                0
            };
            p >= b && (p - b) % ap == 0
        }),
    ensures
        (alloc_start + p * ps) % alignment == 0,
{
    crate::math::lemma_is_pow2_pos(ps);
    crate::math::lemma_is_pow2_pos(alignment);
    if alignment <= ps {
        crate::math::lemma_pow2_le_divides(alignment, ps);
        vstd::arithmetic::div_mod::lemma_mod_multiples_basic(p, ps);
        crate::math::lemma_mod_add(alloc_start, p * ps, ps);
        crate::math::lemma_mod_trans(alloc_start + p * ps, ps, alignment);
    } else {
        crate::math::lemma_pow2_le_divides(ps, alignment);
        let ap = alignment / ps;
        assert(ap * ps == alignment) by (nonlinear_arith) requires alignment == ps * (alignment / ps), ap == alignment / ps;
        assert(ap > 1) by (nonlinear_arith) requires ap * ps == alignment, alignment > ps, ps > 0;
        let mis = alloc_start % alignment;
        vstd::arithmetic::div_mod::lemma_fundamental_div_mod(alloc_start, alignment);
        vstd::arithmetic::div_mod::lemma_mod_bound(alloc_start, alignment);
        let qa = alloc_start / alignment;
        // the misalignment is a whole number of pages
        vstd::arithmetic::div_mod::lemma_mod_multiples_basic(qa, alignment);
        crate::math::lemma_mod_trans(qa * alignment, alignment, ps);
        assert(mis == alloc_start - qa * alignment) by (nonlinear_arith)
            requires alloc_start == alignment * qa + mis;
        crate::math::lemma_mod_add(alloc_start, qa * alignment, ps);
        let b = if mis != 0 { (alignment - mis) / ps } else { 0 };
        crate::math::lemma_mod_add(alignment, mis, ps);
        crate::math::lemma_mod_zero_mul(alignment - mis, ps);
        assert(alloc_start + b * ps == (qa + (if mis != 0 { 1int } else { 0int })) * alignment) by (nonlinear_arith)
            requires
                alloc_start == alignment * qa + mis,
                mis != 0 ==> b * ps == alignment - mis,
                mis == 0 ==> b == 0;
        let j = (p - b) / ap;
        crate::math::lemma_mod_zero_mul(p - b, ap);
        let c = qa + (if mis != 0 { 1int } else { 0int }) + j;
        assert(alloc_start + p * ps == c * alignment) by (nonlinear_arith)
            requires
                alloc_start + b * ps == (qa + (if mis != 0 { 1int } else { 0int })) * alignment,
                p - b == j * ap,
                ap * ps == alignment,
                c == qa + (if mis != 0 { 1int } else { 0int }) + j;
        vstd::arithmetic::div_mod::lemma_mod_multiples_basic(c, alignment);
    }
}

} // verus!
