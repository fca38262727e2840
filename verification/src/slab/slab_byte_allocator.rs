//! Size classes and the slab byte allocator.
//!
//! Small objects are served from slab caches, one per size class; the
//! caches take their slabs from a page allocator.
use vstd::prelude::*;
use crate::{AllocError, AllocResult, ByteAllocator, Layout};
use super::slab_cache::SlabCache;
use super::slab_node::MAX_OBJECTS;

verus! {

/// Number of size classes.
pub const SIZE_CLASS_COUNT: usize = 9;

/// Largest object a slab serves, in bytes.
pub const MAX_OBJ_SIZE: usize = 2048;

/// Size classes for slab allocation.
#[derive(Debug, Clone, Copy, PartialEq, Eq, Structural)]
pub enum SizeClass {
    Bytes8,
    Bytes16,
    Bytes32,
    Bytes64,
    Bytes128,
    Bytes256,
    Bytes512,
    Bytes1024,
    Bytes2048,
}

/// The size class serving objects of `n` bytes: the smallest that holds them.
pub open spec fn class_for(n: int) -> Option<SizeClass> {
    if n <= 8 {
        Some(SizeClass::Bytes8)
    } else if n <= 16 {
        Some(SizeClass::Bytes16)
    } else if n <= 32 {
        Some(SizeClass::Bytes32)
    } else if n <= 64 {
        Some(SizeClass::Bytes64)
    } else if n <= 128 {
        Some(SizeClass::Bytes128)
    } else if n <= 256 {
        Some(SizeClass::Bytes256)
    } else if n <= 512 {
        Some(SizeClass::Bytes512)
    } else if n <= 1024 {
        Some(SizeClass::Bytes1024)
    } else if n <= 2048 {
        Some(SizeClass::Bytes2048)
    } else {
        None
    }
}

impl SizeClass {
    /// Object size of the class, in bytes.
    pub open spec fn spec_size(self) -> nat {
        match self {
            SizeClass::Bytes8 => 8,
            SizeClass::Bytes16 => 16,
            SizeClass::Bytes32 => 32,
            SizeClass::Bytes64 => 64,
            SizeClass::Bytes128 => 128,
            SizeClass::Bytes256 => 256,
            SizeClass::Bytes512 => 512,
            SizeClass::Bytes1024 => 1024,
            SizeClass::Bytes2048 => 2048,
        }
    }

    /// Position of the class among the classes, smallest first.
    pub open spec fn spec_index(self) -> nat {
        match self {
            SizeClass::Bytes8 => 0,
            SizeClass::Bytes16 => 1,
            SizeClass::Bytes32 => 2,
            SizeClass::Bytes64 => 3,
            SizeClass::Bytes128 => 4,
            SizeClass::Bytes256 => 5,
            SizeClass::Bytes512 => 6,
            SizeClass::Bytes1024 => 7,
            SizeClass::Bytes2048 => 8,
        }
    }

    /// Select the size class of a memory layout: the smallest class that
    /// holds both its size and its alignment; `None` above 2048 bytes.
    pub fn from_layout(layout: Layout) -> (r: Option<Self>)
        ensures
            r == class_for(vstd::math::max(layout.spec_size() as int, layout.spec_align() as int)),
            crate::math::is_pow2(layout.spec_align() as int),
    {
        let size = layout.size();
        let align = layout.align();
        let required_size = if size > align { size } else { align };
        if required_size > MAX_OBJ_SIZE {
            return None;
        }
        Some(
            if required_size <= 8 {
                SizeClass::Bytes8
            } else if required_size <= 16 {
                SizeClass::Bytes16
            } else if required_size <= 32 {
                SizeClass::Bytes32
            } else if required_size <= 64 {
                SizeClass::Bytes64
            } else if required_size <= 128 {
                SizeClass::Bytes128
            } else if required_size <= 256 {
                SizeClass::Bytes256
            } else if required_size <= 512 {
                SizeClass::Bytes512
            } else if required_size <= 1024 {
                SizeClass::Bytes1024
            } else {
                SizeClass::Bytes2048
            },
        )
    }

    /// Object size of the class, in bytes.
    pub fn size(&self) -> (r: usize)
        ensures
            r == self.spec_size(),
    {
        match self {
            SizeClass::Bytes8 => 8,
            SizeClass::Bytes16 => 16,
            SizeClass::Bytes32 => 32,
            SizeClass::Bytes64 => 64,
            SizeClass::Bytes128 => 128,
            SizeClass::Bytes256 => 256,
            SizeClass::Bytes512 => 512,
            SizeClass::Bytes1024 => 1024,
            SizeClass::Bytes2048 => 2048,
        }
    }

    /// Number of objects of the class a page holds.
    pub fn objects_per_page(&self, page_size: usize) -> (r: usize)
        ensures
            r == page_size as nat / self.spec_size(),
    {
        page_size / self.size()
    }

    /// Position of the class among the classes, smallest first.
    pub fn to_index(&self) -> (r: usize)
        ensures
            r == self.spec_index(),
            r < SIZE_CLASS_COUNT,
    {
        match self {
            SizeClass::Bytes8 => 0,
            SizeClass::Bytes16 => 1,
            SizeClass::Bytes32 => 2,
            SizeClass::Bytes64 => 3,
            SizeClass::Bytes128 => 4,
            SizeClass::Bytes256 => 5,
            SizeClass::Bytes512 => 6,
            SizeClass::Bytes1024 => 7,
            SizeClass::Bytes2048 => 8,
        }
    }

    /// The class at a position; `None` past the last class.
    pub fn from_index(index: usize) -> (r: Option<Self>)
        ensures
            r is Some <==> index < SIZE_CLASS_COUNT,
            r matches Some(c) ==> c.spec_index() == index,
    {
        match index {
            0 => Some(SizeClass::Bytes8),
            1 => Some(SizeClass::Bytes16),
            2 => Some(SizeClass::Bytes32),
            3 => Some(SizeClass::Bytes64),
            4 => Some(SizeClass::Bytes128),
            5 => Some(SizeClass::Bytes256),
            6 => Some(SizeClass::Bytes512),
            7 => Some(SizeClass::Bytes1024),
            8 => Some(SizeClass::Bytes2048),
            _ => None,
        }
    }
}

/// The class chosen for `n` bytes holds them, and the next smaller class would not.
pub proof fn lemma_class_fits(n: int)
    requires
        0 <= n <= MAX_OBJ_SIZE,
    ensures
        class_for(n) is Some,
        n <= class_for(n)->0.spec_size(),
        class_for(n)->0.spec_index() > 0 ==> n > class_for(n)->0.spec_size() / 2,
{
}

/// Each class size is a power of two dividing the largest.
pub proof fn lemma_class_pow2(c: SizeClass)
    ensures
        crate::math::is_pow2(c.spec_size() as int),
        2048int % (c.spec_size() as int) == 0,
{
    vstd::arithmetic::power2::lemma2_to64();
    match c {
        SizeClass::Bytes8 => {
            assert(vstd::arithmetic::power2::pow2(3) == 8);
            assert(2048int % 8int == 0);
        },
        SizeClass::Bytes16 => {
            assert(vstd::arithmetic::power2::pow2(4) == 16);
            assert(2048int % 16int == 0);
        },
        SizeClass::Bytes32 => {
            assert(vstd::arithmetic::power2::pow2(5) == 32);
            assert(2048int % 32int == 0);
        },
        SizeClass::Bytes64 => {
            assert(vstd::arithmetic::power2::pow2(6) == 64);
            assert(2048int % 64int == 0);
        },
        SizeClass::Bytes128 => {
            assert(vstd::arithmetic::power2::pow2(7) == 128);
            assert(2048int % 128int == 0);
        },
        SizeClass::Bytes256 => {
            assert(vstd::arithmetic::power2::pow2(8) == 256);
            assert(2048int % 256int == 0);
        },
        SizeClass::Bytes512 => {
            assert(vstd::arithmetic::power2::pow2(9) == 512);
            assert(2048int % 512int == 0);
        },
        SizeClass::Bytes1024 => {
            assert(vstd::arithmetic::power2::pow2(10) == 1024);
            assert(2048int % 1024int == 0);
        },
        SizeClass::Bytes2048 => {
            assert(vstd::arithmetic::power2::pow2(11) == 2048);
            assert(2048int % 2048int == 0);
        },
    }
}

/// An object in use in the cache of a layout's class starts at a multiple
/// of the layout's alignment, when the page size is a multiple of the
/// largest class.
proof fn lemma_object_aligned_to(c: SlabCache, b: int, i: int, page_size: int, layout: Layout)
    requires
        c.wf(),
        crate::math::is_pow2(page_size),
        c.made_with(c.slab_size(page_size)),
        c.used().contains((b, i)),
        crate::math::is_pow2(layout.spec_align() as int),
        class_for(charge(layout)) == Some(c.class()),
    ensures
        c.object_of(b, i) % (layout.spec_align() as int) == 0,
{
    super::slab_cache::lemma_object_aligned(c, b, i, page_size);
    let size = c.class().spec_size() as int;
    let al = layout.spec_align() as int;
    let a = c.object_of(b, i);
    lemma_class_pow2(c.class());
    lemma_class_fits(charge(layout));
    crate::math::lemma_is_pow2_pos(al);
    crate::math::lemma_pow2_le_divides(al, size);
    vstd::arithmetic::div_mod::lemma_fundamental_div_mod(a, size);
    let x = a / size;
    let y = size / al;
    assert(a == (x * y) * al) by (nonlinear_arith)
        requires a == size * x + a % size, a % size == 0, size == al * y;
    vstd::arithmetic::div_mod::lemma_mod_multiples_basic(x * y, al);
}

/// Positions and classes correspond one to one.
pub proof fn lemma_index_roundtrip(c: SizeClass)
    ensures
        c.spec_index() < SIZE_CLASS_COUNT,
        forall|d: SizeClass| #[trigger] d.spec_index() == c.spec_index() ==> d == c,
{
}

/// Page allocator the slab allocator takes its slabs from.
pub trait PageAllocatorForSlab {
    /// The invariant the page allocator keeps between calls.
    spec fn slab_inv(&self) -> bool;

    /// What `alloc_pages(num_pages, alignment)` does, `after` being the
    /// page allocator afterwards and `r` the result.
    spec fn slab_alloc_effect(&self, after: &Self, num_pages: usize, alignment: usize, r: AllocResult<usize>) -> bool;

    /// Allocate `num_pages` contiguous pages aligned to `alignment` bytes.
    fn alloc_pages(&mut self, num_pages: usize, alignment: usize) -> (r: AllocResult<usize>)
        requires
            old(self).slab_inv(),
        ensures
            final(self).slab_inv(),
            r matches Ok(a) ==> alignment > 0 ==> a as int % alignment as int == 0,
            old(self).slab_alloc_effect(&*final(self), num_pages, alignment, r),
    ;

    /// What `dealloc_pages(pos, num_pages)` does, `after` being the page
    /// allocator afterwards.
    spec fn slab_dealloc_effect(&self, after: &Self, pos: usize, num_pages: usize) -> bool;

    /// Release `num_pages` pages at `pos`.
    fn dealloc_pages(&mut self, pos: usize, num_pages: usize)
        requires
            old(self).slab_inv(),
        ensures
            final(self).slab_inv(),
            old(self).slab_dealloc_effect(&*final(self), pos, num_pages),
    ;
}


/// The byte total went from `t0` to `t1` by adding no slab, one or two
/// slabs of `slab_bytes` bytes, wrapping around.
pub open spec fn slabs_added(t0: usize, t1: usize, slab_bytes: int) -> bool {
    let m = usize::MAX as int + 1;
    ||| t1 == t0
    ||| t1 == (t0 + slab_bytes) % m
    ||| t1 == (t0 + 2 * slab_bytes) % m
}

/// Bytes a request is charged: its size or its alignment, whichever is larger.
pub open spec fn charge(layout: Layout) -> int {
    vstd::math::max(layout.spec_size() as int, layout.spec_align() as int)
}

/// Slab byte allocator: one slab cache per size class, taking its slabs
/// from a page allocator.
///
/// The allocator can hold its page allocator (set once with
/// `set_page_allocator`), or be handed one on each call.
pub struct SlabByteAllocator<P, const PAGE_SIZE: usize> {
    caches: Vec<SlabCache>,
    page_allocator: Option<P>,
    total_bytes: usize,
    allocated_bytes: usize,
}

impl<P: PageAllocatorForSlab, const PAGE_SIZE: usize> SlabByteAllocator<P, PAGE_SIZE> {
    /// The cache of the class at position `k`.
    pub closed spec fn cache(&self, k: int) -> SlabCache {
        self.caches@[k]
    }

    /// The page allocator the allocator holds, if one was set.
    pub closed spec fn source(&self) -> Option<P> {
        self.page_allocator
    }

    /// Bytes taken from the page allocator for slabs.
    pub closed spec fn spec_total_bytes(&self) -> usize {
        self.total_bytes
    }

    /// Bytes charged to the objects handed out.
    pub closed spec fn spec_used_bytes(&self) -> usize {
        self.allocated_bytes
    }

    /// The page size leaves room for the slab arithmetic.
    pub open spec fn page_size_ok() -> bool {
        &&& PAGE_SIZE > 0
        &&& 2 * (MAX_OBJECTS * 2048 + PAGE_SIZE) <= usize::MAX
    }

    /// One well-formed cache per class, in class order, all of whose slabs
    /// have the size the page size gives.
    pub closed spec fn wf(&self) -> bool {
        &&& self.caches@.len() == SIZE_CLASS_COUNT
        &&& forall|k: int| 0 <= k < SIZE_CLASS_COUNT ==> {
            &&& (#[trigger] self.caches@[k]).wf()
            &&& self.caches@[k].class().spec_index() == k
            &&& self.caches@[k].made_with(self.caches@[k].slab_size(PAGE_SIZE as int))
        }
        &&& self.page_allocator matches Some(p) ==> p.slab_inv()
    }

    /// The cache at position `k` is well formed and its slabs have the size
    /// the page size gives.
    pub proof fn lemma_cache_wf(&self, k: int)
        requires
            self.wf(),
            0 <= k < SIZE_CLASS_COUNT,
        ensures
            self.cache(k).wf(),
            self.cache(k).class().spec_index() == k,
            self.cache(k).made_with(self.cache(k).slab_size(PAGE_SIZE as int)),
    {
    }

    /// The two allocators hold the same caches, page allocator and counters.
    pub closed spec fn same_as(&self, other: &Self) -> bool {
        &&& self.caches@ == other.caches@
        &&& self.page_allocator == other.page_allocator
        &&& self.total_bytes == other.total_bytes
        &&& self.allocated_bytes == other.allocated_bytes
    }

    /// What allocating `layout` does, `after` being the allocator afterwards.
    ///
    /// A request larger than 2048 bytes (by size or alignment) is refused
    /// as invalid and changes nothing. Otherwise only the cache of its
    /// class changes: on success the address is that of an object that was
    /// not in use and now is, and the request is charged to the used bytes;
    /// on failure no object changes.
    pub open spec fn alloc_result(&self, after: &Self, layout: Layout, r: AllocResult<usize>) -> bool {
        match class_for(charge(layout)) {
            None => r == Err::<usize, AllocError>(AllocError::InvalidParam) && after.same_as(self),
            Some(c) => {
                let k = c.spec_index() as int;
                &&& forall|j: int| 0 <= j < SIZE_CLASS_COUNT && j != k ==> #[trigger] after.cache(j) == self.cache(j)
                &&& after.cache(k).class() == c
                &&& r matches Ok(addr) ==> {
                    &&& exists|b: int, i: int|
                        !self.cache(k).used().contains((b, i)) && after.cache(k).used() == self.cache(k).used().insert((b, i))
                            && addr == #[trigger] self.cache(k).object_of(b, i)
                    &&& after.spec_used_bytes() == (self.spec_used_bytes() as int + charge(layout)) % (usize::MAX as int + 1)
                }
                &&& r is Err ==> after.cache(k).used() == self.cache(k).used() && after.spec_used_bytes()
                    == self.spec_used_bytes()
                &&& self.cache(k).partial_slabs().len() > 0 || self.cache(k).empty_slabs().len() > 0 ==> r is Ok
                &&& crate::math::is_pow2(PAGE_SIZE as int) ==> (r matches Ok(addr) ==> addr as int % layout.spec_align() as int == 0)
                &&& r is Ok ==> slabs_added(self.spec_total_bytes(), after.spec_total_bytes(), self.cache(k).slab_size(PAGE_SIZE as int))
                &&& self.cache(k).partial_slabs().len() > 0 ==> after.spec_total_bytes() == self.spec_total_bytes()
                &&& r is Err ==> after.spec_total_bytes() == self.spec_total_bytes()
            },
        }
    }

    /// What freeing `pos` as a `layout` block does, `after` being the
    /// allocator afterwards: the cache of the class frees it as
    /// `SlabCache::dealloc_object` does with result `rr`; the used bytes
    /// drop by the charge unless that was a double free, and the total by
    /// the bytes handed back to the page allocator (both stopping at zero).
    pub open spec fn dealloc_effect(&self, after: &Self, pos: usize, layout: Layout, rr: (usize, bool)) -> bool {
        let k = class_for(charge(layout))->0.spec_index() as int;
        &&& forall|j: int| 0 <= j < SIZE_CLASS_COUNT && j != k ==> #[trigger] after.cache(j) == self.cache(j)
        &&& after.cache(k).class() == self.cache(k).class()
        &&& self.cache(k).dealloc_result(after.cache(k), pos as int, PAGE_SIZE as int, rr)
        &&& after.spec_used_bytes() == (if rr.1 {
            vstd::math::clip(self.spec_used_bytes() - charge(layout)) as int
        } else {
            self.spec_used_bytes() as int
        })
        &&& after.spec_total_bytes() == vstd::math::clip(self.spec_total_bytes() - rr.0)
    }

    /// An allocator with an empty cache for each class and no page allocator.
    pub fn new() -> (r: Self)
        ensures
            r.wf(),
            r.source() is None,
            r.spec_total_bytes() == 0,
            r.spec_used_bytes() == 0,
            forall|k: int| 0 <= k < SIZE_CLASS_COUNT ==> (#[trigger] r.cache(k)).used() == Set::<(int, int)>::empty()
                && r.cache(k).slabs() == Set::<int>::empty(),
    {
        let mut caches: Vec<SlabCache> = Vec::new();
        caches.push(SlabCache::new(SizeClass::Bytes8));
        caches.push(SlabCache::new(SizeClass::Bytes16));
        caches.push(SlabCache::new(SizeClass::Bytes32));
        caches.push(SlabCache::new(SizeClass::Bytes64));
        caches.push(SlabCache::new(SizeClass::Bytes128));
        caches.push(SlabCache::new(SizeClass::Bytes256));
        caches.push(SlabCache::new(SizeClass::Bytes512));
        caches.push(SlabCache::new(SizeClass::Bytes1024));
        caches.push(SlabCache::new(SizeClass::Bytes2048));
        let r = SlabByteAllocator { caches, page_allocator: None, total_bytes: 0, allocated_bytes: 0 };
        proof {
            assert forall|k: int| 0 <= k < SIZE_CLASS_COUNT implies (#[trigger] r.caches@[k]).made_with(
                r.caches@[k].slab_size(PAGE_SIZE as int),
            ) by {
                assert(r.caches@[k].made_with(r.caches@[k].slab_size(PAGE_SIZE as int)));
            }
        }
        r
    }

    /// Prepare the allocator for use; the caches start empty, so there is
    /// nothing to do.
    pub fn init(&mut self)
        ensures
            final(self).same_as(&*old(self)),
            old(self).wf() ==> final(self).wf(),
            final(self).source() == old(self).source(),
            forall|k: int| #[trigger] final(self).cache(k) == old(self).cache(k),
    {
    }

    /// Give the allocator the page allocator its slabs come from.
    pub fn set_page_allocator(&mut self, page_allocator: P)
        requires
            old(self).wf(),
            page_allocator.slab_inv(),
        ensures
            final(self).wf(),
            final(self).source() == Some(page_allocator),
            forall|k: int| #[trigger] final(self).cache(k) == old(self).cache(k),
            final(self).spec_total_bytes() == old(self).spec_total_bytes(),
            final(self).spec_used_bytes() == old(self).spec_used_bytes(),
    {
        self.page_allocator = Some(page_allocator);
    }

    /// The cache of a size class.
    pub fn get_cache(&self, size_class: SizeClass) -> (r: &SlabCache)
        requires
            self.wf(),
        ensures
            *r == self.cache(size_class.spec_index() as int),
    {
        &self.caches[size_class.to_index()]
    }

    /// The cache of a size class, to be changed in place; the allocator is
    /// well formed again once the cache is.
    pub fn get_cache_mut(&mut self, size_class: SizeClass) -> (r: &mut SlabCache)
        requires
            old(self).wf(),
        ensures
            *r == old(self).cache(size_class.spec_index() as int),
            final(self).cache(size_class.spec_index() as int) == *final(r),
            forall|k: int| 0 <= k < SIZE_CLASS_COUNT && k != size_class.spec_index() ==> #[trigger] final(self).cache(k) == old(self).cache(k),
            final(self).source() == old(self).source(),
            final(self).spec_total_bytes() == old(self).spec_total_bytes(),
            final(self).spec_used_bytes() == old(self).spec_used_bytes(),
    {
        let i = size_class.to_index();
        &mut self.caches[i]
    }

    /// Allocate a `layout` block, taking slabs from `page_allocator`.
    pub fn alloc_with<Q: PageAllocatorForSlab>(&mut self, page_allocator: &mut Q, layout: Layout) -> (r: AllocResult<usize>)
        requires
            old(self).wf(),
            Self::page_size_ok(),
            old(page_allocator).slab_inv(),
        ensures
            final(self).wf(),
            final(page_allocator).slab_inv(),
            final(self).source() == old(self).source(),
            old(self).alloc_result(&*final(self), layout, r),
            r is Ok ==> final(self).spec_total_bytes() >= 0,
    {
        let size_class = match SizeClass::from_layout(layout) {
            Some(c) => c,
            None => {
                return Err(AllocError::InvalidParam);
            },
        };
        let k = size_class.to_index();
        let ghost old_caches = self.caches@;
        let mut cache = self.caches.remove(k);
        proof {
            lemma_index_roundtrip(size_class);
        }
        let r = cache.alloc_object(page_allocator, PAGE_SIZE);
        let ghost c1 = cache;
        self.caches.insert(k, cache);
        proof {
            assert(self.caches@ =~= old_caches.update(k as int, cache));
            assert forall|j: int| 0 <= j < SIZE_CLASS_COUNT implies {
                &&& (#[trigger] self.caches@[j]).wf()
                &&& self.caches@[j].class().spec_index() == j
                &&& self.caches@[j].made_with(self.caches@[j].slab_size(PAGE_SIZE as int))
            } by {
                if j != k {
                    assert(self.caches@[j] == old_caches[j]);
                }
            }
        }
        proof {
            assert(old(self).cache(k as int) == old_caches[k as int]);
        }
        match r {
            Ok((addr, page_bytes)) => {
                proof {
                    let c0 = old_caches[k as int];
                    assert(old(self).cache(k as int) == c0);
                    assert(self.cache(k as int) == c1);
                    let (b, i) = choose|b: int, i: int|
                        !c0.used().contains((b, i)) && c1.used() == c0.used().insert((b, i)) && addr == #[trigger] c0.object_of(b, i);
                    assert(addr == old(self).cache(k as int).object_of(b, i));
                }
                let required = if layout.size() > layout.align() { layout.size() } else { layout.align() };
                let ghost used0 = self.allocated_bytes;
                let ghost total0 = self.total_bytes;
                self.allocated_bytes = self.allocated_bytes.wrapping_add(required);
                self.total_bytes = self.total_bytes.wrapping_add(page_bytes);
                proof {
                    let m = usize::MAX as int + 1;
                    let t = total0 + page_bytes;
                    if t < m {
                        vstd::arithmetic::div_mod::lemma_small_mod(t as nat, m as nat);
                    } else {
                        vstd::arithmetic::div_mod::lemma_mod_add_multiples_vanish(t - m, m);
                        vstd::arithmetic::div_mod::lemma_small_mod((t - m) as nat, m as nat);
                    }
                    assert(self.spec_total_bytes() == (old(self).spec_total_bytes() as int + page_bytes) % m);
                }
                proof {
                    assert(required as int == charge(layout));
                    assert(used0 == old(self).spec_used_bytes());
                    assert(self.allocated_bytes == self.spec_used_bytes());
                    let m = usize::MAX as int + 1;
                    let a = used0 + required;
                    if a < m {
                        vstd::arithmetic::div_mod::lemma_small_mod(a as nat, m as nat);
                    } else {
                        vstd::arithmetic::div_mod::lemma_mod_add_multiples_vanish(a - m, m);
                        vstd::arithmetic::div_mod::lemma_small_mod((a - m) as nat, m as nat);
                    }
                    assert(self.allocated_bytes == a % m);
                    let kk = size_class.spec_index() as int;
                    assert(kk == k);
                    assert(forall|j: int| 0 <= j < SIZE_CLASS_COUNT && j != kk ==> #[trigger] self.cache(j) == old(self).cache(j));
                    assert(self.cache(kk).class() == size_class);
                    assert(exists|b: int, i: int|
                        !old(self).cache(kk).used().contains((b, i)) && self.cache(kk).used() == old(self).cache(kk).used().insert((b, i))
                            && addr == #[trigger] old(self).cache(kk).object_of(b, i));
                    assert(self.spec_used_bytes() == (old(self).spec_used_bytes() as int + charge(layout)) % (usize::MAX as int + 1));
                    if crate::math::is_pow2(PAGE_SIZE as int) {
                        let c0 = old_caches[k as int];
                        let (b, i) = choose|b: int, i: int|
                            !c0.used().contains((b, i)) && c1.used() == c0.used().insert((b, i)) && addr == #[trigger] c0.object_of(b, i);
                        assert(c1.made_with(c1.slab_size(PAGE_SIZE as int)));
                        lemma_object_aligned_to(c1, b, i, PAGE_SIZE as int, layout);
                    }
                }
                Ok(addr)
            },
            Err(e) => Err(e),
        }
    }

    /// Free the `layout` block at `pos`, handing empty slabs back to
    /// `page_allocator`.
    pub fn dealloc_with<Q: PageAllocatorForSlab>(&mut self, page_allocator: &mut Q, pos: usize, layout: Layout)
        requires
            old(self).wf(),
            Self::page_size_ok(),
            old(page_allocator).slab_inv(),
            class_for(charge(layout)) is Some,
        ensures
            final(self).wf(),
            final(page_allocator).slab_inv(),
            final(self).source() == old(self).source(),
            exists|rr: (usize, bool)| old(self).dealloc_effect(&*final(self), pos, layout, rr),
    {
        let size_class = SizeClass::from_layout(layout).unwrap();
        let k = size_class.to_index();
        let ghost old_caches = self.caches@;
        let mut cache = self.caches.remove(k);
        proof {
            lemma_index_roundtrip(size_class);
        }
        let rr = cache.dealloc_object(pos, page_allocator, PAGE_SIZE);
        self.caches.insert(k, cache);
        proof {
            assert(self.caches@ =~= old_caches.update(k as int, cache));
            assert forall|j: int| 0 <= j < SIZE_CLASS_COUNT implies {
                &&& (#[trigger] self.caches@[j]).wf()
                &&& self.caches@[j].class().spec_index() == j
                &&& self.caches@[j].made_with(self.caches@[j].slab_size(PAGE_SIZE as int))
            } by {
                if j != k {
                    assert(self.caches@[j] == old_caches[j]);
                }
            }
        }
        let (freed_bytes, actually_freed) = rr;
        if actually_freed {
            let required = if layout.size() > layout.align() { layout.size() } else { layout.align() };
            self.allocated_bytes = self.allocated_bytes.saturating_sub(required);
        }
        self.total_bytes = self.total_bytes.saturating_sub(freed_bytes);
        proof {
            assert(old(self).dealloc_effect(&*self, pos, layout, rr));
        }
    }
}

impl<P: PageAllocatorForSlab, const PAGE_SIZE: usize> Default for SlabByteAllocator<P, PAGE_SIZE> {
    fn default() -> (r: Self)
        ensures
            r.wf(),
            r.source() is None,
    {
        Self::new()
    }
}

impl<P: PageAllocatorForSlab, const PAGE_SIZE: usize> ByteAllocator for SlabByteAllocator<P, PAGE_SIZE> {
    open spec fn inv(&self) -> bool {
        self.wf() && Self::page_size_ok()
    }

    open spec fn dealloc_ok(&self, pos: usize, layout: Layout) -> bool {
        class_for(charge(layout)) is Some
    }

    /// Allocate from the held page allocator; without one, a valid request
    /// fails with `NoMemory`.
    fn alloc_bytes(&mut self, layout: Layout) -> (r: AllocResult<usize>)
        ensures
            final(self).source() is Some == old(self).source() is Some,
            class_for(charge(layout)) is None ==> r == Err::<usize, AllocError>(AllocError::InvalidParam) && final(self).same_as(&*old(self)),
            class_for(charge(layout)) is Some && old(self).source() is None ==> r == Err::<usize, AllocError>(AllocError::NoMemory)
                && final(self).same_as(&*old(self)),
            old(self).source() is Some ==> old(self).alloc_result(&*final(self), layout, r),
    {
        if SizeClass::from_layout(layout).is_none() {
            return Err(AllocError::InvalidParam);
        }
        let mut slot: Option<P> = None;
        core::mem::swap(&mut slot, &mut self.page_allocator);
        match slot {
            Some(mut pa) => {
                let ghost mid0 = *self;
                let r = self.alloc_with(&mut pa, layout);
                let ghost mid1 = *self;
                self.page_allocator = Some(pa);
                proof {
                    assert(mid0.caches@ == old(self).caches@);
                    assert(self.caches@ == mid1.caches@);
                    assert forall|j: int| #[trigger] self.cache(j) == mid1.cache(j) by {}
                    assert forall|j: int| #[trigger] old(self).cache(j) == mid0.cache(j) by {}
                    match (r, class_for(charge(layout))) {
                        (Ok(addr), Some(c)) => {
                            let k = c.spec_index() as int;
                            let (b, i) = choose|b: int, i: int|
                                !mid0.cache(k).used().contains((b, i)) && mid1.cache(k).used() == mid0.cache(k).used().insert((b, i))
                                    && addr == #[trigger] mid0.cache(k).object_of(b, i);
                            assert(addr == old(self).cache(k).object_of(b, i));
                        },
                        _ => {},
                    }
                }
                r
            },
            None => Err(AllocError::NoMemory),
        }
    }

    /// Free through the held page allocator; without one, nothing happens.
    fn dealloc(&mut self, pos: usize, layout: Layout)
        ensures
            final(self).source() is Some == old(self).source() is Some,
            old(self).source() is None ==> final(self).same_as(&*old(self)),
            old(self).source() is Some ==> exists|rr: (usize, bool)| old(self).dealloc_effect(&*final(self), pos, layout, rr),
    {
        let mut slot: Option<P> = None;
        core::mem::swap(&mut slot, &mut self.page_allocator);
        match slot {
            Some(mut pa) => {
                let ghost mid0 = *self;
                self.dealloc_with(&mut pa, pos, layout);
                let ghost mid1 = *self;
                self.page_allocator = Some(pa);
                proof {
                    let rr = choose|rr: (usize, bool)| mid0.dealloc_effect(&mid1, pos, layout, rr);
                    assert forall|j: int| #[trigger] self.cache(j) == mid1.cache(j) by {}
                    assert forall|j: int| #[trigger] old(self).cache(j) == mid0.cache(j) by {}
                    assert(old(self).dealloc_effect(&*self, pos, layout, rr));
                }
            },
            None => {},
        }
    }

    fn total_bytes(&self) -> (r: usize)
        ensures
            r == self.spec_total_bytes(),
    {
        self.total_bytes
    }

    fn used_bytes(&self) -> (r: usize)
        ensures
            r == self.spec_used_bytes(),
    {
        self.allocated_bytes
    }

    fn available_bytes(&self) -> (r: usize)
        ensures
            r == vstd::math::clip(self.spec_total_bytes() - self.spec_used_bytes()),
    {
        self.total_bytes.saturating_sub(self.allocated_bytes)
    }
}


/// Freeing a block right after allocating it, with the same layout, leaves
/// every cache's objects in use as they were and takes back the charge, so
/// the used bytes are as before (when the charge did not wrap around).
pub proof fn lemma_slab_free_undoes_alloc<P: PageAllocatorForSlab, const PAGE_SIZE: usize>(
    a0: SlabByteAllocator<P, PAGE_SIZE>,
    a1: SlabByteAllocator<P, PAGE_SIZE>,
    a2: SlabByteAllocator<P, PAGE_SIZE>,
    layout: Layout,
    addr: usize,
    rr: (usize, bool),
)
    requires
        a0.wf(),
        a1.wf(),
        SlabByteAllocator::<P, PAGE_SIZE>::page_size_ok(),
        a0.alloc_result(&a1, layout, Ok(addr)),
        a1.dealloc_effect(&a2, addr, layout, rr),
        a0.spec_used_bytes() + charge(layout) <= usize::MAX,
    ensures
        rr.1,
        forall|j: int| 0 <= j < SIZE_CLASS_COUNT ==> (#[trigger] a2.cache(j)).used() == a0.cache(j).used(),
        a2.spec_used_bytes() == a0.spec_used_bytes(),
{
    let c = class_for(charge(layout))->0;
    let k = c.spec_index() as int;
    a0.lemma_cache_wf(k);
    a1.lemma_cache_wf(k);
    lemma_index_roundtrip(c);
    lemma_index_roundtrip(a0.cache(k).class());
    crate::slab::slab_cache::lemma_dealloc_undoes_alloc(a0.cache(k), a1.cache(k), a2.cache(k), addr as int, PAGE_SIZE as int, rr);
    assert((a0.spec_used_bytes() as int + charge(layout)) % (usize::MAX as int + 1) == a0.spec_used_bytes() + charge(layout)) by {
        vstd::arithmetic::div_mod::lemma_small_mod((a0.spec_used_bytes() + charge(layout)) as nat, (usize::MAX as int + 1) as nat);
    }
}

} // verus!
