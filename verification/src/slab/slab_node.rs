//! Slab node: one slab of up to 512 objects of one size class.
//!
//! The node keeps the slab's header: its object count, free count, list
//! links and a free bitmap with one bit per object.
use vstd::prelude::*;
pub use super::slab_byte_allocator::SizeClass;
use super::free_bitmap::{is_set, set_below, first_set, clear_bit, set_bit, test_bit, bitmap_below, lemma_set_below_finite, lemma_empty_bitmap};

verus! {

/// Marks an initialized slab header.
pub const SLAB_HEADER_MAGIC: u32 = 0x534c_4142;

/// Bytes the slab header takes at the start of a slab.
pub const SLAB_HEADER_SIZE: usize = 104;

/// Most objects one slab holds.
pub const MAX_OBJECTS: usize = 512;

/// The header of a slab.
#[derive(Clone, Copy)]
pub struct SlabHeader {
    magic: u32,
    size_class: u16,
    object_count: u16,
    free_count: u16,
    slab_bytes: usize,
    prev: usize,
    next: usize,
    free_bitmap: [u64; 8],
}

/// A slab of objects of one size class at `addr`.
#[derive(Clone, Copy)]
pub struct SlabNode {
    /// Starting address of the slab.
    pub addr: usize,
    /// Size class of the slab's objects.
    pub size_class: SizeClass,
    /// The slab's header.
    pub header: SlabHeader,
}

/// `x` rounded up to a multiple of `m`.
pub open spec fn round_up_to(x: int, m: int) -> int {
    crate::math::round_up(x, m)
}

impl SlabNode {
    /// Number of objects the slab holds.
    pub closed spec fn object_count(&self) -> int {
        self.header.object_count as int
    }

    /// The objects that are free.
    pub closed spec fn free_objects(&self) -> Set<int> {
        set_below(self.header.free_bitmap, self.header.object_count as int)
    }

    /// The header was initialized for the node's size class.
    pub closed spec fn valid(&self) -> bool {
        &&& self.header.magic == SLAB_HEADER_MAGIC
        &&& self.header.size_class as int == self.size_class.spec_size()
    }

    /// Bytes of the slab.
    pub closed spec fn spec_slab_bytes(&self) -> int {
        self.header.slab_bytes as int
    }

    pub closed spec fn spec_prev(&self) -> usize {
        self.header.prev
    }

    pub closed spec fn spec_next(&self) -> usize {
        self.header.next
    }

    /// First object address: past the header, rounded up to the object size.
    pub open spec fn object_base(&self) -> int {
        self.addr + round_up_to(SLAB_HEADER_SIZE as int, self.size_class.spec_size() as int)
    }

    /// Address of object `i`.
    pub open spec fn spec_object_addr(&self, i: int) -> int {
        self.object_base() + i * self.size_class.spec_size()
    }

    /// The header is consistent: the free count counts the free bits, and
    /// no object past the count is marked free.
    pub closed spec fn wf(&self) -> bool {
        &&& self.header.object_count <= MAX_OBJECTS
        &&& forall|i: int| #[trigger] is_set(self.header.free_bitmap, i) ==> 0 <= i < self.header.object_count
        &&& self.header.free_count as int == self.free_objects().len()
    }

    /// Free objects lie below the object count.
    pub proof fn lemma_free_below(&self)
        requires
            self.wf(),
        ensures
            forall|i: int| #[trigger] self.free_objects().contains(i) ==> 0 <= i < self.object_count(),
            self.free_objects().finite(),
            self.free_objects().len() <= self.object_count(),
    {
        lemma_set_below_finite(self.header.free_bitmap, self.header.object_count as int);
    }

    /// A node for the slab at `addr`, with a blank header.
    pub fn new(addr: usize, size_class: SizeClass) -> (r: Self)
        ensures
            r.addr == addr,
            r.size_class == size_class,
            r.wf(),
            !r.valid(),
            r.object_count() == 0,
            r.spec_prev() == 0,
            r.spec_next() == 0,
    {
        let bm = [0u64; 8];
        proof {
            lemma_empty_bitmap(bm);
            assert(set_below(bm, 0) =~= Set::<int>::empty());
        }
        SlabNode {
            addr,
            size_class,
            header: SlabHeader {
                magic: 0,
                size_class: 0,
                object_count: 0,
                free_count: 0,
                slab_bytes: 0,
                prev: 0,
                next: 0,
                free_bitmap: bm,
            },
        }
    }

    /// Bytes of the header, rounded up to the object size.
    fn header_size_aligned(&self) -> (r: usize)
        ensures
            r == round_up_to(SLAB_HEADER_SIZE as int, self.size_class.spec_size() as int),
            SLAB_HEADER_SIZE <= r < SLAB_HEADER_SIZE + self.size_class.spec_size(),
    {
        proof {
            crate::math::lemma_round_up(SLAB_HEADER_SIZE as int, self.size_class.spec_size() as int);
        }
        crate::align_up(SLAB_HEADER_SIZE, self.size_class.size())
    }

    /// The number of objects a slab of `slab_bytes` bytes holds.
    pub open spec fn objects_for(&self, slab_bytes: int) -> int {
        let h = round_up_to(SLAB_HEADER_SIZE as int, self.size_class.spec_size() as int);
        let n = if slab_bytes > h { (slab_bytes - h) / self.size_class.spec_size() as int } else { 0 };
        if n < MAX_OBJECTS { n } else { MAX_OBJECTS as int }
    }

    /// Initialize the header of a slab of `slab_bytes` bytes: every object
    /// that fits after the header (up to 512) is free. A slab too small for
    /// one object is left as it was.
    pub fn init_header(&mut self, slab_bytes: usize)
        requires
            old(self).wf(),
        ensures
            final(self).wf(),
            final(self).addr == old(self).addr,
            final(self).size_class == old(self).size_class,
            old(self).objects_for(slab_bytes as int) == 0 ==> *final(self) == *old(self),
            old(self).objects_for(slab_bytes as int) > 0 ==> {
                &&& final(self).valid()
                &&& final(self).object_count() == old(self).objects_for(slab_bytes as int)
                &&& final(self).free_objects() == vstd::set_lib::set_int_range(0, final(self).object_count())
                &&& final(self).spec_slab_bytes() == slab_bytes
                &&& final(self).spec_prev() == 0
                &&& final(self).spec_next() == 0
            },
    {
        let object_size = self.size_class.size();
        let header_size_aligned = self.header_size_aligned();
        let fit = if slab_bytes > header_size_aligned { (slab_bytes - header_size_aligned) / object_size } else { 0 };
        let object_count = if fit < MAX_OBJECTS { fit } else { MAX_OBJECTS };
        if object_count == 0 {
            return;
        }
        let free_bitmap = bitmap_below(object_count);
        proof {
            assert(set_below(free_bitmap, object_count as int) =~= vstd::set_lib::set_int_range(0, object_count as int));
            vstd::set_lib::lemma_int_range(0, object_count as int);
        }
        self.header = SlabHeader {
            magic: SLAB_HEADER_MAGIC,
            size_class: object_size as u16,
            object_count: object_count as u16,
            free_count: object_count as u16,
            slab_bytes,
            prev: 0,
            next: 0,
            free_bitmap,
        };
    }

    /// The header was initialized for the node's size class.
    pub fn is_valid_for_size_class(&self) -> (r: bool)
        ensures
            r == self.valid(),
    {
        self.header.magic == SLAB_HEADER_MAGIC && self.header.size_class as usize == self.size_class.size()
    }

    /// Number of objects in use.
    pub fn in_use(&self) -> (r: u32)
        requires
            self.wf(),
        ensures
            r == self.object_count() - self.free_objects().len(),
    {
        proof {
            lemma_set_below_finite(self.header.free_bitmap, self.header.object_count as int);
        }
        self.header.object_count as u32 - self.header.free_count as u32
    }

    /// Number of free objects.
    pub fn free_count(&self) -> (r: u32)
        requires
            self.wf(),
        ensures
            r == self.free_objects().len(),
    {
        self.header.free_count as u32
    }

    /// No object is free.
    pub fn is_full(&self) -> (r: bool)
        requires
            self.wf(),
        ensures
            r == (self.free_objects().len() == 0),
    {
        self.header.free_count == 0
    }

    /// Every object is free.
    pub fn is_empty(&self) -> (r: bool)
        requires
            self.wf(),
        ensures
            r == (self.free_objects().len() == self.object_count()),
    {
        self.header.free_count == self.header.object_count
    }

    /// Take the lowest free object; `None` when none is free.
    pub fn alloc_object(&mut self) -> (r: Option<usize>)
        requires
            old(self).wf(),
        ensures
            final(self).wf(),
            final(self).addr == old(self).addr,
            final(self).size_class == old(self).size_class,
            final(self).object_count() == old(self).object_count(),
            final(self).valid() == old(self).valid(),
            final(self).spec_prev() == old(self).spec_prev(),
            final(self).spec_next() == old(self).spec_next(),
            final(self).spec_slab_bytes() == old(self).spec_slab_bytes(),
            r is None <==> old(self).free_objects().len() == 0,
            r is None ==> *final(self) == *old(self),
            r matches Some(i) ==> {
                &&& old(self).free_objects().contains(i as int)
                &&& forall|j: int| 0 <= j < i ==> !#[trigger] old(self).free_objects().contains(j)
                &&& final(self).free_objects() == old(self).free_objects().remove(i as int)
            },
    {
        let ghost fs = self.free_objects();
        proof {
            lemma_set_below_finite(self.header.free_bitmap, self.header.object_count as int);
        }
        if self.header.free_count == 0 {
            return None;
        }
        match first_set(&self.header.free_bitmap) {
            Some(i) => {
                proof {
                    assert(fs.contains(i as int));
                }
                clear_bit(&mut self.header.free_bitmap, i);
                self.header.free_count = self.header.free_count - 1;
                proof {
                    assert(self.free_objects() =~= fs.remove(i as int));
                    assert forall|j: int| 0 <= j < i implies !#[trigger] fs.contains(j) by {}
                }
                Some(i)
            },
            None => {
                proof {
                    assert(fs =~= Set::<int>::empty());
                }
                None
            },
        }
    }

    /// Free object `object_index`; `false` when it is past the object
    /// count or already free (a double free), leaving the node as it was.
    pub fn dealloc_object(&mut self, object_index: usize) -> (r: bool)
        requires
            old(self).wf(),
        ensures
            final(self).wf(),
            final(self).addr == old(self).addr,
            final(self).size_class == old(self).size_class,
            final(self).object_count() == old(self).object_count(),
            final(self).valid() == old(self).valid(),
            final(self).spec_prev() == old(self).spec_prev(),
            final(self).spec_next() == old(self).spec_next(),
            final(self).spec_slab_bytes() == old(self).spec_slab_bytes(),
            r == (object_index < old(self).object_count() && !old(self).free_objects().contains(object_index as int)),
            r ==> final(self).free_objects() == old(self).free_objects().insert(object_index as int),
            !r ==> *final(self) == *old(self),
    {
        let ghost fs = self.free_objects();
        proof {
            lemma_set_below_finite(self.header.free_bitmap, self.header.object_count as int);
        }
        if object_index < self.header.object_count as usize {
            if test_bit(&self.header.free_bitmap, object_index) {
                return false;
            }
            set_bit(&mut self.header.free_bitmap, object_index);
            proof {
                assert(self.free_objects() =~= fs.insert(object_index as int));
                lemma_set_below_finite(self.header.free_bitmap, self.header.object_count as int);
            }
            self.header.free_count = self.header.free_count + 1;
            true
        } else {
            false
        }
    }

    /// Address of object `object_index`.
    pub fn object_addr(&self, object_index: usize) -> (r: usize)
        requires
            self.spec_object_addr(object_index as int) <= usize::MAX,
        ensures
            r == self.spec_object_addr(object_index as int),
    {
        let hsa = self.header_size_aligned();
        proof {
            assert(object_index * self.size_class.spec_size() >= 0) by (nonlinear_arith)
                requires object_index >= 0, self.size_class.spec_size() >= 0;
        }
        self.addr + hsa + object_index * self.size_class.size()
    }

    /// The index of the object at `obj_addr`; `None` when the address is
    /// not the start of one of the slab's objects.
    pub fn object_index_from_addr(&self, obj_addr: usize) -> (r: Option<usize>)
        requires
            self.object_base() <= usize::MAX,
        ensures
            r matches Some(i) ==> i < self.object_count() && self.spec_object_addr(i as int) == obj_addr,
            r is None ==> forall|i: int| 0 <= i < self.object_count() ==> self.spec_object_addr(i) != obj_addr,
    {
        let base = self.addr + self.header_size_aligned();
        if obj_addr < base {
            proof {
                assert forall|i: int| 0 <= i < self.object_count() implies self.spec_object_addr(i) != obj_addr by {
                    assert(i * self.size_class.spec_size() >= 0) by (nonlinear_arith)
                        requires i >= 0, self.size_class.spec_size() >= 0;
                }
            }
            return None;
        }
        let offset = obj_addr - base;
        let size = self.size_class.size();
        proof {
            vstd::arithmetic::div_mod::lemma_fundamental_div_mod(offset as int, size as int);
        }
        if offset % size != 0 {
            proof {
                assert forall|i: int| 0 <= i < self.object_count() implies self.spec_object_addr(i) != obj_addr by {
                    if self.spec_object_addr(i) == obj_addr {
                        vstd::arithmetic::div_mod::lemma_mod_multiples_basic(i, size as int);
                        assert(offset == i * size);
                    }
                }
            }
            return None;
        }
        let object_index = offset / size;
        if object_index < self.header.object_count as usize {
            proof {
                assert(offset == size * object_index);
                assert(size * object_index == object_index * size) by (nonlinear_arith);
            }
            Some(object_index)
        } else {
            proof {
                assert forall|i: int| 0 <= i < self.object_count() implies self.spec_object_addr(i) != obj_addr by {
                    if self.spec_object_addr(i) == obj_addr {
                        assert(offset == i * size);
                        vstd::arithmetic::div_mod::lemma_div_multiples_vanish(i, size as int);
                        assert(i * size == size * i) by (nonlinear_arith);
                    }
                }
            }
            None
        }
    }

    /// Pages a full slab of 512 objects of this class takes.
    pub fn page_count(&self, page_size: usize) -> (r: usize)
        requires
            page_size > 0,
            MAX_OBJECTS * self.size_class.spec_size() + page_size - 1 <= usize::MAX,
        ensures
            r == (MAX_OBJECTS * self.size_class.spec_size() + page_size - 1) / page_size as int,
    {
        let object_size = self.size_class.size();
        let bytes_needed = MAX_OBJECTS * object_size;
        (bytes_needed + (page_size - 1)) / page_size
    }

    /// The previous slab on the node's list, if any.
    pub fn prev(&self) -> (r: Option<usize>)
        ensures
            r == (if self.spec_prev() == 0 { None } else { Some(self.spec_prev()) }),
    {
        if self.header.prev == 0 {
            None
        } else {
            Some(self.header.prev)
        }
    }

    /// The next slab on the node's list, if any.
    pub fn next(&self) -> (r: Option<usize>)
        ensures
            r == (if self.spec_next() == 0 { None } else { Some(self.spec_next()) }),
    {
        if self.header.next == 0 {
            None
        } else {
            Some(self.header.next)
        }
    }

    /// Set the previous slab (`None` for none).
    pub fn set_prev(&mut self, prev: Option<usize>)
        ensures
            final(self).spec_prev() == (match prev {
                Some(p) => p,
                None => 0,
            }),
            final(self).spec_next() == old(self).spec_next(),
            final(self).addr == old(self).addr,
            final(self).size_class == old(self).size_class,
            final(self).object_count() == old(self).object_count(),
            final(self).free_objects() == old(self).free_objects(),
            final(self).valid() == old(self).valid(),
            final(self).spec_slab_bytes() == old(self).spec_slab_bytes(),
            old(self).wf() ==> final(self).wf(),
    {
        self.header.prev = match prev {
            Some(p) => p,
            None => 0,
        };
    }

    /// Set the next slab (`None` for none).
    pub fn set_next(&mut self, next: Option<usize>)
        ensures
            final(self).spec_next() == (match next {
                Some(n) => n,
                None => 0,
            }),
            final(self).spec_prev() == old(self).spec_prev(),
            final(self).addr == old(self).addr,
            final(self).size_class == old(self).size_class,
            final(self).object_count() == old(self).object_count(),
            final(self).free_objects() == old(self).free_objects(),
            final(self).valid() == old(self).valid(),
            final(self).spec_slab_bytes() == old(self).spec_slab_bytes(),
            old(self).wf() ==> final(self).wf(),
    {
        self.header.next = match next {
            Some(n) => n,
            None => 0,
        };
    }
}

} // verus!
