//! Slabs of a single page, with their object bitmaps.
//!
//! A page is cut into objects of one size class; a bitmap marks the free
//! ones and a counter keeps how many are handed out.
use vstd::prelude::*;
use crate::slab::free_bitmap::{is_set, set_below, first_set, clear_bit, set_bit, bitmap_below, lemma_set_below_finite};
use crate::slab::slab_byte_allocator::SizeClass;

verus! {

/// Bookkeeping of one page slab.
#[derive(Debug)]
pub struct SlabMeta {
    pub size_class: SizeClass,
    pub in_use: u32,
    pub total_objects: u32,
    /// Bitmap for up to 512 objects; a set bit marks a free object.
    pub free_bitmap: [u64; 8],
}

impl SlabMeta {
    /// The objects marked free.
    pub open spec fn free_objects(&self) -> Set<int> {
        set_below(self.free_bitmap, self.total_objects as int)
    }

    /// Only objects of the page are marked, and no more are counted in use
    /// than are marked taken.
    pub open spec fn wf(&self) -> bool {
        &&& self.total_objects <= 512
        &&& forall|i: int| #[trigger] is_set(self.free_bitmap, i) ==> 0 <= i < self.total_objects
        &&& self.in_use + self.free_objects().len() <= self.total_objects
    }

    /// Bookkeeping of a fresh page: every object that fits is free.
    pub fn new(size_class: SizeClass, page_size: usize) -> (r: Self)
        requires
            page_size as nat / size_class.spec_size() <= 512,
        ensures
            r.wf(),
            r.size_class == size_class,
            r.in_use == 0,
            r.total_objects == page_size as nat / size_class.spec_size(),
            r.free_objects() == vstd::set_lib::set_int_range(0, r.total_objects as int),
    {
        let total = size_class.objects_per_page(page_size);
        let free_bitmap = bitmap_below(total);
        let r = SlabMeta { size_class, in_use: 0, total_objects: total as u32, free_bitmap };
        proof {
            assert(r.free_objects() =~= vstd::set_lib::set_int_range(0, total as int));
            vstd::set_lib::lemma_int_range(0, total as int);
        }
        r
    }

    /// Take the lowest free object; `None` when none is free.
    pub fn alloc_object(&mut self) -> (r: Option<usize>)
        requires
            old(self).wf(),
        ensures
            final(self).wf(),
            final(self).size_class == old(self).size_class,
            final(self).total_objects == old(self).total_objects,
            r is None <==> old(self).free_objects().len() == 0,
            r is None ==> *final(self) == *old(self),
            r matches Some(i) ==> {
                &&& old(self).free_objects().contains(i as int)
                &&& forall|j: int| 0 <= j < i ==> !#[trigger] old(self).free_objects().contains(j)
                &&& final(self).free_objects() == old(self).free_objects().remove(i as int)
                &&& final(self).in_use == old(self).in_use + 1
            },
    {
        let ghost fs = self.free_objects();
        proof {
            lemma_set_below_finite(self.free_bitmap, self.total_objects as int);
        }
        match first_set(&self.free_bitmap) {
            Some(i) => {
                if i >= self.total_objects as usize {
                    proof {
                        assert(false);
                    }
                    return None;
                }
                proof {
                    assert(fs.contains(i as int));
                    vstd::set::axiom_set_remove_len(fs, i as int);
                }
                clear_bit(&mut self.free_bitmap, i);
                self.in_use = self.in_use + 1;
                proof {
                    assert(self.free_objects() =~= fs.remove(i as int));
                    assert forall|j: int| 0 <= j < i implies !#[trigger] fs.contains(j) by {}
                }
                Some(i)
            },
            None => {
                proof {
                    assert(fs =~= Set::<int>::empty());
                }
                None
            },
        }
    }

    /// Mark object `object_index` free and count one object less in use
    /// (stopping at zero); an index past the page changes nothing.
    pub fn dealloc_object(&mut self, object_index: usize)
        requires
            old(self).wf(),
        ensures
            final(self).wf(),
            final(self).size_class == old(self).size_class,
            final(self).total_objects == old(self).total_objects,
            object_index < old(self).total_objects ==> final(self).free_objects() == old(self).free_objects().insert(
                object_index as int,
            ) && final(self).in_use == (if old(self).in_use > 0 { old(self).in_use - 1 } else { 0 }),
            object_index >= old(self).total_objects ==> *final(self) == *old(self),
    {
        let ghost fs = self.free_objects();
        proof {
            lemma_set_below_finite(self.free_bitmap, self.total_objects as int);
        }
        if object_index < self.total_objects as usize {
            set_bit(&mut self.free_bitmap, object_index);
            self.in_use = self.in_use.saturating_sub(1);
            proof {
                assert(self.free_objects() =~= fs.insert(object_index as int));
                vstd::set::axiom_set_insert_len(fs, object_index as int);
                vstd::set_lib::lemma_int_range(0, self.total_objects as int);
                assert(fs.insert(object_index as int).subset_of(vstd::set_lib::set_int_range(0, self.total_objects as int)));
                vstd::set_lib::lemma_len_subset(fs.insert(object_index as int), vstd::set_lib::set_int_range(0, self.total_objects as int));
            }
        }
    }

    /// No object is free.
    pub fn is_full(&self) -> (r: bool)
        requires
            self.wf(),
        ensures
            r == (self.free_objects().len() == 0),
    {
        proof {
            lemma_set_below_finite(self.free_bitmap, self.total_objects as int);
        }
        match first_set(&self.free_bitmap) {
            Some(i) => {
                proof {
                    assert(self.free_objects().contains(i as int));
                }
                false
            },
            None => {
                proof {
                    assert(self.free_objects() =~= Set::<int>::empty());
                }
                true
            },
        }
    }

    /// No object is counted in use.
    pub fn is_empty(&self) -> (r: bool)
        ensures
            r == (self.in_use == 0),
    {
        self.in_use == 0
    }

    /// Objects not counted in use.
    pub fn free_count(&self) -> (r: u32)
        requires
            self.wf(),
        ensures
            r == self.total_objects - self.in_use,
    {
        self.total_objects - self.in_use
    }
}

/// A page slab at `addr`.
#[derive(Debug)]
pub struct SlabPage {
    pub addr: usize,
    pub meta: SlabMeta,
}

impl SlabPage {
    /// A fresh page slab at `addr`.
    pub fn new(addr: usize, size_class: SizeClass, page_size: usize) -> (r: Self)
        requires
            page_size as nat / size_class.spec_size() <= 512,
        ensures
            r.addr == addr,
            r.meta.wf(),
            r.meta.size_class == size_class,
            r.meta.in_use == 0,
            r.meta.total_objects == page_size as nat / size_class.spec_size(),
            r.meta.free_objects() == vstd::set_lib::set_int_range(0, r.meta.total_objects as int),
    {
        SlabPage { addr, meta: SlabMeta::new(size_class, page_size) }
    }

    /// Address of object `object_index`.
    pub fn object_addr(&self, object_index: usize, page_size: usize) -> (r: usize)
        requires
            object_index < self.meta.total_objects,
            object_index * self.meta.size_class.spec_size() < page_size,
            self.addr + page_size <= usize::MAX,
        ensures
            r == self.addr + object_index * self.meta.size_class.spec_size(),
    {
        self.addr + object_index * self.meta.size_class.size()
    }

    /// The index of the object starting at `obj_addr`; `None` outside the
    /// page or off an object boundary.
    pub fn object_index_from_addr(&self, obj_addr: usize, page_size: usize) -> (r: Option<usize>)
        requires
            self.addr + page_size <= usize::MAX,
        ensures
            r is Some <==> (self.addr <= obj_addr < self.addr + page_size && (obj_addr - self.addr) % (
            self.meta.size_class.spec_size() as int) == 0),
            r matches Some(i) ==> i == (obj_addr - self.addr) / (self.meta.size_class.spec_size() as int),
    {
        if obj_addr < self.addr || obj_addr >= self.addr + page_size {
            return None;
        }
        let offset = obj_addr - self.addr;
        let size = self.meta.size_class.size();
        if offset % size != 0 {
            return None;
        }
        Some(offset / size)
    }
}

} // verus!
