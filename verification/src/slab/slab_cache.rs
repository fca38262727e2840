//! Slab cache for a single size class.
//!
//! The cache keeps its slabs on three lists: empty (every object free),
//! partial (some objects free) and full (none free).
use vstd::prelude::*;
use super::slab_byte_allocator::{PageAllocatorForSlab, SizeClass};
use super::slab_node::{SlabNode, MAX_OBJECTS, SLAB_HEADER_SIZE, round_up_to};
use crate::{AllocError, AllocResult};

verus! {

/// Round `pos` down to a multiple of `align` (any positive alignment);
/// zero leaves it as it is.
pub fn align_down_any(pos: usize, align: usize) -> (r: usize)
    ensures
        align == 0 ==> r == pos,
        align > 0 ==> r == pos - pos % align,
{
    if align == 0 {
        return pos;
    }
    proof {
        vstd::arithmetic::div_mod::lemma_fundamental_div_mod(pos as int, align as int);
        assert((pos / align) * align == pos - pos % align) by (nonlinear_arith)
            requires pos == align * (pos / align) + pos % align;
        assert((pos / align) * align <= pos) by (nonlinear_arith)
            requires pos == align * (pos / align) + pos % align, pos % align >= 0;
    }
    (pos / align) * align
}

/// A list of slabs, in the order they were added.
pub struct SlabIntrusiveList {
    nodes: Vec<SlabNode>,
}

impl SlabIntrusiveList {
    /// The slabs on the list, front to back.
    pub closed spec fn view(&self) -> Seq<SlabNode> {
        self.nodes@
    }

    /// An empty list.
    pub fn new() -> (r: Self)
        ensures
            r@ == Seq::<SlabNode>::empty(),
    {
        SlabIntrusiveList { nodes: Vec::new() }
    }

    /// Number of slabs on the list.
    pub fn len(&self) -> (r: usize)
        ensures
            r == self@.len(),
    {
        self.nodes.len()
    }

    /// Address of the last slab, if any.
    pub fn back(&self) -> (r: Option<usize>)
        ensures
            self@.len() == 0 ==> r is None,
            self@.len() > 0 ==> r == Some(self@.last().addr),
    {
        if self.nodes.len() == 0 {
            None
        } else {
            Some(self.nodes[self.nodes.len() - 1].addr)
        }
    }

    /// Append a slab.
    pub fn push_back(&mut self, node: SlabNode)
        ensures
            final(self)@ == old(self)@.push(node),
    {
        self.nodes.push(node);
    }

    /// Take the last slab, if any.
    pub fn pop_back(&mut self) -> (r: Option<SlabNode>)
        ensures
            old(self)@.len() == 0 ==> r is None && final(self)@ == old(self)@,
            old(self)@.len() > 0 ==> r == Some(old(self)@.last()) && final(self)@ == old(self)@.drop_last(),
    {
        self.nodes.pop()
    }

    /// The position of the slab at `slab_base`, if on the list.
    pub fn find(&self, slab_base: usize) -> (r: Option<usize>)
        ensures
            r matches Some(k) ==> k < self@.len() && self@[k as int].addr == slab_base,
            r is None ==> forall|k: int| 0 <= k < self@.len() ==> #[trigger] self@[k].addr != slab_base,
    {
        let mut k: usize = 0;
        while k < self.nodes.len()
            invariant
                k <= self@.len(),
                forall|j: int| 0 <= j < k ==> #[trigger] self@[j].addr != slab_base,
            decreases self@.len() - k,
        {
            if self.nodes[k].addr == slab_base {
                return Some(k);
            }
            k = k + 1;
        }
        None
    }

    /// Take the slab at position `k`.
    pub fn take(&mut self, k: usize) -> (r: SlabNode)
        requires
            k < old(self)@.len(),
        ensures
            r == old(self)@[k as int],
            final(self)@ == old(self)@.remove(k as int),
    {
        self.nodes.remove(k)
    }

    /// The slab at position `k`.
    pub fn get(&self, k: usize) -> (r: SlabNode)
        requires
            k < self@.len(),
        ensures
            r == self@[k as int],
    {
        self.nodes[k]
    }

    /// Replace the slab at position `k`.
    pub fn set(&mut self, k: usize, node: SlabNode)
        requires
            k < old(self)@.len(),
        ensures
            final(self)@ == old(self)@.update(k as int, node),
    {
        self.nodes.set(k, node);
    }

    /// Remove the slab at `slab_base`, if on the list.
    pub fn remove(&mut self, slab_base: usize) -> (r: Option<SlabNode>)
        ensures
            r matches Some(n) ==> n.addr == slab_base && exists|k: int|
                0 <= k < old(self)@.len() && old(self)@[k] == n && final(self)@ == old(self)@.remove(k),
            r is None ==> final(self)@ == old(self)@ && forall|k: int| 0 <= k < old(self)@.len() ==> #[trigger] old(self)@[k].addr
                != slab_base,
    {
        match self.find(slab_base) {
            Some(k) => Some(self.take(k)),
            None => None,
        }
    }
}

/// The slab bases of a list.
pub open spec fn seq_bases(s: Seq<SlabNode>) -> Set<int> {
    Set::new(|b: int| exists|k: int| 0 <= k < s.len() && #[trigger] s[k].addr == b)
}

/// The objects in use in a slab, as (slab base, object index) pairs.
pub open spec fn node_used(n: SlabNode) -> Set<(int, int)> {
    Set::new(|p: (int, int)| p.0 == n.addr && 0 <= p.1 < n.object_count() && !n.free_objects().contains(p.1))
}

/// The objects in use in the slabs of a list.
pub open spec fn seq_used(s: Seq<SlabNode>) -> Set<(int, int)> {
    Set::new(|p: (int, int)| exists|k: int| 0 <= k < s.len() && #[trigger] node_used(s[k]).contains(p))
}

/// No two slabs of a list share a base.
pub open spec fn distinct_bases(s: Seq<SlabNode>) -> bool {
    forall|i: int, j: int| 0 <= i < s.len() && 0 <= j < s.len() && i != j ==> #[trigger] s[i].addr != #[trigger] s[j].addr
}

pub proof fn lemma_seq_push(s: Seq<SlabNode>, n: SlabNode)
    ensures
        seq_bases(s.push(n)) == seq_bases(s).insert(n.addr as int),
        seq_used(s.push(n)) == seq_used(s) + node_used(n),
{
    let t = s.push(n);
    assert forall|b: int| seq_bases(t).contains(b) == seq_bases(s).insert(n.addr as int).contains(b) by {
        if seq_bases(s).contains(b) {
            let k = choose|k: int| 0 <= k < s.len() && #[trigger] s[k].addr == b;
            assert(t[k] == s[k]);
        }
        if b == n.addr {
            assert(t[s.len() as int] == n);
        }
    }
    assert(seq_bases(t) =~= seq_bases(s).insert(n.addr as int));
    assert forall|p: (int, int)| seq_used(t).contains(p) == (seq_used(s) + node_used(n)).contains(p) by {
        if seq_used(s).contains(p) {
            let k = choose|k: int| 0 <= k < s.len() && #[trigger] node_used(s[k]).contains(p);
            assert(t[k] == s[k]);
        }
        if node_used(n).contains(p) {
            assert(t[s.len() as int] == n);
        }
        if seq_used(t).contains(p) {
            let k = choose|k: int| 0 <= k < t.len() && #[trigger] node_used(t[k]).contains(p);
            if k < s.len() {
                assert(t[k] == s[k]);
            }
        }
    }
    assert(seq_used(t) =~= seq_used(s) + node_used(n));
}

pub proof fn lemma_seq_remove(s: Seq<SlabNode>, k: int)
    requires
        0 <= k < s.len(),
        distinct_bases(s),
    ensures
        seq_bases(s.remove(k)) == seq_bases(s).remove(s[k].addr as int),
        seq_used(s.remove(k)) == seq_used(s).filter(|p: (int, int)| p.0 != s[k].addr),
        seq_used(s) == seq_used(s.remove(k)) + node_used(s[k]),
        !seq_bases(s.remove(k)).contains(s[k].addr as int),
        distinct_bases(s.remove(k)),
{
    let t = s.remove(k);
    assert forall|b: int| seq_bases(t).contains(b) == seq_bases(s).remove(s[k].addr as int).contains(b) by {
        if seq_bases(t).contains(b) {
            let j = choose|j: int| 0 <= j < t.len() && #[trigger] t[j].addr == b;
            if j < k {
                assert(t[j] == s[j]);
            } else {
                assert(t[j] == s[j + 1]);
            }
        }
        if seq_bases(s).contains(b) && b != s[k].addr {
            let j = choose|j: int| 0 <= j < s.len() && #[trigger] s[j].addr == b;
            if j < k {
                assert(t[j] == s[j]);
            } else {
                assert(t[j - 1] == s[j]);
            }
        }
    }
    assert(seq_bases(t) =~= seq_bases(s).remove(s[k].addr as int));
    let f = |p: (int, int)| p.0 != s[k].addr;
    assert forall|p: (int, int)| seq_used(t).contains(p) == seq_used(s).filter(f).contains(p) by {
        if seq_used(t).contains(p) {
            let j = choose|j: int| 0 <= j < t.len() && #[trigger] node_used(t[j]).contains(p);
            if j < k {
                assert(t[j] == s[j]);
            } else {
                assert(t[j] == s[j + 1]);
            }
        }
        if seq_used(s).contains(p) && p.0 != s[k].addr {
            let j = choose|j: int| 0 <= j < s.len() && #[trigger] node_used(s[j]).contains(p);
            if j < k {
                assert(t[j] == s[j]);
            } else {
                assert(j != k);
                assert(t[j - 1] == s[j]);
            }
        }
    }
    assert(seq_used(t) =~= seq_used(s).filter(f));
    assert forall|p: (int, int)| seq_used(s).contains(p) == (seq_used(t) + node_used(s[k])).contains(p) by {
        if seq_used(s).contains(p) {
            let j = choose|j: int| 0 <= j < s.len() && #[trigger] node_used(s[j]).contains(p);
            if j != k {
                assert(p.0 == s[j].addr);
                assert(s[j].addr != s[k].addr);
                assert(seq_used(s).filter(f).contains(p));
            }
        }
        if node_used(s[k]).contains(p) {
            assert(seq_used(s).contains(p));
        }
    }
    assert(seq_used(s) =~= seq_used(t) + node_used(s[k]));
    assert forall|i: int, j: int| 0 <= i < t.len() && 0 <= j < t.len() && i != j implies #[trigger] t[i].addr != #[trigger] t[j].addr by {
        let i2 = if i < k { i } else { i + 1 };
        let j2 = if j < k { j } else { j + 1 };
        assert(t[i] == s[i2]);
        assert(t[j] == s[j2]);
    }
}

/// Slab cache for one size class.
pub struct SlabCache {
    size_class: SizeClass,
    /// Slabs with every object free.
    pub empty: SlabIntrusiveList,
    /// Slabs with some objects free.
    pub partial: SlabIntrusiveList,
    /// Slabs with no object free.
    pub full: SlabIntrusiveList,
}

impl SlabCache {
    pub closed spec fn class(&self) -> SizeClass {
        self.size_class
    }

    pub closed spec fn empty_slabs(&self) -> Seq<SlabNode> {
        self.empty@
    }

    pub closed spec fn partial_slabs(&self) -> Seq<SlabNode> {
        self.partial@
    }

    pub closed spec fn full_slabs(&self) -> Seq<SlabNode> {
        self.full@
    }

    /// The bases of the cache's slabs.
    pub open spec fn slabs(&self) -> Set<int> {
        seq_bases(self.empty_slabs()) + seq_bases(self.partial_slabs()) + seq_bases(self.full_slabs())
    }

    /// The objects in use, as (slab base, object index) pairs.
    pub open spec fn used(&self) -> Set<(int, int)> {
        seq_used(self.empty_slabs()) + seq_used(self.partial_slabs()) + seq_used(self.full_slabs())
    }

    /// Address of object `i` of the slab at `b`.
    pub open spec fn object_of(&self, b: int, i: int) -> int {
        b + round_up_to(SLAB_HEADER_SIZE as int, self.class().spec_size() as int) + i * self.class().spec_size()
    }

    /// A well-formed, initialized slab of the cache's class whose objects
    /// all have addresses.
    pub open spec fn node_ok(&self, n: SlabNode) -> bool {
        &&& n.wf()
        &&& n.valid()
        &&& n.size_class == self.class()
        &&& n.object_count() > 0
        &&& n.spec_object_addr(n.object_count()) <= usize::MAX
        &&& n.spec_slab_bytes() > 0
        &&& (n.addr as int) % n.spec_slab_bytes() == 0
        &&& n.spec_object_addr(n.object_count()) <= n.addr + n.spec_slab_bytes()
    }

    /// Every slab of the cache spans `slab_bytes` bytes.
    pub closed spec fn made_with(&self, slab_bytes: int) -> bool {
        &&& forall|k: int| 0 <= k < self.empty@.len() ==> (#[trigger] self.empty@[k]).spec_slab_bytes() == slab_bytes
        &&& forall|k: int| 0 <= k < self.partial@.len() ==> (#[trigger] self.partial@[k]).spec_slab_bytes() == slab_bytes
        &&& forall|k: int| 0 <= k < self.full@.len() ==> (#[trigger] self.full@[k]).spec_slab_bytes() == slab_bytes
    }

    /// Pages of one slab for pages of `page_size` bytes: room for 512
    /// objects.
    pub open spec fn slab_pages(&self, page_size: int) -> int {
        (MAX_OBJECTS * self.class().spec_size() + page_size - 1) / page_size
    }

    /// What asking `page_allocator` for a slab does, `after` being the page
    /// allocator afterwards and `r` the result: `slab_pages` pages aligned
    /// to the bytes of the slab.
    pub open spec fn slab_request<P: PageAllocatorForSlab>(&self, page_allocator: P, after: P, page_size: int, r: AllocResult<usize>) -> bool {
        page_allocator.slab_alloc_effect(&after, self.slab_pages(page_size) as usize, self.slab_size(page_size) as usize, r)
    }

    /// What restocking the empty list did, the cache's slabs being `slabs`
    /// before and `page_allocator` going to `after`, with `bytes` the bytes
    /// of the slab kept: one page request was made; a failed request keeps
    /// nothing; a slab kept is the one granted, a whole slab's bytes; a
    /// granted slab not kept is given back; and a granted slab that is new
    /// and fits the address space is kept.
    pub open spec fn restocked<P: PageAllocatorForSlab>(
        &self,
        slabs: Set<int>,
        page_allocator: P,
        after: P,
        page_size: int,
        bytes: usize,
    ) -> bool {
        exists|mid: P, r0: AllocResult<usize>| #[trigger] self.slab_request(page_allocator, mid, page_size, r0) && {
            &&& r0 is Err ==> bytes == 0 && after == mid
            &&& bytes != 0 ==> r0 is Ok && after == mid && bytes == self.slab_size(page_size)
            &&& r0 matches Ok(b) ==> (bytes == 0 ==> mid.slab_dealloc_effect(&after, b, self.slab_pages(page_size) as usize))
            &&& r0 matches Ok(b) ==> (!slabs.contains(b as int) && b + self.slab_size(page_size) <= usize::MAX ==> bytes != 0)
        }
    }

    /// What taking an object from a new slab did, `page_allocator` going
    /// to `after` and `r` being the result: the slab's pages were asked for;
    /// a refused request is answered with the page allocator's error; a
    /// granted slab that is new and fits the address space yields an object
    /// of it, after which the empty list is restocked; a granted slab that
    /// yields nothing is given back.
    pub open spec fn new_slab_outcome<P: PageAllocatorForSlab>(
        &self,
        page_allocator: P,
        after: P,
        page_size: int,
        r: AllocResult<(usize, usize)>,
    ) -> bool {
        exists|mid: P, r0: AllocResult<usize>| #[trigger] self.slab_request(page_allocator, mid, page_size, r0) && {
            &&& r0 matches Err(e) ==> r == Err::<(usize, usize), AllocError>(e) && after == mid
            &&& r0 matches Ok(b) ==> (r is Err ==> r == Err::<(usize, usize), AllocError>(AllocError::NoMemory)
                && mid.slab_dealloc_effect(&after, b, self.slab_pages(page_size) as usize))
            &&& r0 matches Ok(b) ==> (!self.slabs().contains(b as int) && b + self.slab_size(page_size) <= usize::MAX ==> r is Ok)
            &&& r matches Ok((addr, bytes)) ==> r0 matches Ok(b) && (exists|i: int| addr == #[trigger] self.object_of(b as int, i))
                && bytes >= self.slab_size(page_size) && self.restocked(
                self.slabs().insert(b as int),
                mid,
                after,
                page_size,
                (bytes - self.slab_size(page_size)) as usize,
            )
        }
    }

    /// Bytes of one slab for pages of `page_size` bytes: room for 512
    /// objects, in whole pages.
    pub open spec fn slab_size(&self, page_size: int) -> int {
        ((MAX_OBJECTS * self.class().spec_size() + page_size - 1) / page_size) * page_size
    }

    /// Every slab is on the list its free count calls for, and no two
    /// slabs share a base.
    pub closed spec fn wf(&self) -> bool {
        &&& forall|k: int| 0 <= k < self.empty@.len() ==> self.node_ok(#[trigger] self.empty@[k])
            && self.empty@[k].free_objects().len() == self.empty@[k].object_count()
        &&& forall|k: int| 0 <= k < self.partial@.len() ==> self.node_ok(#[trigger] self.partial@[k])
            && 0 < self.partial@[k].free_objects().len() < self.partial@[k].object_count()
        &&& forall|k: int| 0 <= k < self.full@.len() ==> self.node_ok(#[trigger] self.full@[k])
            && self.full@[k].free_objects().len() == 0
        &&& distinct_bases(self.empty@)
        &&& distinct_bases(self.partial@)
        &&& distinct_bases(self.full@)
        &&& seq_bases(self.empty@).disjoint(seq_bases(self.partial@))
        &&& seq_bases(self.empty@).disjoint(seq_bases(self.full@))
        &&& seq_bases(self.partial@).disjoint(seq_bases(self.full@))
    }

    /// An empty cache for a size class.
    pub fn new(size_class: SizeClass) -> (r: Self)
        ensures
            r.wf(),
            r.class() == size_class,
            r.slabs() == Set::<int>::empty(),
            r.used() == Set::<(int, int)>::empty(),
            forall|sb: int| #[trigger] r.made_with(sb),
    {
        let r = SlabCache {
            size_class,
            empty: SlabIntrusiveList::new(),
            partial: SlabIntrusiveList::new(),
            full: SlabIntrusiveList::new(),
        };
        assert(r.slabs() =~= Set::<int>::empty());
        assert(r.used() =~= Set::<(int, int)>::empty());
        r
    }

    /// Pages and bytes of one slab: room for 512 objects, in whole pages.
    fn geometry(&self, page_size: usize) -> (r: (usize, usize))
        requires
            page_size > 0,
            2 * (MAX_OBJECTS * 2048 + page_size) <= usize::MAX,
        ensures
            r.0 == (MAX_OBJECTS * self.class().spec_size() + page_size - 1) / page_size as int,
            r.1 == r.0 * page_size,
            r.1 >= MAX_OBJECTS * self.class().spec_size(),
            r.1 < MAX_OBJECTS * 2048 + page_size,
            r.1 == self.slab_size(page_size as int),
    {
        let object_size = self.size_class.size();
        let bytes_needed = MAX_OBJECTS * object_size;
        let page_count = (bytes_needed + (page_size - 1)) / page_size;
        proof {
            vstd::arithmetic::div_mod::lemma_fundamental_div_mod((bytes_needed + page_size - 1) as int, page_size as int);
            vstd::arithmetic::div_mod::lemma_mod_bound((bytes_needed + page_size - 1) as int, page_size as int);
            assert(page_count * page_size <= bytes_needed + page_size - 1) by (nonlinear_arith)
                requires bytes_needed + page_size - 1 == page_size * page_count + (bytes_needed + page_size - 1) % (page_size as int),
                    (bytes_needed + page_size - 1) % (page_size as int) >= 0;
            assert(object_size <= 2048);
            assert(bytes_needed <= MAX_OBJECTS * 2048);
            assert(page_count * page_size >= bytes_needed) by (nonlinear_arith)
                requires bytes_needed + page_size - 1 == page_size * page_count + (bytes_needed + page_size - 1) % (page_size as int),
                    (bytes_needed + page_size - 1) % (page_size as int) < page_size;
        }
        (page_count, page_count * page_size)
    }

    /// Whether a slab of the cache has base `b`.
    fn contains_base(&self, b: usize) -> (r: bool)
        ensures
            r == self.slabs().contains(b as int),
    {
        let in_empty = self.empty.find(b).is_some();
        let in_partial = self.partial.find(b).is_some();
        let in_full = self.full.find(b).is_some();
        proof {
            if !in_empty {
                assert(!seq_bases(self.empty@).contains(b as int));
            }
            if !in_partial {
                assert(!seq_bases(self.partial@).contains(b as int));
            }
            if !in_full {
                assert(!seq_bases(self.full@).contains(b as int));
            }
        }
        in_empty || in_partial || in_full
    }

    /// A fresh slab of `slab_bytes` bytes at `start`, every object free;
    /// `None` when it does not fit the address space or holds no object.
    /// A slab of the size it is asked for always holds an object, so only
    /// the address space can refuse it.
    fn fresh_slab(&self, start: usize, slab_bytes: usize) -> (r: Option<SlabNode>)
        requires
            slab_bytes >= MAX_OBJECTS * self.class().spec_size(),
            start as int % slab_bytes as int == 0,
        ensures
            r is Some <==> start + slab_bytes <= usize::MAX,
            r matches Some(n) ==> self.node_ok(n) && n.addr == start && n.free_objects().len() == n.object_count()
                && node_used(n) == Set::<(int, int)>::empty() && n.spec_slab_bytes() == slab_bytes,
    {
        if slab_bytes > usize::MAX - start {
            return None;
        }
        let mut node = SlabNode::new(start, self.size_class);
        proof {
            let size = self.class().spec_size() as int;
            let h = round_up_to(SLAB_HEADER_SIZE as int, size);
            crate::math::lemma_round_up(SLAB_HEADER_SIZE as int, size);
            assert(slab_bytes - h >= size) by (nonlinear_arith)
                requires slab_bytes >= MAX_OBJECTS * size, h < SLAB_HEADER_SIZE + size, size >= 8;
            vstd::arithmetic::div_mod::lemma_div_is_ordered(size, slab_bytes - h, size);
            vstd::arithmetic::div_mod::lemma_div_by_self(size);
            assert(node.objects_for(slab_bytes as int) > 0);
        }
        node.init_header(slab_bytes);
        if !node.is_valid_for_size_class() {
            return None;
        }
        proof {
            let size = self.class().spec_size() as int;
            let h = round_up_to(SLAB_HEADER_SIZE as int, size);
            crate::math::lemma_round_up(SLAB_HEADER_SIZE as int, size);
            let c = node.object_count();
            assert(c * size <= slab_bytes - h) by {
                let q = (slab_bytes - h) / size;
                vstd::arithmetic::div_mod::lemma_fundamental_div_mod(slab_bytes - h, size);
                assert(q * size <= slab_bytes - h) by (nonlinear_arith)
                    requires slab_bytes - h == size * q + (slab_bytes - h) % size, (slab_bytes - h) % size >= 0;
                assert(c * size <= q * size) by (nonlinear_arith) requires c <= q, size >= 0;
            }
            vstd::set_lib::lemma_int_range(0, c);
            assert(node_used(node) =~= Set::<(int, int)>::empty());
        }
        Some(node)
    }
}

impl SlabCache {
    /// Put a slab that has free objects left on the partial list, a full
    /// one on the full list.
    fn file_slab(&mut self, node: SlabNode)
        requires
            old(self).wf(),
            old(self).node_ok(node),
            0 < node.free_objects().len() || node.free_objects().len() == 0,
            node.free_objects().len() < node.object_count(),
            !old(self).slabs().contains(node.addr as int),
        ensures
            final(self).wf(),
            final(self).class() == old(self).class(),
            final(self).empty_slabs() == old(self).empty_slabs(),
            final(self).slabs() == old(self).slabs().insert(node.addr as int),
            final(self).used() == old(self).used() + node_used(node),
            forall|sb: int| old(self).made_with(sb) && node.spec_slab_bytes() == sb ==> #[trigger] final(self).made_with(sb),
    {
        let ghost old_partial = self.partial@;
        let ghost old_full = self.full@;
        if node.is_full() {
            self.full.push_back(node);
            proof {
                lemma_seq_push(old_full, node);
                assert forall|i: int, j: int| 0 <= i < self.full@.len() && 0 <= j < self.full@.len() && i != j implies
                    #[trigger] self.full@[i].addr != #[trigger] self.full@[j].addr by {
                    if i == old_full.len() as int {
                        assert(!seq_bases(old_full).contains(node.addr as int));
                        assert(old_full[j] == self.full@[j]);
                    } else if j == old_full.len() as int {
                        assert(!seq_bases(old_full).contains(node.addr as int));
                        assert(old_full[i] == self.full@[i]);
                    }
                }
                assert(self.slabs() =~= old(self).slabs().insert(node.addr as int));
                assert(self.used() =~= old(self).used() + node_used(node));
            }
        } else {
            self.partial.push_back(node);
            proof {
                lemma_seq_push(old_partial, node);
                assert forall|i: int, j: int| 0 <= i < self.partial@.len() && 0 <= j < self.partial@.len() && i != j implies
                    #[trigger] self.partial@[i].addr != #[trigger] self.partial@[j].addr by {
                    if i == old_partial.len() as int {
                        assert(!seq_bases(old_partial).contains(node.addr as int));
                        assert(old_partial[j] == self.partial@[j]);
                    } else if j == old_partial.len() as int {
                        assert(!seq_bases(old_partial).contains(node.addr as int));
                        assert(old_partial[i] == self.partial@[i]);
                    }
                }
                assert(self.slabs() =~= old(self).slabs().insert(node.addr as int));
                assert(self.used() =~= old(self).used() + node_used(node));
            }
        }
    }

    /// Take the `slab_bytes` bytes at `start` as a new empty slab, unless
    /// the cache already has a slab there or they do not fit the address
    /// space; `false` leaves the cache as it was.
    fn adopt_empty_slab(&mut self, start: usize, slab_bytes: usize) -> (r: bool)
        requires
            old(self).wf(),
            slab_bytes >= MAX_OBJECTS * old(self).class().spec_size(),
            start as int % slab_bytes as int == 0,
        ensures
            final(self).wf(),
            r <==> !old(self).slabs().contains(start as int) && start + slab_bytes <= usize::MAX,
            !r ==> *final(self) == *old(self),
            r ==> final(self).slabs() == old(self).slabs().insert(start as int),
            r ==> final(self).empty_slabs().len() == old(self).empty_slabs().len() + 1,
            r ==> final(self).empty_slabs().last().addr == start && final(self).empty_slabs().last().spec_slab_bytes() == slab_bytes,
            final(self).class() == old(self).class(),
            final(self).used() == old(self).used(),
            final(self).partial_slabs() == old(self).partial_slabs(),
            final(self).full_slabs() == old(self).full_slabs(),
            forall|sb: int| old(self).made_with(sb) && sb == slab_bytes ==> #[trigger] final(self).made_with(sb),
    {
        if self.contains_base(start) {
            return false;
        }
        match self.fresh_slab(start, slab_bytes) {
            Some(node) => {
                let ghost old_empty = self.empty@;
                self.empty.push_back(node);
                proof {
                    lemma_seq_push(old_empty, node);
                    assert forall|i: int, j: int| 0 <= i < self.empty@.len() && 0 <= j < self.empty@.len() && i != j implies
                        #[trigger] self.empty@[i].addr != #[trigger] self.empty@[j].addr by {
                        if i == old_empty.len() as int {
                            assert(!seq_bases(old_empty).contains(node.addr as int));
                            assert(old_empty[j] == self.empty@[j]);
                        } else if j == old_empty.len() as int {
                            assert(!seq_bases(old_empty).contains(node.addr as int));
                            assert(old_empty[i] == self.empty@[i]);
                        }
                    }
                    assert(self.slabs() =~= old(self).slabs().insert(start as int));
                    assert(self.used() =~= old(self).used());
                    assert forall|sb: int| old(self).made_with(sb) && sb == slab_bytes implies #[trigger] self.made_with(sb) by {
                        assert forall|k: int| 0 <= k < self.empty@.len() implies (#[trigger] self.empty@[k]).spec_slab_bytes() == sb by {
                            if k < old_empty.len() {
                                assert(self.empty@[k] == old_empty[k]);
                            }
                        }
                    }
                }
                true
            },
            None => false,
        }
    }

    /// Keep one empty slab ready for later allocations.
    ///
    /// Returns the bytes taken from the page allocator (zero when an empty
    /// slab is already there or none could be had). Pages the cache cannot
    /// use are given back.
    fn preallocate_empty_slab<P: PageAllocatorForSlab>(&mut self, page_allocator: &mut P, page_size: usize) -> (r: usize)
        requires
            old(self).wf(),
            old(page_allocator).slab_inv(),
            page_size > 0,
            2 * (MAX_OBJECTS * 2048 + page_size) <= usize::MAX,
        ensures
            final(self).wf(),
            final(page_allocator).slab_inv(),
            final(self).class() == old(self).class(),
            final(self).used() == old(self).used(),
            final(self).partial_slabs() == old(self).partial_slabs(),
            final(self).full_slabs() == old(self).full_slabs(),
            r < MAX_OBJECTS * 2048 + page_size,
            old(self).made_with(old(self).slab_size(page_size as int)) ==> final(self).made_with(old(self).slab_size(page_size as int)),
            old(self).empty_slabs().len() > 0 ==> r == 0 && *final(self) == *old(self) && *final(page_allocator) == *old(page_allocator),
            r == 0 ==> *final(self) == *old(self),
            r != 0 ==> r == old(self).slab_size(page_size as int) && old(self).empty_slabs().len() == 0
                && final(self).empty_slabs().len() == 1 && final(self).empty_slabs()[0].spec_slab_bytes() == r
                && !old(self).slabs().contains(final(self).empty_slabs()[0].addr as int)
                && final(self).slabs() == old(self).slabs().insert(final(self).empty_slabs()[0].addr as int),
            old(self).empty_slabs().len() == 0 ==> old(self).restocked(
                old(self).slabs(),
                *old(page_allocator),
                *final(page_allocator),
                page_size as int,
                r,
            ),
    {
        if self.empty.len() > 0 {
            return 0;
        }
        let (page_count, slab_bytes) = self.geometry(page_size);
        let ghost pa0 = *page_allocator;
        let r0 = page_allocator.alloc_pages(page_count, slab_bytes);
        let ghost mid = *page_allocator;
        proof {
            assert(old(self).slab_request(pa0, mid, page_size as int, r0));
        }
        match r0 {
            Ok(start_addr) => {
                if self.adopt_empty_slab(start_addr, slab_bytes) {
                    return slab_bytes;
                }
                page_allocator.dealloc_pages(start_addr, page_count);
                0
            },
            Err(_) => 0,
        }
    }

    /// Allocate an object.
    ///
    /// Takes it from the last partial slab, else from an empty slab, else
    /// from a new slab; after using an empty slab another empty one is
    /// prepared. Returns the object's address and the bytes taken from the
    /// page allocator.
    pub fn alloc_object<P: PageAllocatorForSlab>(&mut self, page_allocator: &mut P, page_size: usize) -> (r: AllocResult<(usize, usize)>)
        requires
            old(self).wf(),
            old(page_allocator).slab_inv(),
            page_size > 0,
            2 * (MAX_OBJECTS * 2048 + page_size) <= usize::MAX,
        ensures
            final(self).wf(),
            final(page_allocator).slab_inv(),
            final(self).class() == old(self).class(),
            r matches Ok((addr, _)) ==> exists|b: int, i: int|
                !old(self).used().contains((b, i)) && final(self).used() == old(self).used().insert((b, i)) && addr
                    == #[trigger] old(self).object_of(b, i),
            r is Err ==> final(self).used() == old(self).used(),
            old(self).made_with(old(self).slab_size(page_size as int)) ==> final(self).made_with(old(self).slab_size(page_size as int)),
            old(self).partial_slabs().len() > 0 ==> (r matches Ok((_, bytes)) && bytes == 0) && *final(page_allocator) == *old(
                page_allocator,
            ),
            old(self).partial_slabs().len() == 0 && old(self).empty_slabs().len() > 0 ==> (r matches Ok((_, bytes)) && (bytes
                == 0 || bytes == old(self).slab_size(page_size as int))),
            r matches Ok((_, bytes)) ==> bytes == 0 || bytes == old(self).slab_size(page_size as int) || bytes == 2 * old(
                self,
            ).slab_size(page_size as int),
            crate::math::is_pow2(page_size as int) && old(self).made_with(old(self).slab_size(page_size as int)) ==> (r matches Ok((addr, _))
                ==> addr as int % old(self).class().spec_size() as int == 0),
            old(self).partial_slabs().len() == 0 && old(self).empty_slabs().len() == 0 ==> old(self).new_slab_outcome(
                *old(page_allocator),
                *final(page_allocator),
                page_size as int,
                r,
            ),
            old(self).partial_slabs().len() == 0 && old(self).empty_slabs().len() >= 2 ==> (r matches Ok((_, bytes)) && bytes == 0)
                && *final(page_allocator) == *old(page_allocator),
            old(self).partial_slabs().len() == 0 && old(self).empty_slabs().len() == 1 ==> (r matches Ok((_, bytes)) && old(
                self,
            ).restocked(old(self).slabs(), *old(page_allocator), *final(page_allocator), page_size as int, bytes)),
    {
        if self.partial.len() > 0 {
            let ghost old_partial = self.partial@;
            let mut node = self.partial.pop_back().unwrap();
            proof {
                let k = old_partial.len() - 1;
                assert(old_partial.drop_last() =~= old_partial.remove(k));
                lemma_seq_remove(old_partial, k);
                assert(self.node_ok(node));
                assert(!self.slabs().contains(node.addr as int)) by {
                    assert(seq_bases(old_partial).contains(node.addr as int));
                }
            }
            let ghost n0 = node;
            match node.alloc_object() {
                Some(i) => {
                    proof {
                        vstd::set_lib::lemma_int_range(0, n0.object_count());
                        assert(i < n0.object_count()) by {
                            assert(n0.free_objects().contains(i as int));
                            n0.lemma_free_below();
                        }
                        assert(node.spec_object_addr(i as int) <= usize::MAX) by {
                            assert(i * n0.size_class.spec_size() <= n0.object_count() * n0.size_class.spec_size()) by (nonlinear_arith)
                                requires i < n0.object_count(), n0.size_class.spec_size() >= 0;
                        }
                    }
                    let obj_addr = node.object_addr(i);
                    proof {
                        lemma_node_used_alloc(n0, node, i as int);
                    }
                    let ghost mid = *self;
                    self.file_slab(node);
                    proof {
                        assert(self.used() =~= old(self).used().insert((n0.addr as int, i as int)));
                        assert(obj_addr == old(self).object_of(n0.addr as int, i as int));
                        if crate::math::is_pow2(page_size as int) && old(self).made_with(old(self).slab_size(page_size as int)) {
                            lemma_new_object_aligned(*old(self), *self, n0.addr as int, i as int, page_size as int);
                        }
                    }
                    return Ok((obj_addr, 0));
                },
                None => {
                    proof {
                        assert(false);
                    }
                    return Err(AllocError::NoMemory);
                },
            }
        }
        if self.empty.len() > 0 {
            let ghost old_empty = self.empty@;
            let mut node = self.empty.pop_back().unwrap();
            proof {
                let k = old_empty.len() - 1;
                assert(old_empty.drop_last() =~= old_empty.remove(k));
                lemma_seq_remove(old_empty, k);
                assert(self.node_ok(node));
                assert(!self.slabs().contains(node.addr as int)) by {
                    assert(seq_bases(old_empty).contains(node.addr as int));
                }
            }
            let ghost n0 = node;
            match node.alloc_object() {
                Some(i) => {
                    proof {
                        assert(i < n0.object_count()) by {
                            assert(n0.free_objects().contains(i as int));
                            n0.lemma_free_below();
                        }
                        assert(node.spec_object_addr(i as int) <= usize::MAX) by {
                            assert(i * n0.size_class.spec_size() <= n0.object_count() * n0.size_class.spec_size()) by (nonlinear_arith)
                                requires i < n0.object_count(), n0.size_class.spec_size() >= 0;
                        }
                    }
                    let obj_addr = node.object_addr(i);
                    proof {
                        lemma_node_used_alloc(n0, node, i as int);
                    }
                    self.file_slab(node);
                    let ghost mid = self.used();
                    let ghost cm = *self;
                    proof {
                        assert(cm.slabs() =~= old(self).slabs());
                    }
                    let prealloc_bytes = self.preallocate_empty_slab(page_allocator, page_size);
                    proof {
                        if old(self).empty_slabs().len() == 1 {
                            let (m, r0) = choose|m: P, r0: AllocResult<usize>| #[trigger] cm.slab_request(
                                *old(page_allocator),
                                m,
                                page_size as int,
                                r0,
                            ) && {
                                &&& r0 is Err ==> prealloc_bytes == 0 && *page_allocator == m
                                &&& prealloc_bytes != 0 ==> r0 is Ok && *page_allocator == m && prealloc_bytes == cm.slab_size(page_size as int)
                                &&& r0 matches Ok(b) ==> (prealloc_bytes == 0 ==> m.slab_dealloc_effect(&*page_allocator, b, cm.slab_pages(page_size as int) as usize))
                                &&& r0 matches Ok(b) ==> (!cm.slabs().contains(b as int) && b + cm.slab_size(page_size as int) <= usize::MAX ==> prealloc_bytes != 0)
                            };
                            assert(old(self).slab_request(*old(page_allocator), m, page_size as int, r0));
                        }
                        assert(self.used() =~= old(self).used().insert((n0.addr as int, i as int)));
                        assert(obj_addr == old(self).object_of(n0.addr as int, i as int));
                        if crate::math::is_pow2(page_size as int) && old(self).made_with(old(self).slab_size(page_size as int)) {
                            lemma_new_object_aligned(*old(self), *self, n0.addr as int, i as int, page_size as int);
                        }
                    }
                    return Ok((obj_addr, prealloc_bytes));
                },
                None => {
                    proof {
                        assert(false);
                    }
                    return Err(AllocError::NoMemory);
                },
            }
        }
        let r = self.allocate_new_slab(page_allocator, page_size);
        proof {
            if crate::math::is_pow2(page_size as int) && old(self).made_with(old(self).slab_size(page_size as int)) && r is Ok {
                let (b, i) = choose|b: int, i: int|
                    !old(self).used().contains((b, i)) && self.used() == old(self).used().insert((b, i)) && r->Ok_0.0
                        == #[trigger] old(self).object_of(b, i);
                lemma_new_object_aligned(*old(self), *self, b, i, page_size as int);
            }
        }
        r
    }

    /// Allocate a new slab from the page allocator and an object from it.
    fn allocate_new_slab<P: PageAllocatorForSlab>(&mut self, page_allocator: &mut P, page_size: usize) -> (r: AllocResult<(usize, usize)>)
        requires
            old(self).empty_slabs().len() == 0,
            old(self).wf(),
            old(page_allocator).slab_inv(),
            page_size > 0,
            2 * (MAX_OBJECTS * 2048 + page_size) <= usize::MAX,
        ensures
            final(self).wf(),
            final(page_allocator).slab_inv(),
            final(self).class() == old(self).class(),
            r matches Ok((addr, _)) ==> exists|b: int, i: int|
                !old(self).used().contains((b, i)) && final(self).used() == old(self).used().insert((b, i)) && addr
                    == #[trigger] old(self).object_of(b, i),
            r is Err ==> final(self).used() == old(self).used(),
            old(self).made_with(old(self).slab_size(page_size as int)) ==> final(self).made_with(old(self).slab_size(page_size as int)),
            r matches Ok((_, bytes)) ==> bytes == old(self).slab_size(page_size as int) || bytes == 2 * old(self).slab_size(
                page_size as int,
            ),
            old(self).new_slab_outcome(*old(page_allocator), *final(page_allocator), page_size as int, r),
    {
        let (page_count, slab_bytes) = self.geometry(page_size);
        let ghost pa0 = *page_allocator;
        let r0 = page_allocator.alloc_pages(page_count, slab_bytes);
        let ghost mid = *page_allocator;
        proof {
            assert(old(self).slab_request(pa0, mid, page_size as int, r0));
        }
        let start_addr = match r0 {
            Ok(a) => a,
            Err(e) => {
                return Err(e);
            },
        };
        if self.contains_base(start_addr) {
            page_allocator.dealloc_pages(start_addr, page_count);
            return Err(AllocError::NoMemory);
        }
        let mut node = match self.fresh_slab(start_addr, slab_bytes) {
            Some(n) => n,
            None => {
                page_allocator.dealloc_pages(start_addr, page_count);
                return Err(AllocError::NoMemory);
            },
        };
        let ghost n0 = node;
        match node.alloc_object() {
            Some(i) => {
                proof {
                    assert(i < n0.object_count()) by {
                        assert(n0.free_objects().contains(i as int));
                        n0.lemma_free_below();
                    }
                    assert(node.spec_object_addr(i as int) <= usize::MAX) by {
                        assert(i * n0.size_class.spec_size() <= n0.object_count() * n0.size_class.spec_size()) by (nonlinear_arith)
                            requires i < n0.object_count(), n0.size_class.spec_size() >= 0;
                    }
                    assert(!old(self).used().contains((n0.addr as int, i as int))) by {
                        if old(self).used().contains((n0.addr as int, i as int)) {
                            lemma_used_in_slabs(old(self).empty_slabs(), (n0.addr as int, i as int));
                            lemma_used_in_slabs(old(self).partial_slabs(), (n0.addr as int, i as int));
                            lemma_used_in_slabs(old(self).full_slabs(), (n0.addr as int, i as int));
                        }
                    }
                }
                let obj_addr = node.object_addr(i);
                proof {
                    lemma_node_used_alloc(n0, node, i as int);
                }
                self.file_slab(node);
                let ghost cm = *self;
                let ghost pm = *page_allocator;
                let prealloc_bytes = self.preallocate_empty_slab(page_allocator, page_size);
                proof {
                    assert(self.used() =~= old(self).used().insert((n0.addr as int, i as int)));
                    assert(obj_addr == old(self).object_of(n0.addr as int, i as int));
                    assert(obj_addr == old(self).object_of(start_addr as int, i as int));
                    let (m, q0) = choose|m: P, q0: AllocResult<usize>| #[trigger] cm.slab_request(pm, m, page_size as int, q0) && {
                        &&& q0 is Err ==> prealloc_bytes == 0 && *page_allocator == m
                        &&& prealloc_bytes != 0 ==> q0 is Ok && *page_allocator == m && prealloc_bytes == cm.slab_size(page_size as int)
                        &&& q0 matches Ok(b) ==> (prealloc_bytes == 0 ==> m.slab_dealloc_effect(&*page_allocator, b, cm.slab_pages(page_size as int) as usize))
                        &&& q0 matches Ok(b) ==> (!cm.slabs().contains(b as int) && b + cm.slab_size(page_size as int) <= usize::MAX ==> prealloc_bytes != 0)
                    };
                    assert(old(self).slab_request(pm, m, page_size as int, q0));
                    assert(old(self).restocked(old(self).slabs().insert(start_addr as int), pm, *page_allocator, page_size as int, prealloc_bytes));
                    assert(old(self).slab_request(pa0, mid, page_size as int, r0));
                }
                Ok((obj_addr, slab_bytes + prealloc_bytes))
            },
            None => {
                page_allocator.dealloc_pages(start_addr, page_count);
                Err(AllocError::NoMemory)
            },
        }
    }
}


impl SlabCache {
    /// The base of the slab that `addr` lies in, for pages of `page_size` bytes.
    pub open spec fn slab_base_of(&self, addr: int, page_size: int) -> int {
        addr - addr % self.slab_size(page_size)
    }

    /// Freeing `addr` frees object `i` of the slab it lies in: that object
    /// is in use and starts at `addr`.
    pub open spec fn frees(&self, addr: int, page_size: int, i: int) -> bool {
        let b = self.slab_base_of(addr, page_size);
        self.used().contains((b, i)) && self.object_of(b, i) == addr
    }

    /// The slab at `b` has an object starting at `addr`.
    pub open spec fn holds_object(&self, b: int, addr: int) -> bool {
        ||| seq_holds(self.empty_slabs(), b, addr)
        ||| seq_holds(self.partial_slabs(), b, addr)
        ||| seq_holds(self.full_slabs(), b, addr)
    }

    /// What freeing `addr` does, `after` being the cache afterwards and `r`
    /// the bytes handed back to the page allocator and whether the call was
    /// not a double free.
    ///
    /// When `addr` starts an object in use, that object leaves use and the
    /// call succeeds; its slab goes back to the page allocator exactly when
    /// it was the slab's last object in use and two empty slabs are kept
    /// already. Otherwise nothing changes, and the call reports a double
    /// free when there is no slab at the base or the object there is free.
    pub open spec fn dealloc_result(&self, after: SlabCache, addr: int, page_size: int, r: (usize, bool)) -> bool {
        let b = self.slab_base_of(addr, page_size);
        &&& forall|i: int| #[trigger] self.frees(addr, page_size, i) ==> {
            &&& after.used() == self.used().remove((b, i))
            &&& r.1
            &&& (r.0 != 0) == (self.empty_slabs().len() >= 2 && forall|j: int| #[trigger] self.used().contains((b, j)) ==> j == i)
            &&& r.0 != 0 ==> r.0 == self.slab_size(page_size) && after.slabs() == self.slabs().remove(b)
            &&& r.0 == 0 ==> after.slabs() == self.slabs()
        }
        &&& (forall|i: int| !#[trigger] self.frees(addr, page_size, i)) ==> {
            &&& after.used() == self.used()
            &&& after.slabs() == self.slabs()
            &&& r.0 == 0
            &&& r.1 == (self.slabs().contains(b) && !self.holds_object(b, addr))
        }
    }

    /// Hand an empty slab back to the page allocator when two empty slabs
    /// are kept already, else keep it on the empty list. Returns the bytes
    /// handed back.
    fn retire_slab<P: PageAllocatorForSlab>(
        &mut self,
        node: SlabNode,
        page_allocator: &mut P,
        page_count: usize,
        slab_bytes: usize,
    ) -> (r: usize)
        requires
            old(self).wf(),
            old(page_allocator).slab_inv(),
            old(self).node_ok(node),
            node.free_objects().len() == node.object_count(),
            !old(self).slabs().contains(node.addr as int),
        ensures
            final(self).wf(),
            final(page_allocator).slab_inv(),
            final(self).class() == old(self).class(),
            final(self).used() == old(self).used(),
            old(self).empty_slabs().len() >= 2 ==> r == slab_bytes && final(self).slabs() == old(self).slabs(),
            old(self).empty_slabs().len() < 2 ==> r == 0 && final(self).slabs() == old(self).slabs().insert(node.addr as int),
            forall|sb: int| old(self).made_with(sb) && node.spec_slab_bytes() == sb ==> #[trigger] final(self).made_with(sb),
            old(self).empty_slabs().len() >= 2 ==> old(page_allocator).slab_dealloc_effect(&*final(page_allocator), node.addr, page_count),
            old(self).empty_slabs().len() < 2 ==> *final(page_allocator) == *old(page_allocator),
    {
        if self.empty.len() >= 2 {
            page_allocator.dealloc_pages(node.addr, page_count);
            return slab_bytes;
        }
        let ghost old_empty = self.empty@;
        self.empty.push_back(node);
        proof {
            lemma_node_empty(node);
            lemma_seq_push(old_empty, node);
            assert forall|i: int, j: int| 0 <= i < self.empty@.len() && 0 <= j < self.empty@.len() && i != j implies
                #[trigger] self.empty@[i].addr != #[trigger] self.empty@[j].addr by {
                if i == old_empty.len() as int {
                    assert(!seq_bases(old_empty).contains(node.addr as int));
                    assert(old_empty[j] == self.empty@[j]);
                } else if j == old_empty.len() as int {
                    assert(!seq_bases(old_empty).contains(node.addr as int));
                    assert(old_empty[i] == self.empty@[i]);
                }
            }
            assert(self.slabs() =~= old(self).slabs().insert(node.addr as int));
            assert(self.used() =~= old(self).used());
        }
        0
    }
}


impl SlabCache {
    /// Free `obj_addr` in the full slab at position `k`.
    fn free_in_full<P: PageAllocatorForSlab>(
        &mut self,
        k: usize,
        obj_addr: usize,
        page_allocator: &mut P,
        page_size: usize,
        page_count: usize,
        slab_bytes: usize,
    ) -> (r: (usize, bool))
        requires
            old(self).wf(),
            old(page_allocator).slab_inv(),
            k < old(self).full_slabs().len(),
            slab_bytes == old(self).slab_size(page_size as int),
            slab_bytes > 0,
            page_count == old(self).slab_pages(page_size as int),
            old(self).full_slabs()[k as int].addr == old(self).slab_base_of(obj_addr as int, page_size as int),
        ensures
            final(self).wf(),
            final(page_allocator).slab_inv(),
            final(self).class() == old(self).class(),
            forall|sb: int| #[trigger] old(self).made_with(sb) ==> final(self).made_with(sb),
            old(self).dealloc_result(*final(self), obj_addr as int, page_size as int, r),
            r.0 == 0 ==> *final(page_allocator) == *old(page_allocator),
            r.0 != 0 ==> old(page_allocator).slab_dealloc_effect(
                &*final(page_allocator),
                old(self).slab_base_of(obj_addr as int, page_size as int) as usize,
                old(self).slab_pages(page_size as int) as usize,
            ),
    {
        let ghost e0 = self.empty@;
        let ghost p0 = self.partial@;
        let ghost f0 = self.full@;
        let ghost b = f0[k as int].addr as int;
        let ghost a = obj_addr as int;
        let ghost ps = page_size as int;
        let node = self.full.get(k);
        proof {
            assert(seq_bases(f0).contains(b));
            assert(!seq_bases(e0).contains(b));
            assert(!seq_bases(p0).contains(b));
            assert(node.object_count() * node.size_class.spec_size() >= 0) by (nonlinear_arith)
                requires node.object_count() >= 0, node.size_class.spec_size() >= 0;
            lemma_holds_in(f0, k as int, e0, p0, a);
        }
        match node.object_index_from_addr(obj_addr) {
            None => {
                proof {
                    assert forall|i: int| !#[trigger] old(self).frees(a, ps, i) by {
                        if old(self).frees(a, ps, i) {
                            lemma_used_in(f0, k as int, e0, p0, (b, i));
                            assert(node.spec_object_addr(i) == a);
                        }
                    }
                    assert(!old(self).holds_object(b, a));
                    assert(old(self).slabs().contains(b));
                }
                return (0, true);
            },
            Some(idx) => {
                let mut n = node;
                let freed = n.dealloc_object(idx);
                proof {
                    lemma_used_in(f0, k as int, e0, p0, (b, idx as int));
                    node.lemma_free_below();
                    assert(freed);
                    lemma_node_used_free(node, n, idx as int);
                    assert(old(self).frees(a, ps, idx as int));
                    assert forall|i: int| #[trigger] old(self).frees(a, ps, i) implies i == idx by {
                        lemma_used_in(f0, k as int, e0, p0, (b, i));
                        lemma_object_addr_injective(node, i, idx as int);
                    }
                }
                let _ = self.full.take(k);
                let ghost mid = *self;
                proof {
                    lemma_seq_remove(f0, k as int);
                    assert(mid.wf());
                    assert(old(self).used() == mid.used() + node_used(node)) by {
                        assert(old(self).used() =~= mid.used() + node_used(node));
                    }
                    assert(mid.slabs() == old(self).slabs().remove(b)) by {
                        assert(mid.slabs() =~= old(self).slabs().remove(b));
                    }
                    assert forall|q: (int, int)| #[trigger] mid.used().contains(q) implies q.0 != b by {
                        lemma_used_in_slabs(e0, q);
                        lemma_used_in_slabs(p0, q);
                        lemma_used_in_slabs(f0.remove(k as int), q);
                    }
                    lemma_used_after_free(old(self).used(), mid.used(), node_used(node), node_used(n), b, idx as int);
                    lemma_node_empty(n);
                    if forall|j: int| #[trigger] old(self).used().contains((b, j)) ==> j == idx {
                        assert forall|q: (int, int)| !node_used(n).contains(q) by {
                            if node_used(n).contains(q) {
                                assert(q == (b, q.1));
                                lemma_used_in(f0, k as int, e0, p0, q);
                                assert(old(self).used().contains((b, q.1)));
                            }
                        }
                        assert(node_used(n) =~= Set::<(int, int)>::empty());
                    }
                    if node_used(n) == Set::<(int, int)>::empty() {
                        assert forall|j: int| #[trigger] old(self).used().contains((b, j)) implies j == idx by {
                            lemma_used_in(f0, k as int, e0, p0, (b, j));
                            if j != idx {
                                assert(node_used(n).contains((b, j)));
                            }
                        }
                    }
                }
                if n.is_empty() {
                    let rb = self.retire_slab(n, page_allocator, page_count, slab_bytes);
                    proof {
                        assert(mid.empty_slabs() == old(self).empty_slabs());
                        if rb == 0 {
                            assert(old(self).slabs().contains(b));
                            assert(self.slabs() =~= old(self).slabs());
                        } else {
                            assert(self.slabs() == old(self).slabs().remove(b));
                        }
                        assert(self.used() == old(self).used().remove((b, idx as int)));
                    }
                    (rb, true)
                } else {
                    self.file_slab(n);
                    proof {
                        assert(self.slabs() == mid.slabs().insert(b));
                        assert(old(self).slabs().contains(b));
                        assert(self.slabs() =~= old(self).slabs());
                    }
                    (0, true)
                }
            },
        }
    }
}


impl SlabCache {
    /// Free `obj_addr` in the partial slab at position `k`. A slab that
    /// still has objects in use keeps its place on the list.
    fn free_in_partial<P: PageAllocatorForSlab>(
        &mut self,
        k: usize,
        obj_addr: usize,
        page_allocator: &mut P,
        page_size: usize,
        page_count: usize,
        slab_bytes: usize,
    ) -> (r: (usize, bool))
        requires
            old(self).wf(),
            old(page_allocator).slab_inv(),
            k < old(self).partial_slabs().len(),
            slab_bytes == old(self).slab_size(page_size as int),
            slab_bytes > 0,
            page_count == old(self).slab_pages(page_size as int),
            old(self).partial_slabs()[k as int].addr == old(self).slab_base_of(obj_addr as int, page_size as int),
        ensures
            final(self).wf(),
            final(page_allocator).slab_inv(),
            final(self).class() == old(self).class(),
            forall|sb: int| #[trigger] old(self).made_with(sb) ==> final(self).made_with(sb),
            old(self).dealloc_result(*final(self), obj_addr as int, page_size as int, r),
            r.0 == 0 ==> *final(page_allocator) == *old(page_allocator),
            r.0 != 0 ==> old(page_allocator).slab_dealloc_effect(
                &*final(page_allocator),
                old(self).slab_base_of(obj_addr as int, page_size as int) as usize,
                old(self).slab_pages(page_size as int) as usize,
            ),
    {
        let ghost e0 = self.empty@;
        let ghost p0 = self.partial@;
        let ghost f0 = self.full@;
        let ghost b = p0[k as int].addr as int;
        let ghost a = obj_addr as int;
        let ghost ps = page_size as int;
        let node = self.partial.get(k);
        proof {
            assert(seq_bases(p0).contains(b));
            assert(!seq_bases(e0).contains(b));
            assert(!seq_bases(f0).contains(b));
            assert(node.object_count() * node.size_class.spec_size() >= 0) by (nonlinear_arith)
                requires node.object_count() >= 0, node.size_class.spec_size() >= 0;
            lemma_holds_in(p0, k as int, e0, f0, a);
        }
        match node.object_index_from_addr(obj_addr) {
            None => {
                proof {
                    assert forall|i: int| !#[trigger] old(self).frees(a, ps, i) by {
                        if old(self).frees(a, ps, i) {
                            lemma_used_in(p0, k as int, e0, f0, (b, i));
                            assert(node.spec_object_addr(i) == a);
                        }
                    }
                    assert(!old(self).holds_object(b, a));
                    assert(old(self).slabs().contains(b));
                }
                return (0, true);
            },
            Some(idx) => {
                let mut n = node;
                let freed = n.dealloc_object(idx);
                proof {
                    lemma_used_in(p0, k as int, e0, f0, (b, idx as int));
                    node.lemma_free_below();
                    assert forall|i: int| #[trigger] old(self).frees(a, ps, i) implies i == idx by {
                        lemma_used_in(p0, k as int, e0, f0, (b, i));
                        lemma_object_addr_injective(node, i, idx as int);
                    }
                }
                if !freed {
                    proof {
                        assert forall|i: int| !#[trigger] old(self).frees(a, ps, i) by {
                            if old(self).frees(a, ps, i) {
                                assert(i == idx);
                            }
                        }
                        assert(old(self).holds_object(b, a)) by {
                            assert(node.spec_object_addr(idx as int) == a);
                        }
                    }
                    return (0, false);
                }
                proof {
                    lemma_node_used_free(node, n, idx as int);
                    assert(old(self).frees(a, ps, idx as int));
                    lemma_seq_remove(p0, k as int);
                    lemma_node_empty(n);
                    if forall|j: int| #[trigger] old(self).used().contains((b, j)) ==> j == idx {
                        assert forall|q: (int, int)| !node_used(n).contains(q) by {
                            if node_used(n).contains(q) {
                                assert(q == (b, q.1));
                                lemma_used_in(p0, k as int, e0, f0, q);
                                assert(old(self).used().contains((b, q.1)));
                            }
                        }
                        assert(node_used(n) =~= Set::<(int, int)>::empty());
                    }
                    if node_used(n) == Set::<(int, int)>::empty() {
                        assert forall|j: int| #[trigger] old(self).used().contains((b, j)) implies j == idx by {
                            lemma_used_in(p0, k as int, e0, f0, (b, j));
                            if j != idx {
                                assert(node_used(n).contains((b, j)));
                            }
                        }
                    }
                    assert forall|q: (int, int)| #[trigger] (seq_used(e0) + seq_used(p0.remove(k as int)) + seq_used(f0)).contains(q)
                        implies q.0 != b by {
                        lemma_used_in_slabs(e0, q);
                        lemma_used_in_slabs(p0.remove(k as int), q);
                        lemma_used_in_slabs(f0, q);
                    }
                    assert(old(self).used() == (seq_used(e0) + seq_used(p0.remove(k as int)) + seq_used(f0)) + node_used(node)) by {
                        assert(old(self).used() =~= (seq_used(e0) + seq_used(p0.remove(k as int)) + seq_used(f0)) + node_used(node));
                    }
                    lemma_used_after_free(
                        old(self).used(),
                        seq_used(e0) + seq_used(p0.remove(k as int)) + seq_used(f0),
                        node_used(node),
                        node_used(n),
                        b,
                        idx as int,
                    );
                }
                if n.is_empty() {
                    let _ = self.partial.take(k);
                    let ghost mid = *self;
                    proof {
                        assert(mid.wf());
                        assert(mid.used() =~= seq_used(e0) + seq_used(p0.remove(k as int)) + seq_used(f0));
                        assert(mid.slabs() =~= old(self).slabs().remove(b));
                        assert(mid.empty_slabs() == old(self).empty_slabs());
                    }
                    let rb = self.retire_slab(n, page_allocator, page_count, slab_bytes);
                    proof {
                        if rb == 0 {
                            assert(self.slabs() =~= old(self).slabs());
                        }
                        assert(self.used() == old(self).used().remove((b, idx as int)));
                    }
                    (rb, true)
                } else {
                    self.partial.set(k, n);
                    proof {
                        lemma_seq_update(p0, k as int, n);
                        n.lemma_free_below();
                        assert(self.partial@ == p0.update(k as int, n));
                        assert forall|j: int| 0 <= j < self.partial@.len() implies self.node_ok(#[trigger] self.partial@[j])
                            && 0 < self.partial@[j].free_objects().len() < self.partial@[j].object_count() by {
                            if j != k {
                                assert(self.partial@[j] == p0[j]);
                            }
                        }
                        assert(self.slabs() =~= old(self).slabs());
                        assert(self.used() =~= old(self).used().remove((b, idx as int)));
                        assert(self.wf());
                    }
                    (0, true)
                }
            },
        }
    }
}


impl SlabCache {
    /// Free the object at `obj_addr`.
    ///
    /// The slab is found by rounding the address down to the slab size.
    /// Returns the bytes handed back to the page allocator and `false` for
    /// a double free (no slab there, or the object is already free); an
    /// address inside a slab that starts no object is ignored and counts as
    /// freed. A slab left with no object in use goes back to the page
    /// allocator when two empty slabs are kept already, else to the empty
    /// list; a full slab that frees an object becomes partial.
    pub fn dealloc_object<P: PageAllocatorForSlab>(&mut self, obj_addr: usize, page_allocator: &mut P, page_size: usize) -> (r: (usize, bool))
        requires
            old(self).wf(),
            old(page_allocator).slab_inv(),
            page_size > 0,
            2 * (MAX_OBJECTS * 2048 + page_size) <= usize::MAX,
        ensures
            final(self).wf(),
            final(page_allocator).slab_inv(),
            final(self).class() == old(self).class(),
            forall|sb: int| #[trigger] old(self).made_with(sb) ==> final(self).made_with(sb),
            old(self).dealloc_result(*final(self), obj_addr as int, page_size as int, r),
            r.0 == 0 ==> *final(page_allocator) == *old(page_allocator),
            r.0 != 0 ==> old(page_allocator).slab_dealloc_effect(
                &*final(page_allocator),
                old(self).slab_base_of(obj_addr as int, page_size as int) as usize,
                old(self).slab_pages(page_size as int) as usize,
            ),
    {
        let (page_count, slab_bytes) = self.geometry(page_size);
        let slab_base = align_down_any(obj_addr, slab_bytes);
        let ghost a = obj_addr as int;
        let ghost ps = page_size as int;
        let ghost b = slab_base as int;
        proof {
            assert(b == old(self).slab_base_of(a, ps));
        }
        match self.full.find(slab_base) {
            Some(k) => {
                return self.free_in_full(k, obj_addr, page_allocator, page_size, page_count, slab_bytes);
            },
            None => {},
        }
        match self.partial.find(slab_base) {
            Some(k) => {
                return self.free_in_partial(k, obj_addr, page_allocator, page_size, page_count, slab_bytes);
            },
            None => {},
        }
        let ghost e0 = self.empty@;
        let ghost p0 = self.partial@;
        let ghost f0 = self.full@;
        proof {
            assert(!seq_bases(f0).contains(b));
            assert(!seq_bases(p0).contains(b));
        }
        match self.empty.find(slab_base) {
            Some(k) => {
                let node = self.empty.get(k);
                proof {
                    assert(node.object_count() * node.size_class.spec_size() >= 0) by (nonlinear_arith)
                        requires node.object_count() >= 0, node.size_class.spec_size() >= 0;
                    lemma_holds_in(e0, k as int, p0, f0, a);
                    lemma_node_empty(node);
                    assert forall|i: int| !#[trigger] old(self).frees(a, ps, i) by {
                        if old(self).frees(a, ps, i) {
                            lemma_used_in(e0, k as int, p0, f0, (b, i));
                        }
                    }
                    assert(old(self).slabs().contains(b)) by {
                        assert(seq_bases(e0).contains(b));
                    }
                }
                match node.object_index_from_addr(obj_addr) {
                    Some(idx) => {
                        proof {
                            assert(node.spec_object_addr(idx as int) == a);
                        }
                        (0, false)
                    },
                    None => (0, true),
                }
            },
            None => {
                proof {
                    assert(!old(self).slabs().contains(b));
                    assert forall|i: int| !#[trigger] old(self).frees(a, ps, i) by {
                        if old(self).frees(a, ps, i) {
                            lemma_used_in_slabs(e0, (b, i));
                            lemma_used_in_slabs(p0, (b, i));
                            lemma_used_in_slabs(f0, (b, i));
                        }
                    }
                }
                (0, false)
            },
        }
    }
}


/// An object in use lies in the slab the cache finds for its address, so
/// freeing that address frees it.
pub proof fn lemma_object_found(c: SlabCache, b: int, i: int, page_size: int)
    requires
        c.wf(),
        page_size > 0,
        c.made_with(c.slab_size(page_size)),
        c.used().contains((b, i)),
    ensures
        c.frees(c.object_of(b, i), page_size, i),
{
    let sb = c.slab_size(page_size);
    let e = c.empty_slabs();
    let p = c.partial_slabs();
    let f = c.full_slabs();
    let n = if seq_used(e).contains((b, i)) {
        let k = choose|k: int| 0 <= k < e.len() && #[trigger] node_used(e[k]).contains((b, i));
        e[k]
    } else if seq_used(p).contains((b, i)) {
        let k = choose|k: int| 0 <= k < p.len() && #[trigger] node_used(p[k]).contains((b, i));
        p[k]
    } else {
        let k = choose|k: int| 0 <= k < f.len() && #[trigger] node_used(f[k]).contains((b, i));
        f[k]
    };
    assert(c.node_ok(n) && n.spec_slab_bytes() == sb && node_used(n).contains((b, i)));
    let size = c.class().spec_size() as int;
    let h = round_up_to(SLAB_HEADER_SIZE as int, size);
    let cnt = n.object_count();
    assert(n.addr == b && 0 <= i < cnt);
    crate::math::lemma_round_up(SLAB_HEADER_SIZE as int, size);
    assert(h + i * size < sb) by (nonlinear_arith)
        requires h + cnt * size <= sb, 0 <= i < cnt, size > 0, h >= 0;
    assert(i * size >= 0) by (nonlinear_arith) requires i >= 0, size > 0;
    let q = b / sb;
    vstd::arithmetic::div_mod::lemma_fundamental_div_mod(b, sb);
    assert(b == q * sb) by (nonlinear_arith) requires b == sb * (b / sb) + b % sb, b % sb == 0, q == b / sb;
    vstd::arithmetic::div_mod::lemma_fundamental_div_mod_converse(c.object_of(b, i), sb, q, h + i * size);
}

/// An object in use starts at a multiple of the class size, when the
/// page size is a multiple of the largest class.
/// An object newly in use in a cache made with full-size slabs starts at
/// a multiple of the class size.
proof fn lemma_new_object_aligned(c0: SlabCache, c1: SlabCache, b: int, i: int, page_size: int)
    requires
        c1.wf(),
        crate::math::is_pow2(page_size),
        c1.class() == c0.class(),
        c1.made_with(c0.slab_size(page_size)),
        c1.used().contains((b, i)),
    ensures
        c0.object_of(b, i) % (c0.class().spec_size() as int) == 0,
{
    lemma_object_aligned(c1, b, i, page_size);
}

pub proof fn lemma_object_aligned(c: SlabCache, b: int, i: int, page_size: int)
    requires
        c.wf(),
        crate::math::is_pow2(page_size),
        c.made_with(c.slab_size(page_size)),
        c.used().contains((b, i)),
    ensures
        c.object_of(b, i) % (c.class().spec_size() as int) == 0,
{
    let sb = c.slab_size(page_size);
    let e = c.empty_slabs();
    let p = c.partial_slabs();
    let f = c.full_slabs();
    let n = if seq_used(e).contains((b, i)) {
        let k = choose|k: int| 0 <= k < e.len() && #[trigger] node_used(e[k]).contains((b, i));
        e[k]
    } else if seq_used(p).contains((b, i)) {
        let k = choose|k: int| 0 <= k < p.len() && #[trigger] node_used(p[k]).contains((b, i));
        p[k]
    } else {
        let k = choose|k: int| 0 <= k < f.len() && #[trigger] node_used(f[k]).contains((b, i));
        f[k]
    };
    assert(c.node_ok(n) && n.spec_slab_bytes() == sb && node_used(n).contains((b, i)));
    assert(n.addr == b && 0 <= i);
    let size = c.class().spec_size() as int;
    super::slab_byte_allocator::lemma_class_pow2(c.class());
    crate::math::lemma_is_pow2_pos(size);
    crate::math::lemma_is_pow2_pos(page_size);
    let h = round_up_to(SLAB_HEADER_SIZE as int, size);
    crate::math::lemma_round_up(SLAB_HEADER_SIZE as int, size);
    vstd::arithmetic::div_mod::lemma_fundamental_div_mod(h, size);
    let eh = h / size;
    vstd::arithmetic::div_mod::lemma_fundamental_div_mod(b, sb);
    let q = b / sb;
    lemma_slab_size_multiple(size, page_size);
    let w = sb / size;
    assert(c.object_of(b, i) == (q * w + eh + i) * size) by (nonlinear_arith)
        requires b == sb * q, sb == size * w, h == size * eh,
            c.object_of(b, i) == b + h + i * size;
    vstd::arithmetic::div_mod::lemma_mod_multiples_basic(q * w + eh + i, size);
}

/// A slab for pages of a power-of-two size is a whole number of objects
/// of a power-of-two class size: pages as large as an object hold whole
/// objects, and smaller pages add up to exactly 512 objects.
proof fn lemma_slab_size_multiple(size: int, page_size: int)
    requires
        crate::math::is_pow2(size),
        crate::math::is_pow2(page_size),
    ensures
        ((MAX_OBJECTS * size + page_size - 1) / page_size) * page_size == size * ((((MAX_OBJECTS * size + page_size - 1) / page_size)
            * page_size) / size),
{
    crate::math::lemma_is_pow2_pos(size);
    crate::math::lemma_is_pow2_pos(page_size);
    let t = (MAX_OBJECTS * size + page_size - 1) / page_size;
    let sb = t * page_size;
    if size <= page_size {
        crate::math::lemma_pow2_le_divides(size, page_size);
        let k = page_size / size;
        assert(sb == size * (t * k)) by (nonlinear_arith) requires sb == t * page_size, page_size == size * k;
        vstd::arithmetic::div_mod::lemma_div_multiples_vanish(t * k, size);
    } else {
        crate::math::lemma_pow2_le_divides(page_size, size);
        let k = size / page_size;
        assert(MAX_OBJECTS * size + page_size - 1 == page_size * (MAX_OBJECTS * k) + (page_size - 1)) by (nonlinear_arith)
            requires size == page_size * k;
        vstd::arithmetic::div_mod::lemma_div_multiples_vanish_fancy(MAX_OBJECTS * k, page_size - 1, page_size);
        assert(t == MAX_OBJECTS * k);
        assert(sb == size * MAX_OBJECTS) by (nonlinear_arith) requires sb == t * page_size, t == MAX_OBJECTS * k, size == page_size * k;
        vstd::arithmetic::div_mod::lemma_div_multiples_vanish(MAX_OBJECTS as int, size);
    }
}

/// Freeing the address an allocation handed out takes back exactly that
/// object: the objects in use are again those before the allocation, and
/// the call is no double free.
pub proof fn lemma_dealloc_undoes_alloc(
    c0: SlabCache,
    c1: SlabCache,
    c2: SlabCache,
    addr: int,
    page_size: int,
    r: (usize, bool),
)
    requires
        c1.wf(),
        page_size > 0,
        c1.class() == c0.class(),
        c1.made_with(c1.slab_size(page_size)),
        exists|b: int, i: int|
            !c0.used().contains((b, i)) && c1.used() == c0.used().insert((b, i)) && addr == #[trigger] c0.object_of(b, i),
        c1.dealloc_result(c2, addr, page_size, r),
    ensures
        c2.used() == c0.used(),
        r.1,
{
    let (b, i) = choose|b: int, i: int|
        !c0.used().contains((b, i)) && c1.used() == c0.used().insert((b, i)) && addr == #[trigger] c0.object_of(b, i);
    lemma_object_found(c1, b, i, page_size);
    assert(c1.frees(addr, page_size, i));
    assert(c1.slab_base_of(addr, page_size) == b);
    assert(c2.used() =~= c0.used());
}

/// A pair in use in a list belongs to one of its slabs.
pub proof fn lemma_used_in_slabs(s: Seq<SlabNode>, p: (int, int))
    ensures
        seq_used(s).contains(p) ==> seq_bases(s).contains(p.0),
{
    if seq_used(s).contains(p) {
        let k = choose|k: int| 0 <= k < s.len() && #[trigger] node_used(s[k]).contains(p);
        assert(s[k].addr == p.0);
    }
}

/// Taking free object `i` adds it to the slab's objects in use.
pub proof fn lemma_node_used_alloc(n0: SlabNode, n1: SlabNode, i: int)
    requires
        n0.wf(),
        n1.addr == n0.addr,
        n1.object_count() == n0.object_count(),
        0 <= i < n0.object_count(),
        n0.free_objects().contains(i),
        n1.free_objects() == n0.free_objects().remove(i),
    ensures
        !node_used(n0).contains((n0.addr as int, i)),
        node_used(n1) == node_used(n0).insert((n0.addr as int, i)),
        n1.free_objects().len() == n0.free_objects().len() - 1,
{
    n0.lemma_free_below();
    vstd::set::axiom_set_remove_len(n0.free_objects(), i);
    assert(node_used(n1) =~= node_used(n0).insert((n0.addr as int, i)));
}


/// Freeing object `i` takes it out of the slab's objects in use.
pub proof fn lemma_node_used_free(n0: SlabNode, n1: SlabNode, i: int)
    requires
        n0.wf(),
        n1.addr == n0.addr,
        n1.object_count() == n0.object_count(),
        0 <= i < n0.object_count(),
        !n0.free_objects().contains(i),
        n1.free_objects() == n0.free_objects().insert(i),
    ensures
        node_used(n0).contains((n0.addr as int, i)),
        node_used(n1) == node_used(n0).remove((n0.addr as int, i)),
        n1.free_objects().len() == n0.free_objects().len() + 1,
{
    n0.lemma_free_below();
    vstd::set::axiom_set_insert_len(n0.free_objects(), i);
    assert(node_used(n1) =~= node_used(n0).remove((n0.addr as int, i)));
}

/// A slab has every object free exactly when none is in use.
pub proof fn lemma_node_empty(n: SlabNode)
    requires
        n.wf(),
    ensures
        (n.free_objects().len() == n.object_count()) == (node_used(n) == Set::<(int, int)>::empty()),
{
    n.lemma_free_below();
    let r = vstd::set_lib::set_int_range(0, n.object_count());
    vstd::set_lib::lemma_int_range(0, n.object_count());
    assert(n.free_objects().subset_of(r));
    if n.free_objects().len() == n.object_count() {
        vstd::set_lib::lemma_subset_equality(n.free_objects(), r);
        assert(node_used(n) =~= Set::<(int, int)>::empty());
    }
    if node_used(n) == Set::<(int, int)>::empty() {
        assert forall|j: int| r.contains(j) implies n.free_objects().contains(j) by {
            if !n.free_objects().contains(j) {
                assert(node_used(n).contains((n.addr as int, j)));
            }
        }
        assert(n.free_objects() =~= r);
    }
}

/// A pair of the slab at position `k` is in use in the list exactly when
/// it is in use in that slab.
pub proof fn lemma_only_slab(s: Seq<SlabNode>, k: int, p: (int, int))
    requires
        distinct_bases(s),
        0 <= k < s.len(),
        p.0 == s[k].addr,
    ensures
        seq_used(s).contains(p) == node_used(s[k]).contains(p),
{
    lemma_seq_remove(s, k);
    lemma_used_in_slabs(s.remove(k), p);
}

/// Replacing a slab by one with the same base.
pub proof fn lemma_seq_update(s: Seq<SlabNode>, k: int, n: SlabNode)
    requires
        0 <= k < s.len(),
        distinct_bases(s),
        n.addr == s[k].addr,
    ensures
        seq_bases(s.update(k, n)) == seq_bases(s),
        seq_used(s.update(k, n)) == seq_used(s.remove(k)) + node_used(n),
        distinct_bases(s.update(k, n)),
{
    let t = s.update(k, n);
    let r = s.remove(k);
    assert forall|b: int| seq_bases(t).contains(b) == seq_bases(s).contains(b) by {
        if seq_bases(t).contains(b) {
            let j = choose|j: int| 0 <= j < t.len() && #[trigger] t[j].addr == b;
            assert(s[j].addr == b);
        }
        if seq_bases(s).contains(b) {
            let j = choose|j: int| 0 <= j < s.len() && #[trigger] s[j].addr == b;
            assert(t[j].addr == b);
        }
    }
    assert(seq_bases(t) =~= seq_bases(s));
    assert forall|p: (int, int)| seq_used(t).contains(p) == (seq_used(r) + node_used(n)).contains(p) by {
        if seq_used(t).contains(p) {
            let j = choose|j: int| 0 <= j < t.len() && #[trigger] node_used(t[j]).contains(p);
            if j < k {
                assert(r[j] == t[j]);
            } else if j > k {
                assert(r[j - 1] == t[j]);
            }
        }
        if seq_used(r).contains(p) {
            let j = choose|j: int| 0 <= j < r.len() && #[trigger] node_used(r[j]).contains(p);
            if j < k {
                assert(t[j] == r[j]);
            } else {
                assert(t[j + 1] == r[j]);
            }
        }
        if node_used(n).contains(p) {
            assert(t[k] == n);
        }
    }
    assert(seq_used(t) =~= seq_used(r) + node_used(n));
    assert forall|i: int, j: int| 0 <= i < t.len() && 0 <= j < t.len() && i != j implies #[trigger] t[i].addr
        != #[trigger] t[j].addr by {
        assert(t[i].addr == s[i].addr);
        assert(t[j].addr == s[j].addr);
    }
}

/// Taking object `(b, i)` out of use, where the pairs left beside the slab
/// at `b` all lie in other slabs.
pub proof fn lemma_used_after_free(
    before: Set<(int, int)>,
    rest: Set<(int, int)>,
    slab0: Set<(int, int)>,
    slab1: Set<(int, int)>,
    b: int,
    i: int,
)
    requires
        before == rest + slab0,
        forall|p: (int, int)| #[trigger] rest.contains(p) ==> p.0 != b,
        slab1 == slab0.remove((b, i)),
    ensures
        rest + slab1 == before.remove((b, i)),
{
    assert(rest + slab1 =~= before.remove((b, i)));
}


/// The pairs of base `s[k].addr` in use across three lists are those in
/// use in the slab at position `k` of `s`, when the other lists have no
/// slab there.
pub proof fn lemma_used_in(s: Seq<SlabNode>, k: int, o1: Seq<SlabNode>, o2: Seq<SlabNode>, p: (int, int))
    requires
        distinct_bases(s),
        0 <= k < s.len(),
        p.0 == s[k].addr,
        !seq_bases(o1).contains(s[k].addr as int),
        !seq_bases(o2).contains(s[k].addr as int),
    ensures
        seq_used(s).contains(p) == node_used(s[k]).contains(p),
        !seq_used(o1).contains(p),
        !seq_used(o2).contains(p),
{
    lemma_only_slab(s, k, p);
    lemma_used_in_slabs(o1, p);
    lemma_used_in_slabs(o2, p);
}

/// Only the slab at position `k` of `s` can hold an object of base
/// `s[k].addr`, when the other lists have no slab there.
pub proof fn lemma_holds_in(s: Seq<SlabNode>, k: int, o1: Seq<SlabNode>, o2: Seq<SlabNode>, a: int)
    requires
        distinct_bases(s),
        0 <= k < s.len(),
        !seq_bases(o1).contains(s[k].addr as int),
        !seq_bases(o2).contains(s[k].addr as int),
    ensures
        seq_holds(s, s[k].addr as int, a) == (exists|i: int| 0 <= i < s[k].object_count() && #[trigger] s[k].spec_object_addr(i) == a),
        !seq_holds(o1, s[k].addr as int, a),
        !seq_holds(o2, s[k].addr as int, a),
{
    let b = s[k].addr as int;
    if seq_holds(s, b, a) {
        let (k2, i) = choose|k2: int, i: int|
            0 <= k2 < s.len() && s[k2].addr == b && 0 <= i < s[k2].object_count() && #[trigger] s[k2].spec_object_addr(i) == a;
        assert(k2 == k);
    }
    if exists|i: int| 0 <= i < s[k].object_count() && #[trigger] s[k].spec_object_addr(i) == a {
        let i = choose|i: int| 0 <= i < s[k].object_count() && #[trigger] s[k].spec_object_addr(i) == a;
        assert(seq_holds(s, b, a));
    }
    if seq_holds(o1, b, a) {
        let (k2, i) = choose|k2: int, i: int|
            0 <= k2 < o1.len() && o1[k2].addr == b && 0 <= i < o1[k2].object_count() && #[trigger] o1[k2].spec_object_addr(i) == a;
        assert(seq_bases(o1).contains(b));
    }
    if seq_holds(o2, b, a) {
        let (k2, i) = choose|k2: int, i: int|
            0 <= k2 < o2.len() && o2[k2].addr == b && 0 <= i < o2[k2].object_count() && #[trigger] o2[k2].spec_object_addr(i) == a;
        assert(seq_bases(o2).contains(b));
    }
}

/// Objects of one slab start at distinct addresses.
pub proof fn lemma_object_addr_injective(n: SlabNode, i: int, j: int)
    requires
        n.size_class.spec_size() > 0,
        n.spec_object_addr(i) == n.spec_object_addr(j),
    ensures
        i == j,
{
    let size = n.size_class.spec_size() as int;
    assert(i * size == j * size);
    assert(i == j) by (nonlinear_arith)
        requires i * size == j * size, size > 0;
}

/// The slab at position `k` of `s` has an object starting at `a`.
pub open spec fn seq_holds(s: Seq<SlabNode>, b: int, a: int) -> bool {
    exists|k: int, i: int|
        0 <= k < s.len() && s[k].addr == b && 0 <= i < s[k].object_count() && #[trigger] s[k].spec_object_addr(i) == a
}

} // verus!
