//! Page allocator with contiguous block combination support.
//!
//! Requests go to the buddy allocator first; when it cannot serve one, free
//! buddy blocks that happen to lie next to each other are combined into one
//! allocation, and the parts are remembered so they can be released.
use vstd::prelude::*;
use vstd::set_lib::set_int_range;
use crate::{AllocError, AllocResult, BaseAllocator, PageAllocator};
use crate::math::is_pow2;
use crate::buddy::buddy_allocator::{BuddyPageAllocator, NODE_POOL_LOW_WATER_NODES, NODE_POOL_PAGES};
use crate::buddy::global_node_pool::region_node_count;
use crate::buddy::layout::layout_nodes;
use crate::buddy::buddy_allocator::phys_low;
use crate::buddy::buddy_block::{BuddyBlock, DEFAULT_MAX_ORDER};
use crate::buddy::buddy_set::{block_range, block_bytes, page_size_ok, needed_order};
use crate::buddy::stats::BuddyStats;

verus! {

/// Maximum number of buddy blocks in a single contiguous allocation.
pub const MAX_PARTS_PER_ALLOC: usize = 8;

/// Maximum number of composite allocations tracked at once.
pub const MAX_COMPOSITE_ALLOCS: usize = 16;

/// Metadata of a composite allocation (several buddy blocks combined).
#[derive(Clone, Copy, Debug)]
pub struct CompositeBlockInfo {
    /// Base address of the composite allocation.
    pub base_addr: usize,
    /// Number of parts in this composite allocation.
    pub part_count: u8,
    /// The parts: (address, order).
    pub parts: [(usize, u32); 8],
}

/// Tracker of composite allocations in a fixed-size table.
pub struct CompositeBlockTracker {
    /// The table; the first `count` slots are in use.
    pub blocks: [Option<CompositeBlockInfo>; 16],
    /// Number of active composite allocations.
    pub count: usize,
}

/// The index of the first entry with base address `base`, if any.
pub open spec fn first_match(entries: Seq<CompositeBlockInfo>, base: usize) -> Option<int>
    decreases entries.len(),
{
    if entries.len() == 0 {
        None
    } else if entries[0].base_addr == base {
        Some(0)
    } else {
        match first_match(entries.drop_first(), base) {
            Some(k) => Some(k + 1),
            None => None,
        }
    }
}

impl CompositeBlockTracker {
    /// The slots in use hold entries; the others are empty.
    pub open spec fn wf(&self) -> bool {
        &&& self.count <= MAX_COMPOSITE_ALLOCS
        &&& forall|i: int| 0 <= i < self.count ==> #[trigger] self.blocks[i] is Some
        &&& forall|i: int| self.count <= i < MAX_COMPOSITE_ALLOCS ==> #[trigger] self.blocks[i] is None
    }

    /// The tracked allocations, in table order.
    pub open spec fn entries(&self) -> Seq<CompositeBlockInfo> {
        Seq::new(self.count as nat, |i: int| self.blocks[i].unwrap())
    }

    /// An empty tracker.
    pub fn new() -> (r: Self)
        ensures
            r.wf(),
            r.entries() == Seq::<CompositeBlockInfo>::empty(),
    {
        let r = CompositeBlockTracker { blocks: [None; 16], count: 0 };
        assert(r.entries() =~= Seq::<CompositeBlockInfo>::empty());
        r
    }
}

/// The first match is the first entry with that base address.
pub proof fn lemma_first_match(entries: Seq<CompositeBlockInfo>, base: usize, k: int)
    requires
        0 <= k <= entries.len(),
        forall|j: int| 0 <= j < k ==> #[trigger] entries[j].base_addr != base,
        k == entries.len() || entries[k].base_addr == base,
    ensures
        k == entries.len() ==> first_match(entries, base) is None,
        k < entries.len() ==> first_match(entries, base) == Some(k),
    decreases entries.len(),
{
    if entries.len() > 0 && k > 0 {
        let rest = entries.drop_first();
        assert forall|j: int| 0 <= j < k - 1 implies #[trigger] rest[j].base_addr != base by {
            assert(rest[j] == entries[j + 1]);
        }
        if k < entries.len() {
            assert(rest[k - 1] == entries[k]);
        }
        lemma_first_match(rest, base, k - 1);
    }
}

impl CompositeBlockTracker {
    /// Insert a new composite block; `false` when the tracker is full.
    pub fn insert(&mut self, base_addr: usize, parts: &[(usize, u32)], part_count: usize) -> (r: bool)
        requires
            old(self).wf(),
            part_count <= parts@.len(),
            part_count <= MAX_PARTS_PER_ALLOC,
        ensures
            final(self).wf(),
            r == (old(self).count < MAX_COMPOSITE_ALLOCS),
            !r ==> final(self).entries() == old(self).entries(),
            r ==> final(self).entries().len() == old(self).entries().len() + 1,
            r ==> final(self).entries().drop_last() == old(self).entries(),
            r ==> ({
                let info = final(self).entries().last();
                &&& info.base_addr == base_addr
                &&& info.part_count == part_count
                &&& forall|k: int| 0 <= k < part_count ==> #[trigger] info.parts[k] == parts@[k]
                &&& forall|k: int| part_count <= k < MAX_PARTS_PER_ALLOC ==> #[trigger] info.parts[k] == (0usize, 0u32)
            }),
    {
        if self.count >= MAX_COMPOSITE_ALLOCS {
            return false;
        }
        let empty_parts: [(usize, u32); 8] = [(0usize, 0u32); 8];
        proof {
            vstd::array::axiom_spec_array_fill_for_copy_type::<(usize, u32), 8>((0usize, 0u32));
        }
        let mut info = CompositeBlockInfo { base_addr, part_count: part_count as u8, parts: empty_parts };
        let mut i: usize = 0;
        while i < part_count
            invariant
                i <= part_count <= MAX_PARTS_PER_ALLOC,
                part_count <= parts@.len(),
                info.base_addr == base_addr,
                info.part_count == part_count,
                forall|k: int| 0 <= k < i ==> #[trigger] info.parts[k] == parts@[k],
                forall|k: int| i <= k < MAX_PARTS_PER_ALLOC ==> #[trigger] info.parts[k] == (0usize, 0u32),
            decreases part_count - i,
        {
            info.parts[i] = parts[i];
            i = i + 1;
        }
        let ghost old_entries = self.entries();
        let c = self.count;
        self.blocks[c] = Some(info);
        self.count = c + 1;
        assert(self.entries().drop_last() =~= old_entries);
        true
    }

    /// Find a composite block by its base address.
    pub fn find(&self, base_addr: usize) -> (r: Option<CompositeBlockInfo>)
        requires
            self.wf(),
        ensures
            r == (match first_match(self.entries(), base_addr) {
                Some(k) => Some(self.entries()[k]),
                None => None::<CompositeBlockInfo>,
            }),
    {
        let mut i: usize = 0;
        while i < self.count
            invariant
                self.wf(),
                i <= self.count,
                forall|j: int| 0 <= j < i ==> #[trigger] self.entries()[j].base_addr != base_addr,
            decreases self.count - i,
        {
            if let Some(info) = self.blocks[i] {
                if info.base_addr == base_addr {
                    proof {
                        lemma_first_match(self.entries(), base_addr, i as int);
                    }
                    return Some(info);
                }
            }
            i = i + 1;
        }
        proof {
            lemma_first_match(self.entries(), base_addr, self.count as int);
        }
        None
    }

    /// Remove a composite block by its base address; the last entry takes
    /// its slot. Returns whether one was found.
    pub fn remove(&mut self, base_addr: usize) -> (r: bool)
        requires
            old(self).wf(),
        ensures
            final(self).wf(),
            r == first_match(old(self).entries(), base_addr) is Some,
            !r ==> final(self).entries() == old(self).entries(),
            first_match(old(self).entries(), base_addr) matches Some(k) ==> final(self).entries() == old(self).entries().update(
                k,
                old(self).entries().last(),
            ).drop_last(),
    {
        let mut i: usize = 0;
        while i < self.count
            invariant
                self.wf(),
                *self == *old(self),
                i <= self.count,
                forall|j: int| 0 <= j < i ==> #[trigger] self.entries()[j].base_addr != base_addr,
            decreases self.count - i,
        {
            if let Some(info) = self.blocks[i] {
                if info.base_addr == base_addr {
                    proof {
                        lemma_first_match(self.entries(), base_addr, i as int);
                    }
                    let ghost e0 = self.entries();
                    let last = self.count - 1;
                    if i < last {
                        self.blocks[i] = self.blocks[last];
                    }
                    self.blocks[last] = None;
                    self.count = last;
                    assert(self.entries() =~= e0.update(i as int, e0.last()).drop_last());
                    return true;
                }
            }
            i = i + 1;
        }
        proof {
            lemma_first_match(self.entries(), base_addr, self.count as int);
        }
        false
    }
}

/// The memory covered by the first `n` parts.
pub open spec fn parts_union<const PAGE_SIZE: usize>(parts: [(usize, u32); 8], n: int) -> Set<int> {
    Set::new(|x: int| exists|k: int| 0 <= k < n && #[trigger] block_range(parts[k].0 as int, parts[k].1 as int, PAGE_SIZE as int).contains(x))
}

/// The pages held by the first `n` parts.
pub open spec fn parts_pages(parts: [(usize, u32); 8], n: int) -> int
    decreases n,
{
    if n <= 0 {
        0
    } else {
        parts_pages(parts, n - 1) + vstd::arithmetic::power2::pow2(parts[n - 1].1 as nat)
    }
}

/// Page allocator that combines contiguous buddy blocks when the buddy
/// system alone cannot serve a request.
pub struct CompositePageAllocator<const PAGE_SIZE: usize> {
    /// Underlying buddy allocator for standard allocations.
    buddy: BuddyPageAllocator<PAGE_SIZE>,
    /// Tracker for composite allocations.
    composite_tracker: CompositeBlockTracker,
}

impl<const PAGE_SIZE: usize> CompositePageAllocator<PAGE_SIZE> {
    pub closed spec fn buddy(&self) -> BuddyPageAllocator<PAGE_SIZE> {
        self.buddy
    }

    pub closed spec fn tracker(&self) -> CompositeBlockTracker {
        self.composite_tracker
    }

    /// The free memory of the allocator.
    pub open spec fn free_set(&self) -> Set<int> {
        self.buddy().free_set()
    }

    /// The buddy allocator and the tracker are well formed, and every
    /// tracked allocation has at most the parts a record holds.
    pub closed spec fn wf(&self) -> bool {
        &&& self.buddy.wf()
        &&& self.composite_tracker.wf()
        &&& forall|i: int| 0 <= i < self.composite_tracker.entries().len() ==> {
            let e = #[trigger] self.composite_tracker.entries()[i];
            &&& e.part_count <= MAX_PARTS_PER_ALLOC
            &&& forall|k: int| 0 <= k < e.part_count ==> #[trigger] e.parts[k].1 <= DEFAULT_MAX_ORDER
        }
    }

    /// The buddy allocator of a well-formed allocator is well formed.
    pub proof fn lemma_buddy_wf(&self)
        requires
            self.wf(),
        ensures
            self.buddy().wf(),
    {
    }

    /// A new allocator with no memory.
    pub fn new() -> (r: Self)
        ensures
            page_size_ok(PAGE_SIZE as int) ==> r.wf(),
            r.buddy().zone_count() == 0,
            r.tracker().entries().len() == 0,
    {
        CompositePageAllocator { buddy: BuddyPageAllocator::new(), composite_tracker: CompositeBlockTracker::new() }
    }

    /// Set the address translator of the underlying buddy allocator.
    pub fn set_addr_translator(&mut self, translator: &'static dyn crate::AddrTranslator)
        ensures
            final(self).buddy().has_translator(),
            final(self).free_set() == old(self).free_set(),
            final(self).tracker() == old(self).tracker(),
            old(self).wf() ==> final(self).wf(),
    {
        self.buddy.set_addr_translator(translator);
    }

    /// Allocate low-memory pages (physical address below 4GiB) from the
    /// underlying buddy allocator.
    pub fn alloc_pages_lowmem(&mut self, num_pages: usize, alignment: usize) -> (r: AllocResult<usize>)
        requires
            alignment == 0 || is_pow2(alignment as int),
            old(self).wf(),
            num_pages * PAGE_SIZE <= usize::MAX,
        ensures
            final(self).wf(),
            final(self).tracker() == old(self).tracker(),
            final(self).free_set().subset_of(old(self).free_set()),
            (num_pages == 0 || !old(self).buddy().has_translator()) ==> r == Err::<usize, AllocError>(AllocError::InvalidParam),
            (num_pages > 0 && old(self).buddy().has_translator()) ==> (r is Err ==> r == Err::<usize, AllocError>(AllocError::NoMemory)),
            r matches Ok(a) ==> BuddyPageAllocator::<PAGE_SIZE>::served(a as int, num_pages as int, alignment as int),
            r matches Ok(a) ==> old(self).buddy().took(
                &final(self).buddy(),
                block_range(a as int, needed_order(num_pages as int, alignment as int, PAGE_SIZE as int) as int, PAGE_SIZE as int),
            ),
            r matches Ok(a) ==> old(self).buddy().in_marked_zone(a as int, true),
            r matches Ok(a) ==> old(self).buddy().translator() matches Some(t) && phys_low(t.translation(a)) && phys_low(
                t.translation((a + num_pages * PAGE_SIZE - 1) as usize),
            ),
    {
        self.buddy.alloc_pages_lowmem(num_pages, alignment)
    }

    /// Number of zones of the buddy allocator.
    pub fn get_zone_count(&self) -> (r: usize)
        ensures
            r == self.buddy().zone_count(),
    {
        self.buddy.get_zone_count()
    }

    /// Get the buddy allocator statistics.
    pub fn get_buddy_stats(&self) -> (r: BuddyStats)
        requires
            self.wf(),
        ensures
            r.total_pages == self.buddy().spec_total_pages(),
            r.free_pages == self.buddy().spec_free_pages(),
    {
        self.buddy.get_stats()
    }
}

impl<const PAGE_SIZE: usize> Default for CompositePageAllocator<PAGE_SIZE> {
    fn default() -> (r: Self)
        ensures
            page_size_ok(PAGE_SIZE as int) ==> r.wf(),
    {
        Self::new()
    }
}

/// Setting part `n` leaves the first `n` parts' memory and pages as they were.
pub proof fn lemma_parts_push<const PAGE_SIZE: usize>(a: [(usize, u32); 8], b: [(usize, u32); 8], n: int)
    requires
        0 <= n < 8,
        forall|k: int| 0 <= k < n ==> #[trigger] b[k] == a[k],
    ensures
        parts_union::<PAGE_SIZE>(b, n + 1) == parts_union::<PAGE_SIZE>(a, n) + block_range(b[n].0 as int, b[n].1 as int, PAGE_SIZE as int),
        parts_pages(b, n + 1) == parts_pages(a, n) + vstd::arithmetic::power2::pow2(b[n].1 as nat),
{
    lemma_parts_pages_prefix(a, b, n);
    let r = block_range(b[n].0 as int, b[n].1 as int, PAGE_SIZE as int);
    assert forall|x: int| parts_union::<PAGE_SIZE>(b, n + 1).contains(x) == (parts_union::<PAGE_SIZE>(a, n) + r).contains(x) by {
        if parts_union::<PAGE_SIZE>(b, n + 1).contains(x) {
            let k = choose|k: int| 0 <= k < n + 1 && #[trigger] block_range(b[k].0 as int, b[k].1 as int, PAGE_SIZE as int).contains(x);
            if k < n {
                assert(block_range(a[k].0 as int, a[k].1 as int, PAGE_SIZE as int).contains(x));
            }
        }
        if parts_union::<PAGE_SIZE>(a, n).contains(x) {
            let k = choose|k: int| 0 <= k < n && #[trigger] block_range(a[k].0 as int, a[k].1 as int, PAGE_SIZE as int).contains(x);
            assert(block_range(b[k].0 as int, b[k].1 as int, PAGE_SIZE as int).contains(x));
        }
    }
    assert(parts_union::<PAGE_SIZE>(b, n + 1) =~= parts_union::<PAGE_SIZE>(a, n) + r);
}

/// Parts that agree on a prefix cover the same memory there.
pub proof fn lemma_parts_union_prefix<const PAGE_SIZE: usize>(a: [(usize, u32); 8], b: [(usize, u32); 8], n: int)
    requires
        0 <= n <= 8,
        forall|k: int| 0 <= k < n ==> #[trigger] b[k] == a[k],
    ensures
        parts_union::<PAGE_SIZE>(b, n) == parts_union::<PAGE_SIZE>(a, n),
{
    assert forall|x: int| parts_union::<PAGE_SIZE>(b, n).contains(x) == parts_union::<PAGE_SIZE>(a, n).contains(x) by {
        if parts_union::<PAGE_SIZE>(b, n).contains(x) {
            let k = choose|k: int| 0 <= k < n && #[trigger] block_range(b[k].0 as int, b[k].1 as int, PAGE_SIZE as int).contains(x);
            assert(block_range(a[k].0 as int, a[k].1 as int, PAGE_SIZE as int).contains(x));
        }
        if parts_union::<PAGE_SIZE>(a, n).contains(x) {
            let k = choose|k: int| 0 <= k < n && #[trigger] block_range(a[k].0 as int, a[k].1 as int, PAGE_SIZE as int).contains(x);
            assert(block_range(b[k].0 as int, b[k].1 as int, PAGE_SIZE as int).contains(x));
        }
    }
    assert(parts_union::<PAGE_SIZE>(b, n) =~= parts_union::<PAGE_SIZE>(a, n));
}

/// Parts that agree on a prefix hold the same pages there.
pub proof fn lemma_parts_pages_prefix(a: [(usize, u32); 8], b: [(usize, u32); 8], n: int)
    requires
        0 <= n <= 8,
        forall|k: int| 0 <= k < n ==> #[trigger] b[k] == a[k],
    ensures
        parts_pages(b, n) == parts_pages(a, n),
    decreases n,
{
    if n > 0 {
        lemma_parts_pages_prefix(a, b, n - 1);
        assert(b[n - 1] == a[n - 1]);
    }
}

/// `chain` runs from `b0` to `b1`, each step giving back the next of the
/// first `n` parts.
pub open spec fn released_in_order<const PAGE_SIZE: usize>(
    chain: Seq<BuddyPageAllocator<PAGE_SIZE>>,
    b0: BuddyPageAllocator<PAGE_SIZE>,
    b1: BuddyPageAllocator<PAGE_SIZE>,
    parts: [(usize, u32); 8],
    n: int,
) -> bool {
    &&& chain.len() == n + 1
    &&& chain[0] == b0
    &&& chain[n] == b1
    &&& forall|j: int| 0 <= j < n ==> #[trigger] chain[j].release_effect(
        &chain[j + 1],
        parts[j].0 as int,
        vstd::arithmetic::power2::pow2(parts[j].1 as nat) as int,
    )
}

/// `chain` runs from `b0` by allocating the first `n` parts in order,
/// each allocation succeeding.
pub open spec fn placed_in_order<const PAGE_SIZE: usize>(
    chain: Seq<BuddyPageAllocator<PAGE_SIZE>>,
    b0: BuddyPageAllocator<PAGE_SIZE>,
    parts: [(usize, u32); 8],
    n: int,
    alignment: usize,
) -> bool {
    &&& chain.len() == n + 1
    &&& chain[0] == b0
    &&& forall|j: int| 0 <= j < n ==> #[trigger] chain[j].place_effect(
        &chain[j + 1],
        parts[j].0,
        vstd::arithmetic::power2::pow2(parts[j].1 as nat) as usize,
        alignment,
        Ok(parts[j].0),
    )
}

/// The state of the search for contiguous blocks: the parts taken, how
/// many, the run `[min, max)` they span and the pages still to find.
pub type Gathering = ([(usize, u32); 8], int, int, int, int);

/// The search before it has looked at any block.
pub open spec fn gather_start(num_pages: int) -> Gathering {
    (vstd::array::spec_array_fill_for_copy_type::<(usize, u32), 8>((0usize, 0u32)), 0, usize::MAX as int, 0, num_pages)
}

/// The search has stopped: it has enough pages or no room for a part.
pub open spec fn gather_stopped(g: Gathering) -> bool {
    g.1 >= MAX_PARTS_PER_ALLOC || g.4 == 0
}

/// The search looks at the free block of `order` at `addr`: a block that is
/// aligned and extends the run (or starts it) is taken.
pub open spec fn gather_step<const PAGE_SIZE: usize>(g: Gathering, addr: usize, order: int, alignment: int) -> Gathering {
    let (parts, count, min, max, rem) = g;
    let end = addr + block_bytes(order, PAGE_SIZE as int);
    let pages = vstd::arithmetic::power2::pow2(order as nat) as int;
    let rem2 = if pages < rem { rem - pages } else { 0 };
    let parts2 = vstd::array::spec_array_update(parts, count, (addr, order as u32));
    if gather_stopped(g) || addr as int % alignment != 0 {
        g
    } else if count == 0 {
        (parts2, count + 1, addr as int, end, rem2)
    } else if end == min {
        (parts2, count + 1, addr as int, max, rem2)
    } else if addr == max {
        (parts2, count + 1, min, end, rem2)
    } else {
        g
    }
}

/// A search still under way takes an aligned free block that lies next to
/// the run on either side, the one below it or the one above it, and the
/// run grows by that block; a block apart from the run is passed over.
pub proof fn lemma_gather_takes_neighbours<const PAGE_SIZE: usize>(g: Gathering, addr: usize, order: int, alignment: int)
    requires
        !gather_stopped(g),
        0 <= g.1,
        PAGE_SIZE > 0,
        0 <= order,
        alignment > 0,
        addr as int % alignment == 0,
    ensures
        ({
            let g2 = gather_step::<PAGE_SIZE>(g, addr, order, alignment);
            let end = addr + block_bytes(order, PAGE_SIZE as int);
            let pages = vstd::arithmetic::power2::pow2(order as nat) as int;
            let taken = g.1 == 0 || end == g.2 || addr == g.3;
            &&& taken ==> g2.1 == g.1 + 1 && g2.0[g.1] == (addr, order as u32) && g2.4 == (if pages < g.4 {
                g.4 - pages
            } else {
                0
            }) && forall|k: int| 0 <= k < 8 && k != g.1 ==> #[trigger] g2.0[k] == g.0[k]
            &&& g.1 == 0 ==> g2.2 == addr && g2.3 == end
            &&& g.1 > 0 && end == g.2 ==> g2.2 == addr && g2.3 == g.3
            &&& g.1 > 0 && addr == g.3 && end != g.2 ==> g2.2 == g.2 && g2.3 == end
            &&& !taken ==> g2 == g
        }),
{
    let g2 = gather_step::<PAGE_SIZE>(g, addr, order, alignment);
    let end = addr + block_bytes(order, PAGE_SIZE as int);
    let parts2 = vstd::array::spec_array_update(g.0, g.1, (addr, order as u32));
    if g.1 == 0 || end == g.2 || addr == g.3 {
        assert(g2.0 == parts2);
        assert forall|k: int| 0 <= k < 8 && k != g.1 implies #[trigger] g2.0[k] == g.0[k] by {
            vstd::array::lemma_array_index(g.0, k);
        }
    }
}

/// The search over a free list of `order`, in list order.
pub open spec fn gather_list<const PAGE_SIZE: usize>(g: Gathering, blocks: Seq<BuddyBlock>, order: int, alignment: int) -> Gathering
    decreases blocks.len(),
{
    if blocks.len() == 0 {
        g
    } else {
        gather_step::<PAGE_SIZE>(gather_list::<PAGE_SIZE>(g, blocks.drop_last(), order, alignment), blocks.last().addr, order, alignment)
    }
}

/// Each block of `blocks` starts where the one before it ends.
pub open spec fn ascending_run(blocks: Seq<BuddyBlock>, order: int, page_size: int) -> bool {
    forall|i: int| 0 < i < blocks.len() ==> #[trigger] blocks[i].addr == blocks[i - 1].addr + block_bytes(order, page_size)
}

/// A fresh search over a free list whose aligned blocks follow one another
/// upwards takes them all, as long as it has room for them and still needs
/// their pages: the run then spans the list, from its first block to the
/// end of its last.
pub proof fn lemma_gather_takes_run<const PAGE_SIZE: usize>(n: int, blocks: Seq<BuddyBlock>, order: int, alignment: int)
    requires
        PAGE_SIZE > 0,
        0 <= order,
        alignment > 0,
        blocks.len() <= MAX_PARTS_PER_ALLOC,
        forall|i: int| 0 <= i < blocks.len() ==> #[trigger] blocks[i].addr as int % alignment == 0,
        ascending_run(blocks, order, PAGE_SIZE as int),
        n >= vstd::arithmetic::power2::pow2(order as nat) * blocks.len(),
        n > 0,
    ensures
        ({
            let g = gather_list::<PAGE_SIZE>(gather_start(n), blocks, order, alignment);
            &&& g.1 == blocks.len()
            &&& g.4 == n - vstd::arithmetic::power2::pow2(order as nat) * blocks.len()
            &&& forall|i: int| 0 <= i < blocks.len() ==> #[trigger] g.0[i] == (blocks[i].addr, order as u32)
            &&& blocks.len() > 0 ==> g.2 == blocks[0].addr && g.3 == blocks.last().addr + block_bytes(order, PAGE_SIZE as int)
        }),
    decreases blocks.len(),
{
    let pages = vstd::arithmetic::power2::pow2(order as nat) as int;
    let len = blocks.len() as int;
    vstd::arithmetic::power2::lemma_pow2_pos(order as nat);
    if len > 0 {
        let front = blocks.drop_last();
        assert forall|i: int| 0 <= i < front.len() implies #[trigger] front[i].addr as int % alignment == 0 by {
            assert(front[i] == blocks[i]);
        }
        assert forall|i: int| 0 < i < front.len() implies #[trigger] front[i].addr == front[i - 1].addr + block_bytes(
            order,
            PAGE_SIZE as int,
        ) by {
            assert(front[i] == blocks[i] && front[i - 1] == blocks[i - 1]);
        }
        assert(n >= pages * (len - 1)) by (nonlinear_arith)
            requires n >= pages * len, pages > 0;
        lemma_gather_takes_run::<PAGE_SIZE>(n, front, order, alignment);
        let g0 = gather_list::<PAGE_SIZE>(gather_start(n), front, order, alignment);
        let last = blocks.last();
        let bb = block_bytes(order, PAGE_SIZE as int);
        assert(bb > 0) by (nonlinear_arith)
            requires bb == pages * PAGE_SIZE, pages > 0, PAGE_SIZE > 0;
        assert(pages * len == pages * (len - 1) + pages) by (nonlinear_arith);
        assert(g0.4 == n - pages * (len - 1));
        assert(g0.4 >= pages);
        assert(last.addr as int % alignment == 0);
        assert(!gather_stopped(g0));
        lemma_gather_takes_neighbours::<PAGE_SIZE>(g0, last.addr, order, alignment);
        if len > 1 {
            assert(front.last() == blocks[len - 2]);
            assert(blocks[len - 1].addr == blocks[len - 2].addr + bb);
            assert(g0.3 == last.addr);
            assert forall|i: int| 0 <= i < len - 1 implies last.addr > #[trigger] blocks[i].addr by {
                lemma_ascending_above::<PAGE_SIZE>(blocks, order, i, len - 1);
            }
            assert(front[0] == blocks[0]);
            assert(last.addr + bb != g0.2);
        }
        let g = gather_list::<PAGE_SIZE>(gather_start(n), blocks, order, alignment);
        assert(g == gather_step::<PAGE_SIZE>(g0, last.addr, order, alignment));
        assert forall|i: int| 0 <= i < len implies #[trigger] g.0[i] == (blocks[i].addr, order as u32) by {
            if i < len - 1 {
                assert(front[i] == blocks[i]);
                assert(g0.0[i] == (front[i].addr, order as u32));
            }
        }
    } else {
        let g = gather_list::<PAGE_SIZE>(gather_start(n), blocks, order, alignment);
        assert(g == gather_start(n));
    }
}

/// In a run going upwards, a later block starts above an earlier one.
proof fn lemma_ascending_above<const PAGE_SIZE: usize>(blocks: Seq<BuddyBlock>, order: int, i: int, j: int)
    requires
        PAGE_SIZE > 0,
        0 <= order,
        ascending_run(blocks, order, PAGE_SIZE as int),
        0 <= i < j < blocks.len(),
    ensures
        blocks[i].addr < blocks[j].addr,
    decreases j - i,
{
    vstd::arithmetic::power2::lemma_pow2_pos(order as nat);
    let bb = block_bytes(order, PAGE_SIZE as int);
    assert(bb > 0) by (nonlinear_arith)
        requires bb == vstd::arithmetic::power2::pow2(order as nat) * PAGE_SIZE, vstd::arithmetic::power2::pow2(order as nat) > 0, PAGE_SIZE > 0;
    assert(blocks[j].addr == blocks[j - 1].addr + bb);
    if i < j - 1 {
        lemma_ascending_above::<PAGE_SIZE>(blocks, order, i, j - 1);
    }
}

/// The search over the free lists of `order` of the first `z` zones.
pub open spec fn gather_zones<const PAGE_SIZE: usize>(
    a: BuddyPageAllocator<PAGE_SIZE>,
    g: Gathering,
    order: int,
    z: int,
    alignment: int,
) -> Gathering
    decreases z,
{
    if z <= 0 {
        g
    } else {
        gather_list::<PAGE_SIZE>(gather_zones(a, g, order, z - 1, alignment), a.zone(z - 1).blocks(a.pool(), order), order, alignment)
    }
}

/// The search over the `k` largest orders, largest first.
pub open spec fn gather_orders<const PAGE_SIZE: usize>(a: BuddyPageAllocator<PAGE_SIZE>, g: Gathering, k: int, alignment: int) -> Gathering
    decreases k,
{
    if k <= 0 {
        g
    } else {
        gather_zones(a, gather_orders(a, g, k - 1, alignment), DEFAULT_MAX_ORDER + 1 - k, a.zone_count(), alignment)
    }
}

/// What the search for `num_pages` pages at `alignment` finds among the
/// free blocks of `a`.
pub open spec fn gather_result<const PAGE_SIZE: usize>(a: BuddyPageAllocator<PAGE_SIZE>, num_pages: int, alignment: int) -> Gathering {
    gather_orders(a, gather_start(num_pages), DEFAULT_MAX_ORDER + 1, alignment)
}

/// A stopped search stays where it is over a free list.
proof fn lemma_gather_list_stopped<const PAGE_SIZE: usize>(g: Gathering, blocks: Seq<BuddyBlock>, order: int, alignment: int)
    requires
        gather_stopped(g),
    ensures
        gather_list::<PAGE_SIZE>(g, blocks, order, alignment) == g,
    decreases blocks.len(),
{
    if blocks.len() > 0 {
        lemma_gather_list_stopped::<PAGE_SIZE>(g, blocks.drop_last(), order, alignment);
    }
}

/// The search over a free list ends where it stopped, or where the list does.
proof fn lemma_gather_list_prefix<const PAGE_SIZE: usize>(g: Gathering, s: Seq<BuddyBlock>, j: int, order: int, alignment: int)
    requires
        0 <= j <= s.len(),
        j == s.len() || gather_stopped(gather_list::<PAGE_SIZE>(g, s.take(j), order, alignment)),
    ensures
        gather_list::<PAGE_SIZE>(g, s, order, alignment) == gather_list::<PAGE_SIZE>(g, s.take(j), order, alignment),
    decreases s.len() - j,
{
    if j == s.len() {
        assert(s.take(j) =~= s);
    } else {
        assert(s.drop_last().take(j) =~= s.take(j));
        lemma_gather_list_prefix::<PAGE_SIZE>(g, s.drop_last(), j, order, alignment);
    }
}

/// Once stopped among the zones, the search stays stopped.
proof fn lemma_gather_zones_stopped<const PAGE_SIZE: usize>(
    a: BuddyPageAllocator<PAGE_SIZE>,
    g: Gathering,
    order: int,
    z: int,
    z2: int,
    alignment: int,
)
    requires
        0 <= z <= z2,
        gather_stopped(gather_zones(a, g, order, z, alignment)),
    ensures
        gather_zones(a, g, order, z2, alignment) == gather_zones(a, g, order, z, alignment),
    decreases z2,
{
    if z2 > z {
        lemma_gather_zones_stopped(a, g, order, z, z2 - 1, alignment);
        lemma_gather_list_stopped::<PAGE_SIZE>(gather_zones(a, g, order, z2 - 1, alignment), a.zone(z2 - 1).blocks(a.pool(), order), order, alignment);
    }
}

/// Once stopped among the orders, the search stays stopped.
proof fn lemma_gather_orders_stopped<const PAGE_SIZE: usize>(a: BuddyPageAllocator<PAGE_SIZE>, g: Gathering, k: int, k2: int, alignment: int)
    requires
        0 <= k <= k2,
        a.zone_count() >= 0,
        gather_stopped(gather_orders(a, g, k, alignment)),
    ensures
        gather_orders(a, g, k2, alignment) == gather_orders(a, g, k, alignment),
    decreases k2,
{
    if k2 > k {
        lemma_gather_orders_stopped(a, g, k, k2 - 1, alignment);
        let o = DEFAULT_MAX_ORDER + 1 - k2;
        lemma_gather_zones_stopped(a, gather_orders(a, g, k2 - 1, alignment), o, 0, a.zone_count(), alignment);
    }
}

/// The blocks gathered so far: aligned free blocks whose memory is one
/// run `[min, max)`, with `rem` of the `n` pages still to find.
pub open spec fn gathered<const PAGE_SIZE: usize>(
    a: BuddyPageAllocator<PAGE_SIZE>,
    parts: [(usize, u32); 8],
    count: int,
    min: int,
    max: int,
    rem: int,
    n: int,
    alignment: int,
) -> bool {
    &&& 0 <= count <= MAX_PARTS_PER_ALLOC
    &&& forall|k: int|
        0 <= k < count ==> (#[trigger] parts[k]).1 <= DEFAULT_MAX_ORDER && parts[k].0 as int % alignment == 0
            && block_range(parts[k].0 as int, parts[k].1 as int, PAGE_SIZE as int).subset_of(a.free_set())
    &&& count > 0 ==> parts_union::<PAGE_SIZE>(parts, count) == set_int_range(min, max) && max - min == parts_pages(parts, count)
        * PAGE_SIZE && min % alignment == 0
    &&& parts_pages(parts, count) >= 0
    &&& rem == if parts_pages(parts, count) >= n { 0 } else { n - parts_pages(parts, count) }
}

/// Taking a free aligned block next to the run gathered so far.
pub proof fn lemma_gather_step<const PAGE_SIZE: usize>(
    a: BuddyPageAllocator<PAGE_SIZE>,
    before: [(usize, u32); 8],
    parts: [(usize, u32); 8],
    count: int,
    min: int,
    max: int,
    rem: int,
    n: int,
    alignment: int,
    addr: int,
    order: int,
    new_min: int,
    new_max: int,
    new_rem: int,
)
    requires
        gathered::<PAGE_SIZE>(a, before, count, min, max, rem, n, alignment),
        count < MAX_PARTS_PER_ALLOC,
        forall|k: int| 0 <= k < 8 && k != count ==> #[trigger] parts[k] == before[k],
        parts[count].0 == addr,
        parts[count].1 == order,
        0 <= order <= DEFAULT_MAX_ORDER,
        addr % alignment == 0,
        alignment > 0,
        PAGE_SIZE > 0,
        block_range(addr, order, PAGE_SIZE as int).subset_of(a.free_set()),
        count == 0 ==> new_min == addr && new_max == addr + block_bytes(order, PAGE_SIZE as int),
        count > 0 ==> (addr + block_bytes(order, PAGE_SIZE as int) == min && new_min == addr && new_max == max) || (addr == max
            && new_min == min && new_max == addr + block_bytes(order, PAGE_SIZE as int)),
        new_rem == rem - (if vstd::arithmetic::power2::pow2(order as nat) < rem { vstd::arithmetic::power2::pow2(order as nat) as int } else { rem }),
    ensures
        gathered::<PAGE_SIZE>(a, parts, count + 1, new_min, new_max, new_rem, n, alignment),
{
    lemma_parts_push::<PAGE_SIZE>(before, parts, count);
    let bs = block_bytes(order, PAGE_SIZE as int);
    let range = block_range(addr, order, PAGE_SIZE as int);
    vstd::arithmetic::power2::lemma_pow2_pos(order as nat);
    assert(bs == vstd::arithmetic::power2::pow2(order as nat) * PAGE_SIZE);
    assert(range == set_int_range(addr, addr + bs));
    if count == 0 {
        assert(parts_union::<PAGE_SIZE>(before, 0) =~= Set::<int>::empty());
        assert(parts_union::<PAGE_SIZE>(parts, 1) =~= set_int_range(new_min, new_max));
    } else if addr + bs == min && new_min == addr {
        assert(parts_union::<PAGE_SIZE>(parts, count + 1) =~= set_int_range(new_min, new_max));
    } else {
        assert(parts_union::<PAGE_SIZE>(parts, count + 1) =~= set_int_range(new_min, new_max));
    }
    let pb = parts_pages(before, count);
    let q = vstd::arithmetic::power2::pow2(order as nat) as int;
    vstd::arithmetic::mul::lemma_mul_is_distributive_add_other_way(PAGE_SIZE as int, pb, q);
    assert(parts_pages(parts, count + 1) * PAGE_SIZE == pb * PAGE_SIZE + q * PAGE_SIZE);
    if count == 0 {
        assert(pb == 0);
        assert(pb * PAGE_SIZE == 0);
    }
    assert forall|k: int| 0 <= k < count + 1 implies (#[trigger] parts[k]).1 <= DEFAULT_MAX_ORDER && parts[k].0 as int
        % alignment == 0 && block_range(parts[k].0 as int, parts[k].1 as int, PAGE_SIZE as int).subset_of(a.free_set()) by {
        if k < count {
            assert(parts[k] == before[k]);
        }
    }
}

impl<const PAGE_SIZE: usize> CompositePageAllocator<PAGE_SIZE> {
    /// Gather free blocks that lie next to each other, largest first,
    /// until they hold `num_pages` pages, then allocate them all as one
    /// composite allocation starting at the lowest of them.
    ///
    /// Fails, giving back what it took, when no such run is found, when a
    /// block cannot be allocated, or when the tracker is full.
    fn try_combine_contiguous_blocks(&mut self, num_pages: usize, alignment: usize) -> (r: Option<usize>)
        requires
            old(self).wf(),
            num_pages > 0,
            alignment > 0,
        ensures
            final(self).wf(),
            final(self).buddy().same_zones(&old(self).buddy()),
            final(self).free_set().subset_of(old(self).free_set()),
            r is None ==> final(self).tracker().entries() == old(self).tracker().entries(),
            r matches Some(base) ==> {
                let e = final(self).tracker().entries();
                let info = e.last();
                let pc = info.part_count as int;
                &&& e.len() == old(self).tracker().entries().len() + 1
                &&& e.drop_last() == old(self).tracker().entries()
                &&& info.base_addr == base
                &&& 0 < pc <= MAX_PARTS_PER_ALLOC
                &&& base as int % alignment as int == 0
                &&& parts_union::<PAGE_SIZE>(info.parts, pc) == set_int_range(base as int, base + parts_pages(info.parts, pc) * PAGE_SIZE)
                &&& parts_pages(info.parts, pc) >= num_pages
                &&& old(self).buddy().took(&final(self).buddy(), parts_union::<PAGE_SIZE>(info.parts, pc))
            },
            ({
                let g = gather_result::<PAGE_SIZE>(old(self).buddy(), num_pages as int, alignment as int);
                &&& g.4 != 0 ==> r is None && *final(self) == *old(self)
                &&& g.4 == 0 ==> old(self).placed_outcome(&*final(self), g.0, g.1, g.2 as usize, alignment, r)
            }),
    {
        let ghost a0 = self.buddy;
        let ghost t0 = self.composite_tracker;
        let ghost start = gather_start(num_pages as int);
        proof {
            a0.lemma_page_size();
            a0.lemma_zone_count_nonneg();
        }
        let mut remaining_pages = num_pages;
        let mut parts: [(usize, u32); 8] = [(0usize, 0u32); 8];
        let mut block_count: usize = 0;
        let mut min_addr: usize = usize::MAX;
        let mut max_addr: usize = 0;
        let mut order: usize = DEFAULT_MAX_ORDER + 1;
        proof {
            assert(parts == start.0);
        }
        while order > 0 && remaining_pages != 0 && block_count < MAX_PARTS_PER_ALLOC
            invariant
                (parts, block_count as int, min_addr as int, max_addr as int, remaining_pages as int) == gather_orders(
                    a0,
                    start,
                    DEFAULT_MAX_ORDER + 1 - order,
                    alignment as int,
                ),
                a0.zone_count() >= 0,
                self.buddy == a0,
                self.composite_tracker == t0,
                a0.wf(),
                old(self).wf(),
                self.wf(),
                page_size_ok(PAGE_SIZE as int),
                alignment > 0,
                order <= DEFAULT_MAX_ORDER + 1,
                gathered::<PAGE_SIZE>(a0, parts, block_count as int, min_addr as int, max_addr as int, remaining_pages as int, num_pages as int, alignment as int),
            decreases order,
        {
            order = order - 1;
            let ghost g_o = (parts, block_count as int, min_addr as int, max_addr as int, remaining_pages as int);
            let block_bytes_of = Self::order_bytes(order);
            let zone_count = self.buddy.get_zone_count();
            let mut zone_id: usize = 0;
            while zone_id < zone_count && remaining_pages != 0
                invariant
                    (parts, block_count as int, min_addr as int, max_addr as int, remaining_pages as int) == gather_zones(
                        a0,
                        g_o,
                        order as int,
                        zone_id as int,
                        alignment as int,
                    ),
                    zone_id <= zone_count,
                    self.buddy == a0,
                    self.composite_tracker == t0,
                    a0.wf(),
                    self.wf(),
                    page_size_ok(PAGE_SIZE as int),
                    alignment > 0,
                    order <= DEFAULT_MAX_ORDER,
                    zone_count == a0.zone_count(),
                    block_bytes_of == block_bytes(order as int, PAGE_SIZE as int),
                    gathered::<PAGE_SIZE>(a0, parts, block_count as int, min_addr as int, max_addr as int, remaining_pages as int, num_pages as int, alignment as int),
                decreases zone_count - zone_id,
            {
                match self.buddy.get_free_blocks_by_order(zone_id, order as u32) {
                    Some(blocks) => {
                        let ghost g_z = (parts, block_count as int, min_addr as int, max_addr as int, remaining_pages as int);
                        let mut j: usize = 0;
                        while j < blocks.len() && block_count < MAX_PARTS_PER_ALLOC && remaining_pages != 0
                            invariant
                                (parts, block_count as int, min_addr as int, max_addr as int, remaining_pages as int) == gather_list::<PAGE_SIZE>(
                                    g_z,
                                    blocks@.take(j as int),
                                    order as int,
                                    alignment as int,
                                ),
                                j <= blocks.len(),
                                self.buddy == a0,
                                self.composite_tracker == t0,
                                a0.wf(),
                                self.wf(),
                                page_size_ok(PAGE_SIZE as int),
                                alignment > 0,
                                order <= DEFAULT_MAX_ORDER,
                                zone_id < a0.zone_count(),
                                blocks@ == a0.zone(zone_id as int).blocks(a0.pool(), order as int),
                                block_bytes_of == block_bytes(order as int, PAGE_SIZE as int),
                                gathered::<PAGE_SIZE>(a0, parts, block_count as int, min_addr as int, max_addr as int, remaining_pages as int, num_pages as int, alignment as int),
                            decreases blocks.len() - j,
                        {
                            let ghost g_j = (parts, block_count as int, min_addr as int, max_addr as int, remaining_pages as int);
                            let block_start = blocks[j].addr;
                            proof {
                                a0.lemma_listed_block(zone_id as int, order as int, j as int);
                                crate::buddy::buddy_set::lemma_page_size_ok(PAGE_SIZE as int);
                                crate::buddy::buddy_set::lemma_block_bytes(order as int, PAGE_SIZE as int);
                                let last = block_start + block_bytes_of - 1;
                                assert(block_range(block_start as int, order as int, PAGE_SIZE as int).contains(last));
                                a0.lemma_free_bounded(last);
                            }
                            let block_end = block_start + block_bytes_of;
                            if crate::is_aligned(block_start, alignment) {
                                let ghost before = parts;
                                let ghost range = block_range(block_start as int, order as int, PAGE_SIZE as int);
                                let take = if block_count == 0 {
                                    true
                                } else {
                                    block_end == min_addr || block_start == max_addr
                                };
                                if take {
                                    let ghost old_min = min_addr;
                                    let ghost old_max = max_addr;
                                    let ghost old_rem = remaining_pages;
                                    let ghost old_count = block_count;
                                    parts[block_count] = (block_start, order as u32);
                                    proof {
                                        assert(parts =~= vstd::array::spec_array_update(before, block_count as int, (block_start, order as u32)));
                                        lemma_parts_push::<PAGE_SIZE>(before, parts, block_count as int);
                                        assert(range == set_int_range(block_start as int, block_end as int));
                                        if block_count > 0 {
                                            if block_end == min_addr {
                                                assert(set_int_range(min_addr as int, max_addr as int) + range
                                                    =~= set_int_range(block_start as int, max_addr as int));
                                            } else {
                                                assert(set_int_range(min_addr as int, max_addr as int) + range
                                                    =~= set_int_range(min_addr as int, block_end as int));
                                            }
                                        } else {
                                            assert(parts_union::<PAGE_SIZE>(before, 0) =~= Set::<int>::empty());
                                            assert(Set::<int>::empty() + range =~= range);
                                        }
                                        vstd::arithmetic::power2::lemma_pow2_pos(order as nat);
                                        assert(vstd::arithmetic::power2::pow2(order as nat) <= block_bytes(order as int, PAGE_SIZE as int)) by (nonlinear_arith)
                                            requires PAGE_SIZE >= 1, vstd::arithmetic::power2::pow2(order as nat) >= 1,
                                                block_bytes(order as int, PAGE_SIZE as int) == vstd::arithmetic::power2::pow2(order as nat) * PAGE_SIZE;
                                    }
                                    if block_count == 0 {
                                        min_addr = block_start;
                                        max_addr = block_end;
                                    } else if block_end == min_addr {
                                        min_addr = block_start;
                                    } else {
                                        max_addr = block_end;
                                    }
                                    block_count = block_count + 1;
                                    let block_pages = crate::math::pow2_usize(order);
                                    let used = if block_pages < remaining_pages { block_pages } else { remaining_pages };
                                    remaining_pages = remaining_pages - used;
                                    proof {
                                        lemma_gather_step::<PAGE_SIZE>(a0, before, parts, old_count as int, old_min as int, old_max as int,
                                            old_rem as int, num_pages as int, alignment as int, block_start as int, order as int,
                                            min_addr as int, max_addr as int, remaining_pages as int);
                                    }
                                }
                            }
                            proof {
                                assert(blocks@.take(j + 1).drop_last() =~= blocks@.take(j as int));
                                assert(blocks@.take(j + 1).last() == blocks@[j as int]);
                                assert((parts, block_count as int, min_addr as int, max_addr as int, remaining_pages as int)
                                    == gather_step::<PAGE_SIZE>(g_j, block_start, order as int, alignment as int));
                            }
                            j = j + 1;
                        }
                        proof {
                            lemma_gather_list_prefix::<PAGE_SIZE>(g_z, blocks@, j as int, order as int, alignment as int);
                        }
                    },
                    None => {},
                }
                zone_id = zone_id + 1;
            }
            proof {
                if zone_id < zone_count {
                    lemma_gather_zones_stopped(a0, g_o, order as int, zone_id as int, zone_count as int, alignment as int);
                }
            }
        }
        proof {
            if order > 0 {
                lemma_gather_orders_stopped(a0, start, DEFAULT_MAX_ORDER + 1 - order, DEFAULT_MAX_ORDER + 1, alignment as int);
            }
        }
        if remaining_pages != 0 {
            return None;
        }
        proof {
            assert(block_count > 0);
        }
        self.allocate_gathered(parts, block_count, min_addr, max_addr, num_pages, alignment)
    }
}

impl<const PAGE_SIZE: usize> CompositePageAllocator<PAGE_SIZE> {
    /// Bytes in a buddy block of `order`.
    fn order_bytes(order: usize) -> (r: usize)
        requires
            page_size_ok(PAGE_SIZE as int),
            order <= DEFAULT_MAX_ORDER,
        ensures
            r == block_bytes(order as int, PAGE_SIZE as int),
    {
        proof {
            crate::buddy::buddy_set::lemma_page_size_ok(PAGE_SIZE as int);
            crate::buddy::buddy_set::lemma_block_bytes(order as int, PAGE_SIZE as int);
            vstd::arithmetic::power2::lemma_pow2_pos(order as nat);
            assert(vstd::arithmetic::power2::pow2(order as nat) <= block_bytes(order as int, PAGE_SIZE as int)) by (nonlinear_arith)
                requires PAGE_SIZE >= 1, vstd::arithmetic::power2::pow2(order as nat) >= 1,
                    block_bytes(order as int, PAGE_SIZE as int) == vstd::arithmetic::power2::pow2(order as nat) * PAGE_SIZE;
        }
        crate::math::pow2_usize(order) * PAGE_SIZE
    }

    /// Release the first `n` parts back to the buddy allocator.
    fn release_parts(&mut self, parts: [(usize, u32); 8], n: usize)
        requires
            old(self).wf(),
            n <= MAX_PARTS_PER_ALLOC,
            forall|k: int| 0 <= k < n ==> (#[trigger] parts[k]).1 <= DEFAULT_MAX_ORDER,
        ensures
            final(self).wf(),
            final(self).buddy().same_zones(&old(self).buddy()),
            final(self).tracker() == old(self).tracker(),
            final(self).free_set().subset_of(old(self).free_set() + parts_union::<PAGE_SIZE>(parts, n as int)),
            exists|chain: Seq<BuddyPageAllocator<PAGE_SIZE>>| #[trigger] released_in_order(
                chain,
                old(self).buddy(),
                final(self).buddy(),
                parts,
                n as int,
            ),
    {
        let ghost a0 = self.buddy;
        let ghost mut chain: Seq<BuddyPageAllocator<PAGE_SIZE>> = seq![a0];
        proof {
            a0.lemma_page_size();
            crate::buddy::buddy_set::lemma_page_size_ok(PAGE_SIZE as int);
        }
        let mut j: usize = 0;
        while j < n
            invariant
                released_in_order(chain, a0, self.buddy, parts, j as int),
                old(self).wf(),
                self.wf(),
                a0 == old(self).buddy(),
                self.composite_tracker == old(self).tracker(),
                self.buddy.same_zones(&a0),
                page_size_ok(PAGE_SIZE as int),
                j <= n <= MAX_PARTS_PER_ALLOC,
                forall|k: int| 0 <= k < n ==> (#[trigger] parts[k]).1 <= DEFAULT_MAX_ORDER,
                self.buddy.free_set().subset_of(a0.free_set() + parts_union::<PAGE_SIZE>(parts, j as int)),
            decreases n - j,
        {
            let (addr, order) = parts[j];
            proof {
                crate::math::lemma_pow2_le(order as nat, DEFAULT_MAX_ORDER as nat);
                crate::buddy::buddy_set::lemma_page_size_ok(PAGE_SIZE as int);
                crate::buddy::buddy_set::lemma_block_bytes(order as int, PAGE_SIZE as int);
                vstd::arithmetic::power2::lemma_pow2_pos(order as nat);
                assert(vstd::arithmetic::power2::pow2(order as nat) <= block_bytes(DEFAULT_MAX_ORDER as int, PAGE_SIZE as int)) by (nonlinear_arith)
                    requires PAGE_SIZE >= 1, vstd::arithmetic::power2::pow2(order as nat) <= vstd::arithmetic::power2::pow2(DEFAULT_MAX_ORDER as nat),
                        block_bytes(DEFAULT_MAX_ORDER as int, PAGE_SIZE as int) == vstd::arithmetic::power2::pow2(DEFAULT_MAX_ORDER as nat) * PAGE_SIZE;
            }
            let pages = crate::math::pow2_usize(order as usize);
            let ghost b_before = self.buddy;
            PageAllocator::dealloc_pages(&mut self.buddy, addr, pages);
            proof {
                let ghost c0 = chain;
                assert(b_before.release_effect(&self.buddy, addr as int, pages as int));
                chain = chain.push(self.buddy);
                assert forall|k: int| 0 <= k < j + 1 implies #[trigger] chain[k].release_effect(
                    &chain[k + 1],
                    parts[k].0 as int,
                    vstd::arithmetic::power2::pow2(parts[k].1 as nat) as int,
                ) by {
                    if k < j {
                        assert(chain[k] == c0[k] && chain[k + 1] == c0[k + 1]);
                    }
                }
                crate::math::lemma_order_of_pow2(order as nat);
                BuddyPageAllocator::<PAGE_SIZE>::lemma_same_zones_trans(&a0, &b_before, &self.buddy);
                assert forall|x: int| self.buddy.free_set().contains(x) implies (a0.free_set() + parts_union::<PAGE_SIZE>(parts, j as int + 1)).contains(x) by {
                    if block_range(addr as int, order as int, PAGE_SIZE as int).contains(x) {
                        assert(parts_union::<PAGE_SIZE>(parts, j as int + 1).contains(x));
                    } else {
                        assert(b_before.free_set().contains(x));
                        if !a0.free_set().contains(x) {
                            let k = choose|k: int| 0 <= k < j && #[trigger] block_range(parts[k].0 as int, parts[k].1 as int, PAGE_SIZE as int).contains(x);
                            assert(parts_union::<PAGE_SIZE>(parts, j as int + 1).contains(x));
                        }
                    }
                }
            }
            j = j + 1;
        }
        assert(released_in_order(chain, old(self).buddy(), self.buddy(), parts, n as int));
    }

    /// Allocate every gathered part and record them as one composite allocation.
    fn allocate_gathered(
        &mut self,
        parts: [(usize, u32); 8],
        block_count: usize,
        min_addr: usize,
        max_addr: usize,
        num_pages: usize,
        alignment: usize,
    ) -> (r: Option<usize>)
        requires
            old(self).wf(),
            alignment > 0,
            0 < block_count,
            gathered::<PAGE_SIZE>(old(self).buddy(), parts, block_count as int, min_addr as int, max_addr as int, 0, num_pages as int, alignment as int),
        ensures
            final(self).wf(),
            final(self).buddy().same_zones(&old(self).buddy()),
            final(self).free_set().subset_of(old(self).free_set()),
            r is None ==> final(self).tracker().entries() == old(self).tracker().entries(),
            r matches Some(base) ==> {
                let e = final(self).tracker().entries();
                let info = e.last();
                let pc = info.part_count as int;
                &&& e.len() == old(self).tracker().entries().len() + 1
                &&& e.drop_last() == old(self).tracker().entries()
                &&& info.base_addr == base
                &&& 0 < pc <= MAX_PARTS_PER_ALLOC
                &&& base as int % alignment as int == 0
                &&& parts_union::<PAGE_SIZE>(info.parts, pc) == set_int_range(base as int, base + parts_pages(info.parts, pc) * PAGE_SIZE)
                &&& parts_pages(info.parts, pc) >= num_pages
                &&& old(self).buddy().took(&final(self).buddy(), parts_union::<PAGE_SIZE>(info.parts, pc))
            },
            old(self).placed_outcome(&*final(self), parts, block_count as int, min_addr, alignment, r),
    {
        let ghost a0 = self.buddy;
        let ghost t0 = self.composite_tracker;
        let ghost mut chain: Seq<BuddyPageAllocator<PAGE_SIZE>> = seq![a0];
        proof {
            a0.lemma_page_size();
            crate::buddy::buddy_set::lemma_page_size_ok(PAGE_SIZE as int);
        }
        let mut i: usize = 0;
        while i < block_count
            invariant
                old(self).wf(),
                self.wf(),
                a0 == old(self).buddy(),
                a0.wf(),
                t0 == old(self).tracker(),
                self.composite_tracker == t0,
                self.buddy.same_zones(&a0),
                self.buddy.free_set().subset_of(a0.free_set()),
                page_size_ok(PAGE_SIZE as int),
                alignment > 0,
                i <= block_count,
                placed_in_order(chain, a0, parts, i as int, alignment),
                chain.last() == self.buddy,
                gathered::<PAGE_SIZE>(a0, parts, block_count as int, min_addr as int, max_addr as int, 0, num_pages as int, alignment as int),
                forall|k: int| 0 <= k < i ==> block_range((#[trigger] parts[k]).0 as int, parts[k].1 as int, PAGE_SIZE as int).disjoint(
                    self.buddy.free_set(),
                ),
            decreases block_count - i,
        {
            let (addr, order) = parts[i];
            proof {
                let r = block_range(addr as int, order as int, PAGE_SIZE as int);
                crate::buddy::buddy_set::lemma_page_size_ok(PAGE_SIZE as int);
                crate::buddy::buddy_set::lemma_block_bytes(order as int, PAGE_SIZE as int);
                assert(r.contains(addr + block_bytes(order as int, PAGE_SIZE as int) - 1));
                a0.lemma_free_bounded(addr + block_bytes(order as int, PAGE_SIZE as int) - 1);
                crate::math::lemma_pow2_le(order as nat, DEFAULT_MAX_ORDER as nat);
                vstd::arithmetic::power2::lemma_pow2_pos(order as nat);
                assert(vstd::arithmetic::power2::pow2(order as nat) <= block_bytes(order as int, PAGE_SIZE as int)) by (nonlinear_arith)
                    requires PAGE_SIZE >= 1, vstd::arithmetic::power2::pow2(order as nat) >= 1,
                        block_bytes(order as int, PAGE_SIZE as int) == vstd::arithmetic::power2::pow2(order as nat) * PAGE_SIZE;
            }
            let pages = crate::math::pow2_usize(order as usize);
            let ghost b_before = self.buddy;
            let res = self.buddy.alloc_pages_at(addr, pages, alignment);
            let ghost b_mid = self.buddy;
            proof {
                BuddyPageAllocator::<PAGE_SIZE>::lemma_same_zones_trans(&a0, &b_before, &self.buddy);
                assert(b_before.place_effect(&b_mid, addr, pages, alignment, res));
                assert(parts[i as int] == (addr, order));
            }
            match res {
                Ok(_) => {
                    proof {
                        let ghost c0 = chain;
                        chain = chain.push(b_mid);
                        assert forall|k: int| 0 <= k < i + 1 implies #[trigger] chain[k].place_effect(
                            &chain[k + 1],
                            parts[k].0,
                            vstd::arithmetic::power2::pow2(parts[k].1 as nat) as usize,
                            alignment,
                            Ok(parts[k].0),
                        ) by {
                            if k < i {
                                assert(chain[k] == c0[k] && chain[k + 1] == c0[k + 1]);
                            }
                        }
                        crate::math::lemma_order_of_pow2(order as nat);
                    }
                },
                Err(_) => {
                    proof {
                        assert(placed_in_order(chain, old(self).buddy(), parts, i as int, alignment) && chain[i as int].place_effect(
                            &b_mid,
                            parts[i as int].0,
                            vstd::arithmetic::power2::pow2(parts[i as int].1 as nat) as usize,
                            alignment,
                            res,
                        ));
                    }
                    self.release_parts(parts, i);
                    proof {
                        let back = choose|c: Seq<BuddyPageAllocator<PAGE_SIZE>>| released_in_order(c, b_mid, self.buddy, parts, i as int);
                        assert(released_in_order(back, b_mid, self.buddy(), parts, i as int));
                        BuddyPageAllocator::<PAGE_SIZE>::lemma_same_zones_trans(&a0, &b_mid, &self.buddy);
                        assert forall|x: int| self.buddy.free_set().contains(x) implies a0.free_set().contains(x) by {
                            if parts_union::<PAGE_SIZE>(parts, i as int).contains(x) {
                                let k = choose|k: int| 0 <= k < i && #[trigger] block_range(parts[k].0 as int, parts[k].1 as int, PAGE_SIZE as int).contains(x);
                                assert(block_range(parts[k].0 as int, parts[k].1 as int, PAGE_SIZE as int).subset_of(a0.free_set()));
                            }
                        }
                    }
                    return None;
                },
            }
            i = i + 1;
        }
        if !self.composite_tracker.insert(min_addr, &parts, block_count) {
            let ghost b_before = self.buddy;
            self.release_parts(parts, block_count);
            proof {
                let back = choose|c: Seq<BuddyPageAllocator<PAGE_SIZE>>| released_in_order(c, b_before, self.buddy, parts, block_count as int);
                assert(placed_in_order(chain, old(self).buddy(), parts, block_count as int, alignment));
                assert(released_in_order(back, chain.last(), self.buddy(), parts, block_count as int));
                BuddyPageAllocator::<PAGE_SIZE>::lemma_same_zones_trans(&a0, &b_before, &self.buddy);
                assert forall|x: int| self.buddy.free_set().contains(x) implies a0.free_set().contains(x) by {
                    if parts_union::<PAGE_SIZE>(parts, block_count as int).contains(x) {
                        let k = choose|k: int| 0 <= k < block_count && #[trigger] block_range(parts[k].0 as int, parts[k].1 as int, PAGE_SIZE as int).contains(x);
                        assert(block_range(parts[k].0 as int, parts[k].1 as int, PAGE_SIZE as int).subset_of(a0.free_set()));
                    }
                }
            }
            return None;
        }
        proof {
            assert(placed_in_order(chain, old(self).buddy(), parts, block_count as int, alignment));
            let info = self.composite_tracker.entries().last();
            assert forall|k: int| 0 <= k < block_count implies #[trigger] info.parts[k] == parts[k] by {}
            lemma_parts_pages_prefix(parts, info.parts, block_count as int);
            lemma_parts_union_prefix::<PAGE_SIZE>(parts, info.parts, block_count as int);
            let e = self.composite_tracker.entries();
            assert forall|j: int| 0 <= j < e.len() implies {
                let en = #[trigger] e[j];
                &&& en.part_count <= MAX_PARTS_PER_ALLOC
                &&& forall|k: int| 0 <= k < en.part_count ==> #[trigger] en.parts[k].1 <= DEFAULT_MAX_ORDER
            } by {
                if j < e.len() - 1 {
                    assert(e[j] == t0.entries()[j]);
                } else {
                    assert forall|k: int| 0 <= k < info.part_count implies #[trigger] info.parts[k].1 <= DEFAULT_MAX_ORDER by {
                        assert(info.parts[k] == parts[k]);
                    }
                }
            }
        }
        Some(min_addr)
    }
}

impl<const PAGE_SIZE: usize> PageAllocator for CompositePageAllocator<PAGE_SIZE> {
    open spec fn alloc_ok(&self, num_pages: usize, alignment: usize) -> bool {
        &&& alignment > 0
        &&& is_pow2(alignment as int)
        &&& vstd::arithmetic::power2::pow2(crate::math::order_for(num_pages as nat)) <= usize::MAX
    }

    open spec fn place_ok(&self, base: usize, num_pages: usize, alignment: usize) -> bool {
        &&& alignment > 0
        &&& base + num_pages * PAGE_SIZE <= usize::MAX
    }

    /// Allocate pages from the buddy system, rounded up to a power of two;
    /// when that fails, combine contiguous free blocks instead.
    fn alloc_pages(&mut self, num_pages: usize, alignment: usize) -> (r: AllocResult<usize>)
        ensures
            old(self).alloc_effect(&*final(self), num_pages, alignment, r),
    {
        if num_pages == 0 {
            return Err(AllocError::InvalidParam);
        }
        let ghost a0 = self.buddy;
        proof {
            a0.lemma_page_size();
            crate::buddy::buddy_set::lemma_page_size_ok(PAGE_SIZE as int);
        }
        let buddy_pages = crate::math::pow2_usize(crate::math::order_of(num_pages));
        match PageAllocator::alloc_pages(&mut self.buddy, buddy_pages, alignment) {
            Ok(addr) => {
                proof {
                    let need = needed_order(buddy_pages as int, alignment as int, PAGE_SIZE as int) as int;
                    let big = block_range(addr as int, need, PAGE_SIZE as int);
                    let small = set_int_range(addr as int, addr + num_pages * PAGE_SIZE);
                    assert(num_pages * PAGE_SIZE <= buddy_pages * PAGE_SIZE) by (nonlinear_arith)
                        requires num_pages <= buddy_pages, PAGE_SIZE >= 1;
                    assert(small.subset_of(big));
                }
                Ok(addr)
            },
            Err(_) => {
                let ghost a1 = self.buddy;
                match self.try_combine_contiguous_blocks(num_pages, alignment) {
                    Some(addr) => {
                        proof {
                            BuddyPageAllocator::<PAGE_SIZE>::lemma_same_zones_trans(&a0, &a1, &self.buddy);
                            let info = self.tracker().entries().last();
                            let pc = info.part_count as int;
                            let u = parts_union::<PAGE_SIZE>(info.parts, pc);
                            let small = set_int_range(addr as int, addr + num_pages * PAGE_SIZE);
                            assert(num_pages * PAGE_SIZE <= parts_pages(info.parts, pc) * PAGE_SIZE) by (nonlinear_arith)
                                requires num_pages <= parts_pages(info.parts, pc), PAGE_SIZE >= 1;
                            assert(small.subset_of(u));
                        }
                        Ok(addr)
                    },
                    None => {
                        proof {
                            BuddyPageAllocator::<PAGE_SIZE>::lemma_same_zones_trans(&a0, &a1, &self.buddy);
                        }
                        Err(AllocError::NoMemory)
                    },
                }
            },
        }
    }

    /// Release pages: a composite allocation part by part, anything else
    /// as one buddy block.
    fn dealloc_pages(&mut self, pos: usize, num_pages: usize)
        ensures
            old(self).dealloc_effect(&*final(self), pos, num_pages),
    {
        if num_pages == 0 {
            return;
        }
        match self.composite_tracker.find(pos) {
            Some(info) => {
                proof {
                    let k = first_match(self.composite_tracker.entries(), pos)->0;
                    lemma_first_match_bound(self.composite_tracker.entries(), pos);
                    assert(self.composite_tracker.entries()[k] == info);
                }
                let ghost b0 = self.buddy;
                self.release_parts(info.parts, info.part_count as usize);
                let ghost back = choose|c: Seq<BuddyPageAllocator<PAGE_SIZE>>| released_in_order(c, b0, self.buddy, info.parts, info.part_count as int);
                let ghost before = self.composite_tracker;
                self.composite_tracker.remove(pos);
                proof {
                    let e = self.composite_tracker.entries();
                    let k = first_match(before.entries(), pos)->0;
                    assert(old(self).tracker().entries()[k] == info);
                    assert(released_in_order(back, old(self).buddy(), self.buddy(), old(self).tracker().entries()[k].parts,
                        old(self).tracker().entries()[k].part_count as int));
                    assert forall|j: int| 0 <= j < e.len() implies {
                        let en = #[trigger] e[j];
                        &&& en.part_count <= MAX_PARTS_PER_ALLOC
                        &&& forall|m: int| 0 <= m < en.part_count ==> #[trigger] en.parts[m].1 <= DEFAULT_MAX_ORDER
                    } by {
                        if j == k {
                            assert(e[j] == before.entries().last());
                            assert(before.entries().last() == before.entries()[before.entries().len() - 1]);
                        } else {
                            assert(e[j] == before.entries()[j]);
                        }
                    }
                }
            },
            None => {
                PageAllocator::dealloc_pages(&mut self.buddy, pos, num_pages);
            },
        }
    }

    fn alloc_pages_at(&mut self, base: usize, num_pages: usize, alignment: usize) -> (r: AllocResult<usize>)
        ensures
            final(self).buddy().same_zones(&old(self).buddy()),
            final(self).tracker() == old(self).tracker(),
            final(self).free_set().subset_of(old(self).free_set()),
            r is Ok ==> r == Ok::<usize, AllocError>(base),
            r is Ok ==> old(self).buddy().took(
                &final(self).buddy(),
                block_range(base as int, crate::math::order_for(num_pages as nat) as int, PAGE_SIZE as int),
            ),
            old(self).buddy().place_effect(&final(self).buddy(), base, num_pages, alignment, r),
    {
        self.buddy.alloc_pages_at(base, num_pages, alignment)
    }

    fn total_pages(&self) -> (r: usize)
        ensures
            r == self.buddy().spec_total_pages(),
    {
        self.buddy.total_pages()
    }

    fn used_pages(&self) -> (r: usize)
        ensures
            r == self.buddy().spec_total_pages() - self.buddy().spec_free_pages(),
    {
        self.buddy.used_pages()
    }

    fn available_pages(&self) -> (r: usize)
        ensures
            r == self.buddy().spec_free_pages(),
    {
        self.buddy.available_pages()
    }
}

impl<const PAGE_SIZE: usize> BaseAllocator for CompositePageAllocator<PAGE_SIZE> {
    open spec fn inv(&self) -> bool {
        self.wf()
    }

    open spec fn init_ok(&self, start: usize, size: usize) -> bool {
        &&& self.wf()
        &&& self.buddy().init_ok(start, size)
    }

    open spec fn add_ok(&self, start: usize, size: usize) -> bool {
        self.buddy().add_ok(start, size)
    }

    fn init(&mut self, start: usize, size: usize)
        ensures
            final(self).buddy().zone_count() == 1,
            final(self).buddy().zone(0).base() == crate::math::round_down(start + NODE_POOL_PAGES * PAGE_SIZE, PAGE_SIZE as int),
            final(self).buddy().zone(0).end() == crate::math::round_up(start + size, PAGE_SIZE as int),
            final(self).tracker() == old(self).tracker(),
            final(self).free_set() == set_int_range(final(self).buddy().zone(0).base(), final(self).buddy().zone(0).end())
                || final(self).buddy().pool().free_ids().len() == 0,
            region_node_count(start as int, NODE_POOL_PAGES * PAGE_SIZE) * PAGE_SIZE >= final(self).buddy().zone(0).end()
                - final(self).buddy().zone(0).base() ==> final(self).free_set() == set_int_range(
                final(self).buddy().zone(0).base(),
                final(self).buddy().zone(0).end(),
            ),
            region_node_count(start as int, NODE_POOL_PAGES * PAGE_SIZE) >= layout_nodes(
                final(self).buddy().zone(0).base() as int,
                final(self).buddy().zone(0).end() as int,
                PAGE_SIZE as int,
            ) ==> final(self).free_set() == set_int_range(final(self).buddy().zone(0).base(), final(self).buddy().zone(0).end()),
    {
        self.buddy.init(start, size);
    }

    fn add_memory(&mut self, start: usize, size: usize) -> (r: AllocResult)
        ensures
            final(self).tracker() == old(self).tracker(),
            r is Ok <==> old(self).buddy().zone_count() < crate::buddy::buddy_block::MAX_ZONES && crate::math::round_up(
                start + size,
                PAGE_SIZE as int,
            ) - crate::math::round_down(start as int, PAGE_SIZE as int) >= PAGE_SIZE && !old(self).buddy().overlaps_zone(
                crate::math::round_down(start as int, PAGE_SIZE as int),
                crate::math::round_up(start + size, PAGE_SIZE as int),
            ),
            r is Ok ==> final(self).buddy().zone_count() == old(self).buddy().zone_count() + 1,
            r is Err ==> final(self).buddy() == old(self).buddy(),
            ({
                let lo = crate::math::round_down(start as int, PAGE_SIZE as int);
                let hi = crate::math::round_up(start + size, PAGE_SIZE as int);
                &&& r is Ok ==> final(self).free_set() == old(self).free_set().union(set_int_range(lo, hi))
                    || final(self).buddy().pool().free_ids().len() == 0
                &&& r is Ok && old(self).buddy().pool().free_ids().len() * PAGE_SIZE >= hi - lo ==> final(self).free_set() == old(self).free_set().union(set_int_range(lo, hi))
                &&& r is Ok && old(self).buddy().pool().free_ids().len() >= layout_nodes(lo, hi, PAGE_SIZE as int) ==> final(self).free_set()
                    == old(self).free_set().union(set_int_range(lo, hi))
            }),
    {
        self.buddy.add_memory(start, size)
    }
}


impl<const PAGE_SIZE: usize> crate::slab::slab_byte_allocator::PageAllocatorForSlab for CompositePageAllocator<PAGE_SIZE> {
    open spec fn slab_inv(&self) -> bool {
        self.wf()
    }

    open spec fn slab_alloc_effect(&self, after: &Self, num_pages: usize, alignment: usize, r: AllocResult<usize>) -> bool {
        let o = crate::math::order_for(num_pages as nat);
        &&& alignment == 0 || !is_pow2(alignment as int) ==> r == Err::<usize, AllocError>(AllocError::InvalidParam) && *after
            == *self
        &&& alignment > 0 && is_pow2(alignment as int) && num_pages > 0 && (o >= 64 || o >= usize::BITS) ==> r == Err::<
            usize,
            AllocError,
        >(AllocError::NoMemory) && *after == *self
        &&& alignment > 0 && is_pow2(alignment as int) && !(num_pages > 0 && (o >= 64 || o >= usize::BITS)) ==> self.alloc_effect(
            after,
            num_pages,
            alignment,
            r,
        )
    }

    open spec fn slab_dealloc_effect(&self, after: &Self, pos: usize, num_pages: usize) -> bool {
        self.dealloc_effect(after, pos, num_pages)
    }

    /// Allocate pages for a slab as `PageAllocator::alloc_pages` does. A
    /// zero or non-power-of-two alignment is refused as invalid, and a
    /// count whose power-of-two round-up does not fit a machine word gets
    /// `NoMemory`, both before the page allocator is asked.
    fn alloc_pages(&mut self, num_pages: usize, alignment: usize) -> (r: AllocResult<usize>)
    {
        if alignment == 0 || !crate::math::is_power_of_two(alignment) {
            return Err(AllocError::InvalidParam);
        }
        if num_pages > 0 {
            let o = crate::math::order_of(num_pages);
            if o >= 64 || o >= usize::BITS as usize {
                return Err(AllocError::NoMemory);
            }
            proof {
                crate::math::lemma_usize_bits();
                vstd::arithmetic::power2::lemma_pow2_strictly_increases(o as nat, usize::BITS as nat);
            }
        } else {
            proof {
                vstd::arithmetic::power2::lemma2_to64();
                crate::math::lemma_order_unique(0, 0);
            }
        }
        PageAllocator::alloc_pages(self, num_pages, alignment)
    }

    /// Release pages as `PageAllocator::dealloc_pages` does.
    fn dealloc_pages(&mut self, pos: usize, num_pages: usize)
        ensures
            old(self).dealloc_effect(&*final(self), pos, num_pages),
    {
        PageAllocator::dealloc_pages(self, pos, num_pages)
    }
}

impl<const PAGE_SIZE: usize> CompositePageAllocator<PAGE_SIZE> {
    /// What `alloc_pages(num_pages, alignment)` does, `after` being the
    /// allocator afterwards and `r` the result: the zones stay and only lose
    /// free memory; a success hands out pages aligned as asked, taking them,
    /// and records a combined allocation when it made one; a request for no
    /// pages is invalid, any other failure is `NoMemory` and leaves the
    /// tracker; and a request the buddy allocator owes succeeds.
    pub open spec fn alloc_effect(&self, after: &Self, num_pages: usize, alignment: usize, r: AllocResult<usize>) -> bool {
        &&& after.buddy().same_zones(&self.buddy())
        &&& after.free_set().subset_of(self.free_set())
        &&& num_pages == 0 ==> r == Err::<usize, AllocError>(AllocError::InvalidParam)
        &&& num_pages > 0 && r is Err ==> r == Err::<usize, AllocError>(AllocError::NoMemory)
        &&& r is Err ==> after.tracker().entries() == self.tracker().entries()
        &&& r matches Ok(a) ==> a as int % alignment as int == 0
        &&& r matches Ok(a) ==> self.buddy().took(&after.buddy(), set_int_range(a as int, a + num_pages * PAGE_SIZE))
        &&& r matches Ok(a) ==> after.tracker().entries() == self.tracker().entries() || (after.tracker().entries().drop_last()
            == self.tracker().entries() && after.tracker().entries().len() == self.tracker().entries().len() + 1
            && after.tracker().entries().last().base_addr == a)
        &&& self.alloc_owed(num_pages, alignment) ==> r is Ok
        &&& r is Ok && after.tracker().entries().len() == self.tracker().entries().len() ==> vstd::arithmetic::power2::pow2(
            crate::math::order_for(num_pages as nat),
        ) <= usize::MAX && self.buddy().alloc_effect(
            &after.buddy(),
            vstd::arithmetic::power2::pow2(crate::math::order_for(num_pages as nat)) as usize,
            alignment,
            r,
        )
    }

    /// Releasing a combined allocation forgets it: when no two recorded
    /// allocations share a base address, `dealloc_pages(b, num_pages)` on
    /// the one recorded at `b` (taking `c1` to `c2`) leaves no record at `b`.
    pub proof fn lemma_release_forgets(c1: Self, c2: Self, b: usize, num_pages: usize)
        requires
            num_pages > 0,
            first_match(c1.tracker().entries(), b) is Some,
            forall|i: int, j: int|
                0 <= i < j < c1.tracker().entries().len() ==> #[trigger] c1.tracker().entries()[i].base_addr
                    != #[trigger] c1.tracker().entries()[j].base_addr,
            c1.dealloc_effect(&c2, b, num_pages),
        ensures
            first_match(c2.tracker().entries(), b) is None,
    {
        let e = c1.tracker().entries();
        let k = first_match(e, b)->0;
        lemma_first_match_bound(e, b);
        let e2 = c2.tracker().entries();
        assert(e2 == e.update(k, e.last()).drop_last());
        assert forall|i: int| 0 <= i < e2.len() implies #[trigger] e2[i].base_addr != b by {
            if i == k {
                assert(e2[i] == e[e.len() - 1]);
                assert(e.len() - 1 != k);
            } else {
                assert(e2[i] == e[i]);
            }
        }
        lemma_first_match_none(e2, b);
    }

    /// Pages handed out as one buddy block and then given back are free
    /// again: when the node pool has nodes to spare at both calls, the
    /// alignment asks no larger block than the pages round up to, and no
    /// combined allocation is recorded at the address, `alloc_pages`
    /// returning `a` without recording one (taking `c0` to `c1`) followed by
    /// `dealloc_pages(a, num_pages)` (taking `c1` to `c2`) leaves the free
    /// memory and the tracker as they were.
    pub proof fn lemma_alloc_free_round_trip(c0: Self, c1: Self, c2: Self, a: usize, num_pages: usize, alignment: usize)
        requires
            c0.wf(),
            c1.wf(),
            c0.buddy().pool().free_ids().len() >= NODE_POOL_LOW_WATER_NODES,
            c1.buddy().pool().free_ids().len() >= NODE_POOL_LOW_WATER_NODES,
            crate::buddy::buddy_set::align_order(alignment as int, PAGE_SIZE as int) <= crate::math::order_for(num_pages as nat),
            c0.alloc_effect(&c1, num_pages, alignment, Ok(a)),
            c1.tracker().entries() == c0.tracker().entries(),
            first_match(c1.tracker().entries(), a) is None,
            c1.dealloc_effect(&c2, a, num_pages),
        ensures
            c2.free_set() == c0.free_set(),
            c2.tracker().entries() == c0.tracker().entries(),
    {
        let o = crate::math::order_for(num_pages as nat);
        let bp = vstd::arithmetic::power2::pow2(o) as usize;
        assert(num_pages > 0);
        assert(c0.buddy().alloc_effect(&c1.buddy(), bp, alignment, Ok(a)));
        let need = needed_order(bp as int, alignment as int, PAGE_SIZE as int);
        assert(need <= DEFAULT_MAX_ORDER);
        assert(num_pages <= vstd::arithmetic::power2::pow2(64)) by {
            crate::math::lemma_usize_bits();
            crate::math::lemma_pow2_le(usize::BITS as nat, 64);
        }
        crate::math::lemma_order_for_bound(num_pages as nat);
        crate::math::lemma_order_of_pow2(o);
        assert(crate::math::order_for(bp as nat) == o);
        assert(need == o);
        vstd::arithmetic::power2::lemma_pow2_pos(o);
        BuddyPageAllocator::<PAGE_SIZE>::lemma_alloc_free_round_trip(
            c0.buddy(),
            c1.buddy(),
            c2.buddy(),
            a,
            bp,
            alignment,
            num_pages,
        );
    }

    /// The buddy allocator can serve `num_pages` pages, rounded up to a
    /// power of two, at `alignment`: it has nodes to spare and some zone a
    /// free block large enough. `alloc_pages` then succeeds.
    pub open spec fn alloc_owed(&self, num_pages: usize, alignment: usize) -> bool {
        let bp = vstd::arithmetic::power2::pow2(crate::math::order_for(num_pages as nat)) as int;
        let need = needed_order(bp, alignment as int, PAGE_SIZE as int) as int;
        &&& num_pages > 0
        &&& self.buddy().pool().free_ids().len() >= NODE_POOL_LOW_WATER_NODES
        &&& need <= DEFAULT_MAX_ORDER
        &&& exists|i: int| 0 <= i < self.buddy().zone_count() && #[trigger] self.buddy().zone(i).first_nonempty(self.buddy().pool(), need)
            <= DEFAULT_MAX_ORDER
    }

    /// What allocating the first `count` gathered `parts` as one allocation
    /// based at `min` does, `after` being the allocator afterwards and `r`
    /// the result: it succeeds, with `min`, only when the tracker has room
    /// and every part was allocated in turn; it fails only when the tracker
    /// is full or the allocation of a part failed.
    pub open spec fn placed_outcome(
        &self,
        after: &Self,
        parts: [(usize, u32); 8],
        count: int,
        min: usize,
        alignment: usize,
        r: Option<usize>,
    ) -> bool {
        &&& r is Some ==> r == Some(min) && self.tracker().count < MAX_COMPOSITE_ALLOCS && exists|chain: Seq<
            BuddyPageAllocator<PAGE_SIZE>,
        >| #[trigger] placed_in_order(chain, self.buddy(), parts, count, alignment) && chain.last() == after.buddy()
        &&& r is None ==> (self.tracker().count >= MAX_COMPOSITE_ALLOCS && exists|
            chain: Seq<BuddyPageAllocator<PAGE_SIZE>>,
            back: Seq<BuddyPageAllocator<PAGE_SIZE>>,
        |
            #![trigger placed_in_order(chain, self.buddy(), parts, count, alignment), released_in_order(back, chain.last(), after.buddy(), parts, count)]
            placed_in_order(chain, self.buddy(), parts, count, alignment) && released_in_order(
                back,
                chain.last(),
                after.buddy(),
                parts,
                count,
            )) || exists|
            chain: Seq<BuddyPageAllocator<PAGE_SIZE>>,
            k: int,
            failed: BuddyPageAllocator<PAGE_SIZE>,
            e: AllocResult<usize>,
            back: Seq<BuddyPageAllocator<PAGE_SIZE>>,
        |
            #![trigger placed_in_order(chain, self.buddy(), parts, k, alignment), chain[k].place_effect(&failed, parts[k].0, vstd::arithmetic::power2::pow2(parts[k].1 as nat) as usize, alignment, e), released_in_order(back, failed, after.buddy(), parts, k)]
            0 <= k < count && e is Err && placed_in_order(chain, self.buddy(), parts, k, alignment) && chain[k].place_effect(
                &failed,
                parts[k].0,
                vstd::arithmetic::power2::pow2(parts[k].1 as nat) as usize,
                alignment,
                e,
            ) && released_in_order(back, failed, after.buddy(), parts, k)
    }

    /// `after` is this allocator once `dealloc_pages(pos, num_pages)` has
    /// run: a composite allocation at `pos` leaves the tracker and gives its
    /// parts back in order; any other block goes back to the buddy
    /// allocator, which first looks after its node pool and then has the
    /// zone holding the block release it.
    pub open spec fn dealloc_effect(&self, after: &Self, pos: usize, num_pages: usize) -> bool {
        &&& after.buddy().same_zones(&self.buddy())
        &&& num_pages == 0 ==> after.free_set() == self.free_set() && after.tracker() == self.tracker()
        &&& num_pages > 0 ==> match first_match(self.tracker().entries(), pos) {
            Some(k) => {
                let info = self.tracker().entries()[k];
                &&& after.tracker().entries() == self.tracker().entries().update(k, self.tracker().entries().last()).drop_last()
                &&& after.free_set().subset_of(self.free_set() + parts_union::<PAGE_SIZE>(info.parts, info.part_count as int))
                &&& exists|chain: Seq<BuddyPageAllocator<PAGE_SIZE>>| #[trigger] released_in_order(
                    chain,
                    self.buddy(),
                    after.buddy(),
                    info.parts,
                    info.part_count as int,
                )
            },
            None => {
                &&& after.tracker().entries() == self.tracker().entries()
                &&& after.free_set().subset_of(
                    self.free_set() + block_range(pos as int, crate::math::order_for(num_pages as nat) as int, PAGE_SIZE as int),
                )
                &&& self.buddy().release_effect(&after.buddy(), pos as int, num_pages as int)
            },
        }
    }
}

/// No entry matches exactly when no entry has that base address.
pub proof fn lemma_first_match_none(entries: Seq<CompositeBlockInfo>, base: usize)
    ensures
        first_match(entries, base) is None <==> forall|i: int| 0 <= i < entries.len() ==> #[trigger] entries[i].base_addr != base,
    decreases entries.len(),
{
    if entries.len() > 0 {
        lemma_first_match_none(entries.drop_first(), base);
        if entries[0].base_addr != base {
            assert forall|i: int| 0 <= i < entries.len() && #[trigger] entries[i].base_addr == base implies i > 0
                && entries.drop_first()[i - 1].base_addr == base by {
            }
        }
    }
}

/// A first match lies among the entries.
pub proof fn lemma_first_match_bound(entries: Seq<CompositeBlockInfo>, base: usize)
    ensures
        first_match(entries, base) matches Some(k) ==> 0 <= k < entries.len() && entries[k].base_addr == base,
    decreases entries.len(),
{
    if entries.len() > 0 && entries[0].base_addr != base {
        lemma_first_match_bound(entries.drop_first(), base);
    }
}

} // verus!
