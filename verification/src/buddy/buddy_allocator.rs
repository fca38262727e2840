//! Multi-zone buddy allocator using the global node pool.
//!
//! Provides a buddy allocator with support for multiple memory zones and a
//! single shared node pool for the free lists of all zones and orders.
use vstd::prelude::*;
use vstd::set_lib::set_int_range;
use crate::{AddrTranslator, AllocError, AllocResult, BaseAllocator, PageAllocator};
use crate::math::is_pow2;
use super::buddy_block::{BuddyBlock, ZoneInfo, MAX_ZONES, DEFAULT_MAX_ORDER};
use super::buddy_set::{BuddySet, NUM_ORDERS, page_size_ok, block_range, block_bytes, needed_order, lemma_page_size_ok};
use super::global_node_pool::{GlobalNodePool, GlobalPoolStats, NODE_ALIGN, pool_frame, region_node_count};
use super::stats::BuddyStats;
use super::layout::layout_nodes;

verus! {

/// Pages reserved at the start of the bootstrap region for the node pool.
pub const NODE_POOL_PAGES: usize = 10;

/// Below this many free nodes the pool is grown before an operation.
pub const NODE_POOL_LOW_WATER_NODES: usize = 128;

/// Pages taken from a zone to grow the node pool.
pub const NODE_POOL_EXPAND_PAGES: usize = 5;

/// Threshold for low-memory (DMA32-like) physical addresses: 4GiB.
pub const LOWMEM_PHYS_THRESHOLD: u64 = 0x1_0000_0000;

/// Buddy page allocator with multi-zone support and a global node pool.
///
/// The node pool stores the list nodes of the free lists of every zone;
/// memory pages themselves are tracked by the blocks on those lists.
pub struct BuddyPageAllocator<const PAGE_SIZE: usize> {
    zones: Vec<BuddySet<PAGE_SIZE>>,
    /// Whether each zone lies in low (below 4GiB) physical memory.
    lowmem: Vec<bool>,
    num_zones: usize,
    global_node_pool: GlobalNodePool,
    /// Optional address translator used to reason about physical addresses.
    addr_translator: Option<&'static dyn AddrTranslator>,
}

/// A translation result is low (below 4GiB) physical memory.
pub open spec fn phys_low(pa: Option<usize>) -> bool {
    pa matches Some(p) && p < LOWMEM_PHYS_THRESHOLD
}

/// Memory at `va` counts as low: a translator is set and maps `va` below
/// 4GiB physical.
pub open spec fn translates_low(translator: Option<&'static dyn AddrTranslator>, va: usize) -> bool {
    translator matches Some(t) && phys_low(t.translation(va))
}

impl<const PAGE_SIZE: usize> BuddyPageAllocator<PAGE_SIZE> {
    pub closed spec fn zone(&self, i: int) -> BuddySet<PAGE_SIZE> {
        self.zones@[i]
    }

    pub closed spec fn zone_count(&self) -> int {
        self.num_zones as int
    }

    pub closed spec fn pool(&self) -> GlobalNodePool {
        self.global_node_pool
    }

    pub closed spec fn zone_lowmem(&self, i: int) -> bool {
        self.lowmem@[i]
    }

    pub closed spec fn has_translator(&self) -> bool {
        self.addr_translator is Some
    }

    /// Every zone is marked low memory exactly when the first byte of the
    /// zone translates below 4GiB.
    pub open spec fn marks_follow_translator(&self) -> bool {
        forall|i: int| 0 <= i < self.zone_count() ==> #[trigger] self.zone_lowmem(i) == translates_low(self.translator(), self.zone(i).base() as usize)
    }

    /// The address translator, when one is set.
    pub closed spec fn translator(&self) -> Option<&'static dyn AddrTranslator> {
        self.addr_translator
    }

    /// The free memory of zone `i`.
    pub open spec fn zone_free(&self, i: int) -> Set<int> {
        self.zone(i).free_set(self.pool())
    }

    /// The free memory of the allocator.
    pub open spec fn free_set(&self) -> Set<int> {
        Set::new(|x: int| exists|i: int| 0 <= i < self.zone_count() && #[trigger] self.zone_free(i).contains(x))
    }

    /// Address `x` lies in zone `i`.
    pub open spec fn in_zone(&self, i: int, x: int) -> bool {
        self.zone(i).base() <= x < self.zone(i).end()
    }

    /// The same zones, marks, pool and translator.
    pub closed spec fn same_state(&self, other: &Self) -> bool {
        &&& self.zones@ == other.zones@
        &&& self.lowmem@ == other.lowmem@
        &&& self.num_zones == other.num_zones
        &&& self.global_node_pool == other.global_node_pool
        &&& self.addr_translator == other.addr_translator
    }

    /// Address `x` lies in a zone whose low-memory mark is `lowmem`.
    pub open spec fn in_marked_zone(&self, x: int, lowmem: bool) -> bool {
        exists|i: int| 0 <= i < self.zone_count() && self.zone_lowmem(i) == lowmem && #[trigger] self.in_zone(i, x)
    }

    /// The zones keep their bounds, ids and memory kinds.
    pub open spec fn same_zones(&self, other: &Self) -> bool {
        &&& self.zone_count() == other.zone_count()
        &&& self.has_translator() == other.has_translator()
        &&& forall|i: int| 0 <= i < self.zone_count() ==> #[trigger] self.zone(i).same_geometry(&other.zone(i))
        &&& forall|i: int| 0 <= i < self.zone_count() ==> #[trigger] self.zone_lowmem(i) == other.zone_lowmem(i)
    }

    /// Well-formedness: the zones are well formed over the shared pool, own
    /// distinct pool nodes and cover disjoint, non-empty address ranges.
    pub closed spec fn wf(&self) -> bool {
        &&& page_size_ok(PAGE_SIZE as int)
        &&& self.zones@.len() == MAX_ZONES
        &&& self.lowmem@.len() == MAX_ZONES
        &&& self.num_zones <= MAX_ZONES
        &&& self.global_node_pool.wf()
        &&& forall|i: int| 0 <= i < self.num_zones ==> #[trigger] self.zones@[i].wf(self.global_node_pool)
        &&& forall|i: int| 0 <= i < self.num_zones ==> #[trigger] self.zones@[i].coalesced(self.global_node_pool)
        &&& forall|i: int| 0 <= i < self.num_zones ==> #[trigger] self.zones@[i].base() < self.zones@[i].end()
        &&& forall|i: int, j: int|
            0 <= i < self.num_zones && 0 <= j < self.num_zones && i != j ==> (#[trigger] self.zones@[i]).node_set().disjoint(
                (#[trigger] self.zones@[j]).node_set(),
            )
        &&& forall|i: int, j: int|
            0 <= i < self.num_zones && 0 <= j < self.num_zones && i != j ==> #[trigger] self.zones@[i].end()
                <= #[trigger] self.zones@[j].base() || self.zones@[j].end() <= self.zones@[i].base()
    }

    /// The index of the zone holding `addr` (`zone_count()` if none does).
    pub open spec fn zone_of(&self, addr: int) -> int {
        if exists|i: int| 0 <= i < self.zone_count() && self.in_zone(i, addr) {
            choose|i: int| 0 <= i < self.zone_count() && self.in_zone(i, addr)
        } else {
            self.zone_count()
        }
    }

    /// There are never fewer than no zones.
    pub proof fn lemma_zone_count_nonneg(&self)
        ensures
            self.zone_count() >= 0,
    {
    }

    /// Zones cover disjoint ranges, so at most one holds an address.
    pub proof fn lemma_zone_unique(&self, i: int, j: int, x: int)
        requires
            self.wf(),
            0 <= i < self.zone_count(),
            0 <= j < self.zone_count(),
            self.in_zone(i, x),
            self.in_zone(j, x),
        ensures
            i == j,
    {
        if i != j {
            assert(self.zones@[i].end() <= self.zones@[j].base() || self.zones@[j].end() <= self.zones@[i].base());
        }
    }

    /// Operating on zone `i` alone, with a pool change that only touches the
    /// zone's own nodes and free ones, keeps the allocator well formed and
    /// the other zones as they were.
    proof fn lemma_zone_step(a0: &Self, a1: &Self, i: int)
        requires
            a0.wf(),
            0 <= i < a0.num_zones,
            a1.num_zones == a0.num_zones,
            a1.zones@ == a0.zones@.update(i, a1.zones@[i]),
            a1.lowmem@ == a0.lowmem@,
            a1.addr_translator == a0.addr_translator,
            a1.global_node_pool.wf(),
            a1.zones@[i].wf(a1.global_node_pool),
            a1.zones@[i].coalesced(a1.global_node_pool),
            a1.zones@[i].same_geometry(&a0.zones@[i]),
            pool_frame(a0.global_node_pool, a1.global_node_pool, a0.zones@[i].node_set()),
            forall|n: usize| #[trigger] a1.zones@[i].node_set().contains(n) ==> a0.zones@[i].node_set().contains(n)
                || a0.global_node_pool.is_free(n),
        ensures
            a1.wf(),
            a1.same_zones(a0),
            forall|j: int| 0 <= j < a0.num_zones && j != i ==> #[trigger] a1.zone_free(j) == a0.zone_free(j),
    {
        let p0 = a0.global_node_pool;
        let p1 = a1.global_node_pool;
        assert forall|j: int| 0 <= j < a0.num_zones && j != i implies #[trigger] a1.zones@[j].wf(p1) && a1.zone_free(j)
            == a0.zone_free(j) by {
            let z = a0.zones@[j];
            assert(a1.zones@[j] == z);
            assert(z.node_set().disjoint(a0.zones@[i].node_set()));
            z.lemma_frame(p0, p1, a0.zones@[i].node_set());
            z.lemma_coalesced_frame(p0, p1, a0.zones@[i].node_set());
        }
        assert forall|j: int| 0 <= j < a1.num_zones implies #[trigger] a1.zones@[j].coalesced(p1) by {
            if j != i {
                let z = a0.zones@[j];
                assert(a1.zones@[j] == z);
                assert(z.node_set().disjoint(a0.zones@[i].node_set()));
                z.lemma_coalesced_frame(p0, p1, a0.zones@[i].node_set());
            }
        }
        assert forall|j: int| 0 <= j < a0.num_zones && j != i implies #[trigger] a1.zone_free(j) == a0.zone_free(j) by {
            assert(a1.zones@[j].wf(p1) && a1.zone_free(j) == a0.zone_free(j));
        }
        assert forall|j: int, k: int|
            0 <= j < a1.num_zones && 0 <= k < a1.num_zones && j != k implies (#[trigger] a1.zones@[j]).node_set().disjoint(
            (#[trigger] a1.zones@[k]).node_set(),
        ) by {
            if j == i || k == i {
                let o2 = if j == i { k } else { j };
                let zo = a0.zones@[o2];
                assert(a1.zones@[o2] == zo);
                assert(zo.node_set().disjoint(a0.zones@[i].node_set()));
                assert forall|n: usize| a1.zones@[i].node_set().contains(n) implies !zo.node_set().contains(n) by {
                    if zo.node_set().contains(n) {
                        zo.lemma_node_in_use(p0, n);
                    }
                }
            } else {
                assert(a0.zones@[j].node_set().disjoint(a0.zones@[k].node_set()));
            }
        }
    }
}

impl<const PAGE_SIZE: usize> BuddyPageAllocator<PAGE_SIZE> {
    /// An allocator with no zones and an empty node pool.
    pub fn new() -> (r: Self)
        ensures
            page_size_ok(PAGE_SIZE as int) ==> r.wf(),
            r.zone_count() == 0,
            !r.has_translator(),
            r.free_set() == Set::<int>::empty(),
    {
        let mut zones: Vec<BuddySet<PAGE_SIZE>> = Vec::new();
        let mut lowmem: Vec<bool> = Vec::new();
        let mut i: usize = 0;
        while i < MAX_ZONES
            invariant
                i <= MAX_ZONES,
                zones@.len() == i,
                lowmem@.len() == i,
            decreases MAX_ZONES - i,
        {
            zones.push(BuddySet::empty());
            lowmem.push(false);
            i = i + 1;
        }
        let r = BuddyPageAllocator {
            zones,
            lowmem,
            num_zones: 0,
            global_node_pool: GlobalNodePool::new(),
            addr_translator: None,
        };
        assert(r.free_set() =~= Set::<int>::empty());
        r
    }

    /// Set the address translator, so that the allocator can tell which
    /// zones lie in low (below 4GiB) physical memory.
    pub fn set_addr_translator(&mut self, translator: &'static dyn AddrTranslator)
        ensures
            final(self).has_translator(),
            old(self).zone_count() == 0 ==> final(self).marks_follow_translator(),
            final(self).zone_count() == old(self).zone_count(),
            final(self).pool() == old(self).pool(),
            forall|i: int| #[trigger] final(self).zone(i) == old(self).zone(i),
            forall|i: int| #[trigger] final(self).zone_lowmem(i) == old(self).zone_lowmem(i),
            old(self).wf() ==> final(self).wf(),
            final(self).free_set() == old(self).free_set(),
            forall|i: int| #[trigger] final(self).zone_free(i) == old(self).zone_free(i),
    {
        self.addr_translator = Some(translator);
        assert forall|i: int| #[trigger] self.zone_free(i) == old(self).zone_free(i) by {
            assert(self.zone(i) == old(self).zone(i));
        }
        assert forall|x: int| self.free_set().contains(x) == old(self).free_set().contains(x) by {
            if self.free_set().contains(x) {
                let i = choose|i: int| 0 <= i < self.zone_count() && #[trigger] self.zone_free(i).contains(x);
                assert(old(self).zone_free(i).contains(x));
            }
            if old(self).free_set().contains(x) {
                let i = choose|i: int| 0 <= i < old(self).zone_count() && #[trigger] old(self).zone_free(i).contains(x);
                assert(self.zone_free(i).contains(x));
            }
        }
        assert(self.free_set() =~= old(self).free_set());
    }

    /// Get the number of zones in the allocator.
    pub fn get_zone_count(&self) -> (r: usize)
        ensures
            r == self.zone_count(),
    {
        self.num_zones
    }

    /// Get the node pool statistics.
    pub fn get_node_pool_stats(&self) -> (r: GlobalPoolStats)
        requires
            self.wf(),
        ensures
            r.total_nodes == self.pool().nodes_view().len(),
            r.free_nodes == self.pool().free_ids().len(),
            r.allocated_nodes == self.pool().nodes_view().len() - self.pool().free_ids().len(),
            r.total_allocations == self.pool().spec_total_allocations(),
            r.total_deallocations == self.pool().spec_total_deallocations(),
    {
        self.global_node_pool.get_stats()
    }

    /// Find the zone that contains the given address.
    pub fn find_zone_for_addr(&self, addr: usize) -> (r: Option<usize>)
        requires
            self.wf(),
        ensures
            r is None <==> self.zone_of(addr as int) == self.zone_count(),
            r matches Some(i) ==> i == self.zone_of(addr as int) && i < self.zone_count() && self.in_zone(i as int, addr as int),
    {
        let mut i: usize = 0;
        while i < self.num_zones
            invariant
                self.wf(),
                i <= self.num_zones,
                forall|j: int| 0 <= j < i ==> !#[trigger] self.in_zone(j, addr as int),
            decreases self.num_zones - i,
        {
            if self.zones[i].addr_in_zone(addr) {
                proof {
                    assert(self.in_zone(i as int, addr as int));
                    let k = choose|k: int| 0 <= k < self.zone_count() && self.in_zone(k, addr as int);
                    self.lemma_zone_unique(i as int, k, addr as int);
                }
                return Some(i);
            }
            i = i + 1;
        }
        None
    }

    /// Information on zone `zone_id`; `None` if the zone does not exist.
    pub fn get_zone_info(&self, zone_id: usize) -> (r: Option<ZoneInfo>)
        requires
            self.wf(),
        ensures
            zone_id >= self.zone_count() ==> r is None,
            zone_id < self.zone_count() ==> (r matches Some(z) && z.start_addr == self.zone(zone_id as int).base()
                && z.end_addr == self.zone(zone_id as int).end() && z.total_pages == self.zone(
                zone_id as int,
            ).spec_total_pages()),
    {
        if zone_id >= self.num_zones {
            return None;
        }
        Some(self.zones[zone_id].zone_info())
    }

    /// Statistics of zone `zone_id`; `None` if the zone does not exist.
    pub fn get_zone_stats(&self, zone_id: usize) -> (r: Option<BuddyStats>)
        requires
            self.wf(),
        ensures
            zone_id >= self.zone_count() ==> r is None,
            zone_id < self.zone_count() ==> (r matches Some(st) && st.total_pages == self.zone(zone_id as int).spec_total_pages()
                && st.free_pages == self.zone(zone_id as int).free_pages() && forall|o: int|
                0 <= o < NUM_ORDERS ==> #[trigger] st.free_pages_by_order[o] == self.zone(zone_id as int).count(o)),
    {
        if zone_id >= self.num_zones {
            return None;
        }
        proof {
            assert(self.zones@[zone_id as int].wf(self.global_node_pool));
        }
        Some(self.zones[zone_id].get_stats())
    }

    /// Get the free blocks of one order of a zone; `None` if the zone does not exist.
    pub fn get_free_blocks_by_order(&self, zone_id: usize, order: u32) -> (r: Option<Vec<BuddyBlock>>)
        requires
            self.wf(),
            order <= DEFAULT_MAX_ORDER,
        ensures
            zone_id >= self.zone_count() ==> r is None,
            zone_id < self.zone_count() ==> (r matches Some(v) && v@ == self.zone(zone_id as int).blocks(self.pool(), order as int)),
    {
        if zone_id >= self.num_zones {
            return None;
        }
        Some(self.zones[zone_id].get_free_blocks_by_order(&self.global_node_pool, order))
    }
}

impl<const PAGE_SIZE: usize> Default for BuddyPageAllocator<PAGE_SIZE> {
    fn default() -> (r: Self)
        ensures
            page_size_ok(PAGE_SIZE as int) ==> r.wf(),
            r.zone_count() == 0,
    {
        Self::new()
    }
}

impl<const PAGE_SIZE: usize> BuddyPageAllocator<PAGE_SIZE> {
    /// Growing the pool leaves every zone as it was.
    proof fn lemma_pool_grow(a0: &Self, a1: &Self)
        requires
            a0.wf(),
            a1.zones@ == a0.zones@,
            a1.lowmem@ == a0.lowmem@,
            a1.num_zones == a0.num_zones,
            a1.addr_translator == a0.addr_translator,
            a1.global_node_pool.wf(),
            pool_frame(a0.global_node_pool, a1.global_node_pool, Set::<usize>::empty()),
        ensures
            a1.wf(),
            a1.same_zones(a0),
            forall|j: int| 0 <= j < a0.num_zones ==> #[trigger] a1.zone_free(j) == a0.zone_free(j),
            a1.free_set() == a0.free_set(),
    {
        assert forall|j: int| 0 <= j < a0.num_zones implies #[trigger] a1.zones@[j].wf(a1.global_node_pool)
            && a1.zone_free(j) == a0.zone_free(j) by {
            a0.zones@[j].lemma_frame(a0.global_node_pool, a1.global_node_pool, Set::<usize>::empty());
        }
        assert forall|j: int| 0 <= j < a0.num_zones implies #[trigger] a1.zones@[j].coalesced(a1.global_node_pool) by {
            a0.zones@[j].lemma_coalesced_frame(a0.global_node_pool, a1.global_node_pool, Set::<usize>::empty());
        }
        assert forall|j: int| 0 <= j < a0.num_zones implies #[trigger] a1.zone_free(j) == a0.zone_free(j) by {
            assert(a1.zones@[j].wf(a1.global_node_pool) && a1.zone_free(j) == a0.zone_free(j));
        }
        assert forall|x: int| a1.free_set().contains(x) == a0.free_set().contains(x) by {
            if a1.free_set().contains(x) {
                let i = choose|i: int| 0 <= i < a1.zone_count() && #[trigger] a1.zone_free(i).contains(x);
                assert(a0.zone_free(i).contains(x));
            }
            if a0.free_set().contains(x) {
                let i = choose|i: int| 0 <= i < a0.zone_count() && #[trigger] a0.zone_free(i).contains(x);
                assert(a1.zone_free(i).contains(x));
            }
        }
        assert(a1.free_set() =~= a0.free_set());
    }

    /// Every zone of a well-formed allocator is well formed over the shared
    /// pool and coalesced: no free block is listed beside its free buddy.
    pub proof fn lemma_zones_coalesced(&self)
        requires
            self.wf(),
        ensures
            forall|i: int| 0 <= i < self.zone_count() ==> #[trigger] self.zone(i).wf(self.pool()) && self.zone(i).coalesced(self.pool()),
    {
    }

    /// With a single zone, the free memory is that of the zone.
    pub proof fn lemma_one_zone_free_set(&self)
        requires
            self.zone_count() == 1,
        ensures
            self.free_set() == self.zone_free(0),
    {
        assert forall|x: int| self.free_set().contains(x) == self.zone_free(0).contains(x) by {
            if self.free_set().contains(x) {
                let i = choose|i: int| 0 <= i < self.zone_count() && #[trigger] self.zone_free(i).contains(x);
                assert(i == 0);
            }
        }
        assert(self.free_set() =~= self.zone_free(0));
    }

    /// With one zone added and the others' free memory kept, the free
    /// memory grows by that of the new zone.
    proof fn lemma_free_set_grow(a0: &Self, a1: &Self)
        requires
            a1.zone_count() == a0.zone_count() + 1,
            forall|j: int| 0 <= j < a0.zone_count() ==> #[trigger] a1.zone_free(j) == a0.zone_free(j),
        ensures
            a1.free_set() == a0.free_set().union(a1.zone_free(a0.zone_count())),
    {
        let k = a0.zone_count();
        assert forall|x: int| a1.free_set().contains(x) == a0.free_set().union(a1.zone_free(k)).contains(x) by {
            if a1.free_set().contains(x) {
                let i = choose|i: int| 0 <= i < a1.zone_count() && #[trigger] a1.zone_free(i).contains(x);
                if i < k {
                    assert(a0.zone_free(i).contains(x));
                }
            }
            if a0.free_set().contains(x) {
                let i = choose|i: int| 0 <= i < a0.zone_count() && #[trigger] a0.zone_free(i).contains(x);
                assert(a1.zone_free(i).contains(x));
            }
            if a1.zone_free(k).contains(x) {
                assert(0 <= k < a1.zone_count());
            }
        }
        assert(a1.free_set() =~= a0.free_set().union(a1.zone_free(k)));
    }

    /// Adding a well-formed zone, disjoint from the others, whose nodes were
    /// free, keeps the allocator well formed and the other zones as they were.
    proof fn lemma_zone_add(a0: &Self, a1: &Self)
        requires
            a0.wf(),
            a0.num_zones < MAX_ZONES,
            a1.num_zones == a0.num_zones + 1,
            a1.zones@ == a0.zones@.update(a0.num_zones as int, a1.zones@[a0.num_zones as int]),
            a1.lowmem@.len() == MAX_ZONES,
            forall|j: int| 0 <= j < a0.num_zones ==> #[trigger] a1.lowmem@[j] == a0.lowmem@[j],
            a1.addr_translator == a0.addr_translator,
            a1.global_node_pool.wf(),
            a1.zones@[a0.num_zones as int].wf(a1.global_node_pool),
            a1.zones@[a0.num_zones as int].coalesced(a1.global_node_pool),
            a1.zones@[a0.num_zones as int].base() < a1.zones@[a0.num_zones as int].end(),
            forall|j: int| 0 <= j < a0.num_zones ==> #[trigger] a0.zones@[j].end() <= a1.zones@[a0.num_zones as int].base()
                || a1.zones@[a0.num_zones as int].end() <= a0.zones@[j].base(),
            pool_frame(a0.global_node_pool, a1.global_node_pool, Set::<usize>::empty()),
            forall|n: usize| #[trigger] a1.zones@[a0.num_zones as int].node_set().contains(n) ==> a0.global_node_pool.is_free(n),
        ensures
            a1.wf(),
            forall|j: int| 0 <= j < a0.num_zones ==> #[trigger] a1.zone_free(j) == a0.zone_free(j),
            forall|j: int| 0 <= j < a0.num_zones ==> #[trigger] a1.zone(j) == a0.zone(j),
    {
        let k = a0.num_zones as int;
        let p0 = a0.global_node_pool;
        let p1 = a1.global_node_pool;
        assert forall|j: int| 0 <= j < k implies #[trigger] a1.zones@[j].wf(p1) && a1.zone_free(j) == a0.zone_free(j) by {
            assert(a1.zones@[j] == a0.zones@[j]);
            a0.zones@[j].lemma_frame(p0, p1, Set::<usize>::empty());
        }
        assert forall|j: int| 0 <= j < a1.num_zones implies #[trigger] a1.zones@[j].coalesced(p1) by {
            if j < k {
                assert(a1.zones@[j] == a0.zones@[j]);
                a0.zones@[j].lemma_coalesced_frame(p0, p1, Set::<usize>::empty());
            }
        }
        assert forall|j: int| 0 <= j < k implies #[trigger] a1.zone_free(j) == a0.zone_free(j) by {
            assert(a1.zones@[j].wf(p1) && a1.zone_free(j) == a0.zone_free(j));
        }
        assert forall|j: int| 0 <= j < a1.num_zones implies #[trigger] a1.zones@[j].wf(p1) by {
            if j < k {
                assert(a1.zones@[j].wf(p1) && a1.zone_free(j) == a0.zone_free(j));
            }
        }
        assert forall|j: int, l: int|
            0 <= j < a1.num_zones && 0 <= l < a1.num_zones && j != l implies (#[trigger] a1.zones@[j]).node_set().disjoint(
            (#[trigger] a1.zones@[l]).node_set(),
        ) by {
            if j == k || l == k {
                let o = if j == k { l } else { j };
                let zo = a0.zones@[o];
                assert(a1.zones@[o] == zo);
                assert forall|n: usize| a1.zones@[k].node_set().contains(n) implies !zo.node_set().contains(n) by {
                    if zo.node_set().contains(n) {
                        zo.lemma_node_in_use(p0, n);
                    }
                }
            } else {
                assert(a0.zones@[j].node_set().disjoint(a0.zones@[l].node_set()));
            }
        }
        assert forall|j: int, l: int|
            0 <= j < a1.num_zones && 0 <= l < a1.num_zones && j != l implies #[trigger] a1.zones@[j].end()
            <= #[trigger] a1.zones@[l].base() || a1.zones@[l].end() <= a1.zones@[j].base() by {
            if j != k && l != k {
                assert(a0.zones@[j].end() <= a0.zones@[l].base() || a0.zones@[l].end() <= a0.zones@[j].base());
            }
        }
    }

    /// Whether a translation result is a low (below 4GiB) physical
    /// address; an address that did not translate is not.
    fn phys_is_low(pa: Option<usize>) -> (r: bool)
        ensures
            r == phys_low(pa),
    {
        match pa {
            Some(p) => (p as u64) < LOWMEM_PHYS_THRESHOLD,
            None => false,
        }
    }

    /// Whether the memory at `va` is low (below 4GiB) physical memory, by
    /// the address translator; `false` without one.
    fn starts_low(&self, va: usize) -> (r: bool)
        ensures
            !self.has_translator() ==> !r,
            r == translates_low(self.translator(), va),
    {
        match self.addr_translator {
            Some(t) => Self::phys_is_low(t.virt_to_phys(va)),
            None => false,
        }
    }

    /// Bootstrap the allocator with its initial memory region.
    ///
    /// The first pages of the region back the node pool; the rest becomes
    /// zone 0, the only zone afterwards.
    pub fn bootstrap(&mut self, base_addr: usize, size: usize)
        requires
            old(self).wf(),
            old(self).zone_count() < MAX_ZONES,
            size > NODE_POOL_PAGES * PAGE_SIZE,
            base_addr + size + PAGE_SIZE <= usize::MAX,
        ensures
            final(self).wf(),
            final(self).zone_count() == 1,
            final(self).translator() == old(self).translator(),
            final(self).zone_lowmem(0) == translates_low(old(self).translator(), (base_addr + NODE_POOL_PAGES * PAGE_SIZE) as usize),
            base_addr % PAGE_SIZE == 0 ==> final(self).marks_follow_translator(),
            final(self).has_translator() == old(self).has_translator(),
            final(self).zone(0).base() == crate::math::round_down(base_addr + NODE_POOL_PAGES * PAGE_SIZE, PAGE_SIZE as int),
            final(self).zone(0).end() == crate::math::round_up(base_addr + size, PAGE_SIZE as int),
            final(self).zone_free(0) == set_int_range(final(self).zone(0).base(), final(self).zone(0).end())
                || final(self).pool().free_ids().len() == 0,
            final(self).pool().nodes_view().len() == region_node_count(base_addr as int, NODE_POOL_PAGES * PAGE_SIZE),
            region_node_count(base_addr as int, NODE_POOL_PAGES * PAGE_SIZE) * PAGE_SIZE
                >= final(self).zone(0).end() - final(self).zone(0).base() ==> final(self).zone_free(0) == set_int_range(
                final(self).zone(0).base(),
                final(self).zone(0).end(),
            ),
            region_node_count(base_addr as int, NODE_POOL_PAGES * PAGE_SIZE) >= layout_nodes(
                final(self).zone(0).base() as int,
                final(self).zone(0).end() as int,
                PAGE_SIZE as int,
            ) ==> final(self).zone_free(0) == set_int_range(final(self).zone(0).base(), final(self).zone(0).end()),
    {
        proof {
            lemma_page_size_ok(PAGE_SIZE as int);
        }
        let node_region_size = NODE_POOL_PAGES * PAGE_SIZE;
        let node_region_start = base_addr;
        self.global_node_pool.init(node_region_start, node_region_size);
        let zone_base = base_addr + node_region_size;
        let zone_size = size - node_region_size;
        let mut zone = BuddySet::new(zone_base, zone_size, 0);
        proof {
            crate::math::lemma_round_up(zone_base + zone_size, PAGE_SIZE as int);
            vstd::arithmetic::div_mod::lemma_mod_bound(zone_base as int, PAGE_SIZE as int);
            let lo = zone_base as int - zone_base as int % PAGE_SIZE as int;
            assert(lo % PAGE_SIZE as int == 0) by {
                vstd::arithmetic::div_mod::lemma_fundamental_div_mod(zone_base as int, PAGE_SIZE as int);
                vstd::arithmetic::div_mod::lemma_mod_multiples_basic(zone_base as int / PAGE_SIZE as int, PAGE_SIZE as int);
                assert(lo == (zone_base as int / PAGE_SIZE as int) * PAGE_SIZE) by (nonlinear_arith)
                    requires zone_base as int == PAGE_SIZE * (zone_base as int / PAGE_SIZE as int) + zone_base as int % PAGE_SIZE as int,
                        lo == zone_base as int - zone_base as int % PAGE_SIZE as int;
            }
            crate::math::lemma_multiples_gap(lo, crate::math::round_up(zone_base + zone_size, PAGE_SIZE as int), PAGE_SIZE as int);
        }
        zone.init(&mut self.global_node_pool, zone_base, zone_size);
        let low = self.starts_low(zone_base);
        self.zones.set(0, zone);
        self.lowmem.set(0, low);
        self.num_zones = 1;
        proof {
            assert(self.zones@[0].base() < self.zones@[0].end()) by {
                crate::math::lemma_round_up(zone_base + zone_size, PAGE_SIZE as int);
            }
            if base_addr % PAGE_SIZE == 0 {
                assert(zone_base as int % PAGE_SIZE as int == 0) by {
                    vstd::arithmetic::div_mod::lemma_mod_multiples_vanish(
                        NODE_POOL_PAGES as int,
                        base_addr as int,
                        PAGE_SIZE as int,
                    );
                    assert(zone_base == base_addr + NODE_POOL_PAGES * PAGE_SIZE);
                    assert(PAGE_SIZE * NODE_POOL_PAGES == NODE_POOL_PAGES * PAGE_SIZE) by (nonlinear_arith);
                }
                assert(self.zone(0).base() == zone_base);
                assert(self.zone_lowmem(0) == translates_low(self.translator(), self.zone(0).base() as usize));
            }
        }
    }
}

impl<const PAGE_SIZE: usize> BuddyPageAllocator<PAGE_SIZE> {
    /// The region `[start, end)` meets some zone.
    pub open spec fn overlaps_zone(&self, start: int, end: int) -> bool {
        exists|i: int| 0 <= i < self.zone_count() && !(end <= #[trigger] self.zone(i).base() || start >= self.zone(i).end())
    }

    /// Add a new memory region as a new zone.
    ///
    /// The region is widened to page boundaries. It is refused when all
    /// zones are in use, when it holds less than a page, or when it overlaps
    /// a zone.
    pub fn add_memory_region(&mut self, start: usize, size: usize) -> (r: AllocResult)
        requires
            old(self).wf(),
            start + size + PAGE_SIZE <= usize::MAX,
        ensures
            final(self).wf(),
            final(self).has_translator() == old(self).has_translator(),
            ({
                let lo = crate::math::round_down(start as int, PAGE_SIZE as int);
                let hi = crate::math::round_up(start + size, PAGE_SIZE as int);
                let k = old(self).zone_count();
                &&& k >= MAX_ZONES ==> r == Err::<(), AllocError>(AllocError::NoMemory) && *final(self) == *old(self)
                &&& k < MAX_ZONES && hi - lo < PAGE_SIZE ==> r == Err::<(), AllocError>(AllocError::InvalidParam)
                    && *final(self) == *old(self)
                &&& k < MAX_ZONES && hi - lo >= PAGE_SIZE && old(self).overlaps_zone(lo, hi) ==> r == Err::<(), AllocError>(
                    AllocError::MemoryOverlap,
                ) && *final(self) == *old(self)
                &&& k < MAX_ZONES && hi - lo >= PAGE_SIZE && !old(self).overlaps_zone(lo, hi) ==> {
                    &&& r == Ok::<(), AllocError>(())
                    &&& final(self).zone_count() == k + 1
                    &&& forall|j: int| 0 <= j < k ==> #[trigger] final(self).zone(j) == old(self).zone(j)
                    &&& forall|j: int| 0 <= j < k ==> #[trigger] final(self).zone_lowmem(j) == old(self).zone_lowmem(j)
                    &&& forall|j: int| 0 <= j < k ==> #[trigger] final(self).zone_free(j) == old(self).zone_free(j)
                    &&& final(self).zone(k).base() == lo && final(self).zone(k).end() == hi
                    &&& final(self).zone(k).spec_zone_id() == k
                    &&& final(self).zone_lowmem(k) == translates_low(old(self).translator(), lo as usize)
                    &&& old(self).marks_follow_translator() ==> final(self).marks_follow_translator()
                    &&& final(self).zone_free(k) == set_int_range(lo, hi) || final(self).pool().free_ids().len() == 0
                    &&& old(self).pool().free_ids().len() * PAGE_SIZE >= hi - lo ==> final(self).zone_free(k) == set_int_range(lo, hi)
                    &&& final(self).free_set() == old(self).free_set().union(set_int_range(lo, hi))
                        || final(self).pool().free_ids().len() == 0
                    &&& old(self).pool().free_ids().len() * PAGE_SIZE >= hi - lo ==> final(self).free_set() == old(self).free_set().union(set_int_range(lo, hi))
                    &&& old(self).pool().free_ids().len() >= layout_nodes(lo, hi, PAGE_SIZE as int) ==> final(self).zone_free(k)
                        == set_int_range(lo, hi) && final(self).free_set() == old(self).free_set().union(set_int_range(lo, hi))
                }
            }),
    {
        proof {
            lemma_page_size_ok(PAGE_SIZE as int);
        }
        if self.num_zones >= MAX_ZONES {
            return Err(AllocError::NoMemory);
        }
        let aligned_start = crate::align_down(start, PAGE_SIZE);
        let end = start + size;
        let aligned_end = crate::align_up(end, PAGE_SIZE);
        let aligned_size = aligned_end - aligned_start;
        if aligned_size == 0 || aligned_size < PAGE_SIZE {
            return Err(AllocError::InvalidParam);
        }
        let mut i: usize = 0;
        while i < self.num_zones
            invariant
                self.wf(),
                *self == *old(self),
                self.num_zones < MAX_ZONES,
                aligned_start == crate::math::round_down(start as int, PAGE_SIZE as int),
                aligned_end == crate::math::round_up(start + size, PAGE_SIZE as int),
                aligned_end - aligned_start >= PAGE_SIZE,
                i <= self.num_zones,
                forall|j: int| 0 <= j < i ==> (aligned_end <= #[trigger] self.zone(j).base() || aligned_start >= self.zone(j).end()),
            decreases self.num_zones - i,
        {
            let info = self.zones[i].zone_info();
            if !(aligned_end <= info.start_addr || aligned_start >= info.end_addr) {
                proof {
                    assert(!(aligned_end <= self.zone(i as int).base() || aligned_start >= self.zone(i as int).end()));
                    assert(self.overlaps_zone(aligned_start as int, aligned_end as int));
                    assert(aligned_start == crate::math::round_down(start as int, PAGE_SIZE as int));
                    assert(aligned_end == crate::math::round_up(start + size, PAGE_SIZE as int));
                }
                return Err(AllocError::MemoryOverlap);
            }
            i = i + 1;
        }
        let zone_id = self.num_zones;
        let ghost a0 = *self;
        let mut zone = BuddySet::new(aligned_start, aligned_size, zone_id);
        let ghost p0 = self.global_node_pool;
        zone.init(&mut self.global_node_pool, aligned_start, aligned_size);
        let low = self.starts_low(aligned_start);
        self.zones.set(zone_id, zone);
        self.lowmem.set(zone_id, low);
        self.num_zones = zone_id + 1;
        proof {
            crate::math::lemma_round_up(aligned_start + aligned_size, PAGE_SIZE as int);
            assert(crate::math::round_up(aligned_start + aligned_size, PAGE_SIZE as int) == aligned_end) by {
                vstd::arithmetic::div_mod::lemma_small_mod(0, PAGE_SIZE as nat);
            }
            assert(aligned_start as int % PAGE_SIZE as int == 0);
            assert(aligned_start as int - aligned_start as int % PAGE_SIZE as int == aligned_start);
            assert(self.zones@[zone_id as int].base() == aligned_start);
            assert(self.zones@[zone_id as int].end() == aligned_end);
            assert forall|j: int| 0 <= j < a0.num_zones implies #[trigger] a0.zones@[j].end() <= self.zones@[zone_id as int].base()
                || self.zones@[zone_id as int].end() <= a0.zones@[j].base() by {
                assert(aligned_end <= a0.zone(j).base() || aligned_start >= a0.zone(j).end());
            }
            Self::lemma_zone_add(&a0, self);
            Self::lemma_free_set_grow(&a0, self);
            assert(self.translator() == a0.translator());
            assert(self.zone_lowmem(zone_id as int) == translates_low(a0.translator(), aligned_start));
            if a0.marks_follow_translator() {
                assert forall|i: int| 0 <= i < self.zone_count() implies #[trigger] self.zone_lowmem(i) == translates_low(
                    self.translator(),
                    self.zone(i).base() as usize,
                ) by {
                    if i < zone_id {
                        assert(self.zone(i) == a0.zone(i));
                        assert(self.zone_lowmem(i) == a0.zone_lowmem(i));
                        assert(a0.zone_lowmem(i) == translates_low(a0.translator(), a0.zone(i).base() as usize));
                    }
                }
            }
        }
        Ok(())
    }
}

impl<const PAGE_SIZE: usize> BuddyPageAllocator<PAGE_SIZE> {
    pub proof fn lemma_same_zones_trans(a0: &Self, a1: &Self, a2: &Self)
        requires
            a1.same_zones(a0),
            a2.same_zones(a1),
        ensures
            a2.same_zones(a0),
    {
        assert forall|i: int| 0 <= i < a2.zone_count() implies #[trigger] a2.zone(i).same_geometry(&a0.zone(i)) by {
            assert(a2.zone(i).same_geometry(&a1.zone(i)));
            assert(a1.zone(i).same_geometry(&a0.zone(i)));
        }
        assert forall|i: int| 0 <= i < a2.zone_count() implies #[trigger] a2.zone_lowmem(i) == a0.zone_lowmem(i) by {
            assert(a2.zone_lowmem(i) == a1.zone_lowmem(i));
            assert(a1.zone_lowmem(i) == a0.zone_lowmem(i));
        }
    }

    /// Zones whose free memory only shrank leave less free memory overall.
    proof fn lemma_free_shrinks(a0: &Self, a1: &Self)
        requires
            a1.zone_count() == a0.zone_count(),
            forall|j: int| 0 <= j < a0.zone_count() ==> #[trigger] a1.zone_free(j).subset_of(a0.zone_free(j)),
        ensures
            a1.free_set().subset_of(a0.free_set()),
    {
        assert forall|x: int| a1.free_set().contains(x) implies a0.free_set().contains(x) by {
            let i = choose|i: int| 0 <= i < a1.zone_count() && #[trigger] a1.zone_free(i).contains(x);
            assert(a1.zone_free(i).subset_of(a0.zone_free(i)));
            assert(a0.zone_free(i).contains(x));
        }
    }

    /// A well-formed allocator works with a valid page size.
    pub proof fn lemma_page_size(&self)
        requires
            self.wf(),
        ensures
            page_size_ok(PAGE_SIZE as int),
    {
    }

    /// A block listed free in a zone is free memory of the allocator.
    pub proof fn lemma_listed_block(&self, z: int, o: int, k: int)
        requires
            self.wf(),
            0 <= z < self.zone_count(),
            0 <= o < NUM_ORDERS,
            0 <= k < self.zone(z).blocks(self.pool(), o).len(),
        ensures
            self.zone(z).blocks(self.pool(), o)[k].order == o,
            block_range(self.zone(z).blocks(self.pool(), o)[k].addr as int, o, PAGE_SIZE as int).subset_of(self.free_set()),
    {
        self.zones@[z].lemma_listed_block(self.global_node_pool, o, k);
        let r = block_range(self.zone(z).blocks(self.pool(), o)[k].addr as int, o, PAGE_SIZE as int);
        assert forall|x: int| r.contains(x) implies self.free_set().contains(x) by {
            assert(self.zone_free(z).contains(x));
        }
    }

    /// Free memory lies below the top of the address space.
    pub proof fn lemma_free_bounded(&self, x: int)
        requires
            self.wf(),
            self.free_set().contains(x),
        ensures
            0 <= x < usize::MAX,
    {
        let j = choose|j: int| 0 <= j < self.zone_count() && #[trigger] self.zone_free(j).contains(x);
        self.zones@[j].lemma_free_in_zone(self.global_node_pool);
        self.zones@[j].lemma_end_bound();
    }

    /// Memory inside zone `i` is free in the allocator exactly when zone `i` holds it free.
    proof fn lemma_free_in_one_zone(&self, i: int, x: int)
        requires
            self.wf(),
            0 <= i < self.zone_count(),
            self.in_zone(i, x),
        ensures
            self.free_set().contains(x) <==> self.zone_free(i).contains(x),
    {
        if self.free_set().contains(x) {
            let j = choose|j: int| 0 <= j < self.zone_count() && #[trigger] self.zone_free(j).contains(x);
            self.zones@[j].lemma_free_in_zone(self.global_node_pool);
            assert(self.in_zone(j, x));
            self.lemma_zone_unique(i, j, x);
        }
    }

    /// What giving back `num_pages` pages at `pos` does, `after` being the
    /// allocator afterwards: the zones stay and nothing but that block
    /// becomes free. The node pool is first looked after; then the zone
    /// holding `pos` releases the block while the other zones keep their
    /// free memory. With nodes to spare the pool is left as it was.
    pub open spec fn release_effect(&self, after: &Self, pos: int, num_pages: int) -> bool {
        &&& after.same_zones(self)
        &&& after.free_set().subset_of(
            self.free_set() + block_range(pos, crate::math::order_for(num_pages as nat) as int, PAGE_SIZE as int),
        )
        &&& exists|mid: Self| #[trigger] self.refilled(&mid) && mid.released(after, pos, num_pages)
        &&& self.pool().free_ids().len() >= NODE_POOL_LOW_WATER_NODES ==> self.released(after, pos, num_pages)
    }

    /// What `alloc_pages(num_pages, alignment)` does, `after` being the
    /// allocator afterwards and `r` the result: the zones stay and only lose
    /// free memory; a success hands out a block of the needed order, free
    /// in one zone before, which it takes; a request for no pages or for a
    /// block beyond the largest order fails, and any failure is `NoMemory`.
    /// The node pool is first looked after, then the zones decide.
    pub open spec fn alloc_effect(&self, after: &Self, num_pages: usize, alignment: usize, r: AllocResult<usize>) -> bool {
        let need = needed_order(num_pages as int, alignment as int, PAGE_SIZE as int) as int;
        &&& after.same_zones(self)
        &&& after.free_set().subset_of(self.free_set())
        &&& r is Err ==> r == Err::<usize, AllocError>(AllocError::NoMemory)
        &&& r matches Ok(a) ==> Self::served(a as int, num_pages as int, alignment as int)
        &&& r matches Ok(a) ==> self.took(after, block_range(a as int, need, PAGE_SIZE as int))
        &&& num_pages == 0 || need > DEFAULT_MAX_ORDER ==> r is Err
        &&& r matches Ok(a) ==> exists|i: int|
            0 <= i < self.zone_count() && block_range(a as int, need, PAGE_SIZE as int).subset_of(#[trigger] self.zone_free(i))
        &&& exists|mid: Self| #[trigger] self.refilled(&mid) && mid.alloc_outcome(after, num_pages, alignment, r)
        &&& self.pool().free_ids().len() >= NODE_POOL_LOW_WATER_NODES ==> self.alloc_outcome(after, num_pages, alignment, r)
    }

    /// What the zones do with a request for `num_pages` pages at
    /// `alignment`, `after` being the allocator afterwards and `r` the
    /// result, when the node pool has nodes to spare: they hand out the
    /// block of the needed order, taking it from the free memory; a zone
    /// not marked low serves whenever one can; and the request fails only
    /// when no zone has a free block large enough.
    pub open spec fn alloc_outcome(&self, after: &Self, num_pages: usize, alignment: usize, r: AllocResult<usize>) -> bool {
        let need = needed_order(num_pages as int, alignment as int, PAGE_SIZE as int) as int;
        self.pool().free_ids().len() >= NODE_POOL_LOW_WATER_NODES ==> {
            &&& r matches Ok(a) ==> (self.in_marked_zone(a as int, true) ==> forall|j: int|
                0 <= j < self.zone_count() && !self.zone_lowmem(j) ==> #[trigger] self.zone(j).first_nonempty(self.pool(), need)
                    > DEFAULT_MAX_ORDER)
            &&& r matches Ok(a) ==> after.free_set() == self.free_set().difference(block_range(a as int, need, PAGE_SIZE as int))
            &&& num_pages > 0 && need <= DEFAULT_MAX_ORDER && (exists|i: int|
                0 <= i < self.zone_count() && #[trigger] self.zone(i).first_nonempty(self.pool(), need) <= DEFAULT_MAX_ORDER)
                ==> r is Ok
        }
    }

    /// `after` is this allocator once the zone holding `pos` has released
    /// `num_pages` pages there (nothing changes when no zone holds `pos`),
    /// the other zones keeping their free memory.
    pub open spec fn released(&self, after: &Self, pos: int, num_pages: int) -> bool {
        let i = self.zone_of(pos);
        &&& i == self.zone_count() ==> after.same_state(self)
        &&& i < self.zone_count() ==> self.zone(i).release_outcome(self.pool(), after.zone(i), after.pool(), pos, num_pages)
        &&& forall|j: int| 0 <= j < self.zone_count() && j != i ==> #[trigger] after.zone_free(j) == self.zone_free(j)
    }

    /// `mid` is this allocator once its node pool has been looked after: a
    /// pool with nodes to spare, or an allocator with no zone, is left as
    /// it is; otherwise the first zone with a block large enough gives that
    /// block to the pool, and nothing else becomes free.
    pub open spec fn refilled(&self, mid: &Self) -> bool {
        &&& mid.wf()
        &&& mid.same_zones(self)
        &&& mid.translator() == self.translator()
        &&& forall|j: int| 0 <= j < self.zone_count() ==> #[trigger] mid.zone_free(j).subset_of(self.zone_free(j))
        &&& mid.free_set().subset_of(self.free_set())
        &&& self.pool().free_ids().len() >= NODE_POOL_LOW_WATER_NODES ==> *mid == *self
        &&& self.zone_count() == 0 ==> *mid == *self
        &&& forall|i: int| #[trigger] self.expands_from(i) ==> exists|a: int| {
            &&& (#[trigger] block_range(a, Self::expand_order(), PAGE_SIZE as int)).subset_of(self.zone_free(i))
            &&& mid.zone_free(i) == self.zone_free(i).difference(block_range(a, Self::expand_order(), PAGE_SIZE as int))
            &&& forall|j: int| 0 <= j < self.zone_count() && j != i ==> #[trigger] mid.zone_free(j) == self.zone_free(j)
            &&& mid.pool().nodes_view().len() == vstd::math::min(
                self.pool().nodes_view().len() + region_node_count(a, NODE_POOL_EXPAND_PAGES * PAGE_SIZE),
                usize::MAX as int,
            )
        }
    }

    /// What allocating `num_pages` pages at `base` does, `after` being the
    /// allocator afterwards and `r` the result: the zones stay, nothing
    /// becomes free, a success hands out `base` and takes its block. The
    /// node pool is first looked after; then the zone holding `base`
    /// decides while the other zones keep their free memory.
    pub open spec fn place_effect(&self, after: &Self, base: usize, num_pages: usize, alignment: usize, r: AllocResult<usize>) -> bool {
        &&& after.same_zones(self)
        &&& after.free_set().subset_of(self.free_set())
        &&& r is Ok ==> r == Ok::<usize, AllocError>(base)
        &&& r is Ok ==> self.took(after, block_range(base as int, crate::math::order_for(num_pages as nat) as int, PAGE_SIZE as int))
        &&& exists|mid: Self| #[trigger] self.refilled(&mid) && mid.placed(after, base, num_pages, alignment, r)
        &&& self.pool().free_ids().len() >= NODE_POOL_LOW_WATER_NODES ==> self.placed(after, base, num_pages, alignment, r)
    }

    /// `after` is this allocator once the zone holding `base` has decided
    /// on the placement of `num_pages` pages there (`InvalidParam` when no
    /// zone holds it), the other zones keeping their free memory.
    pub open spec fn placed(&self, after: &Self, base: usize, num_pages: usize, alignment: usize, r: AllocResult<usize>) -> bool {
        let i = self.zone_of(base as int);
        &&& i == self.zone_count() ==> r == Err::<usize, AllocError>(AllocError::InvalidParam) && after.same_state(self)
        &&& i < self.zone_count() ==> self.zone(i).alloc_at_outcome(
            self.pool(),
            after.zone(i),
            after.pool(),
            base as int,
            num_pages as int,
            alignment as int,
            r,
        )
        &&& forall|j: int| 0 <= j < self.zone_count() && j != i ==> #[trigger] after.zone_free(j) == self.zone_free(j)
    }

    /// The order of the block the node pool grows by.
    pub open spec fn expand_order() -> int {
        needed_order(NODE_POOL_EXPAND_PAGES as int, PAGE_SIZE as int, PAGE_SIZE as int) as int
    }

    /// The node pool runs low, zone `i` is the first zone with a free block
    /// large enough to grow it by, and the pool has the nodes to split that
    /// block down.
    pub open spec fn expands_from(&self, i: int) -> bool {
        let need = Self::expand_order();
        let o = self.zone(i).first_nonempty(self.pool(), need);
        &&& self.pool().free_ids().len() < NODE_POOL_LOW_WATER_NODES
        &&& 0 <= i < self.zone_count()
        &&& need <= DEFAULT_MAX_ORDER
        &&& o <= DEFAULT_MAX_ORDER
        &&& self.pool().free_ids().len() + 1 >= o - need
        &&& forall|j: int| 0 <= j < i ==> #[trigger] self.zone(j).first_nonempty(self.pool(), need) > DEFAULT_MAX_ORDER
    }

    /// Grow the node pool when it runs low, with pages taken from the
    /// first zone that can spare them.
    fn maybe_expand_node_pool(&mut self)
        requires
            old(self).wf(),
        ensures
            old(self).refilled(&*final(self)),
    {
        let free_nodes = self.global_node_pool.free_node_count();
        if free_nodes >= NODE_POOL_LOW_WATER_NODES {
            return;
        }
        if self.num_zones == 0 {
            proof {
                Self::lemma_free_shrinks(old(self), self);
            }
            return;
        }
        proof {
            lemma_page_size_ok(PAGE_SIZE as int);
            crate::math::lemma_is_pow2_pos(PAGE_SIZE as int);
            vstd::arithmetic::power2::lemma2_to64();
            assert(block_bytes(3, PAGE_SIZE as int) <= usize::MAX);
        }
        let expand_size = NODE_POOL_EXPAND_PAGES * PAGE_SIZE;
        let ghost a0 = *self;
        let mut i: usize = 0;
        while i < self.num_zones
            invariant
                a0 == *old(self),
                a0.wf(),
                self.wf(),
                self.same_zones(&a0),
                forall|j: int| 0 <= j < a0.zone_count() ==> #[trigger] self.zone_free(j).subset_of(a0.zone_free(j)),
                a0.pool().free_ids().len() < NODE_POOL_LOW_WATER_NODES,
                i <= self.num_zones,
                self.addr_translator == a0.addr_translator,
                expand_size == NODE_POOL_EXPAND_PAGES * PAGE_SIZE,
                forall|k: int| #[trigger] a0.expands_from(k) ==> i <= k && self.same_state(&a0),
            decreases self.num_zones - i,
        {
            let ghost a_before = *self;
            let r = self.zones[i].alloc_pages(&mut self.global_node_pool, NODE_POOL_EXPAND_PAGES, PAGE_SIZE);
            proof {
                assert forall|k: int| #[trigger] a0.expands_from(k) implies k == i && r is Ok || i < k && r is Err
                    && self.zones@ =~= a0.zones@ && self.global_node_pool == a0.global_node_pool by {
                    if k > i {
                        assert(a0.zone(i as int).first_nonempty(a0.pool(), Self::expand_order()) > DEFAULT_MAX_ORDER);
                    }
                }
                Self::lemma_zone_step(&a_before, self, i as int);
                Self::lemma_same_zones_trans(&a0, &a_before, self);
                assert forall|j: int| 0 <= j < a0.zone_count() implies #[trigger] self.zone_free(j).subset_of(a0.zone_free(j)) by {
                    assert(a_before.zone_free(j).subset_of(a0.zone_free(j)));
                    if j != i {
                        assert(self.zone_free(j) == a_before.zone_free(j));
                    }
                }
            }
            match r {
                Ok(addr) => {
                    let ghost a1 = *self;
                    proof {
                        assert(a1.zones@[i as int].wf(a1.global_node_pool));
                        let need = needed_order(NODE_POOL_EXPAND_PAGES as int, PAGE_SIZE as int, PAGE_SIZE as int) as int;
                        assert(NODE_POOL_EXPAND_PAGES * PAGE_SIZE <= block_bytes(need, PAGE_SIZE as int));
                        assert(addr + block_bytes(need, PAGE_SIZE as int) <= a_before.zones@[i as int].end());
                        a_before.zones@[i as int].lemma_end_bound();
                        assert(addr + expand_size <= usize::MAX);
                    }
                    self.global_node_pool.add_region(addr, expand_size);
                    proof {
                        super::global_node_pool::lemma_grow_frame(a1.global_node_pool, self.global_node_pool);
                        Self::lemma_pool_grow(&a1, self);
                        Self::lemma_same_zones_trans(&a0, &a1, self);
                        Self::lemma_free_shrinks(&a0, self);
                        assert forall|k: int| #[trigger] a0.expands_from(k) implies exists|a: int| {
                            &&& (#[trigger] block_range(a, Self::expand_order(), PAGE_SIZE as int)).subset_of(a0.zone_free(k))
                            &&& self.zone_free(k) == a0.zone_free(k).difference(block_range(a, Self::expand_order(), PAGE_SIZE as int))
                            &&& forall|j: int| 0 <= j < a0.zone_count() && j != k ==> #[trigger] self.zone_free(j) == a0.zone_free(j)
                            &&& self.pool().nodes_view().len() == vstd::math::min(
                                a0.pool().nodes_view().len() + region_node_count(a, NODE_POOL_EXPAND_PAGES * PAGE_SIZE),
                                usize::MAX as int,
                            )
                        } by {
                            assert(k == i);
                            assert(a1.zone_free(k) == self.zone_free(k));
                            assert(a_before.same_state(&a0));
                            assert forall|j: int| 0 <= j < a0.zone_count() && j != k implies #[trigger] self.zone_free(j) == a0.zone_free(j) by {
                                assert(a1.zone_free(j) == a_before.zone_free(j));
                                assert(a_before.zone_free(j) == a0.zone_free(j));
                            }
                            let block = block_range(addr as int, Self::expand_order(), PAGE_SIZE as int);
                            assert(block.subset_of(a0.zone_free(k)));
                            assert(self.zone_free(k) == a0.zone_free(k).difference(block));
                        }
                    }
                    return;
                },
                Err(_) => {},
            }
            i = i + 1;
        }
        proof {
            Self::lemma_free_shrinks(&a0, self);
        }
    }
}

impl<const PAGE_SIZE: usize> BuddyPageAllocator<PAGE_SIZE> {
    /// Total pages of the first `k` zones.
    pub closed spec fn total_upto(&self, k: int) -> int
        decreases k,
    {
        if k <= 0 {
            0
        } else {
            self.total_upto(k - 1) + self.zone(k - 1).spec_total_pages()
        }
    }

    /// Free pages of the first `k` zones.
    pub closed spec fn free_upto(&self, k: int) -> int
        decreases k,
    {
        if k <= 0 {
            0
        } else {
            self.free_upto(k - 1) + self.zone(k - 1).free_pages()
        }
    }

    /// Free blocks of order `o` in the first `k` zones.
    pub closed spec fn blocks_upto(&self, k: int, o: int) -> int
        decreases k,
    {
        if k <= 0 {
            0
        } else {
            self.blocks_upto(k - 1, o) + self.zone(k - 1).spec_block_count(o)
        }
    }

    /// Bytes spanned by the first `k` zones.
    closed spec fn span_upto(&self, k: int) -> int
        decreases k,
    {
        if k <= 0 {
            0
        } else {
            self.span_upto(k - 1) + (self.zone(k - 1).end() - self.zone(k - 1).base())
        }
    }

    /// Addresses in the first `k` zones.
    closed spec fn covered(&self, k: int) -> Set<int> {
        Set::new(|x: int| exists|i: int| 0 <= i < k && #[trigger] self.in_zone(i, x))
    }

    /// Total pages of the allocator.
    pub open spec fn spec_total_pages(&self) -> int {
        self.total_upto(self.zone_count())
    }

    /// Free pages of the allocator.
    pub open spec fn spec_free_pages(&self) -> int {
        self.free_upto(self.zone_count())
    }

    proof fn lemma_covered(&self, k: int)
        requires
            self.wf(),
            0 <= k <= self.zone_count(),
        ensures
            self.covered(k).finite(),
            self.covered(k).len() == self.span_upto(k),
            self.covered(k).subset_of(set_int_range(0, usize::MAX as int)),
        decreases k,
    {
        if k == 0 {
            assert(self.covered(0) =~= Set::<int>::empty());
        } else {
            self.lemma_covered(k - 1);
            let z = self.zones@[k - 1];
            let r = set_int_range(z.base(), z.end());
            vstd::set_lib::lemma_int_range(z.base(), z.end());
            z.lemma_end_bound();
            assert(self.covered(k) =~= self.covered(k - 1) + r) by {
                assert forall|x: int| self.covered(k).contains(x) implies (self.covered(k - 1) + r).contains(x) by {
                    let i = choose|i: int| 0 <= i < k && #[trigger] self.in_zone(i, x);
                    if i < k - 1 {
                        assert(self.covered(k - 1).contains(x));
                    }
                }
                assert forall|x: int| (self.covered(k - 1) + r).contains(x) implies self.covered(k).contains(x) by {
                    if r.contains(x) {
                        assert(self.in_zone(k - 1, x));
                    } else {
                        let i = choose|i: int| 0 <= i < k - 1 && #[trigger] self.in_zone(i, x);
                        assert(self.in_zone(i, x));
                    }
                }
            }
            assert(self.covered(k - 1).disjoint(r)) by {
                assert forall|x: int| self.covered(k - 1).contains(x) implies !r.contains(x) by {
                    let i = choose|i: int| 0 <= i < k - 1 && #[trigger] self.in_zone(i, x);
                    assert(self.zones@[i].end() <= self.zones@[k - 1].base() || self.zones@[k - 1].end() <= self.zones@[i].base());
                }
            }
            vstd::set_lib::lemma_set_disjoint_lens(self.covered(k - 1), r);
        }
    }

    /// The zones span at most a machine word's worth of bytes, so their
    /// page counts add up without overflow.
    proof fn lemma_sums_bounded(&self, k: int)
        requires
            self.wf(),
            0 <= k <= self.zone_count(),
        ensures
            0 <= self.free_upto(k) <= self.total_upto(k) <= self.span_upto(k) <= usize::MAX,
            forall|o: int| 0 <= o < NUM_ORDERS ==> 0 <= #[trigger] self.blocks_upto(k, o) <= self.free_upto(k),
        decreases k,
    {
        self.lemma_covered(k);
        vstd::set_lib::lemma_int_range(0, usize::MAX as int);
        vstd::set_lib::lemma_len_subset(self.covered(k), set_int_range(0, usize::MAX as int));
        if k > 0 {
            self.lemma_sums_bounded(k - 1);
            let z = self.zones@[k - 1];
            assert(z.wf(self.global_node_pool));
            z.lemma_free_in_zone(self.global_node_pool);
            z.lemma_block_count_bound();
            lemma_page_size_ok(PAGE_SIZE as int);
            z.lemma_total_pages_bound(self.global_node_pool);
            assert(self.zone(k - 1) == z);
            assert(z.free_pages() <= z.spec_total_pages());
            assert(0 <= z.spec_block_count(0) <= z.free_pages());
            assert(z.spec_total_pages() <= z.end() - z.base());
            assert(self.free_upto(k) == self.free_upto(k - 1) + z.free_pages());
            assert(self.total_upto(k) == self.total_upto(k - 1) + z.spec_total_pages());
            assert(self.span_upto(k) == self.span_upto(k - 1) + (z.end() - z.base()));
            assert(self.span_upto(k) <= usize::MAX);
            assert forall|o: int| 0 <= o < NUM_ORDERS implies 0 <= #[trigger] self.blocks_upto(k, o) <= self.free_upto(k) by {
                assert(0 <= self.blocks_upto(k - 1, o) <= self.free_upto(k - 1));
                assert(0 <= z.spec_block_count(o) <= z.free_pages());
            }
        }
    }
}

impl<const PAGE_SIZE: usize> BuddyPageAllocator<PAGE_SIZE> {
    /// Statistics summed over all zones.
    ///
    /// `free_pages_by_order[o]` counts the free blocks of order `o`.
    pub fn get_stats(&self) -> (r: BuddyStats)
        requires
            self.wf(),
        ensures
            r.total_pages == self.spec_total_pages(),
            r.free_pages == self.spec_free_pages(),
            r.used_pages == self.spec_total_pages() - self.spec_free_pages(),
            forall|o: int| 0 <= o < NUM_ORDERS ==> #[trigger] r.free_pages_by_order[o] == self.blocks_upto(self.zone_count(), o),
    {
        let mut stats = BuddyStats::new();
        let mut i: usize = 0;
        while i < self.num_zones
            invariant
                self.wf(),
                i <= self.num_zones,
                stats.total_pages == self.total_upto(i as int),
                stats.free_pages == self.free_upto(i as int),
                stats.used_pages == self.total_upto(i as int) - self.free_upto(i as int),
                forall|o: int| 0 <= o < NUM_ORDERS ==> #[trigger] stats.free_pages_by_order[o] == self.blocks_upto(i as int, o),
            decreases self.num_zones - i,
        {
            proof {
                assert(self.zones@[i as int].wf(self.global_node_pool));
                self.lemma_sums_bounded(i as int + 1);
                self.lemma_sums_bounded(i as int);
            }
            let zone_stats = self.zones[i].get_stats();
            proof {
                assert forall|o: int| 0 <= o < NUM_ORDERS implies #[trigger] stats.free_pages_by_order[o]
                    + zone_stats.free_pages_by_order[o] <= usize::MAX by {
                    assert(self.blocks_upto(i as int + 1, o) <= self.free_upto(i as int + 1));
                    assert(self.zone(i as int).spec_block_count(o) == zone_stats.free_pages_by_order[o]);
                }
            }
            stats.add(&zone_stats);
            i = i + 1;
        }
        proof {
            self.lemma_sums_bounded(self.num_zones as int);
        }
        stats
    }
}

impl<const PAGE_SIZE: usize> BaseAllocator for BuddyPageAllocator<PAGE_SIZE> {
    open spec fn inv(&self) -> bool {
        self.wf()
    }

    open spec fn init_ok(&self, start: usize, size: usize) -> bool {
        &&& self.wf()
        &&& self.zone_count() < MAX_ZONES
        &&& size > NODE_POOL_PAGES * PAGE_SIZE
        &&& start + size + PAGE_SIZE <= usize::MAX
    }

    open spec fn add_ok(&self, start: usize, size: usize) -> bool {
        start + size + PAGE_SIZE <= usize::MAX
    }

    fn init(&mut self, start: usize, size: usize)
        ensures
            final(self).zone_count() == 1,
            final(self).has_translator() == old(self).has_translator(),
            final(self).translator() == old(self).translator(),
            start % PAGE_SIZE == 0 ==> final(self).marks_follow_translator(),
            final(self).zone(0).base() == crate::math::round_down(start + NODE_POOL_PAGES * PAGE_SIZE, PAGE_SIZE as int),
            final(self).zone(0).end() == crate::math::round_up(start + size, PAGE_SIZE as int),
            final(self).free_set() == set_int_range(final(self).zone(0).base(), final(self).zone(0).end())
                || final(self).pool().free_ids().len() == 0,
            final(self).pool().nodes_view().len() == region_node_count(start as int, NODE_POOL_PAGES * PAGE_SIZE),
            region_node_count(start as int, NODE_POOL_PAGES * PAGE_SIZE) * PAGE_SIZE >= final(self).zone(0).end() - final(self).zone(0).base() ==> final(self).free_set() == set_int_range(final(self).zone(0).base(), final(self).zone(0).end()),
            region_node_count(start as int, NODE_POOL_PAGES * PAGE_SIZE) >= layout_nodes(
                final(self).zone(0).base() as int,
                final(self).zone(0).end() as int,
                PAGE_SIZE as int,
            ) ==> final(self).free_set() == set_int_range(final(self).zone(0).base(), final(self).zone(0).end()),
    {
        self.bootstrap(start, size);
        proof {
            self.lemma_one_zone_free_set();
        }
    }

    fn add_memory(&mut self, start: usize, size: usize) -> (r: AllocResult)
        ensures
            final(self).has_translator() == old(self).has_translator(),
            r is Ok <==> old(self).zone_count() < MAX_ZONES && crate::math::round_up(start + size, PAGE_SIZE as int)
                - crate::math::round_down(start as int, PAGE_SIZE as int) >= PAGE_SIZE && !old(self).overlaps_zone(
                crate::math::round_down(start as int, PAGE_SIZE as int),
                crate::math::round_up(start + size, PAGE_SIZE as int),
            ),
            r is Ok ==> final(self).zone_count() == old(self).zone_count() + 1,
            r is Err ==> *final(self) == *old(self),
            old(self).marks_follow_translator() ==> final(self).marks_follow_translator(),
            ({
                let lo = crate::math::round_down(start as int, PAGE_SIZE as int);
                let hi = crate::math::round_up(start + size, PAGE_SIZE as int);
                &&& r is Ok ==> final(self).free_set() == old(self).free_set().union(set_int_range(lo, hi))
                    || final(self).pool().free_ids().len() == 0
                &&& r is Ok && old(self).pool().free_ids().len() * PAGE_SIZE >= hi - lo ==> final(self).free_set() == old(self).free_set().union(set_int_range(lo, hi))
                &&& r is Ok && old(self).pool().free_ids().len() >= layout_nodes(lo, hi, PAGE_SIZE as int) ==> final(self).free_set()
                    == old(self).free_set().union(set_int_range(lo, hi))
            }),
    {
        self.add_memory_region(start, size)
    }
}

impl<const PAGE_SIZE: usize> BuddyPageAllocator<PAGE_SIZE> {
    /// Low (below 4GiB) physical memory is kept for last: when zones are
    /// marked by where their first byte translates, an ordinary allocation
    /// lands in a zone whose first byte translates below 4GiB only when no
    /// zone whose first byte does not had a free block large enough.
    pub proof fn lemma_high_memory_first(a0: Self, a1: Self, num_pages: usize, alignment: usize, x: usize, i: int)
        requires
            a0.wf(),
            a0.marks_follow_translator(),
            a0.pool().free_ids().len() >= NODE_POOL_LOW_WATER_NODES,
            a0.alloc_effect(&a1, num_pages, alignment, Ok(x)),
            0 <= i < a0.zone_count(),
            a0.in_zone(i, x as int),
            translates_low(a0.translator(), a0.zone(i).base() as usize),
        ensures
            forall|j: int|
                0 <= j < a0.zone_count() && !translates_low(a0.translator(), a0.zone(j).base() as usize)
                    ==> #[trigger] a0.zone(j).first_nonempty(
                    a0.pool(),
                    needed_order(num_pages as int, alignment as int, PAGE_SIZE as int) as int,
                ) > DEFAULT_MAX_ORDER,
    {
        assert(a0.zone_lowmem(i));
        assert(a0.in_marked_zone(x as int, true));
        assert forall|j: int|
            0 <= j < a0.zone_count() && !translates_low(a0.translator(), a0.zone(j).base() as usize) implies #[trigger] a0.zone(
            j,
        ).first_nonempty(a0.pool(), needed_order(num_pages as int, alignment as int, PAGE_SIZE as int) as int)
            > DEFAULT_MAX_ORDER by {
            assert(!a0.zone_lowmem(j));
        }
    }

    /// Memory handed out is not handed out again before it is freed: of
    /// two allocations in a row, the second takes none of the first.
    pub proof fn lemma_allocations_disjoint(a0: Self, a1: Self, a2: Self, first: Set<int>, second: Set<int>)
        requires
            a0.took(&a1, first),
            a1.took(&a2, second),
        ensures
            first.disjoint(second),
    {
        assert forall|x: int| first.contains(x) implies !second.contains(x) by {
            if second.contains(x) {
                assert(a1.free_set().contains(x));
            }
        }
    }

    /// Pages handed out and then given back are free again: when the node
    /// pool has nodes to spare at both calls, `alloc_pages(num_pages,
    /// alignment)` returning `a` (taking `a0` to `a1`) followed by
    /// `dealloc_pages(a, freed)` (taking `a1` to `a2`), for a count `freed`
    /// that rounds up to the block handed out, leaves the free memory as it
    /// was.
    pub proof fn lemma_alloc_free_round_trip(
        a0: Self,
        a1: Self,
        a2: Self,
        a: usize,
        num_pages: usize,
        alignment: usize,
        freed: usize,
    )
        requires
            a0.wf(),
            a1.wf(),
            a0.pool().free_ids().len() >= NODE_POOL_LOW_WATER_NODES,
            a1.pool().free_ids().len() >= NODE_POOL_LOW_WATER_NODES,
            num_pages > 0,
            freed > 0,
            needed_order(num_pages as int, alignment as int, PAGE_SIZE as int) == crate::math::order_for(freed as nat),
            needed_order(num_pages as int, alignment as int, PAGE_SIZE as int) <= DEFAULT_MAX_ORDER,
            a1.same_zones(&a0),
            Self::served(a as int, num_pages as int, alignment as int),
            exists|i: int|
                0 <= i < a0.zone_count() && block_range(
                    a as int,
                    needed_order(num_pages as int, alignment as int, PAGE_SIZE as int) as int,
                    PAGE_SIZE as int,
                ).subset_of(#[trigger] a0.zone_free(i)),
            a0.alloc_outcome(&a1, num_pages, alignment, Ok(a)),
            a1.release_effect(&a2, a as int, freed as int),
        ensures
            a2.free_set() == a0.free_set(),
    {
        let o = crate::math::order_for(freed as nat) as int;
        let ps = PAGE_SIZE as int;
        let range = block_range(a as int, o, ps);
        let i = choose|i: int| 0 <= i < a0.zone_count() && range.subset_of(#[trigger] a0.zone_free(i));
        lemma_page_size_ok(ps);
        super::buddy_set::lemma_block_bytes(o, ps);
        let bb = block_bytes(o, ps);
        assert(range.contains(a as int));
        assert(range.contains(a + bb - 1));
        a0.zones@[i].lemma_free_in_zone(a0.global_node_pool);
        assert(a0.zone_free(i).contains(a as int));
        assert(a0.zone_free(i).contains(a + bb - 1));
        assert(a1.zone(i).same_geometry(&a0.zone(i)));
        assert(a1.in_zone(i, a as int));
        a1.lemma_zone_unique(i, a1.zone_of(a as int), a as int);
        assert(a1.zone_of(a as int) == i);
        assert(a1.free_set() == a0.free_set().difference(range));
        assert(a1.released(&a2, a as int, freed as int));
        let z1 = a1.zone(i);
        assert(z1.free_set(a1.pool()) == a1.zone_free(i));
        assert(range.disjoint(a1.zone_free(i))) by {
            assert forall|x: int| range.contains(x) implies !a1.zone_free(i).contains(x) by {
                if a1.zone_free(i).contains(x) {
                    assert(a1.free_set().contains(x));
                }
            }
        }
        assert(z1.release_ok(a1.pool(), a as int, freed as int));
        assert(a2.zone_free(i) == a1.zone_free(i) + range);
        assert forall|x: int| a2.free_set().contains(x) == a0.free_set().contains(x) by {
            if a2.free_set().contains(x) {
                let j = choose|j: int| 0 <= j < a2.zone_count() && #[trigger] a2.zone_free(j).contains(x);
                if j != i {
                    assert(a1.zone_free(j).contains(x));
                    assert(a1.free_set().contains(x));
                } else if !range.contains(x) {
                    assert(a1.zone_free(i).contains(x));
                    assert(a1.free_set().contains(x));
                }
            }
            if a0.free_set().contains(x) {
                if range.contains(x) {
                    assert(a2.zone_free(i).contains(x));
                } else {
                    assert(a1.free_set().contains(x));
                    let j = choose|j: int| 0 <= j < a1.zone_count() && #[trigger] a1.zone_free(j).contains(x);
                    if j != i {
                        assert(a2.zone_free(j).contains(x));
                    } else {
                        assert(a2.zone_free(i).contains(x));
                    }
                }
            }
        }
        assert(a2.free_set() =~= a0.free_set());
    }

    /// `range` was free and now is not, and the rest only shrank.
    pub open spec fn took(&self, new_a: &Self, range: Set<int>) -> bool {
        &&& range.subset_of(self.free_set())
        &&& range.disjoint(new_a.free_set())
        &&& new_a.free_set().subset_of(self.free_set())
    }

    /// The block an allocation of `num_pages` at `alignment` hands out at `a`.
    pub open spec fn served(a: int, num_pages: int, alignment: int) -> bool {
        let need = needed_order(num_pages, alignment, PAGE_SIZE as int) as int;
        &&& a % block_bytes(need, PAGE_SIZE as int) == 0
        &&& (alignment > 0 ==> a % alignment == 0)
        &&& num_pages * PAGE_SIZE <= block_bytes(need, PAGE_SIZE as int)
    }

    /// Try the zones whose low-memory mark is `lowmem`, in order, and take
    /// the first allocation one of them grants.
    #[verifier::spinoff_prover]
    fn alloc_from_zones(&mut self, num_pages: usize, alignment: usize, lowmem: bool) -> (r: Option<usize>)
        requires
            old(self).wf(),
            alignment == 0 || is_pow2(alignment as int),
        ensures
            final(self).wf(),
            final(self).same_zones(old(self)),
            forall|j: int| 0 <= j < old(self).zone_count() ==> #[trigger] final(self).zone_free(j).subset_of(old(self).zone_free(j)),
            final(self).free_set().subset_of(old(self).free_set()),
            r is Some ==> num_pages > 0 && needed_order(num_pages as int, alignment as int, PAGE_SIZE as int) <= DEFAULT_MAX_ORDER,
            r matches Some(a) ==> Self::served(a as int, num_pages as int, alignment as int),
            r matches Some(a) ==> old(self).took(
                final(self),
                block_range(a as int, needed_order(num_pages as int, alignment as int, PAGE_SIZE as int) as int, PAGE_SIZE as int),
            ),
            r matches Some(a) ==> old(self).in_marked_zone(a as int, lowmem),
            r matches Some(a) ==> exists|i: int|
                0 <= i < old(self).zone_count() && block_range(
                    a as int,
                    needed_order(num_pages as int, alignment as int, PAGE_SIZE as int) as int,
                    PAGE_SIZE as int,
                ).subset_of(#[trigger] old(self).zone_free(i)),
            r matches Some(a) ==> (old(self).pool().free_ids().len() >= NODE_POOL_LOW_WATER_NODES ==> final(self).free_set()
                == old(self).free_set().difference(
                block_range(a as int, needed_order(num_pages as int, alignment as int, PAGE_SIZE as int) as int, PAGE_SIZE as int),
            )),
            ({
                let need = needed_order(num_pages as int, alignment as int, PAGE_SIZE as int) as int;
                old(self).pool().free_ids().len() >= NODE_POOL_LOW_WATER_NODES && num_pages > 0 && need <= DEFAULT_MAX_ORDER
                    && r is None ==> final(self).same_state(old(self)) && forall|j: int|
                    0 <= j < old(self).zone_count() && old(self).zone_lowmem(j) == lowmem ==> #[trigger] old(self).zone(
                        j,
                    ).first_nonempty(old(self).pool(), need) > DEFAULT_MAX_ORDER
            }),
    {
        let ghost a0 = *self;
        let ghost need = needed_order(num_pages as int, alignment as int, PAGE_SIZE as int) as int;
        let ghost pool_ok = a0.pool().free_ids().len() >= NODE_POOL_LOW_WATER_NODES && num_pages > 0 && need
            <= DEFAULT_MAX_ORDER;
        let mut i: usize = 0;
        while i < self.num_zones
            invariant
                alignment == 0 || is_pow2(alignment as int),
                a0 == *old(self),
                a0.wf(),
                self.wf(),
                self.same_zones(&a0),
                forall|j: int| 0 <= j < a0.zone_count() ==> #[trigger] self.zone_free(j).subset_of(a0.zone_free(j)),
                    need == needed_order(num_pages as int, alignment as int, PAGE_SIZE as int) as int,
                pool_ok == (a0.pool().free_ids().len() >= NODE_POOL_LOW_WATER_NODES && num_pages > 0 && need <= DEFAULT_MAX_ORDER),
                i <= self.num_zones,
                pool_ok ==> self.same_state(&a0),
                pool_ok ==> forall|j: int|
                    0 <= j < i && a0.zone_lowmem(j) == lowmem ==> #[trigger] a0.zone(j).first_nonempty(a0.pool(), need)
                        > DEFAULT_MAX_ORDER,
            decreases self.num_zones - i,
        {
            if self.lowmem[i] == lowmem {
                let ghost a_before = *self;
                let r = self.zones[i].alloc_pages(&mut self.global_node_pool, num_pages, alignment);
                proof {
                    Self::lemma_zone_step(&a_before, self, i as int);
                    Self::lemma_same_zones_trans(&a0, &a_before, self);
                    assert forall|j: int| 0 <= j < a0.zone_count() implies #[trigger] self.zone_free(j).subset_of(a0.zone_free(j)) by {
                        assert(a_before.zone_free(j).subset_of(a0.zone_free(j)));
                        if j != i {
                            assert(self.zone_free(j) == a_before.zone_free(j));
                        }
                    }
                    Self::lemma_free_shrinks(&a0, self);
                }
                match r {
                    Ok(a) => {
                        proof {
                            let range = block_range(a as int, need, PAGE_SIZE as int);
                            lemma_page_size_ok(PAGE_SIZE as int);
                            super::buddy_set::lemma_block_bytes(need, PAGE_SIZE as int);
                            assert(a_before.zone_free(i as int).subset_of(a0.zone_free(i as int)));
                            assert(a_before.zone(i as int).same_geometry(&a0.zone(i as int)));
                            assert(range.subset_of(a0.zone_free(i as int))) by {
                                assert forall|x: int| range.contains(x) implies a0.zone_free(i as int).contains(x) by {
                                    assert(a_before.zone_free(i as int).contains(x));
                                }
                            }
                            assert(range.subset_of(a0.free_set())) by {
                                assert forall|x: int| range.contains(x) implies a0.free_set().contains(x) by {
                                    assert(a_before.zone_free(i as int).contains(x));
                                    assert(a0.zone_free(i as int).contains(x));
                                }
                            }
                            assert(range.disjoint(self.free_set())) by {
                                assert forall|x: int| range.contains(x) implies !self.free_set().contains(x) by {
                                    assert(self.in_zone(i as int, x));
                                    self.lemma_free_in_one_zone(i as int, x);
                                }
                            }
                            assert(a0.in_zone(i as int, a as int));
                            assert(num_pages > 0);
                            assert(need <= DEFAULT_MAX_ORDER);
                            assert(Self::served(a as int, num_pages as int, alignment as int));
                            assert(a_before.zone_lowmem(i as int) == lowmem);
                            assert(a_before.zone_lowmem(i as int) == a0.zone_lowmem(i as int));
                            assert(a0.zone_lowmem(i as int) == lowmem);
                            assert(self.free_set().subset_of(a0.free_set()));
                            assert(a0.took(self, range));
                            assert(exists|j: int| 0 <= j < a0.zone_count() && a0.zone_lowmem(j) == lowmem && #[trigger] a0.in_zone(j, a as int));
                            assert(old(self).took(self, range));
                            assert(old(self).in_zone(i as int, a as int));
                            assert(old(self).zone_lowmem(i as int) == lowmem);
                            assert(i < old(self).zone_count());
                            assert(old(self).in_marked_zone(a as int, lowmem));
                            assert(Self::served(a as int, num_pages as int, alignment as int));
                            if pool_ok {
                                assert(a_before.zone_free(i as int) == a0.zone_free(i as int));
                                assert(self.zone_free(i as int) == a0.zone_free(i as int).difference(range));
                                assert forall|x: int| #[trigger] self.free_set().contains(x) == a0.free_set().difference(range).contains(x) by {
                                    if a0.free_set().contains(x) && !range.contains(x) {
                                        let j = choose|j: int| 0 <= j < a0.zone_count() && #[trigger] a0.zone_free(j).contains(x);
                                        if j != i {
                                            assert(self.zone_free(j) == a_before.zone_free(j));
                                            assert(a_before.zone_free(j) == a0.zone_free(j));
                                        }
                                        assert(self.zone_free(j).contains(x));
                                    }
                                }
                                assert(self.free_set() =~= a0.free_set().difference(range));
                            }
                        }
                        return Some(a);
                    },
                    Err(_) => {
                        proof {
                            if pool_ok {
                                assert(self.zones@ =~= a0.zones@);
                            }
                        }
                    },
                }
            }
            i = i + 1;
        }
        proof {
            Self::lemma_free_shrinks(&a0, self);
        }
        None
    }
}

impl<const PAGE_SIZE: usize> PageAllocator for BuddyPageAllocator<PAGE_SIZE> {
    open spec fn alloc_ok(&self, num_pages: usize, alignment: usize) -> bool {
        alignment == 0 || is_pow2(alignment as int)
    }

    open spec fn place_ok(&self, base: usize, num_pages: usize, alignment: usize) -> bool {
        &&& alignment > 0
        &&& base + num_pages * PAGE_SIZE <= usize::MAX
    }

    /// Allocate pages, preferring zones that do not lie in low memory so
    /// that low memory stays available for the requests that need it.
    fn alloc_pages(&mut self, num_pages: usize, alignment: usize) -> (r: AllocResult<usize>)
        ensures
            old(self).alloc_effect(&*final(self), num_pages, alignment, r),
    {
        let ghost a0 = *self;
        self.maybe_expand_node_pool();
        let ghost a1 = *self;
        let first = self.alloc_from_zones(num_pages, alignment, false);
        if let Some(a) = first {
            proof {
                Self::lemma_same_zones_trans(&a0, &a1, self);
                Self::lemma_free_shrinks(&a0, &a1);
                let range = block_range(a as int, needed_order(num_pages as int, alignment as int, PAGE_SIZE as int) as int, PAGE_SIZE as int);
                let i = choose|i: int| 0 <= i < a1.zone_count() && range.subset_of(#[trigger] a1.zone_free(i));
                assert(a1.zone_free(i).subset_of(a0.zone_free(i)));
                assert(range.subset_of(a0.zone_free(i)));
                assert(a1.alloc_outcome(&*self, num_pages, alignment, Ok(a)));
                assert(a0.refilled(&a1));
            }
            return Ok(a);
        }
        let ghost a2 = *self;
        let second = self.alloc_from_zones(num_pages, alignment, true);
        proof {
            let need = needed_order(num_pages as int, alignment as int, PAGE_SIZE as int) as int;
            if a1.pool().free_ids().len() >= NODE_POOL_LOW_WATER_NODES && second is Some {
                assert forall|j: int| 0 <= j < a1.zone_count() && !a1.zone_lowmem(j) implies #[trigger] a1.zone(j).first_nonempty(
                    a1.pool(),
                    need,
                ) > DEFAULT_MAX_ORDER by {
                    assert(a1.zone_lowmem(j) == false);
                }
            }
        }
        proof {
            Self::lemma_same_zones_trans(&a0, &a1, &a2);
            Self::lemma_same_zones_trans(&a0, &a2, self);
            Self::lemma_free_shrinks(&a0, &a1);
            let need = needed_order(num_pages as int, alignment as int, PAGE_SIZE as int) as int;
            if a1.pool().free_ids().len() >= NODE_POOL_LOW_WATER_NODES && num_pages > 0 && need <= DEFAULT_MAX_ORDER && second is None {
                assert(a2.same_state(&a1));
                assert(a2.pool() == a1.pool());
                assert forall|i: int| 0 <= i < a1.zone_count() implies #[trigger] a1.zone(i).first_nonempty(a1.pool(), need)
                    > DEFAULT_MAX_ORDER by {
                    assert(a2.zone(i) == a1.zone(i));
                    assert(a2.zone_lowmem(i) == a1.zone_lowmem(i));
                    if a1.zone_lowmem(i) {
                        assert(a2.zone(i).first_nonempty(a2.pool(), need) > DEFAULT_MAX_ORDER);
                    } else {
                        assert(a1.zone(i).first_nonempty(a1.pool(), need) > DEFAULT_MAX_ORDER);
                    }
                }
            }
        }
        proof {
            if a1.pool().free_ids().len() >= NODE_POOL_LOW_WATER_NODES && second is Some {
                assert(a2.same_state(&a1));
                assert forall|i: int| #[trigger] a2.zone_free(i) == a1.zone_free(i) by {
                    assert(a2.zone(i) == a1.zone(i));
                    assert(a2.pool() == a1.pool());
                }
                assert forall|x: int| #[trigger] a2.free_set().contains(x) == a1.free_set().contains(x) by {
                    if a1.free_set().contains(x) {
                        let j = choose|j: int| 0 <= j < a1.zone_count() && #[trigger] a1.zone_free(j).contains(x);
                        assert(a2.zone_free(j).contains(x));
                    }
                    if a2.free_set().contains(x) {
                        let j = choose|j: int| 0 <= j < a2.zone_count() && #[trigger] a2.zone_free(j).contains(x);
                        assert(a1.zone_free(j).contains(x));
                    }
                }
                assert(a2.free_set() =~= a1.free_set());
            }
        }
        let r = match second {
            Some(a) => Ok(a),
            None => Err(AllocError::NoMemory),
        };
        proof {
            assert(a1.alloc_outcome(&*self, num_pages, alignment, r));
            assert(a0.refilled(&a1));
            if let Some(a) = second {
                let range = block_range(a as int, needed_order(num_pages as int, alignment as int, PAGE_SIZE as int) as int, PAGE_SIZE as int);
                let i = choose|i: int| 0 <= i < a2.zone_count() && range.subset_of(#[trigger] a2.zone_free(i));
                assert(a2.zone_free(i).subset_of(a1.zone_free(i)));
                assert(a1.zone_free(i).subset_of(a0.zone_free(i)));
                assert(range.subset_of(a0.zone_free(i)));
            }
        }
        r
    }

    fn dealloc_pages(&mut self, pos: usize, num_pages: usize)
        ensures
            old(self).release_effect(&*final(self), pos as int, num_pages as int),
    {
        let ghost a0 = *self;
        self.maybe_expand_node_pool();
        let ghost a1 = *self;
        match self.find_zone_for_addr(pos) {
            Some(i) => {
                self.zones[i].dealloc_pages(&mut self.global_node_pool, pos, num_pages);
                proof {
                    Self::lemma_zone_step(&a1, self, i as int);
                    Self::lemma_same_zones_trans(&a0, &a1, self);
                    let range = block_range(pos as int, crate::math::order_for(num_pages as nat) as int, PAGE_SIZE as int);
                    assert forall|x: int| self.free_set().contains(x) implies (a0.free_set() + range).contains(x) by {
                        let j = choose|j: int| 0 <= j < self.zone_count() && #[trigger] self.zone_free(j).contains(x);
                        assert(a1.zone_free(j).subset_of(a0.zone_free(j)));
                        if j != i {
                            assert(a1.zone_free(j).contains(x));
                        } else if !range.contains(x) {
                            assert(a1.zone_free(j).contains(x));
                        }
                    }
                    assert(a0.refilled(&a1) && a1.released(&*self, pos as int, num_pages as int));
                }
            },
            None => {
                proof {
                    Self::lemma_same_zones_trans(&a0, &a1, self);
                    Self::lemma_free_shrinks(&a0, self);
                    assert(a0.refilled(&a1) && a1.released(&*self, pos as int, num_pages as int));
                }
            },
        }
    }

    fn alloc_pages_at(&mut self, base: usize, num_pages: usize, alignment: usize) -> (r: AllocResult<usize>)
        ensures
            final(self).same_zones(old(self)),
            final(self).free_set().subset_of(old(self).free_set()),
            r is Ok ==> r == Ok::<usize, AllocError>(base),
            r is Ok ==> old(self).took(final(self), block_range(base as int, crate::math::order_for(num_pages as nat) as int, PAGE_SIZE as int)),
            old(self).place_effect(&*final(self), base, num_pages, alignment, r),
    {
        let ghost a0 = *self;
        self.maybe_expand_node_pool();
        let ghost a1 = *self;
        match self.find_zone_for_addr(base) {
            Some(i) => {
                let r = self.zones[i].alloc_pages_at(&mut self.global_node_pool, base, num_pages, alignment);
                proof {
                    Self::lemma_zone_step(&a1, self, i as int);
                    Self::lemma_same_zones_trans(&a0, &a1, self);
                    assert forall|j: int| 0 <= j < a0.zone_count() implies #[trigger] self.zone_free(j).subset_of(a0.zone_free(j)) by {
                        assert(a1.zone_free(j).subset_of(a0.zone_free(j)));
                        if j != i {
                            assert(self.zone_free(j) == a1.zone_free(j));
                        }
                    }
                    Self::lemma_free_shrinks(&a0, self);
                    if r is Ok {
                        let range = block_range(base as int, crate::math::order_for(num_pages as nat) as int, PAGE_SIZE as int);
                        assert(a1.zone(i as int).same_geometry(&a0.zone(i as int)));
                        a1.zones@[i as int].lemma_free_in_zone(a1.global_node_pool);
                        assert(a1.zone_free(i as int).subset_of(a0.zone_free(i as int)));
                        assert forall|x: int| range.contains(x) implies a0.free_set().contains(x) && !self.free_set().contains(x) by {
                            assert(a1.zone_free(i as int).contains(x));
                            assert(a0.zone_free(i as int).contains(x));
                            assert(self.in_zone(i as int, x));
                            self.lemma_free_in_one_zone(i as int, x);
                        }
                    }
                    assert(a0.refilled(&a1) && a1.placed(&*self, base, num_pages, alignment, r));
                }
                r
            },
            None => {
                proof {
                    Self::lemma_same_zones_trans(&a0, &a1, self);
                    Self::lemma_free_shrinks(&a0, self);
                    assert(a0.refilled(&a1) && a1.placed(&*self, base, num_pages, alignment, Err(AllocError::InvalidParam)));
                }
                Err(AllocError::InvalidParam)
            },
        }
    }

    fn total_pages(&self) -> (r: usize)
        ensures
            r == self.spec_total_pages(),
    {
        self.get_stats().total_pages
    }

    fn used_pages(&self) -> (r: usize)
        ensures
            r == self.spec_total_pages() - self.spec_free_pages(),
    {
        self.get_stats().used_pages
    }

    fn available_pages(&self) -> (r: usize)
        ensures
            r == self.spec_free_pages(),
    {
        self.get_stats().free_pages
    }
}

impl<const PAGE_SIZE: usize> BuddyPageAllocator<PAGE_SIZE> {
    /// Whether `[start, end]` translates to low (below 4GiB) physical memory
    /// at both ends.
    fn range_is_low(&self, start: usize, end: usize) -> (r: bool)
        ensures
            r == (self.translator() matches Some(t) && phys_low(t.translation(start)) && phys_low(t.translation(end))),
    {
        match self.addr_translator {
            Some(translator) => {
                let pa_start = translator.virt_to_phys(start);
                let pa_end = translator.virt_to_phys(end);
                Self::phys_is_low(pa_start) && Self::phys_is_low(pa_end)
            },
            None => false,
        }
    }

    /// Allocate contiguous low-memory pages (physical address below 4GiB).
    ///
    /// Only zones marked as low memory are tried, and an allocation is kept
    /// only when both its first and its last byte translate below 4GiB;
    /// otherwise it is released again and the search goes on.
    pub fn alloc_pages_lowmem(&mut self, num_pages: usize, alignment: usize) -> (r: AllocResult<usize>)
        requires
            alignment == 0 || is_pow2(alignment as int),
            old(self).wf(),
            num_pages * PAGE_SIZE <= usize::MAX,
        ensures
            final(self).wf(),
            final(self).same_zones(old(self)),
            final(self).free_set().subset_of(old(self).free_set()),
            (num_pages == 0 || !old(self).has_translator()) ==> r == Err::<usize, AllocError>(AllocError::InvalidParam)
                && final(self).same_state(old(self)),
            (num_pages > 0 && old(self).has_translator()) ==> (r is Err ==> r == Err::<usize, AllocError>(AllocError::NoMemory)),
            r matches Ok(a) ==> Self::served(a as int, num_pages as int, alignment as int),
            r matches Ok(a) ==> old(self).took(
                final(self),
                block_range(a as int, needed_order(num_pages as int, alignment as int, PAGE_SIZE as int) as int, PAGE_SIZE as int),
            ),
            r matches Ok(a) ==> old(self).in_marked_zone(a as int, true),
            r matches Ok(a) ==> old(self).translator() matches Some(t) && phys_low(t.translation(a)) && phys_low(
                t.translation((a + num_pages * PAGE_SIZE - 1) as usize),
            ),
    {
        if num_pages == 0 {
            return Err(AllocError::InvalidParam);
        }
        if self.addr_translator.is_none() {
            return Err(AllocError::InvalidParam);
        }
        let ghost a0 = *self;
        self.maybe_expand_node_pool();
        let ghost a1 = *self;
        proof {
            Self::lemma_same_zones_trans(&a0, &a1, self);
            lemma_page_size_ok(PAGE_SIZE as int);
        }
        let size_bytes = num_pages * PAGE_SIZE;
        let ghost need = needed_order(num_pages as int, alignment as int, PAGE_SIZE as int) as int;
        let mut i: usize = 0;
        while i < self.num_zones
            invariant
                alignment == 0 || is_pow2(alignment as int),
                a0 == *old(self),
                a0.wf(),
                self.wf(),
                self.same_zones(&a0),
                forall|j: int| 0 <= j < a0.zone_count() ==> #[trigger] self.zone_free(j).subset_of(a0.zone_free(j)),
                    need == needed_order(num_pages as int, alignment as int, PAGE_SIZE as int) as int,
                num_pages > 0,
                a0.has_translator(),
                self.translator() == a0.translator(),
                size_bytes == num_pages * PAGE_SIZE,
                page_size_ok(PAGE_SIZE as int),
                i <= self.num_zones,
            decreases self.num_zones - i,
        {
            if self.lowmem[i] {
                let ghost a_before = *self;
                let r = self.zones[i].alloc_pages(&mut self.global_node_pool, num_pages, alignment);
                let ghost a_mid = *self;
                proof {
                    Self::lemma_zone_step(&a_before, self, i as int);
                    Self::lemma_same_zones_trans(&a0, &a_before, self);
                    assert(a_before.zone_free(i as int).subset_of(a0.zone_free(i as int)));
                    assert(a_before.zone(i as int).same_geometry(&a0.zone(i as int)));
                }
                match r {
                    Ok(addr) => {
                        proof {
                            lemma_page_size_ok(PAGE_SIZE as int);
                            super::buddy_set::lemma_block_bytes(need, PAGE_SIZE as int);
                            assert(size_bytes >= PAGE_SIZE) by (nonlinear_arith)
                                requires size_bytes == num_pages * PAGE_SIZE, num_pages > 0, PAGE_SIZE >= 1;
                            a_before.zones@[i as int].lemma_end_bound();
                        }
                        if self.range_is_low(addr, addr + size_bytes - 1) {
                            proof {
                                assert forall|j: int| 0 <= j < a0.zone_count() implies #[trigger] self.zone_free(j).subset_of(a0.zone_free(j)) by {
                                    assert(a_before.zone_free(j).subset_of(a0.zone_free(j)));
                                    if j != i {
                                        assert(self.zone_free(j) == a_before.zone_free(j));
                                    }
                                }
                                Self::lemma_free_shrinks(&a0, self);
                                let range = block_range(addr as int, need, PAGE_SIZE as int);
                                assert forall|x: int| range.contains(x) implies a0.free_set().contains(x) && !self.free_set().contains(x) by {
                                    assert(a_before.zone_free(i as int).contains(x));
                                    assert(a0.zone_free(i as int).contains(x));
                                    assert(self.in_zone(i as int, x));
                                    self.lemma_free_in_one_zone(i as int, x);
                                }
                                assert(a_before.zone_lowmem(i as int));
                                assert(a0.in_zone(i as int, addr as int));
                                assert(old(self).in_marked_zone(addr as int, true));
                            }
                            return Ok(addr);
                        }
                        self.zones[i].dealloc_pages(&mut self.global_node_pool, addr, num_pages);
                        proof {
                            Self::lemma_zone_step(&a_mid, self, i as int);
                            Self::lemma_same_zones_trans(&a0, &a_mid, self);
                            let o = crate::math::order_for(num_pages as nat) as int;
                            let whole = block_range(addr as int, need, PAGE_SIZE as int);
                            let part = block_range(addr as int, o, PAGE_SIZE as int);
                            super::buddy_set::lemma_block_bytes_divides(o, need, PAGE_SIZE as int);
                            assert(part.subset_of(whole));
                            assert(self.zone_free(i as int).subset_of(a_before.zone_free(i as int)));
                        }
                    },
                    Err(_) => {},
                }
                proof {
                    assert forall|j: int| 0 <= j < a0.zone_count() implies #[trigger] self.zone_free(j).subset_of(a0.zone_free(j)) by {
                        assert(a_before.zone_free(j).subset_of(a0.zone_free(j)));
                        if j != i {
                            assert(self.zone_free(j) == a_mid.zone_free(j));
                            assert(a_mid.zone_free(j) == a_before.zone_free(j));
                        } else {
                            assert(self.zone_free(j).subset_of(a_before.zone_free(j)));
                        }
                    }
                }
            }
            i = i + 1;
        }
        proof {
            Self::lemma_free_shrinks(&a0, self);
        }
        Err(AllocError::NoMemory)
    }
}


impl<const PAGE_SIZE: usize> crate::slab::slab_byte_allocator::PageAllocatorForSlab for BuddyPageAllocator<PAGE_SIZE> {
    open spec fn slab_inv(&self) -> bool {
        self.wf()
    }

    open spec fn slab_alloc_effect(&self, after: &Self, num_pages: usize, alignment: usize, r: AllocResult<usize>) -> bool {
        &&& alignment != 0 && !is_pow2(alignment as int) ==> r == Err::<usize, AllocError>(AllocError::InvalidParam) && *after
            == *self
        &&& !(alignment != 0 && !is_pow2(alignment as int)) ==> self.alloc_effect(after, num_pages, alignment, r)
    }

    open spec fn slab_dealloc_effect(&self, after: &Self, pos: usize, num_pages: usize) -> bool {
        self.release_effect(after, pos as int, num_pages as int)
    }

    /// Allocate pages for a slab as `PageAllocator::alloc_pages` does; a
    /// non-power-of-two alignment other than zero is refused as invalid
    /// before the page allocator is asked.
    fn alloc_pages(&mut self, num_pages: usize, alignment: usize) -> (r: AllocResult<usize>)
    {
        if alignment != 0 && !crate::math::is_power_of_two(alignment) {
            return Err(AllocError::InvalidParam);
        }
        PageAllocator::alloc_pages(self, num_pages, alignment)
    }

    /// Release pages as `PageAllocator::dealloc_pages` does.
    fn dealloc_pages(&mut self, pos: usize, num_pages: usize)
        ensures
            old(self).release_effect(&*final(self), pos as int, num_pages as int),
    {
        PageAllocator::dealloc_pages(self, pos, num_pages)
    }
}

} // verus!
