//! Single-zone buddy allocator using the global node pool.
//!
//! Implements the core buddy system for one memory zone: one address-sorted
//! free list per order, every list drawing its nodes from the shared pool.
use vstd::prelude::*;
use vstd::arithmetic::power2::{pow2, lemma_pow2_pos, lemma_pow2_unfold};
use vstd::set_lib::set_int_range;
use crate::math::{is_pow2, ranges_overlap, trailing_zeros};
use crate::{AllocError, AllocResult};
use super::buddy_block::{BuddyBlock, ZoneInfo, DEFAULT_MAX_ORDER};
use super::global_node_pool::{GlobalNodePool, pool_frame};
use super::pooled_list::{PooledLinkedList, ids_from, prev_of, sorted_by_addr};
use super::stats::BuddyStats;
use super::layout::{greedy_left, layout_nodes, lemma_greedy_choice, lemma_greedy_left_bound, lemma_greedy_step};

verus! {

/// Number of orders, and so of free lists, in a zone.
pub const NUM_ORDERS: usize = 29;

/// Bytes in a block of the given order.
pub open spec fn block_bytes(order: int, page_size: int) -> int {
    pow2(order as nat) * page_size
}

/// The addresses a block covers.
pub open spec fn block_range(addr: int, order: int, page_size: int) -> Set<int> {
    set_int_range(addr, addr + block_bytes(order, page_size))
}

/// Page sizes the buddy system works with: powers of two small enough that
/// a block of the largest order fits in a machine word.
pub open spec fn page_size_ok(page_size: int) -> bool {
    &&& is_pow2(page_size)
    &&& pow2(DEFAULT_MAX_ORDER as nat) * page_size <= usize::MAX
}

/// Decides whether `page_size` is a page size the buddy system works with;
/// a caller holds the answer before building zones over such pages.
pub fn page_size_supported(page_size: usize) -> (r: bool)
    ensures
        r == page_size_ok(page_size as int),
{
    proof {
        vstd::arithmetic::power2::lemma2_to64();
        assert(pow2(DEFAULT_MAX_ORDER as nat) == 0x1000_0000);
    }
    let q = usize::MAX / 0x1000_0000;
    proof {
        vstd::arithmetic::div_mod::lemma_fundamental_div_mod(usize::MAX as int, 0x1000_0000);
        vstd::arithmetic::div_mod::lemma_mod_bound(usize::MAX as int, 0x1000_0000);
        assert(page_size <= q <==> 0x1000_0000 * page_size <= usize::MAX) by (nonlinear_arith)
            requires usize::MAX == 0x1000_0000 * q + usize::MAX % 0x1000_0000, 0 <= usize::MAX % 0x1000_0000 < 0x1000_0000;
    }
    crate::math::is_power_of_two(page_size) && page_size <= q
}

/// A buddy set - represents a single zone.
///
/// Uses pooled linked lists whose nodes come from the global node pool; all
/// zones share the same pool.
pub struct BuddySet<const PAGE_SIZE: usize> {
    pub(crate) base_addr: usize,
    pub(crate) end_addr: usize,
    total_pages: usize,
    zone_id: usize,
    /// Free lists for each order.
    free_lists: Vec<PooledLinkedList>,
}

impl<const PAGE_SIZE: usize> BuddySet<PAGE_SIZE> {
    /// First address of the zone.
    pub closed spec fn base(&self) -> int {
        self.base_addr as int
    }

    /// One past the last address of the zone.
    pub closed spec fn end(&self) -> int {
        self.end_addr as int
    }

    pub closed spec fn spec_zone_id(&self) -> usize {
        self.zone_id
    }

    pub closed spec fn spec_total_pages(&self) -> usize {
        self.total_pages
    }

    /// The free blocks of one order, ascending by address.
    pub closed spec fn blocks(&self, pool: GlobalNodePool, o: int) -> Seq<BuddyBlock> {
        self.free_lists@[o].view(pool)
    }

    /// Number of free blocks of one order.
    pub closed spec fn count(&self, o: int) -> int {
        self.free_lists@[o].ids().len() as int
    }

    /// The pool nodes the zone's free lists use.
    pub closed spec fn node_set(&self) -> Set<usize> {
        Set::new(|i: usize| exists|o: int| 0 <= o < NUM_ORDERS && #[trigger] self.free_lists@[o].ids().contains(i))
    }

    /// The free lists are well formed and use distinct pool nodes.
    pub closed spec fn lists_wf(&self, pool: GlobalNodePool) -> bool {
        &&& self.free_lists@.len() == NUM_ORDERS
        &&& forall|o: int| 0 <= o < NUM_ORDERS ==> #[trigger] self.free_lists@[o].wf(pool)
        &&& forall|o1: int, o2: int, i: int, j: int|
            #![trigger self.free_lists@[o1].ids()[i], self.free_lists@[o2].ids()[j]]
            0 <= o1 < NUM_ORDERS && 0 <= o2 < NUM_ORDERS && o1 != o2 && 0 <= i < self.free_lists@[o1].ids().len()
                && 0 <= j < self.free_lists@[o2].ids().len() ==> self.free_lists@[o1].ids()[i]
                != self.free_lists@[o2].ids()[j]
    }

    /// A free block of order `o`: aligned to its size and inside the zone.
    pub open spec fn block_ok(&self, b: BuddyBlock, o: int) -> bool {
        &&& b.order == o
        &&& b.addr as int % block_bytes(o, PAGE_SIZE as int) == 0
        &&& self.base() <= b.addr
        &&& b.addr + block_bytes(o, PAGE_SIZE as int) <= self.end()
    }

    pub closed spec fn blocks_ok(&self, pool: GlobalNodePool) -> bool {
        forall|o: int, i: int|
            0 <= o < NUM_ORDERS && 0 <= i < self.blocks(pool, o).len() ==> self.block_ok(
                #[trigger] self.blocks(pool, o)[i],
                o,
            )
    }

    /// No two free blocks share an address.
    pub closed spec fn blocks_disjoint(&self, pool: GlobalNodePool) -> bool {
        forall|o1: int, i1: int, o2: int, i2: int|
            #![trigger self.blocks(pool, o1)[i1], self.blocks(pool, o2)[i2]]
            0 <= o1 < NUM_ORDERS && 0 <= o2 < NUM_ORDERS && 0 <= i1 < self.blocks(pool, o1).len() && 0 <= i2
                < self.blocks(pool, o2).len() && (o1 != o2 || i1 != i2) ==> !ranges_overlap(
                self.blocks(pool, o1)[i1].addr as int,
                block_bytes(o1, PAGE_SIZE as int),
                self.blocks(pool, o2)[i2].addr as int,
                block_bytes(o2, PAGE_SIZE as int),
            )
    }

    /// Address `x` lies in some free block.
    pub closed spec fn covers(&self, pool: GlobalNodePool, x: int) -> bool {
        exists|o: int, i: int|
            0 <= o < NUM_ORDERS && 0 <= i < self.blocks(pool, o).len() && #[trigger] self.blocks(pool, o)[i].addr
                <= x < self.blocks(pool, o)[i].addr + block_bytes(o, PAGE_SIZE as int)
    }

    /// The set of free addresses of the zone.
    pub closed spec fn free_set(&self, pool: GlobalNodePool) -> Set<int> {
        Set::new(|x: int| self.covers(pool, x))
    }

    /// Pages held by the free blocks of the orders below `n`.
    pub closed spec fn pages_upto(&self, n: int) -> int
        decreases n,
    {
        if n <= 0 {
            0
        } else {
            self.pages_upto(n - 1) + self.count(n - 1) * pow2((n - 1) as nat)
        }
    }

    /// Number of free pages of the zone.
    pub closed spec fn free_pages(&self) -> int {
        self.pages_upto(NUM_ORDERS as int)
    }

    /// Well-formedness of the zone against the pool holding its list nodes.
    pub closed spec fn wf(&self, pool: GlobalNodePool) -> bool {
        &&& page_size_ok(PAGE_SIZE as int)
        &&& self.base_addr as int % PAGE_SIZE as int == 0
        &&& self.end_addr as int % PAGE_SIZE as int == 0
        &&& self.base_addr <= self.end_addr
        &&& self.total_pages as int == (self.end_addr - self.base_addr) as int / PAGE_SIZE as int
        &&& self.lists_wf(pool)
        &&& self.blocks_ok(pool)
        &&& self.blocks_disjoint(pool)
        &&& self.free_set(pool).finite()
        &&& self.free_set(pool).len() == self.pages_upto(NUM_ORDERS as int) * PAGE_SIZE
    }
}


impl<const PAGE_SIZE: usize> BuddySet<PAGE_SIZE> {
    /// The same zone geometry.
    pub open spec fn same_geometry(&self, other: &Self) -> bool {
        &&& self.base() == other.base()
        &&& self.end() == other.end()
        &&& self.spec_zone_id() == other.spec_zone_id()
        &&& self.spec_total_pages() == other.spec_total_pages()
    }

    /// Changing one order's count by `d` changes the free page count by `d * 2^o`.
    proof fn lemma_pages_update(old_s: &Self, new_s: &Self, o: int, d: int, n: int)
        requires
            0 <= o < NUM_ORDERS,
            forall|j: int| 0 <= j < NUM_ORDERS && j != o ==> #[trigger] new_s.count(j) == old_s.count(j),
            new_s.count(o) == old_s.count(o) + d,
            0 <= n <= NUM_ORDERS,
        ensures
            n <= o ==> new_s.pages_upto(n) == old_s.pages_upto(n),
            n > o ==> new_s.pages_upto(n) == old_s.pages_upto(n) + d * pow2(o as nat),
        decreases n,
    {
        if n > 0 {
            Self::lemma_pages_update(old_s, new_s, o, d, n - 1);
            if n - 1 == o {
                assert(new_s.count(o) * pow2(o as nat) == old_s.count(o) * pow2(o as nat) + d * pow2(o as nat)) by (nonlinear_arith)
                    requires new_s.count(o) == old_s.count(o) + d;
            }
        }
    }

    /// The free page count is a sum of non-negative terms, bounded below by each partial sum.
    proof fn lemma_pages_monotone(&self, m: int, n: int)
        requires 0 <= m <= n,
        ensures 0 <= self.pages_upto(m) <= self.pages_upto(n),
        decreases n,
    {
        if n > m {
            self.lemma_pages_monotone(m, n - 1);
            lemma_pow2_pos((n - 1) as nat);
            assert(self.count(n - 1) * pow2((n - 1) as nat) >= 0) by (nonlinear_arith)
                requires self.count(n - 1) >= 0, pow2((n - 1) as nat) > 0;
        } else if n > 0 {
            self.lemma_pages_monotone(0, n - 1);
            lemma_pow2_pos((n - 1) as nat);
            assert(self.count(n - 1) * pow2((n - 1) as nat) >= 0) by (nonlinear_arith)
                requires self.count(n - 1) >= 0, pow2((n - 1) as nat) > 0;
        }
    }

    /// Replacing the free list of one order keeps the node bookkeeping of the zone.
    proof fn lemma_list_step(
        old_s: &Self,
        new_s: &Self,
        p_old: GlobalNodePool,
        p_new: GlobalNodePool,
        o: int,
    )
        requires
            0 <= o < NUM_ORDERS,
            old_s.lists_wf(p_old),
            p_old.wf(),
            new_s.free_lists@ == old_s.free_lists@.update(o, new_s.free_lists@[o]),
            new_s.free_lists@[o].wf(p_new),
            pool_frame(p_old, p_new, old_s.free_lists@[o].ids().to_set()),
            ids_from(new_s.free_lists@[o].ids(), old_s.free_lists@[o].ids(), p_old),
        ensures
            new_s.lists_wf(p_new),
            forall|j: int| 0 <= j < NUM_ORDERS && j != o ==> #[trigger] new_s.blocks(p_new, j) == old_s.blocks(p_old, j),
            forall|j: int| 0 <= j < NUM_ORDERS && j != o ==> #[trigger] new_s.count(j) == old_s.count(j),
            new_s.blocks(p_new, o) == new_s.free_lists@[o].view(p_new),
            old_s.blocks(p_old, o) == old_s.free_lists@[o].view(p_old),
            new_s.count(o) == new_s.free_lists@[o].ids().len(),
            old_s.count(o) == old_s.free_lists@[o].ids().len(),
            pool_frame(p_old, p_new, old_s.node_set()),
            forall|i: usize| #[trigger] new_s.node_set().contains(i) ==> old_s.node_set().contains(i) || p_old.is_free(i),
    {
        let lo = old_s.free_lists@[o];
        let ln = new_s.free_lists@[o];
        assert forall|j: int|
            #![trigger new_s.free_lists@[j]]
            #![trigger new_s.blocks(p_new, j)]
            0 <= j < NUM_ORDERS && j != o implies new_s.free_lists@[j].wf(p_new) && new_s.blocks(p_new, j) == old_s.blocks(p_old, j) by {
            let l = old_s.free_lists@[j];
            assert(new_s.free_lists@[j] == l);
            assert(l.wf(p_old));
            assert forall|k: int| 0 <= k < l.ids().len() implies !lo.ids().to_set().contains(#[trigger] l.ids()[k]) by {
                if lo.ids().contains(l.ids()[k]) {
                    let m = choose|m: int| 0 <= m < lo.ids().len() && lo.ids()[m] == l.ids()[k];
                    assert(old_s.free_lists@[o].ids()[m] != old_s.free_lists@[j].ids()[k]);
                }
            }
            l.lemma_frame_disjoint(p_old, p_new, lo.ids().to_set());
        }
        assert forall|o1: int, o2: int, i: int, j: int|
            #![trigger new_s.free_lists@[o1].ids()[i], new_s.free_lists@[o2].ids()[j]]
            0 <= o1 < NUM_ORDERS && 0 <= o2 < NUM_ORDERS && o1 != o2 && 0 <= i < new_s.free_lists@[o1].ids().len()
                && 0 <= j < new_s.free_lists@[o2].ids().len() implies new_s.free_lists@[o1].ids()[i]
                != new_s.free_lists@[o2].ids()[j] by {
            if o1 == o {
                let x = ln.ids()[i];
                let y = old_s.free_lists@[o2].ids()[j];
                assert(old_s.free_lists@[o2].wf(p_old));
                assert(!p_old.is_free(y));
                if lo.ids().contains(x) {
                    let m = choose|m: int| 0 <= m < lo.ids().len() && lo.ids()[m] == x;
                    assert(old_s.free_lists@[o].ids()[m] != old_s.free_lists@[o2].ids()[j]);
                }
            } else if o2 == o {
                let x = old_s.free_lists@[o1].ids()[i];
                let y = ln.ids()[j];
                assert(old_s.free_lists@[o1].wf(p_old));
                assert(!p_old.is_free(x));
                if lo.ids().contains(y) {
                    let m = choose|m: int| 0 <= m < lo.ids().len() && lo.ids()[m] == y;
                    assert(old_s.free_lists@[o1].ids()[i] != old_s.free_lists@[o].ids()[m]);
                }
            } else {
                assert(old_s.free_lists@[o1].ids()[i] != old_s.free_lists@[o2].ids()[j]);
            }
        }
        assert forall|j: int| 0 <= j < NUM_ORDERS && j != o implies #[trigger] new_s.count(j) == old_s.count(j) by {
            assert(new_s.free_lists@[j] == old_s.free_lists@[j]);
        }
        assert forall|j: int| 0 <= j < NUM_ORDERS implies #[trigger] new_s.free_lists@[j].wf(p_new) by {
            if j != o {
                assert(new_s.free_lists@[j].wf(p_new) && new_s.blocks(p_new, j) == old_s.blocks(p_old, j));
            }
        }
        assert forall|i: usize| #[trigger] new_s.node_set().contains(i) implies old_s.node_set().contains(i) || p_old.is_free(i) by {
            let j = choose|j: int| 0 <= j < NUM_ORDERS && #[trigger] new_s.free_lists@[j].ids().contains(i);
            if j == o {
                let m = choose|m: int| 0 <= m < ln.ids().len() && ln.ids()[m] == i;
                assert(lo.ids().contains(ln.ids()[m]) || p_old.is_free(ln.ids()[m]));
                if lo.ids().contains(i) {
                    assert(old_s.free_lists@[o].ids().contains(i));
                }
            } else {
                assert(old_s.free_lists@[j].ids().contains(i));
            }
        }
        assert(lo.ids().to_set().subset_of(old_s.node_set())) by {
            assert forall|i: usize| #[trigger] lo.ids().to_set().contains(i) implies old_s.node_set().contains(i) by {
                assert(old_s.free_lists@[o].ids().contains(i));
            }
        }
        super::global_node_pool::lemma_pool_frame_widen(p_old, p_new, lo.ids().to_set(), old_s.node_set());
    }

    /// A pool change owning none of the zone's nodes leaves the zone as it is.
    pub proof fn lemma_frame(&self, p1: GlobalNodePool, p2: GlobalNodePool, owned: Set<usize>)
        requires
            self.wf(p1),
            pool_frame(p1, p2, owned),
            self.node_set().disjoint(owned),
        ensures
            self.wf(p2),
            self.free_set(p2) == self.free_set(p1),
            forall|o: int| 0 <= o < NUM_ORDERS ==> #[trigger] self.blocks(p2, o) == self.blocks(p1, o),
    {
        assert forall|o: int|
            #![trigger self.free_lists@[o]]
            #![trigger self.blocks(p2, o)]
            0 <= o < NUM_ORDERS implies self.free_lists@[o].wf(p2) && self.blocks(p2, o) == self.blocks(p1, o) by {
            let l = self.free_lists@[o];
            assert forall|k: int| 0 <= k < l.ids().len() implies !owned.contains(#[trigger] l.ids()[k]) by {
                assert(self.node_set().contains(l.ids()[k])) by {
                    assert(self.free_lists@[o].ids().contains(l.ids()[k]));
                }
            }
            l.lemma_frame_disjoint(p1, p2, owned);
        }
        assert(self.free_set(p2) =~= self.free_set(p1)) by {
            assert forall|x: int| self.covers(p2, x) == self.covers(p1, x) by {
                if self.covers(p1, x) {
                    let (o, i) = choose|o: int, i: int|
                        0 <= o < NUM_ORDERS && 0 <= i < self.blocks(p1, o).len() && #[trigger] self.blocks(p1, o)[i].addr
                            <= x < self.blocks(p1, o)[i].addr + block_bytes(o, PAGE_SIZE as int);
                    assert(self.blocks(p2, o)[i] == self.blocks(p1, o)[i]);
                }
                if self.covers(p2, x) {
                    let (o, i) = choose|o: int, i: int|
                        0 <= o < NUM_ORDERS && 0 <= i < self.blocks(p2, o).len() && #[trigger] self.blocks(p2, o)[i].addr
                            <= x < self.blocks(p2, o)[i].addr + block_bytes(o, PAGE_SIZE as int);
                    assert(self.blocks(p1, o)[i] == self.blocks(p2, o)[i]);
                }
            }
        }
    }
}


impl<const PAGE_SIZE: usize> BuddySet<PAGE_SIZE> {
    /// Everything but the free lists is the same.
    pub closed spec fn same_fields(&self, other: &Self) -> bool {
        &&& self.base_addr == other.base_addr
        &&& self.end_addr == other.end_addr
        &&& self.total_pages == other.total_pages
        &&& self.zone_id == other.zone_id
    }

    /// A zone whose free lists hold the same blocks is as well formed, with the same free set.
    proof fn lemma_same_blocks(old_s: &Self, new_s: &Self, p_old: GlobalNodePool, p_new: GlobalNodePool)
        requires
            old_s.wf(p_old),
            new_s.same_fields(old_s),
            new_s.lists_wf(p_new),
            forall|j: int| 0 <= j < NUM_ORDERS ==> #[trigger] new_s.blocks(p_new, j) == old_s.blocks(p_old, j),
            forall|j: int| 0 <= j < NUM_ORDERS ==> #[trigger] new_s.count(j) == old_s.count(j),
        ensures
            new_s.wf(p_new),
            new_s.free_set(p_new) == old_s.free_set(p_old),
    {
        assert(new_s.free_set(p_new) =~= old_s.free_set(p_old)) by {
            assert forall|x: int| new_s.covers(p_new, x) == old_s.covers(p_old, x) by {
                if old_s.covers(p_old, x) {
                    let (o, i) = choose|o: int, i: int|
                        0 <= o < NUM_ORDERS && 0 <= i < old_s.blocks(p_old, o).len() && #[trigger] old_s.blocks(p_old, o)[i].addr
                            <= x < old_s.blocks(p_old, o)[i].addr + block_bytes(o, PAGE_SIZE as int);
                    assert(new_s.blocks(p_new, o)[i] == old_s.blocks(p_old, o)[i]);
                }
                if new_s.covers(p_new, x) {
                    let (o, i) = choose|o: int, i: int|
                        0 <= o < NUM_ORDERS && 0 <= i < new_s.blocks(p_new, o).len() && #[trigger] new_s.blocks(p_new, o)[i].addr
                            <= x < new_s.blocks(p_new, o)[i].addr + block_bytes(o, PAGE_SIZE as int);
                    assert(old_s.blocks(p_old, o)[i] == new_s.blocks(p_new, o)[i]);
                }
            }
        }
        assert forall|n: int| 0 <= n <= NUM_ORDERS implies #[trigger] new_s.pages_upto(n) == old_s.pages_upto(n) by {
            Self::lemma_pages_update(old_s, new_s, 0, 0, n);
        }
        assert(new_s.blocks_ok(p_new)) by {
            assert forall|o: int, i: int| 0 <= o < NUM_ORDERS && 0 <= i < new_s.blocks(p_new, o).len() implies new_s.block_ok(
                #[trigger] new_s.blocks(p_new, o)[i], o) by {
                assert(old_s.block_ok(old_s.blocks(p_old, o)[i], o));
            }
        }
        assert(new_s.blocks_disjoint(p_new)) by {
            assert forall|o1: int, i1: int, o2: int, i2: int|
                #![trigger new_s.blocks(p_new, o1)[i1], new_s.blocks(p_new, o2)[i2]]
                0 <= o1 < NUM_ORDERS && 0 <= o2 < NUM_ORDERS && 0 <= i1 < new_s.blocks(p_new, o1).len() && 0 <= i2
                    < new_s.blocks(p_new, o2).len() && (o1 != o2 || i1 != i2) implies !ranges_overlap(
                new_s.blocks(p_new, o1)[i1].addr as int,
                block_bytes(o1, PAGE_SIZE as int),
                new_s.blocks(p_new, o2)[i2].addr as int,
                block_bytes(o2, PAGE_SIZE as int),
            ) by {
                assert(old_s.blocks(p_old, o1)[i1] == new_s.blocks(p_new, o1)[i1]);
                assert(old_s.blocks(p_old, o2)[i2] == new_s.blocks(p_new, o2)[i2]);
            }
        }
    }

    /// A free block covers its own addresses.
    proof fn lemma_block_in_free_set(&self, pool: GlobalNodePool, o: int, i: int, x: int)
        requires
            0 <= o < NUM_ORDERS,
            0 <= i < self.blocks(pool, o).len(),
            self.blocks(pool, o)[i].addr <= x < self.blocks(pool, o)[i].addr + block_bytes(o, PAGE_SIZE as int),
        ensures
            self.free_set(pool).contains(x),
    {
        assert(self.covers(pool, x));
    }

    /// Adding a block that shares no address with the free set.
    proof fn lemma_insert_blocks(
        old_s: &Self,
        new_s: &Self,
        p_old: GlobalNodePool,
        p_new: GlobalNodePool,
        o: int,
        k: int,
        b: BuddyBlock,
    )
        requires
            0 <= o < NUM_ORDERS,
            old_s.wf(p_old),
            new_s.same_fields(old_s),
            new_s.lists_wf(p_new),
            forall|j: int| 0 <= j < NUM_ORDERS && j != o ==> #[trigger] new_s.blocks(p_new, j) == old_s.blocks(p_old, j),
            forall|j: int| 0 <= j < NUM_ORDERS && j != o ==> #[trigger] new_s.count(j) == old_s.count(j),
            0 <= k <= old_s.blocks(p_old, o).len(),
            new_s.blocks(p_new, o) == old_s.blocks(p_old, o).insert(k, b),
            new_s.count(o) == old_s.count(o) + 1,
            old_s.block_ok(b, o),
            forall|x: int| #[trigger] block_range(b.addr as int, o, PAGE_SIZE as int).contains(x) ==> !old_s.free_set(p_old).contains(x),
        ensures
            new_s.wf(p_new),
            new_s.free_set(p_new) == old_s.free_set(p_old) + block_range(b.addr as int, o, PAGE_SIZE as int),
    {
        let ps = PAGE_SIZE as int;
        lemma_page_size_ok(ps);
        let nb = new_s.blocks(p_new, o);
        let ob = old_s.blocks(p_old, o);
        // positions of the new zone map to positions of the old one, or to `b`
        assert forall|o2: int, i2: int|
            0 <= o2 < NUM_ORDERS && 0 <= i2 < new_s.blocks(p_new, o2).len() implies (o2 != o ==> new_s.blocks(p_new, o2)[i2]
            == old_s.blocks(p_old, o2)[i2] && i2 < old_s.blocks(p_old, o2).len()) && (o2 == o && i2 < k ==> nb[i2] == ob[i2])
            && (o2 == o && i2 > k ==> nb[i2] == ob[i2 - 1]) && (o2 == o && i2 == k ==> nb[i2] == b) by {
        }
        assert(new_s.blocks_ok(p_new)) by {
            assert forall|o2: int, i2: int|
                0 <= o2 < NUM_ORDERS && 0 <= i2 < new_s.blocks(p_new, o2).len() implies new_s.block_ok(
                #[trigger] new_s.blocks(p_new, o2)[i2],
                o2,
            ) by {
                if o2 != o {
                    assert(old_s.block_ok(old_s.blocks(p_old, o2)[i2], o2));
                } else if i2 < k {
                    assert(old_s.block_ok(ob[i2], o));
                } else if i2 > k {
                    assert(old_s.block_ok(ob[i2 - 1], o));
                }
            }
        }
        // `b` shares no address with any old block
        assert forall|o2: int, i2: int|
            0 <= o2 < NUM_ORDERS && 0 <= i2 < old_s.blocks(p_old, o2).len() implies !ranges_overlap(
            #[trigger] old_s.blocks(p_old, o2)[i2].addr as int,
            block_bytes(o2, ps),
            b.addr as int,
            block_bytes(o, ps),
        ) by {
            let c = old_s.blocks(p_old, o2)[i2];
            if ranges_overlap(c.addr as int, block_bytes(o2, ps), b.addr as int, block_bytes(o, ps)) {
                let x = if c.addr >= b.addr { c.addr as int } else { b.addr as int };
                lemma_block_bytes(o2, ps);
                lemma_block_bytes(o, ps);
                old_s.lemma_block_in_free_set(p_old, o2, i2, x);
                assert(block_range(b.addr as int, o, ps).contains(x));
            }
        }
        assert(new_s.blocks_disjoint(p_new)) by {
            assert forall|o1: int, i1: int, o2: int, i2: int|
                #![trigger new_s.blocks(p_new, o1)[i1], new_s.blocks(p_new, o2)[i2]]
                0 <= o1 < NUM_ORDERS && 0 <= o2 < NUM_ORDERS && 0 <= i1 < new_s.blocks(p_new, o1).len() && 0 <= i2
                    < new_s.blocks(p_new, o2).len() && (o1 != o2 || i1 != i2) implies !ranges_overlap(
                new_s.blocks(p_new, o1)[i1].addr as int,
                block_bytes(o1, ps),
                new_s.blocks(p_new, o2)[i2].addr as int,
                block_bytes(o2, ps),
            ) by {
                let j1 = if o1 == o && i1 > k { i1 - 1 } else { i1 };
                let j2 = if o2 == o && i2 > k { i2 - 1 } else { i2 };
                let is_b1 = o1 == o && i1 == k;
                let is_b2 = o2 == o && i2 == k;
                if is_b1 && is_b2 {
                } else if is_b1 {
                    assert(new_s.blocks(p_new, o2)[i2] == old_s.blocks(p_old, o2)[j2]);
                    assert(!ranges_overlap(old_s.blocks(p_old, o2)[j2].addr as int, block_bytes(o2, ps), b.addr as int, block_bytes(o, ps)));
                } else if is_b2 {
                    assert(new_s.blocks(p_new, o1)[i1] == old_s.blocks(p_old, o1)[j1]);
                    assert(!ranges_overlap(old_s.blocks(p_old, o1)[j1].addr as int, block_bytes(o1, ps), b.addr as int, block_bytes(o, ps)));
                } else {
                    assert(new_s.blocks(p_new, o1)[i1] == old_s.blocks(p_old, o1)[j1]);
                    assert(new_s.blocks(p_new, o2)[i2] == old_s.blocks(p_old, o2)[j2]);
                    assert(o1 != o2 || j1 != j2);
                    assert(!ranges_overlap(
                        old_s.blocks(p_old, o1)[j1].addr as int,
                        block_bytes(o1, ps),
                        old_s.blocks(p_old, o2)[j2].addr as int,
                        block_bytes(o2, ps),
                    ));
                }
            }
        }
        let r = block_range(b.addr as int, o, ps);
        assert(new_s.free_set(p_new) =~= old_s.free_set(p_old) + r) by {
            assert forall|x: int| new_s.free_set(p_new).contains(x) == (old_s.free_set(p_old) + r).contains(x) by {
                if new_s.covers(p_new, x) {
                    let (o2, i2) = choose|o2: int, i2: int|
                        0 <= o2 < NUM_ORDERS && 0 <= i2 < new_s.blocks(p_new, o2).len() && #[trigger] new_s.blocks(p_new, o2)[i2].addr
                            <= x < new_s.blocks(p_new, o2)[i2].addr + block_bytes(o2, ps);
                    if o2 == o && i2 == k {
                    } else {
                        let j2 = if o2 == o && i2 > k { i2 - 1 } else { i2 };
                        assert(new_s.blocks(p_new, o2)[i2] == old_s.blocks(p_old, o2)[j2]);
                        old_s.lemma_block_in_free_set(p_old, o2, j2, x);
                    }
                }
                if old_s.covers(p_old, x) {
                    let (o2, i2) = choose|o2: int, i2: int|
                        0 <= o2 < NUM_ORDERS && 0 <= i2 < old_s.blocks(p_old, o2).len() && #[trigger] old_s.blocks(p_old, o2)[i2].addr
                            <= x < old_s.blocks(p_old, o2)[i2].addr + block_bytes(o2, ps);
                    let j2 = if o2 == o && i2 >= k { i2 + 1 } else { i2 };
                    assert(new_s.blocks(p_new, o2)[j2] == old_s.blocks(p_old, o2)[i2]);
                    new_s.lemma_block_in_free_set(p_new, o2, j2, x);
                }
                if r.contains(x) {
                    assert(new_s.blocks(p_new, o)[k] == b);
                    new_s.lemma_block_in_free_set(p_new, o, k, x);
                }
            }
        }
        lemma_block_bytes(o, ps);
        vstd::set_lib::lemma_int_range(b.addr as int, b.addr + block_bytes(o, ps));
        assert(old_s.free_set(p_old).disjoint(r));
        vstd::set_lib::lemma_set_disjoint_lens(old_s.free_set(p_old), r);
        Self::lemma_pages_update(old_s, new_s, o, 1, NUM_ORDERS as int);
        assert((old_s.pages_upto(NUM_ORDERS as int) + pow2(o as nat)) * ps == old_s.pages_upto(NUM_ORDERS as int) * ps
            + block_bytes(o, ps)) by (nonlinear_arith);
    }

    /// Removing the free block at position `k` of order `o`.
    proof fn lemma_remove_blocks(
        old_s: &Self,
        new_s: &Self,
        p_old: GlobalNodePool,
        p_new: GlobalNodePool,
        o: int,
        k: int,
    )
        requires
            0 <= o < NUM_ORDERS,
            old_s.wf(p_old),
            new_s.same_fields(old_s),
            new_s.lists_wf(p_new),
            forall|j: int| 0 <= j < NUM_ORDERS && j != o ==> #[trigger] new_s.blocks(p_new, j) == old_s.blocks(p_old, j),
            forall|j: int| 0 <= j < NUM_ORDERS && j != o ==> #[trigger] new_s.count(j) == old_s.count(j),
            0 <= k < old_s.blocks(p_old, o).len(),
            new_s.blocks(p_new, o) == old_s.blocks(p_old, o).remove(k),
            new_s.count(o) == old_s.count(o) - 1,
        ensures
            new_s.wf(p_new),
            block_range(old_s.blocks(p_old, o)[k].addr as int, o, PAGE_SIZE as int).subset_of(old_s.free_set(p_old)),
            new_s.free_set(p_new) == old_s.free_set(p_old).difference(
                block_range(old_s.blocks(p_old, o)[k].addr as int, o, PAGE_SIZE as int),
            ),
    {
        let ps = PAGE_SIZE as int;
        lemma_page_size_ok(ps);
        let nb = new_s.blocks(p_new, o);
        let ob = old_s.blocks(p_old, o);
        let b = ob[k];
        let r = block_range(b.addr as int, o, ps);
        assert forall|o2: int, i2: int|
            0 <= o2 < NUM_ORDERS && 0 <= i2 < new_s.blocks(p_new, o2).len() implies (o2 != o ==> new_s.blocks(p_new, o2)[i2]
            == old_s.blocks(p_old, o2)[i2]) && (o2 == o && i2 < k ==> nb[i2] == ob[i2]) && (o2 == o && i2 >= k ==> nb[i2]
            == ob[i2 + 1]) by {
        }
        assert(new_s.blocks_ok(p_new)) by {
            assert forall|o2: int, i2: int|
                0 <= o2 < NUM_ORDERS && 0 <= i2 < new_s.blocks(p_new, o2).len() implies new_s.block_ok(
                #[trigger] new_s.blocks(p_new, o2)[i2],
                o2,
            ) by {
                if o2 != o {
                    assert(old_s.block_ok(old_s.blocks(p_old, o2)[i2], o2));
                } else if i2 < k {
                    assert(old_s.block_ok(ob[i2], o));
                } else {
                    assert(old_s.block_ok(ob[i2 + 1], o));
                }
            }
        }
        assert(new_s.blocks_disjoint(p_new)) by {
            assert forall|o1: int, i1: int, o2: int, i2: int|
                #![trigger new_s.blocks(p_new, o1)[i1], new_s.blocks(p_new, o2)[i2]]
                0 <= o1 < NUM_ORDERS && 0 <= o2 < NUM_ORDERS && 0 <= i1 < new_s.blocks(p_new, o1).len() && 0 <= i2
                    < new_s.blocks(p_new, o2).len() && (o1 != o2 || i1 != i2) implies !ranges_overlap(
                new_s.blocks(p_new, o1)[i1].addr as int,
                block_bytes(o1, ps),
                new_s.blocks(p_new, o2)[i2].addr as int,
                block_bytes(o2, ps),
            ) by {
                let j1 = if o1 == o && i1 >= k { i1 + 1 } else { i1 };
                let j2 = if o2 == o && i2 >= k { i2 + 1 } else { i2 };
                assert(new_s.blocks(p_new, o1)[i1] == old_s.blocks(p_old, o1)[j1]);
                assert(new_s.blocks(p_new, o2)[i2] == old_s.blocks(p_old, o2)[j2]);
                assert(!ranges_overlap(
                    old_s.blocks(p_old, o1)[j1].addr as int,
                    block_bytes(o1, ps),
                    old_s.blocks(p_old, o2)[j2].addr as int,
                    block_bytes(o2, ps),
                ));
            }
        }
        assert(r.subset_of(old_s.free_set(p_old))) by {
            assert forall|x: int| r.contains(x) implies old_s.free_set(p_old).contains(x) by {
                old_s.lemma_block_in_free_set(p_old, o, k, x);
            }
        }
        assert(new_s.free_set(p_new) =~= old_s.free_set(p_old).difference(r)) by {
            assert forall|x: int| new_s.free_set(p_new).contains(x) == old_s.free_set(p_old).difference(r).contains(x) by {
                if new_s.covers(p_new, x) {
                    let (o2, i2) = choose|o2: int, i2: int|
                        0 <= o2 < NUM_ORDERS && 0 <= i2 < new_s.blocks(p_new, o2).len() && #[trigger] new_s.blocks(p_new, o2)[i2].addr
                            <= x < new_s.blocks(p_new, o2)[i2].addr + block_bytes(o2, ps);
                    let j2 = if o2 == o && i2 >= k { i2 + 1 } else { i2 };
                    assert(new_s.blocks(p_new, o2)[i2] == old_s.blocks(p_old, o2)[j2]);
                    old_s.lemma_block_in_free_set(p_old, o2, j2, x);
                    assert(!ranges_overlap(
                        old_s.blocks(p_old, o2)[j2].addr as int,
                        block_bytes(o2, ps),
                        old_s.blocks(p_old, o)[k].addr as int,
                        block_bytes(o, ps),
                    ));
                }
                if old_s.covers(p_old, x) && !r.contains(x) {
                    let (o2, i2) = choose|o2: int, i2: int|
                        0 <= o2 < NUM_ORDERS && 0 <= i2 < old_s.blocks(p_old, o2).len() && #[trigger] old_s.blocks(p_old, o2)[i2].addr
                            <= x < old_s.blocks(p_old, o2)[i2].addr + block_bytes(o2, ps);
                    assert(o2 != o || i2 != k);
                    let j2 = if o2 == o && i2 > k { i2 - 1 } else { i2 };
                    assert(new_s.blocks(p_new, o2)[j2] == old_s.blocks(p_old, o2)[i2]);
                    new_s.lemma_block_in_free_set(p_new, o2, j2, x);
                }
            }
        }
        lemma_block_bytes(o, ps);
        vstd::set_lib::lemma_int_range(b.addr as int, b.addr + block_bytes(o, ps));
        vstd::set_lib::lemma_set_difference_len(old_s.free_set(p_old), r);
        assert(old_s.free_set(p_old).intersect(r) =~= r);
        vstd::set_lib::lemma_set_subset_finite(old_s.free_set(p_old), old_s.free_set(p_old).difference(r));
        Self::lemma_pages_update(old_s, new_s, o, -1, NUM_ORDERS as int);
        assert((old_s.pages_upto(NUM_ORDERS as int) + (-1) * pow2(o as nat)) * ps == old_s.pages_upto(NUM_ORDERS as int) * ps
            - block_bytes(o, ps)) by (nonlinear_arith);
    }
}


impl<const PAGE_SIZE: usize> BuddySet<PAGE_SIZE> {
    /// Add a block to the free list of its order.
    ///
    /// Fails, leaving the zone as it is, when the node pool is exhausted.
    fn add_block_to_order(&mut self, pool: &mut GlobalNodePool, order: usize, block: BuddyBlock) -> (r: bool)
        requires
            old(self).wf(*old(pool)),
            old(pool).wf(),
            order < NUM_ORDERS,
            old(self).block_ok(block, order as int),
            forall|x: int| #[trigger] block_range(block.addr as int, order as int, PAGE_SIZE as int).contains(x)
                ==> !old(self).free_set(*old(pool)).contains(x),
        ensures
            final(self).wf(*final(pool)),
            final(pool).wf(),
            final(self).same_fields(old(self)),
            pool_frame(*old(pool), *final(pool), old(self).node_set()),
            forall|i: usize| #[trigger] final(self).node_set().contains(i) ==> old(self).node_set().contains(i) || old(pool).is_free(i),
            final(pool).nodes_view().len() == old(pool).nodes_view().len(),
            r == (old(pool).free_ids().len() > 0),
            r ==> final(self).free_set(*final(pool)) == old(self).free_set(*old(pool)) + block_range(
                block.addr as int,
                order as int,
                PAGE_SIZE as int,
            ) && final(pool).free_ids().len() == old(pool).free_ids().len() - 1,
            r ==> final(self).has_block_at(*final(pool), order as int, block.addr as int),
            !r ==> final(self).free_set(*final(pool)) == old(self).free_set(*old(pool)) && final(pool).free_ids()
                == old(pool).free_ids(),
            forall|j: int, a: int| 0 <= j < NUM_ORDERS && #[trigger] final(self).has_block_at(*final(pool), j, a) ==> old(
                self,
            ).has_block_at(*old(pool), j, a) || (r && j == order && a == block.addr),
    {
        if order > DEFAULT_MAX_ORDER {
            return false;
        }
        let ghost old_self = *self;
        let ghost p0 = *pool;
        proof {
            assert(self.free_lists@[order as int].wf(p0));
        }
        let r = self.free_lists[order].insert_sorted(pool, block);
        proof {
            let o = order as int;
            Self::lemma_list_step(&old_self, self, p0, *pool, o);
            let ob = old_self.blocks(p0, o);
            if p0.free_ids().len() > 0 {
                assert forall|k: int| 0 <= k < ob.len() implies #[trigger] ob[k].addr != block.addr by {
                    if ob[k].addr == block.addr {
                        lemma_page_size_ok(PAGE_SIZE as int);
                        lemma_block_bytes(o, PAGE_SIZE as int);
                        old_self.lemma_block_in_free_set(p0, o, k, block.addr as int);
                        assert(block_range(block.addr as int, o, PAGE_SIZE as int).contains(block.addr as int));
                    }
                }
                let k = choose|k: int|
                    0 <= k <= ob.len() && self.free_lists@[o].view(*pool) == ob.insert(k, block) && self.free_lists@[o].ids()
                        == old_self.free_lists@[o].ids().insert(k, p0.free_ids().last());
                Self::lemma_insert_blocks(&old_self, self, p0, *pool, o, k, block);
                assert(self.blocks(*pool, o)[k] == block);
                assert forall|j: int, a: int| 0 <= j < NUM_ORDERS && #[trigger] self.has_block_at(*pool, j, a) implies old_self.has_block_at(
                    p0,
                    j,
                    a,
                ) || (j == o && a == block.addr) by {
                    let m = choose|m: int| 0 <= m < self.blocks(*pool, j).len() && #[trigger] self.blocks(*pool, j)[m].addr == a;
                    if j != o {
                        assert(self.blocks(*pool, j)[m] == old_self.blocks(p0, j)[m]);
                    } else if m < k {
                        assert(self.blocks(*pool, j)[m] == ob[m]);
                    } else if m > k {
                        assert(self.blocks(*pool, j)[m] == ob[m - 1]);
                    }
                }
            } else {
                Self::lemma_same_blocks(&old_self, self, p0, *pool);
                assert forall|j: int, a: int| 0 <= j < NUM_ORDERS && #[trigger] self.has_block_at(*pool, j, a) implies old_self.has_block_at(
                    p0,
                    j,
                    a,
                ) by {
                    let m = choose|m: int| 0 <= m < self.blocks(*pool, j).len() && #[trigger] self.blocks(*pool, j)[m].addr == a;
                    assert(self.blocks(*pool, j)[m] == old_self.blocks(p0, j)[m]);
                }
            }
        }
        r
    }
}


impl<const PAGE_SIZE: usize> BuddySet<PAGE_SIZE> {
    /// The pool nodes of the free list of one order.
    pub closed spec fn order_ids(&self, o: int) -> Seq<usize> {
        self.free_lists@[o].ids()
    }

    /// The position of the free block at `addr` in the list of order `o`, if any.
    pub open spec fn has_block_at(&self, pool: GlobalNodePool, o: int, addr: int) -> bool {
        exists|k: int| 0 <= k < self.blocks(pool, o).len() && #[trigger] self.blocks(pool, o)[k].addr == addr
    }

    /// No free block is listed together with its buddy at the same order:
    /// free buddies have been merged.
    pub open spec fn coalesced(&self, pool: GlobalNodePool) -> bool {
        forall|o: int, a: int|
            #![trigger self.has_block_at(pool, o, a), self.has_block_at(pool, o, buddy_addr(a, o, PAGE_SIZE as int))]
            0 <= o < DEFAULT_MAX_ORDER ==> !(self.has_block_at(pool, o, a) && self.has_block_at(
                pool,
                o,
                buddy_addr(a, o, PAGE_SIZE as int),
            ))
    }

    /// The shape of the free lists of a well-formed zone: each list is in
    /// ascending address order, every block is aligned to its order and
    /// lies in the zone, and no two blocks overlap.
    pub proof fn lemma_free_lists_shape(&self, pool: GlobalNodePool)
        requires
            self.wf(pool),
        ensures
            forall|o: int| 0 <= o < NUM_ORDERS ==> sorted_by_addr(#[trigger] self.blocks(pool, o)),
            forall|o: int, i: int|
                0 <= o < NUM_ORDERS && 0 <= i < self.blocks(pool, o).len() ==> self.block_ok(#[trigger] self.blocks(pool, o)[i], o),
            forall|o1: int, i1: int, o2: int, i2: int|
                #![trigger self.blocks(pool, o1)[i1], self.blocks(pool, o2)[i2]]
                0 <= o1 < NUM_ORDERS && 0 <= o2 < NUM_ORDERS && 0 <= i1 < self.blocks(pool, o1).len() && 0 <= i2 < self.blocks(
                    pool,
                    o2,
                ).len() && (o1 != o2 || i1 != i2) ==> !ranges_overlap(
                    self.blocks(pool, o1)[i1].addr as int,
                    block_bytes(o1, PAGE_SIZE as int),
                    self.blocks(pool, o2)[i2].addr as int,
                    block_bytes(o2, PAGE_SIZE as int),
                ),
    {
        assert forall|o: int| 0 <= o < NUM_ORDERS implies sorted_by_addr(#[trigger] self.blocks(pool, o)) by {
            assert(self.free_lists@[o].wf(pool));
        }
    }

    /// A zone stays coalesced when the pool changes only outside its nodes.
    pub proof fn lemma_coalesced_frame(&self, p1: GlobalNodePool, p2: GlobalNodePool, owned: Set<usize>)
        requires
            self.wf(p1),
            pool_frame(p1, p2, owned),
            self.node_set().disjoint(owned),
            self.coalesced(p1),
        ensures
            self.coalesced(p2),
    {
        self.lemma_frame(p1, p2, owned);
        assert forall|o: int, a: int| 0 <= o < NUM_ORDERS implies #[trigger] self.has_block_at(p2, o, a) == self.has_block_at(p1, o, a) by {
            assert(self.blocks(p2, o) == self.blocks(p1, o));
        }
    }

    /// A listed block lies in the zone, aligned to its order.
    proof fn lemma_listed_block_ok(&self, pool: GlobalNodePool, o: int, a: int)
        requires
            self.wf(pool),
            0 <= o < NUM_ORDERS,
            self.has_block_at(pool, o, a),
        ensures
            a % block_bytes(o, PAGE_SIZE as int) == 0,
            self.base() <= a < self.end(),
    {
        let k = choose|k: int| 0 <= k < self.blocks(pool, o).len() && #[trigger] self.blocks(pool, o)[k].addr == a;
        assert(self.block_ok(self.blocks(pool, o)[k], o));
        lemma_page_size_ok(PAGE_SIZE as int);
        lemma_block_bytes(o, PAGE_SIZE as int);
    }

    /// Find the free block at `addr` in the list of order `order`.
    ///
    /// Returns its node and the node before it.
    fn find_block_in_order(&self, pool: &GlobalNodePool, order: usize, addr: usize) -> (r: Option<(usize, Option<usize>)>)
        requires
            self.wf(*pool),
        ensures
            order > DEFAULT_MAX_ORDER ==> r is None,
            order <= DEFAULT_MAX_ORDER ==> (r is None <==> !self.has_block_at(*pool, order as int, addr as int)),
            r matches Some((n, p)) ==> exists|k: int|
                0 <= k < self.blocks(*pool, order as int).len() && #[trigger] self.order_ids(order as int)[k] == n
                    && self.blocks(*pool, order as int)[k].addr == addr && p == prev_of(self.order_ids(order as int), k),
    {
        if order > DEFAULT_MAX_ORDER {
            return None;
        }
        proof {
            assert(self.free_lists@[order as int].wf(*pool));
        }
        let r = self.free_lists[order].find_by_addr(pool, addr);
        proof {
            if r is None {
                if self.has_block_at(*pool, order as int, addr as int) {
                    let k = choose|k: int| 0 <= k < self.blocks(*pool, order as int).len() && #[trigger] self.blocks(*pool, order as int)[k].addr == addr;
                    assert(self.free_lists@[order as int].view(*pool)[k].addr == addr);
                }
            } else {
                let (n, p) = r.unwrap();
                let k = choose|k: int|
                    0 <= k < self.free_lists@[order as int].ids().len() && #[trigger] self.free_lists@[order as int].ids()[k] == n
                        && self.free_lists@[order as int].view(*pool)[k].addr == addr && p == prev_of(self.free_lists@[order as int].ids(), k);
                assert(self.order_ids(order as int)[k] == n);
            }
        }
        r
    }

    /// Remove the free block found at `addr` (node `node_idx`, after `prev_idx`).
    fn remove_found(
        &mut self,
        pool: &mut GlobalNodePool,
        order: usize,
        node_idx: usize,
        prev_idx: Option<usize>,
        Ghost(addr): Ghost<int>,
    )
        requires
            old(self).wf(*old(pool)),
            old(pool).wf(),
            order < NUM_ORDERS,
            exists|k: int|
                0 <= k < old(self).blocks(*old(pool), order as int).len() && #[trigger] old(self).order_ids(order as int)[k]
                    == node_idx && old(self).blocks(*old(pool), order as int)[k].addr == addr && prev_idx == prev_of(
                    old(self).order_ids(order as int),
                    k,
                ),
        ensures
            final(self).wf(*final(pool)),
            final(pool).wf(),
            final(self).same_fields(old(self)),
            pool_frame(*old(pool), *final(pool), old(self).node_set()),
            forall|i: usize| #[trigger] final(self).node_set().contains(i) ==> old(self).node_set().contains(i) || old(pool).is_free(i),
            final(pool).nodes_view().len() == old(pool).nodes_view().len(),
            final(pool).free_ids().len() == old(pool).free_ids().len() + 1,
            block_range(addr, order as int, PAGE_SIZE as int).subset_of(old(self).free_set(*old(pool))),
            final(self).free_set(*final(pool)) == old(self).free_set(*old(pool)).difference(
                block_range(addr, order as int, PAGE_SIZE as int),
            ),
            forall|j: int, a: int| 0 <= j < NUM_ORDERS && #[trigger] final(self).has_block_at(*final(pool), j, a) ==> old(
                self,
            ).has_block_at(*old(pool), j, a),
    {
        let ghost old_self = *self;
        let ghost p0 = *pool;
        let ghost o = order as int;
        let ghost k = choose|k: int|
            0 <= k < old_self.blocks(p0, o).len() && #[trigger] old_self.order_ids(o)[k] == node_idx
                && old_self.blocks(p0, o)[k].addr == addr && prev_idx == prev_of(old_self.order_ids(o), k);
        proof {
            assert(self.free_lists@[o].wf(p0));
        }
        self.free_lists[order].remove_with_prev(pool, node_idx, prev_idx);
        proof {
            Self::lemma_list_step(&old_self, self, p0, *pool, o);
            Self::lemma_remove_blocks(&old_self, self, p0, *pool, o, k);
            assert forall|j: int, a: int| 0 <= j < NUM_ORDERS && #[trigger] self.has_block_at(*pool, j, a) implies old_self.has_block_at(
                p0,
                j,
                a,
            ) by {
                let m = choose|m: int| 0 <= m < self.blocks(*pool, j).len() && #[trigger] self.blocks(*pool, j)[m].addr == a;
                let ob = old_self.blocks(p0, j);
                if j != o {
                    assert(self.blocks(*pool, j)[m] == ob[m]);
                } else if m < k {
                    assert(self.blocks(*pool, j)[m] == ob[m]);
                } else {
                    assert(self.blocks(*pool, j)[m] == ob[m + 1]);
                }
            }
        }
    }

    /// Pop the first free block of order `order`.
    fn pop_block(&mut self, pool: &mut GlobalNodePool, order: usize) -> (r: Option<BuddyBlock>)
        requires
            old(self).wf(*old(pool)),
            old(pool).wf(),
            order < NUM_ORDERS,
        ensures
            final(self).wf(*final(pool)),
            final(pool).wf(),
            final(self).same_fields(old(self)),
            pool_frame(*old(pool), *final(pool), old(self).node_set()),
            forall|i: usize| #[trigger] final(self).node_set().contains(i) ==> old(self).node_set().contains(i) || old(pool).is_free(i),
            final(pool).nodes_view().len() == old(pool).nodes_view().len(),
            old(self).blocks(*old(pool), order as int).len() == 0 ==> r is None && final(self).free_set(*final(pool))
                == old(self).free_set(*old(pool)) && final(pool).free_ids() == old(pool).free_ids(),
            old(self).blocks(*old(pool), order as int).len() > 0 ==> {
                let b = old(self).blocks(*old(pool), order as int)[0];
                &&& r == Some(b)
                &&& old(self).block_ok(b, order as int)
                &&& block_range(b.addr as int, order as int, PAGE_SIZE as int).subset_of(old(self).free_set(*old(pool)))
                &&& final(self).free_set(*final(pool)) == old(self).free_set(*old(pool)).difference(
                    block_range(b.addr as int, order as int, PAGE_SIZE as int),
                )
                &&& final(pool).free_ids().len() == old(pool).free_ids().len() + 1
            },
            forall|j: int, a: int| 0 <= j < NUM_ORDERS && #[trigger] final(self).has_block_at(*final(pool), j, a) ==> old(
                self,
            ).has_block_at(*old(pool), j, a),
    {
        let ghost old_self = *self;
        let ghost p0 = *pool;
        let ghost o = order as int;
        proof {
            assert(self.free_lists@[o].wf(p0));
        }
        let r = self.free_lists[order].pop_front(pool);
        proof {
            Self::lemma_list_step(&old_self, self, p0, *pool, o);
            if old_self.blocks(p0, o).len() == 0 {
                Self::lemma_same_blocks(&old_self, self, p0, *pool);
            } else {
                assert(self.blocks(*pool, o) =~= old_self.blocks(p0, o).remove(0));
                Self::lemma_remove_blocks(&old_self, self, p0, *pool, o, 0);
                assert(old_self.block_ok(old_self.blocks(p0, o)[0], o));
            }
            assert forall|j: int, a: int| 0 <= j < NUM_ORDERS && #[trigger] self.has_block_at(*pool, j, a) implies old_self.has_block_at(
                p0,
                j,
                a,
            ) by {
                let m = choose|m: int| 0 <= m < self.blocks(*pool, j).len() && #[trigger] self.blocks(*pool, j)[m].addr == a;
                if j != o || old_self.blocks(p0, o).len() == 0 {
                    assert(self.blocks(*pool, j)[m] == old_self.blocks(p0, j)[m]);
                } else {
                    assert(self.blocks(*pool, j)[m] == old_self.blocks(p0, j)[m + 1]);
                }
            }
        }
        r
    }
}


/// The order an alignment (in bytes) asks for: the trailing zeros of the
/// alignment counted in pages, rounded up.
pub open spec fn align_order(alignment: int, page_size: int) -> nat {
    trailing_zeros((alignment / page_size + if alignment % page_size != 0 { 1int } else { 0int }) as nat)
}

/// The order of the block that serves `num_pages` pages at `alignment`.
pub open spec fn needed_order(num_pages: int, alignment: int, page_size: int) -> nat {
    vstd::math::max(crate::math::order_for(num_pages as nat) as int, align_order(alignment, page_size) as int) as nat
}

/// A block of at least the alignment's order is a multiple of the alignment.
pub proof fn lemma_alignment_order(alignment: int, ps: int, need: int)
    requires
        is_pow2(alignment),
        is_pow2(ps),
        need >= align_order(alignment, ps),
    ensures
        block_bytes(need, ps) % alignment == 0,
{
    let a = crate::math::log2(alignment);
    let p = crate::math::log2(ps);
    crate::math::lemma_is_pow2_pos(ps);
    crate::math::lemma_is_pow2_pos(alignment);
    assert(pow2(a) == alignment && pow2(p) == ps && a < 64 && p < 64);
    vstd::arithmetic::power2::lemma_pow2_adds(need as nat, p);
    assert(block_bytes(need, ps) == pow2((need + p) as nat));
    if a <= p {
        crate::math::lemma_pow2_divides(a, p);
        crate::math::lemma_pow2_divides(p, (need + p) as nat);
        crate::math::lemma_mod_trans(block_bytes(need, ps), ps, alignment);
    } else {
        crate::math::lemma_pow2_divides(p, a);
        let q = pow2((a - p) as nat);
        vstd::arithmetic::power2::lemma_pow2_pos((a - p) as nat);
        assert(alignment == q * ps) by (nonlinear_arith) requires alignment == ps * q;
        vstd::arithmetic::div_mod::lemma_mod_multiples_basic(q as int, ps);
        vstd::arithmetic::div_mod::lemma_div_multiples_vanish(q as int, ps);
        crate::math::lemma_tz_pow2((a - p) as nat);
        assert(align_order(alignment, ps) == a - p);
        crate::math::lemma_pow2_divides(a, (need + p) as nat);
    }
}

impl<const PAGE_SIZE: usize> BuddySet<PAGE_SIZE> {
    /// The lowest order at or above `from` with a free block (`NUM_ORDERS` if none).
    pub open spec fn first_nonempty(&self, pool: GlobalNodePool, from: int) -> int
        decreases NUM_ORDERS - from,
    {
        if from >= NUM_ORDERS {
            NUM_ORDERS as int
        } else if self.blocks(pool, from).len() > 0 {
            from
        } else {
            self.first_nonempty(pool, from + 1)
        }
    }

    /// `first_nonempty` from `from` is `o` when the lists in between are
    /// empty and list `o` is not (or `o` is past the last order).
    pub proof fn lemma_first_nonempty(&self, pool: GlobalNodePool, from: int, o: int)
        requires
            0 <= from <= o <= NUM_ORDERS,
            forall|j: int| from <= j < o ==> #[trigger] self.blocks(pool, j).len() == 0,
            o == NUM_ORDERS || self.blocks(pool, o).len() > 0,
        ensures
            self.first_nonempty(pool, from) == o,
        decreases o - from,
    {
        if from < o {
            self.lemma_first_nonempty(pool, from + 1, o);
        }
    }

    /// What `alloc_pages` of `num_pages` pages at `alignment` does: it turns
    /// the zone `self` over `pool` into `new_s` over `new_p`, returning `r`.
    ///
    /// It serves the request from the first free block of the lowest order
    /// that fits it, and hands out the lowest-addressed part of that block.
    pub open spec fn alloc_outcome(
        &self,
        pool: GlobalNodePool,
        new_s: Self,
        new_p: GlobalNodePool,
        num_pages: int,
        alignment: int,
        r: AllocResult<usize>,
    ) -> bool {
        let f0 = self.free_set(pool);
        let f1 = new_s.free_set(new_p);
        &&& new_s.same_geometry(self)
        &&& f1.subset_of(f0)
        &&& num_pages == 0 ==> r == Err::<usize, AllocError>(AllocError::InvalidParam) && new_s == *self && new_p == pool
        &&& num_pages > 0 ==> {
            let need = needed_order(num_pages, alignment, PAGE_SIZE as int) as int;
            let o = self.first_nonempty(pool, need);
            &&& (need > DEFAULT_MAX_ORDER || o > DEFAULT_MAX_ORDER) ==> r == Err::<usize, AllocError>(AllocError::NoMemory)
                && new_s == *self && new_p == pool
            &&& (need <= DEFAULT_MAX_ORDER && o <= DEFAULT_MAX_ORDER) ==> (r is Ok <==> pool.free_ids().len() + 1 >= o - need)
            &&& r is Err ==> r == Err::<usize, AllocError>(AllocError::NoMemory)
            &&& r matches Ok(a) ==> {
                &&& a == self.blocks(pool, o)[0].addr
                &&& a as int % block_bytes(need, PAGE_SIZE as int) == 0
                &&& (alignment > 0 && is_pow2(alignment) ==> a as int % alignment == 0)
                &&& num_pages * PAGE_SIZE <= block_bytes(need, PAGE_SIZE as int)
                &&& self.base() <= a && a + block_bytes(need, PAGE_SIZE as int) <= self.end()
                &&& block_range(a as int, need, PAGE_SIZE as int).subset_of(f0)
                &&& f1 == f0.difference(block_range(a as int, need, PAGE_SIZE as int))
                &&& new_p.free_ids().len() > 0 || (need < DEFAULT_MAX_ORDER && new_s.has_block_at(
                    new_p,
                    need,
                    buddy_addr(a as int, need, PAGE_SIZE as int),
                ))
            }
        }
    }

    /// Allocate pages using the buddy system.
    ///
    /// Takes the first block of the lowest order that serves the request and
    /// splits it down, returning the upper halves to the free lists.
    pub fn alloc_pages(&mut self, pool: &mut GlobalNodePool, num_pages: usize, alignment: usize) -> (r: AllocResult<usize>)
        requires
            old(self).wf(*old(pool)),
            old(pool).wf(),
            alignment == 0 || is_pow2(alignment as int),
        ensures
            r matches Ok(a) ==> alignment > 0 ==> a as int % alignment as int == 0,
            final(self).wf(*final(pool)),
            final(pool).wf(),
            pool_frame(*old(pool), *final(pool), old(self).node_set()),
            forall|i: usize| #[trigger] final(self).node_set().contains(i) ==> old(self).node_set().contains(i) || old(pool).is_free(i),
            final(pool).nodes_view().len() == old(pool).nodes_view().len(),
            old(self).alloc_outcome(*old(pool), *final(self), *final(pool), num_pages as int, alignment as int, r),
            old(self).coalesced(*old(pool)) ==> final(self).coalesced(*final(pool)),
    {
        proof {
            lemma_page_size_ok(PAGE_SIZE as int);
        }
        if num_pages == 0 {
            return Err(AllocError::InvalidParam);
        }
        let required_order = crate::math::order_of(num_pages);
        if required_order > DEFAULT_MAX_ORDER {
            proof {
                self.lemma_first_nonempty(*pool, NUM_ORDERS as int, NUM_ORDERS as int);
            }
            return Err(AllocError::NoMemory);
        }
        let whole_pages = alignment / PAGE_SIZE;
        proof {
            assert(whole_pages <= alignment) by (nonlinear_arith)
                requires whole_pages == alignment / PAGE_SIZE, PAGE_SIZE >= 1;
            if alignment % PAGE_SIZE != 0 {
                assert(whole_pages < alignment) by (nonlinear_arith)
                    requires whole_pages == alignment / PAGE_SIZE, PAGE_SIZE >= 1, alignment % PAGE_SIZE != 0;
            }
        }
        let align_pages = if alignment % PAGE_SIZE != 0 { whole_pages + 1 } else { whole_pages };
        let align_order = crate::math::trailing_zeros_usize(align_pages);
        let order_needed = if required_order > align_order { required_order } else { align_order };
        let ghost need = order_needed as int;
        let ghost p0 = *pool;
        let ghost s0 = *self;
        let ghost f0 = self.free_set(*pool);
        proof {
            assert(need == needed_order(num_pages as int, alignment as int, PAGE_SIZE as int));
        }
        let mut order = order_needed;
        while order <= DEFAULT_MAX_ORDER
            invariant
                alignment == 0 || is_pow2(alignment as int),
                need == order_needed as int,
                need == needed_order(num_pages as int, alignment as int, PAGE_SIZE as int),
                required_order as nat == crate::math::order_for(num_pages as nat),
                required_order <= order_needed,
                pow2(required_order as nat) >= num_pages,
                num_pages > 0,
                page_size_ok(PAGE_SIZE as int),
                need <= order,
                order <= NUM_ORDERS || order == order_needed,
                *pool == p0,
                *self == s0,
                p0 == *old(pool),
                s0 == *old(self),
                f0 == s0.free_set(p0),
                s0.wf(p0),
                p0.wf(),
                forall|j: int| need <= j < order ==> #[trigger] s0.blocks(p0, j).len() == 0,
            decreases 64 - order,
        {
            proof {
                assert(self.free_lists@[order as int].wf(*pool));
            }
            if !self.free_lists[order].is_empty() {
                proof {
                    self.lemma_first_nonempty(p0, need, order as int);
                }
                let block0 = self.pop_block(pool, order).unwrap();
                let mut block = block0;
                let ghost p1 = *pool;
                proof {
                    lemma_page_size_ok(PAGE_SIZE as int);
                    crate::math::lemma_pow2_le(crate::math::order_for(num_pages as nat), order_needed as nat);
                    lemma_block_bytes_divides(need, order as int, PAGE_SIZE as int);
                    assert(num_pages * PAGE_SIZE <= block_bytes(need, PAGE_SIZE as int)) by (nonlinear_arith)
                        requires num_pages <= pow2(crate::math::order_for(num_pages as nat)),
                            pow2(crate::math::order_for(num_pages as nat)) <= pow2(need as nat),
                            block_bytes(need, PAGE_SIZE as int) == pow2(need as nat) * PAGE_SIZE;
                    assert(self.free_set(*pool) =~= f0.difference(block_range(block0.addr as int, block.order as int, PAGE_SIZE as int)));
                    if s0.coalesced(p0) {
                        assert forall|o: int, a: int|
                            #![trigger self.has_block_at(*pool, o, a), self.has_block_at(*pool, o, buddy_addr(a, o, PAGE_SIZE as int))]
                            0 <= o < DEFAULT_MAX_ORDER implies !(self.has_block_at(*pool, o, a) && self.has_block_at(
                                *pool,
                                o,
                                buddy_addr(a, o, PAGE_SIZE as int),
                            )) by {
                            if self.has_block_at(*pool, o, a) && self.has_block_at(*pool, o, buddy_addr(a, o, PAGE_SIZE as int)) {
                                assert(s0.has_block_at(p0, o, a));
                                assert(s0.has_block_at(p0, o, buddy_addr(a, o, PAGE_SIZE as int)));
                            }
                        }
                    }
                }
                while block.order > order_needed
                    invariant
                        self.wf(*pool),
                        pool.wf(),
                        self.same_fields(&s0),
                        p0 == *old(pool),
                        s0 == *old(self),
                        f0 == s0.free_set(p0),
                        num_pages > 0,
                        need == order_needed as int,
                        need == needed_order(num_pages as int, alignment as int, PAGE_SIZE as int),
                        s0.first_nonempty(p0, need) == order as int,
                        pool_frame(p0, *pool, s0.node_set()),
                        forall|i: usize| #[trigger] self.node_set().contains(i) ==> s0.node_set().contains(i) || p0.is_free(i),
                        pool.nodes_view().len() == p0.nodes_view().len(),
                        need <= block.order <= order,
                        order <= DEFAULT_MAX_ORDER,
                        block.addr == block0.addr,
                        block0.addr as int % block_bytes(block.order as int, PAGE_SIZE as int) == 0,
                        s0.base() <= block0.addr,
                        block0.addr + block_bytes(block.order as int, PAGE_SIZE as int) <= s0.end(),
                        block_range(block0.addr as int, block.order as int, PAGE_SIZE as int).subset_of(f0),
                        self.free_set(*pool) == f0.difference(block_range(block0.addr as int, block.order as int, PAGE_SIZE as int)),
                        pool.free_ids().len() + (order - block.order) == p0.free_ids().len() + 1,
                        block.order < order ==> self.has_block_at(
                            *pool,
                            block.order as int,
                            block0.addr + block_bytes(block.order as int, PAGE_SIZE as int),
                        ),
                        s0.coalesced(p0) ==> self.coalesced(*pool),
                    decreases block.order,
                {
                    let ghost cur = block.order as int;
                    let ghost f_before = self.free_set(*pool);
                    let ghost p_before = *pool;
                    let ghost s_before = *self;
                    block.order = block.order - 1;
                    proof {
                        lemma_page_size_ok(PAGE_SIZE as int);
                        lemma_pow2_pos((cur - 1) as nat);
                        assert(pow2((cur - 1) as nat) <= block_bytes(cur - 1, PAGE_SIZE as int)) by (nonlinear_arith)
                            requires PAGE_SIZE >= 1, pow2((cur - 1) as nat) >= 1,
                                block_bytes(cur - 1, PAGE_SIZE as int) == pow2((cur - 1) as nat) * PAGE_SIZE;
                        assert(block_bytes(cur - 1, PAGE_SIZE as int) <= usize::MAX);
                    }
                    let split_size = crate::math::pow2_usize(block.order) * PAGE_SIZE;
                    proof {
                        lemma_block_bytes(cur, PAGE_SIZE as int);
                        lemma_block_bytes_divides(cur, DEFAULT_MAX_ORDER as int, PAGE_SIZE as int);
                        lemma_block_bytes_divides(cur - 1, cur, PAGE_SIZE as int);
                        crate::math::lemma_mod_trans(block0.addr as int, block_bytes(cur, PAGE_SIZE as int), block_bytes(cur - 1, PAGE_SIZE as int));
                        crate::math::lemma_mod_add(block0.addr as int, block_bytes(cur - 1, PAGE_SIZE as int), block_bytes(cur - 1, PAGE_SIZE as int));
                    }
                    let buddy_addr = block.addr + split_size;
                    let ghost half = block_range(block0.addr as int, cur - 1, PAGE_SIZE as int);
                    let ghost upper = block_range(buddy_addr as int, cur - 1, PAGE_SIZE as int);
                    let ghost whole = block_range(block0.addr as int, cur, PAGE_SIZE as int);
                    proof {
                        assert(whole =~= half + upper);
                        assert(half.disjoint(upper));
                    }
                    let success = self.add_block_to_order(pool, block.order, BuddyBlock { order: block.order, addr: buddy_addr });
                    if !success {
                        let _ = self.add_block_to_order(
                            pool,
                            block.order + 1,
                            BuddyBlock { order: block.order + 1, addr: block.addr },
                        );
                        proof {
                            super::global_node_pool::lemma_pool_frame_trans(p0, p_before, *pool, s0.node_set(), s_before.node_set());
                            assert(f_before.subset_of(f0));
                            assert(self.free_set(*pool).subset_of(f0));
                            if s0.coalesced(p0) {
                                assert forall|o: int, a: int|
                                    #![trigger self.has_block_at(*pool, o, a), self.has_block_at(*pool, o, crate::buddy::buddy_set::buddy_addr(a, o, PAGE_SIZE as int))]
                                    0 <= o < DEFAULT_MAX_ORDER implies !(self.has_block_at(*pool, o, a) && self.has_block_at(
                                        *pool,
                                        o,
                                        crate::buddy::buddy_set::buddy_addr(a, o, PAGE_SIZE as int),
                                    )) by {
                                    let b = crate::buddy::buddy_set::buddy_addr(a, o, PAGE_SIZE as int);
                                    if self.has_block_at(*pool, o, a) && self.has_block_at(*pool, o, b) {
                                        assert(s_before.has_block_at(p_before, o, a));
                                        assert(s_before.has_block_at(p_before, o, b));
                                    }
                                }
                            }
                        }
                        return Err(AllocError::NoMemory);
                    }
                    proof {
                        super::global_node_pool::lemma_pool_frame_trans(p0, p_before, *pool, s0.node_set(), s_before.node_set());
                        assert(self.free_set(*pool) =~= f0.difference(half));
                        if s0.coalesced(p0) {
                            let ps = PAGE_SIZE as int;
                            let j = cur - 1;
                            let lo = block0.addr as int;
                            let up = buddy_addr as int;
                            lemma_block_bytes(cur, ps);
                            assert(crate::buddy::buddy_set::buddy_addr(lo, j, ps) == up);
                            lemma_buddy_involution(lo, j, ps);
                            assert(!s_before.has_block_at(p_before, j, lo)) by {
                                if s_before.has_block_at(p_before, j, lo) {
                                    let k = choose|k: int| 0 <= k < s_before.blocks(p_before, j).len() && #[trigger] s_before.blocks(p_before, j)[k].addr == lo;
                                    lemma_block_bytes(j, ps);
                                    s_before.lemma_block_in_free_set(p_before, j, k, lo);
                                    assert(whole.contains(lo));
                                }
                            }
                            assert forall|o: int, a: int|
                                #![trigger self.has_block_at(*pool, o, a), self.has_block_at(*pool, o, crate::buddy::buddy_set::buddy_addr(a, o, ps))]
                                0 <= o < DEFAULT_MAX_ORDER implies !(self.has_block_at(*pool, o, a) && self.has_block_at(
                                    *pool,
                                    o,
                                    crate::buddy::buddy_set::buddy_addr(a, o, ps),
                                )) by {
                                let b = crate::buddy::buddy_set::buddy_addr(a, o, ps);
                                if self.has_block_at(*pool, o, a) && self.has_block_at(*pool, o, b) {
                                    self.lemma_listed_block_ok(*pool, o, a);
                                    lemma_buddy_involution(a, o, ps);
                                    if o == j && a == up {
                                        assert(b == lo);
                                        assert(s_before.has_block_at(p_before, o, b));
                                    } else if o == j && b == up {
                                        assert(a == lo);
                                        assert(s_before.has_block_at(p_before, o, a));
                                    } else {
                                        assert(s_before.has_block_at(p_before, o, a));
                                        assert(s_before.has_block_at(p_before, o, b));
                                    }
                                }
                            }
                        }
                    }
                }
                proof {
                    assert(s0.blocks(p0, order as int)[0] == block0);
                    if need < order {
                        lemma_block_bytes(order as int, PAGE_SIZE as int);
                        lemma_block_bytes(need + 1, PAGE_SIZE as int);
                        lemma_block_bytes_divides(need + 1, order as int, PAGE_SIZE as int);
                        crate::math::lemma_mod_trans(
                            block0.addr as int,
                            block_bytes(order as int, PAGE_SIZE as int),
                            block_bytes(need + 1, PAGE_SIZE as int),
                        );
                        assert(buddy_addr(block0.addr as int, need, PAGE_SIZE as int) == block0.addr + block_bytes(
                            need,
                            PAGE_SIZE as int,
                        ));
                    }
                    if alignment > 0 && is_pow2(alignment as int) {
                        lemma_alignment_order(alignment as int, PAGE_SIZE as int, need);
                        lemma_block_bytes(need, PAGE_SIZE as int);
                        crate::math::lemma_mod_trans(block0.addr as int, block_bytes(need, PAGE_SIZE as int), alignment as int);
                    }
                }
                return Ok(block.addr);
            }
            order = order + 1;
        }
        proof {
            if need <= NUM_ORDERS {
                self.lemma_first_nonempty(p0, need, NUM_ORDERS as int);
            }
        }
        Err(AllocError::NoMemory)
    }
}

impl<const PAGE_SIZE: usize> BuddySet<PAGE_SIZE> {
    /// Bytes in a block of `order`.
    fn block_size(order: usize) -> (r: usize)
        requires
            page_size_ok(PAGE_SIZE as int),
            order <= DEFAULT_MAX_ORDER,
        ensures
            r == block_bytes(order as int, PAGE_SIZE as int),
            r >= PAGE_SIZE >= 1,
    {
        proof {
            lemma_page_size_ok(PAGE_SIZE as int);
            lemma_block_bytes(order as int, PAGE_SIZE as int);
            lemma_pow2_pos(order as nat);
            assert(pow2(order as nat) <= block_bytes(order as int, PAGE_SIZE as int)) by (nonlinear_arith)
                requires PAGE_SIZE >= 1, pow2(order as nat) >= 1,
                    block_bytes(order as int, PAGE_SIZE as int) == pow2(order as nat) * PAGE_SIZE;
        }
        crate::math::pow2_usize(order) * PAGE_SIZE
    }

    /// Whether the block of `order` at `addr` shares an address with a free block.
    ///
    /// Looks for a smaller free block starting inside it, then for a free
    /// block of its order or above that contains it.
    fn overlaps_free(&self, pool: &GlobalNodePool, addr: usize, order: usize) -> (r: bool)
        requires
            self.wf(*pool),
            order <= DEFAULT_MAX_ORDER,
            addr as int % block_bytes(order as int, PAGE_SIZE as int) == 0,
            addr + block_bytes(order as int, PAGE_SIZE as int) <= usize::MAX,
        ensures
            r == !block_range(addr as int, order as int, PAGE_SIZE as int).disjoint(self.free_set(*pool)),
    {
        let size = Self::block_size(order);
        let end = addr + size;
        let ghost range = block_range(addr as int, order as int, PAGE_SIZE as int);
        let mut i: usize = 0;
        while i < order
            invariant
                self.wf(*pool),
                i <= order <= DEFAULT_MAX_ORDER,
                size == block_bytes(order as int, PAGE_SIZE as int),
                end == addr + size,
                range == block_range(addr as int, order as int, PAGE_SIZE as int),
                forall|j: int, k: int|
                    0 <= j < i && 0 <= k < self.blocks(*pool, j).len() ==> !(addr <= #[trigger] self.blocks(*pool, j)[k].addr
                        < end),
            decreases order - i,
        {
            proof {
                assert(self.free_lists@[i as int].wf(*pool));
            }
            if self.free_lists[i].has_block_in_range(pool, addr, end) {
                proof {
                    let v = self.blocks(*pool, i as int);
                    let k = choose|k: int| 0 <= k < v.len() && addr <= #[trigger] v[k].addr < end;
                    lemma_block_bytes(i as int, PAGE_SIZE as int);
                    self.lemma_block_in_free_set(*pool, i as int, k, v[k].addr as int);
                    assert(range.contains(v[k].addr as int));
                }
                return true;
            }
            i = i + 1;
        }
        let mut j: usize = order;
        while j <= DEFAULT_MAX_ORDER
            invariant
                self.wf(*pool),
                order <= j <= NUM_ORDERS,
                order <= DEFAULT_MAX_ORDER,
                size == block_bytes(order as int, PAGE_SIZE as int),
                end == addr + size,
                addr as int % size as int == 0,
                range == block_range(addr as int, order as int, PAGE_SIZE as int),
                forall|jj: int, k: int|
                    0 <= jj < order && 0 <= k < self.blocks(*pool, jj).len() ==> !(addr <= #[trigger] self.blocks(*pool, jj)[k].addr
                        < end),
                forall|jj: int|
                    order <= jj < j ==> !#[trigger] self.has_block_at(
                        *pool,
                        jj,
                        addr as int - addr as int % block_bytes(jj, PAGE_SIZE as int),
                    ),
            decreases NUM_ORDERS - j,
        {
            let bs = Self::block_size(j);
            proof {
                assert(addr % bs <= addr) by (nonlinear_arith) requires bs > 0;
            }
            let base = addr - addr % bs;
            if self.find_block_in_order(pool, j, base).is_some() {
                proof {
                    let v = self.blocks(*pool, j as int);
                    let k = choose|k: int| 0 <= k < v.len() && #[trigger] v[k].addr == base;
                    lemma_block_bytes_divides(order as int, j as int, PAGE_SIZE as int);
                    lemma_block_bytes(order as int, PAGE_SIZE as int);
                    crate::math::lemma_aligned_overlap(addr as int, size as int, base as int, bs as int);
                    assert(self.block_ok(v[k], j as int));
                    self.lemma_block_in_free_set(*pool, j as int, k, addr as int);
                    assert(range.contains(addr as int));
                }
                return true;
            }
            j = j + 1;
        }
        proof {
            assert forall|x: int| range.contains(x) implies !self.free_set(*pool).contains(x) by {
                if self.covers(*pool, x) {
                    let (o, k) = choose|o: int, k: int|
                        0 <= o < NUM_ORDERS && 0 <= k < self.blocks(*pool, o).len() && #[trigger] self.blocks(*pool, o)[k].addr
                            <= x < self.blocks(*pool, o)[k].addr + block_bytes(o, PAGE_SIZE as int);
                    let b = self.blocks(*pool, o)[k];
                    assert(self.block_ok(b, o));
                    lemma_block_bytes(o, PAGE_SIZE as int);
                    lemma_block_bytes(order as int, PAGE_SIZE as int);
                    if o < order {
                        lemma_block_bytes_divides(o, order as int, PAGE_SIZE as int);
                        crate::math::lemma_aligned_overlap(b.addr as int, block_bytes(o, PAGE_SIZE as int), addr as int, size as int);
                    } else {
                        lemma_block_bytes_divides(order as int, o, PAGE_SIZE as int);
                        crate::math::lemma_aligned_overlap(addr as int, size as int, b.addr as int, block_bytes(o, PAGE_SIZE as int));
                        assert(self.has_block_at(*pool, o, addr as int - addr as int % block_bytes(o, PAGE_SIZE as int)));
                    }
                }
            }
            assert(range.disjoint(self.free_set(*pool)));
        }
        false
    }
}

impl<const PAGE_SIZE: usize> BuddySet<PAGE_SIZE> {
    /// Check if an address belongs to this zone.
    pub fn addr_in_zone(&self, addr: usize) -> (r: bool)
        ensures
            r == (self.base() <= addr < self.end()),
    {
        addr >= self.base_addr && addr < self.end_addr
    }

    /// Get zone information.
    pub fn zone_info(&self) -> (r: ZoneInfo)
        ensures
            r.start_addr == self.base(),
            r.end_addr == self.end(),
            r.total_pages == self.spec_total_pages(),
            r.zone_id == self.spec_zone_id(),
    {
        ZoneInfo {
            start_addr: self.base_addr,
            end_addr: self.end_addr,
            total_pages: self.total_pages,
            zone_id: self.zone_id,
        }
    }

    /// The highest order a zone serves.
    pub fn max_order(&self) -> (r: usize)
        ensures
            r == DEFAULT_MAX_ORDER,
    {
        DEFAULT_MAX_ORDER
    }
}

impl<const PAGE_SIZE: usize> BuddySet<PAGE_SIZE> {
    /// A zone without free blocks.
    pub open spec fn no_free_blocks(&self) -> bool {
        forall|o: int| 0 <= o < NUM_ORDERS ==> #[trigger] self.count(o) == 0
    }

    proof fn lemma_pages_zero(&self, n: int)
        requires
            self.no_free_blocks(),
            0 <= n <= NUM_ORDERS,
        ensures
            self.pages_upto(n) == 0,
        decreases n,
    {
        if n > 0 {
            self.lemma_pages_zero(n - 1);
            assert(self.count(n - 1) == 0);
        }
    }

    /// A zone whose lists are well formed and empty has no free memory.
    proof fn lemma_empty_wf(&self, pool: GlobalNodePool)
        requires
            self.lists_wf(pool),
            self.no_free_blocks(),
            page_size_ok(PAGE_SIZE as int),
            self.base_addr as int % PAGE_SIZE as int == 0,
            self.end_addr as int % PAGE_SIZE as int == 0,
            self.base_addr <= self.end_addr,
            self.total_pages as int == (self.end_addr - self.base_addr) as int / PAGE_SIZE as int,
        ensures
            self.wf(pool),
            self.free_set(pool) == Set::<int>::empty(),
    {
        assert forall|o: int| 0 <= o < NUM_ORDERS implies #[trigger] self.blocks(pool, o).len() == 0 by {
            assert(self.count(o) == 0);
        }
        assert(self.free_set(pool) =~= Set::<int>::empty());
        self.lemma_pages_zero(NUM_ORDERS as int);
    }

    /// One empty free list per order.
    fn empty_lists() -> (r: Vec<PooledLinkedList>)
        ensures
            r@.len() == NUM_ORDERS,
            forall|o: int| 0 <= o < NUM_ORDERS ==> #[trigger] r@[o].ids().len() == 0,
            forall|o: int, p: GlobalNodePool| 0 <= o < NUM_ORDERS ==> #[trigger] r@[o].wf(p),
    {
        let mut free_lists: Vec<PooledLinkedList> = Vec::new();
        let mut i: usize = 0;
        while i < NUM_ORDERS
            invariant
                i <= NUM_ORDERS,
                free_lists@.len() == i,
                forall|o: int| 0 <= o < i ==> #[trigger] free_lists@[o].ids().len() == 0,
                forall|o: int, p: GlobalNodePool| 0 <= o < i ==> #[trigger] free_lists@[o].wf(p),
            decreases NUM_ORDERS - i,
        {
            free_lists.push(PooledLinkedList::new());
            i = i + 1;
        }
        free_lists
    }

    /// A zone with empty free lists is well formed for every pool when its
    /// bounds are page aligned.
    proof fn lemma_fresh_zone(r: Self)
        requires
            r.free_lists@.len() == NUM_ORDERS,
            forall|o: int| 0 <= o < NUM_ORDERS ==> #[trigger] r.free_lists@[o].ids().len() == 0,
            forall|o: int, p: GlobalNodePool| 0 <= o < NUM_ORDERS ==> #[trigger] r.free_lists@[o].wf(p),
        ensures
            r.no_free_blocks(),
            r.node_set() == Set::<usize>::empty(),
            forall|p: GlobalNodePool| #[trigger] r.lists_wf(p),
            page_size_ok(PAGE_SIZE as int) && r.base_addr as int % PAGE_SIZE as int == 0 && r.end_addr as int
                % PAGE_SIZE as int == 0 && r.base_addr <= r.end_addr && r.total_pages as int == (r.end_addr
                - r.base_addr) as int / PAGE_SIZE as int ==> forall|p: GlobalNodePool| #[trigger] r.wf(p) && r.free_set(p)
                == Set::<int>::empty(),
    {
        assert forall|p: GlobalNodePool| #[trigger] r.lists_wf(p) by {
            assert forall|o: int| 0 <= o < NUM_ORDERS implies #[trigger] r.free_lists@[o].wf(p) by {}
        }
        assert forall|o: int| 0 <= o < NUM_ORDERS implies #[trigger] r.count(o) == 0 by {}
        assert forall|n: usize| !r.node_set().contains(n) by {
            if r.node_set().contains(n) {
                let o = choose|o: int| 0 <= o < NUM_ORDERS && #[trigger] r.free_lists@[o].ids().contains(n);
                assert(r.free_lists@[o].ids().len() == 0);
            }
        }
        assert(r.node_set() =~= Set::<usize>::empty());
        if page_size_ok(PAGE_SIZE as int) && r.base_addr as int % PAGE_SIZE as int == 0 && r.end_addr as int
            % PAGE_SIZE as int == 0 && r.base_addr <= r.end_addr && r.total_pages as int == (r.end_addr - r.base_addr) as int
            / PAGE_SIZE as int {
            assert forall|p: GlobalNodePool| #[trigger] r.wf(p) && r.free_set(p) == Set::<int>::empty() by {
                r.lemma_empty_wf(p);
            }
        }
    }

    /// Create a zone over `[base_addr, base_addr + size)` with no free
    /// memory yet; `init` fills it.
    pub fn new(base_addr: usize, size: usize, zone_id: usize) -> (r: Self)
        requires
            PAGE_SIZE > 0,
            base_addr + size <= usize::MAX,
        ensures
            r.base() == base_addr,
            r.end() == base_addr + size,
            r.spec_total_pages() == size / PAGE_SIZE,
            r.spec_zone_id() == zone_id,
            r.no_free_blocks(),
            r.node_set() == Set::<usize>::empty(),
            forall|p: GlobalNodePool| #[trigger] r.lists_wf(p),
            page_size_ok(PAGE_SIZE as int) && base_addr as int % PAGE_SIZE as int == 0 && size as int % PAGE_SIZE as int == 0
                ==> forall|p: GlobalNodePool| #[trigger] r.wf(p) && r.free_set(p) == Set::<int>::empty(),
    {
        let r = BuddySet {
            base_addr,
            end_addr: base_addr + size,
            total_pages: size / PAGE_SIZE,
            zone_id,
            free_lists: Self::empty_lists(),
        };
        proof {
            if base_addr as int % PAGE_SIZE as int == 0 && size as int % PAGE_SIZE as int == 0 {
                crate::math::lemma_mod_add(base_addr as int, size as int, PAGE_SIZE as int);
            }
            Self::lemma_fresh_zone(r);
        }
        r
    }

    /// Create an empty zone at address zero.
    pub fn empty() -> (r: Self)
        ensures
            r.base() == 0,
            r.end() == 0,
            r.spec_total_pages() == 0,
            r.spec_zone_id() == 0,
            r.no_free_blocks(),
            page_size_ok(PAGE_SIZE as int) ==> forall|p: GlobalNodePool| #[trigger] r.wf(p) && r.free_set(p) == Set::<int>::empty(),
    {
        let r = BuddySet { base_addr: 0, end_addr: 0, total_pages: 0, zone_id: 0, free_lists: Self::empty_lists() };
        proof {
            if page_size_ok(PAGE_SIZE as int) {
                lemma_page_size_ok(PAGE_SIZE as int);
                vstd::arithmetic::div_mod::lemma_small_mod(0, PAGE_SIZE as nat);
            }
            Self::lemma_fresh_zone(r);
        }
        r
    }

    /// The nodes of a well-formed zone are in use.
    pub proof fn lemma_node_in_use(&self, pool: GlobalNodePool, n: usize)
        requires
            self.wf(pool),
            self.node_set().contains(n),
        ensures
            !pool.is_free(n),
            n < pool.nodes_view().len(),
    {
        let o = choose|o: int| 0 <= o < NUM_ORDERS && #[trigger] self.free_lists@[o].ids().contains(n);
        assert(self.free_lists@[o].wf(pool));
        let k = choose|k: int| 0 <= k < self.free_lists@[o].ids().len() && self.free_lists@[o].ids()[k] == n;
    }

    /// A zone has no more free blocks of an order than free pages.
    pub proof fn lemma_block_count_bound(&self)
        ensures
            forall|o: int| 0 <= o < NUM_ORDERS ==> 0 <= #[trigger] self.spec_block_count(o) <= self.free_pages(),
    {
        assert forall|o: int| 0 <= o < NUM_ORDERS implies 0 <= #[trigger] self.spec_block_count(o) <= self.free_pages() by {
            self.lemma_pages_monotone(o + 1, NUM_ORDERS as int);
            self.lemma_pages_monotone(o, o);
            lemma_pow2_pos(o as nat);
            assert(self.count(o) <= self.count(o) * pow2(o as nat)) by (nonlinear_arith)
                requires self.count(o) >= 0, pow2(o as nat) >= 1;
        }
    }

    /// The page count of a well-formed zone is at most the bytes it spans.
    pub proof fn lemma_total_pages_bound(&self, pool: GlobalNodePool)
        requires
            self.wf(pool),
        ensures
            self.spec_total_pages() <= self.end() - self.base(),
    {
        lemma_page_size_ok(PAGE_SIZE as int);
        assert((self.end() - self.base()) / PAGE_SIZE as int <= self.end() - self.base()) by (nonlinear_arith)
            requires self.end() - self.base() >= 0, PAGE_SIZE >= 1;
    }

    /// A listed free block is aligned, lies in the zone and is free memory.
    pub proof fn lemma_listed_block(&self, pool: GlobalNodePool, o: int, k: int)
        requires
            self.wf(pool),
            0 <= o < NUM_ORDERS,
            0 <= k < self.blocks(pool, o).len(),
        ensures
            self.block_ok(self.blocks(pool, o)[k], o),
            block_range(self.blocks(pool, o)[k].addr as int, o, PAGE_SIZE as int).subset_of(self.free_set(pool)),
    {
        let b = self.blocks(pool, o)[k];
        assert(self.block_ok(b, o));
        assert forall|x: int| block_range(b.addr as int, o, PAGE_SIZE as int).contains(x) implies self.free_set(pool).contains(x) by {
            self.lemma_block_in_free_set(pool, o, k, x);
        }
    }

    /// Zone bounds are machine words.
    pub proof fn lemma_end_bound(&self)
        ensures
            0 <= self.base() <= usize::MAX,
            0 <= self.end() <= usize::MAX,
    {
    }

    /// Free memory lies in the zone, so the free pages fit in it.
    pub proof fn lemma_free_in_zone(&self, pool: GlobalNodePool)
        requires
            self.wf(pool),
        ensures
            self.free_set(pool).subset_of(set_int_range(self.base(), self.end())),
            self.free_pages() * PAGE_SIZE <= self.end() - self.base(),
            self.free_pages() <= self.spec_total_pages(),
    {
        lemma_page_size_ok(PAGE_SIZE as int);
        assert forall|x: int| #[trigger] self.free_set(pool).contains(x) implies set_int_range(self.base(), self.end()).contains(x) by {
            let (o, i) = choose|o: int, i: int|
                0 <= o < NUM_ORDERS && 0 <= i < self.blocks(pool, o).len() && #[trigger] self.blocks(pool, o)[i].addr <= x
                    < self.blocks(pool, o)[i].addr + block_bytes(o, PAGE_SIZE as int);
            assert(self.block_ok(self.blocks(pool, o)[i], o));
        }
        vstd::set_lib::lemma_int_range(self.base(), self.end());
        vstd::set_lib::lemma_len_subset(self.free_set(pool), set_int_range(self.base(), self.end()));
        assert(self.free_pages() * PAGE_SIZE <= self.end() - self.base());
        crate::math::lemma_mod_add(self.end(), self.base(), PAGE_SIZE as int);
        crate::math::lemma_mod_zero_mul(self.end() - self.base(), PAGE_SIZE as int);
        let t = (self.end() - self.base()) / PAGE_SIZE as int;
        assert(self.free_pages() <= t) by (nonlinear_arith)
            requires self.free_pages() * PAGE_SIZE <= t * PAGE_SIZE, PAGE_SIZE >= 1;
    }
}

impl<const PAGE_SIZE: usize> BuddySet<PAGE_SIZE> {
    /// Return every node of the free lists to the pool.
    fn clear_lists(&mut self, pool: &mut GlobalNodePool)
        requires
            old(self).lists_wf(*old(pool)),
            old(pool).wf(),
        ensures
            final(self).lists_wf(*final(pool)),
            final(self).no_free_blocks(),
            final(pool).wf(),
            final(self).same_fields(old(self)),
            pool_frame(*old(pool), *final(pool), old(self).node_set()),
            final(pool).nodes_view().len() == old(pool).nodes_view().len(),
            final(pool).free_ids().len() >= old(pool).free_ids().len(),
            forall|i: usize| #[trigger] final(self).node_set().contains(i) ==> old(self).node_set().contains(i) || old(pool).is_free(i),
    {
        let ghost s0 = *self;
        let ghost p0 = *pool;
        let mut o: usize = 0;
        while o < NUM_ORDERS
            invariant
                s0 == *old(self),
                p0 == *old(pool),
                s0.lists_wf(p0),
                o <= NUM_ORDERS,
                self.lists_wf(*pool),
                pool.wf(),
                self.same_fields(&s0),
                pool_frame(p0, *pool, s0.node_set()),
                forall|i: usize| #[trigger] self.node_set().contains(i) ==> s0.node_set().contains(i) || p0.is_free(i),
                pool.nodes_view().len() == p0.nodes_view().len(),
                pool.free_ids().len() >= p0.free_ids().len(),
                forall|j: int| 0 <= j < o ==> #[trigger] self.count(j) == 0,
            decreases NUM_ORDERS - o,
        {
            let ghost s_before = *self;
            let ghost p_before = *pool;
            proof {
                assert(self.free_lists@[o as int].wf(*pool));
            }
            self.free_lists[o].clear(pool);
            proof {
                Self::lemma_list_step(&s_before, self, p_before, *pool, o as int);
                super::global_node_pool::lemma_pool_frame_trans(p0, p_before, *pool, s0.node_set(), s_before.node_set());
            }
            o = o + 1;
        }
    }

    /// Initialize the zone with the memory region `[base_addr, base_addr + size)`,
    /// widened to page boundaries.
    ///
    /// The region is covered by the largest aligned blocks that fit, which
    /// are the blocks that freeing it page by page merges into. Should the
    /// node pool run dry, the rest of the region stays out of the free lists.
    pub fn init(&mut self, pool: &mut GlobalNodePool, base_addr: usize, size: usize)
        requires
            old(self).lists_wf(*old(pool)),
            old(pool).wf(),
            page_size_ok(PAGE_SIZE as int),
            base_addr + size <= usize::MAX,
            crate::math::round_up(base_addr + size, PAGE_SIZE as int) <= usize::MAX,
            crate::math::round_up(base_addr + size, PAGE_SIZE as int) - (base_addr - base_addr % PAGE_SIZE) >= PAGE_SIZE,
        ensures
            final(self).wf(*final(pool)),
            final(pool).wf(),
            final(self).base() == base_addr - base_addr % PAGE_SIZE,
            final(self).end() == crate::math::round_up(base_addr + size, PAGE_SIZE as int),
            final(self).spec_zone_id() == old(self).spec_zone_id(),
            pool_frame(*old(pool), *final(pool), old(self).node_set()),
            forall|i: usize| #[trigger] final(self).node_set().contains(i) ==> old(self).node_set().contains(i) || old(pool).is_free(i),
            final(pool).nodes_view().len() == old(pool).nodes_view().len(),
            final(self).free_set(*final(pool)) == set_int_range(final(self).base(), final(self).end())
                || final(pool).free_ids().len() == 0,
            final(self).coalesced(*final(pool)),
            old(pool).free_ids().len() * PAGE_SIZE >= final(self).end() - final(self).base() ==> final(self).free_set(*final(pool))
                == set_int_range(final(self).base(), final(self).end()),
            old(pool).free_ids().len() >= layout_nodes(final(self).base() as int, final(self).end() as int, PAGE_SIZE as int)
                ==> final(self).free_set(*final(pool)) == set_int_range(final(self).base(), final(self).end()),
    {
        proof {
            lemma_page_size_ok(PAGE_SIZE as int);
        }
        let aligned_base = crate::align_down(base_addr, PAGE_SIZE);
        let end = base_addr + size;
        let aligned_end = crate::align_up(end, PAGE_SIZE);
        let aligned_size = aligned_end - aligned_base;
        let ghost s0 = *self;
        let ghost p0 = *pool;
        self.clear_lists(pool);
        let ghost sc = *self;
        self.base_addr = aligned_base;
        self.end_addr = aligned_end;
        self.total_pages = aligned_size / PAGE_SIZE;
        proof {
            crate::math::lemma_mod_add(aligned_end as int, aligned_base as int, PAGE_SIZE as int);
            crate::math::lemma_mod_zero_mul(aligned_size as int, PAGE_SIZE as int);
            assert(self.free_lists@ == sc.free_lists@);
            assert forall|o: int| 0 <= o < NUM_ORDERS implies #[trigger] self.count(o) == 0 by {
                assert(sc.count(o) == 0);
            }
            assert(self.lists_wf(*pool));
            assert(self.node_set() == sc.node_set());
            self.lemma_empty_wf(*pool);
            assert(self.free_set(*pool) =~= set_int_range(aligned_base as int, aligned_base as int));
            assert forall|o2: int, a: int| 0 <= o2 < NUM_ORDERS && #[trigger] self.has_block_at(*pool, o2, a) implies false by {
                let k = choose|k: int| 0 <= k < self.blocks(*pool, o2).len() && #[trigger] self.blocks(*pool, o2)[k].addr == a;
                assert(self.count(o2) == 0);
            }
        }
        let ghost p1 = *pool;
        let ghost s1 = *self;
        let ghost g0 = greedy_left(aligned_base as int, aligned_end as int, PAGE_SIZE as int);
        proof {
            assert(pool.free_ids().len() * PAGE_SIZE >= p0.free_ids().len() * PAGE_SIZE) by (nonlinear_arith)
                requires pool.free_ids().len() >= p0.free_ids().len(), PAGE_SIZE > 0;
            lemma_greedy_left_bound(aligned_base as int, aligned_end as int, PAGE_SIZE as int);
        }
        let mut cur = aligned_base;
        while cur < aligned_end
            invariant
                s0 == *old(self),
                p0 == *old(pool),
                self.wf(*pool),
                pool.wf(),
                self.same_fields(&s1),
                s1.base() == aligned_base,
                s1.end() == aligned_end,
                s1.spec_zone_id() == s0.spec_zone_id(),
                pool_frame(p0, *pool, s0.node_set()),
                forall|i: usize| #[trigger] self.node_set().contains(i) ==> s0.node_set().contains(i) || p0.is_free(i),
                pool.nodes_view().len() == p0.nodes_view().len(),
                aligned_base <= cur <= aligned_end,
                aligned_base == base_addr - base_addr % PAGE_SIZE,
                aligned_end == crate::math::round_up(base_addr + size, PAGE_SIZE as int),
                cur as int % PAGE_SIZE as int == 0,
                aligned_end as int % PAGE_SIZE as int == 0,
                page_size_ok(PAGE_SIZE as int),
                self.free_set(*pool) == set_int_range(aligned_base as int, cur as int),
                pool.free_ids().len() * PAGE_SIZE + (cur - aligned_base) >= p0.free_ids().len() * PAGE_SIZE,
                g0 == greedy_left(aligned_base as int, aligned_end as int, PAGE_SIZE as int),
                g0 <= layout_nodes(aligned_base as int, aligned_end as int, PAGE_SIZE as int),
                pool.free_ids().len() + g0 >= p0.free_ids().len() + greedy_left(cur as int, aligned_end as int, PAGE_SIZE as int),
                self.coalesced(*pool),
                forall|o2: int, a: int|
                    0 <= o2 < NUM_ORDERS && #[trigger] self.has_block_at(*pool, o2, a) ==> a + block_bytes(o2, PAGE_SIZE as int) <= cur
                        && (o2 < DEFAULT_MAX_ORDER && a % block_bytes(o2 + 1, PAGE_SIZE as int) == 0 ==> a + block_bytes(
                        o2 + 1,
                        PAGE_SIZE as int,
                    ) > aligned_end),
            decreases aligned_end - cur,
        {
            let mut o = DEFAULT_MAX_ORDER;
            proof {
                lemma_page_size_ok(PAGE_SIZE as int);
                crate::math::lemma_pow2_values();
                assert(pow2(0nat) == 1);
                assert(block_bytes(0, PAGE_SIZE as int) == pow2(0nat) * PAGE_SIZE);
                assert(block_bytes(0, PAGE_SIZE as int) == PAGE_SIZE);
                crate::math::lemma_multiples_gap(cur as int, aligned_end as int, PAGE_SIZE as int);
            }
            while !(cur % Self::block_size(o) == 0 && Self::block_size(o) <= aligned_end - cur)
                invariant
                    o <= DEFAULT_MAX_ORDER,
                    page_size_ok(PAGE_SIZE as int),
                    cur as int % PAGE_SIZE as int == 0,
                    cur + PAGE_SIZE <= aligned_end,
                    block_bytes(0, PAGE_SIZE as int) == PAGE_SIZE,
                    forall|o3: int| o < o3 <= DEFAULT_MAX_ORDER ==> !(cur as int % #[trigger] block_bytes(o3, PAGE_SIZE as int) == 0
                        && block_bytes(o3, PAGE_SIZE as int) <= aligned_end - cur),
                decreases o,
            {
                o = o - 1;
            }
            let bs = Self::block_size(o);
            let ghost s_before = *self;
            let ghost p_before = *pool;
            proof {
                lemma_block_bytes(o as int, PAGE_SIZE as int);
                assert(block_range(cur as int, o as int, PAGE_SIZE as int) =~= set_int_range(cur as int, cur + bs));
            }
            proof {
                lemma_greedy_choice(cur as int, aligned_end as int, o as int, PAGE_SIZE as int);
                lemma_greedy_step(cur as int, aligned_end as int, PAGE_SIZE as int);
                if p0.free_ids().len() * PAGE_SIZE >= aligned_end - aligned_base {
                    assert(pool.free_ids().len() > 0) by (nonlinear_arith)
                        requires pool.free_ids().len() * PAGE_SIZE + (cur - aligned_base) >= p0.free_ids().len() * PAGE_SIZE,
                            p0.free_ids().len() * PAGE_SIZE >= aligned_end - aligned_base, cur < aligned_end, PAGE_SIZE > 0;
                }
                if p0.free_ids().len() >= g0 {
                    assert(pool.free_ids().len() > 0);
                }
            }
            if !self.add_block_to_order(pool, o, BuddyBlock { order: o, addr: cur }) {
                proof {
                    super::global_node_pool::lemma_pool_frame_trans(p0, p_before, *pool, s0.node_set(), s_before.node_set());
                }
                return;
            }
            proof {
                super::global_node_pool::lemma_pool_frame_trans(p0, p_before, *pool, s0.node_set(), s_before.node_set());
                assert(self.free_set(*pool) =~= set_int_range(aligned_base as int, cur + bs));
                crate::math::lemma_mod_add(cur as int, bs as int, PAGE_SIZE as int);
                assert(bs >= PAGE_SIZE);
                assert(pool.free_ids().len() * PAGE_SIZE + PAGE_SIZE == p_before.free_ids().len() * PAGE_SIZE) by (nonlinear_arith)
                    requires pool.free_ids().len() + 1 == p_before.free_ids().len();
                let ps = PAGE_SIZE as int;
                let c = cur as int;
                let oo = o as int;
                lemma_block_bytes(oo + 1, ps);
                assert forall|o2: int, a: int| 0 <= o2 < NUM_ORDERS && #[trigger] self.has_block_at(*pool, o2, a) implies a
                    + block_bytes(o2, ps) <= c + bs && (o2 < DEFAULT_MAX_ORDER && a % block_bytes(o2 + 1, ps) == 0 ==> a
                    + block_bytes(o2 + 1, ps) > aligned_end) by {
                    if !(o2 == oo && a == c) {
                        assert(s_before.has_block_at(p_before, o2, a));
                    } else if o2 < DEFAULT_MAX_ORDER && a % block_bytes(o2 + 1, ps) == 0 {
                        assert(!(c % block_bytes(oo + 1, ps) == 0 && block_bytes(oo + 1, ps) <= aligned_end - cur));
                    }
                }
                assert forall|o2: int, a: int|
                    #![trigger self.has_block_at(*pool, o2, a), self.has_block_at(*pool, o2, buddy_addr(a, o2, ps))]
                    0 <= o2 < DEFAULT_MAX_ORDER implies !(self.has_block_at(*pool, o2, a) && self.has_block_at(
                        *pool,
                        o2,
                        buddy_addr(a, o2, ps),
                    )) by {
                    let b = buddy_addr(a, o2, ps);
                    if self.has_block_at(*pool, o2, a) && self.has_block_at(*pool, o2, b) {
                        self.lemma_listed_block_ok(*pool, o2, a);
                        self.lemma_listed_block_ok(*pool, o2, b);
                        lemma_buddy_involution(a, o2, ps);
                        lemma_block_bytes(o2 + 1, ps);
                        lemma_buddy_align(a, block_bytes(o2, ps));
                        if a == c && o2 == oo {
                            assert(s_before.has_block_at(p_before, o2, b));
                        } else if b == c && o2 == oo {
                            assert(s_before.has_block_at(p_before, o2, a));
                        } else {
                            assert(s_before.has_block_at(p_before, o2, a));
                            assert(s_before.has_block_at(p_before, o2, b));
                        }
                    }
                }
            }
            cur = cur + bs;
        }
    }
}

impl<const PAGE_SIZE: usize> BuddySet<PAGE_SIZE> {
    /// The zone is well formed against some pool.
    pub open spec fn valid(&self) -> bool {
        exists|p: GlobalNodePool| self.wf(p)
    }

    /// Number of free blocks of one order (zero above the highest order).
    pub open spec fn spec_block_count(&self, order: int) -> int {
        if 0 <= order < NUM_ORDERS {
            self.count(order)
        } else {
            0
        }
    }

    /// Get the number of free blocks of one order.
    pub fn get_order_block_count(&self, order: usize) -> (r: usize)
        requires
            self.valid(),
        ensures
            r == self.spec_block_count(order as int),
    {
        if order <= DEFAULT_MAX_ORDER {
            proof {
                let p = choose|p: GlobalNodePool| self.wf(p);
                assert(self.free_lists@[order as int].wf(p));
            }
            self.free_lists[order].len()
        } else {
            0
        }
    }

    /// Get the free blocks of one order, ascending by address.
    pub fn get_free_blocks_by_order(&self, pool: &GlobalNodePool, order: u32) -> (r: Vec<BuddyBlock>)
        requires
            self.wf(*pool),
            order <= DEFAULT_MAX_ORDER,
        ensures
            r@ == self.blocks(*pool, order as int),
    {
        proof {
            assert(self.free_lists@[order as int].wf(*pool));
        }
        self.free_lists[order as usize].iter(pool)
    }

    /// Get statistics for this zone.
    ///
    /// `free_pages_by_order[o]` is the number of free blocks of order `o`.
    pub fn get_stats(&self) -> (r: BuddyStats)
        requires
            self.valid(),
        ensures
            r.total_pages == self.spec_total_pages(),
            r.free_pages == self.free_pages(),
            r.used_pages == self.spec_total_pages() - self.free_pages(),
            forall|o: int| 0 <= o < NUM_ORDERS ==> #[trigger] r.free_pages_by_order[o] == self.count(o),
    {
        let ghost p = choose|p: GlobalNodePool| self.wf(p);
        proof {
            self.lemma_free_in_zone(p);
            lemma_page_size_ok(PAGE_SIZE as int);
        }
        let mut stats = BuddyStats::new();
        stats.total_pages = self.total_pages;
        let mut order: usize = 0;
        while order < NUM_ORDERS
            invariant
                self.wf(p),
                order <= NUM_ORDERS,
                stats.total_pages == self.spec_total_pages(),
                stats.free_pages == self.pages_upto(order as int),
                self.free_pages() <= self.spec_total_pages(),
                forall|o: int| 0 <= o < order ==> #[trigger] stats.free_pages_by_order[o] == self.count(o),
            decreases NUM_ORDERS - order,
        {
            proof {
                assert(self.free_lists@[order as int].wf(p));
                lemma_page_size_ok(PAGE_SIZE as int);
                self.lemma_pages_monotone(order as int + 1, NUM_ORDERS as int);
                self.lemma_pages_monotone(order as int, order as int);
                lemma_pow2_pos(order as nat);
                assert(self.count(order as int) * pow2(order as nat) >= 0) by (nonlinear_arith)
                    requires self.count(order as int) >= 0, pow2(order as nat) > 0;
                assert(pow2(order as nat) <= self.count(order as int) * pow2(order as nat) || self.count(order as int) == 0)
                    by (nonlinear_arith) requires self.count(order as int) >= 0, pow2(order as nat) > 0;
                lemma_block_bytes_divides(order as int, DEFAULT_MAX_ORDER as int, PAGE_SIZE as int);
                assert(pow2(order as nat) <= block_bytes(order as int, PAGE_SIZE as int)) by (nonlinear_arith)
                    requires PAGE_SIZE >= 1, pow2(order as nat) > 0,
                        block_bytes(order as int, PAGE_SIZE as int) == pow2(order as nat) * PAGE_SIZE;
            }
            let block_count = self.free_lists[order].len();
            stats.free_pages_by_order[order] = block_count;
            if block_count > 0 {
                let pages = block_count * crate::math::pow2_usize(order);
                stats.free_pages = stats.free_pages + pages;
            }
            order = order + 1;
        }
        stats.used_pages = stats.total_pages - stats.free_pages;
        stats
    }
}

impl<const PAGE_SIZE: usize> BuddySet<PAGE_SIZE> {
    /// The lowest order at or above `from` whose free list holds the block
    /// of that order containing `addr` (`NUM_ORDERS` if none does).
    pub open spec fn containing_order(&self, pool: GlobalNodePool, addr: int, from: int) -> int
        decreases NUM_ORDERS - from,
    {
        if from >= NUM_ORDERS {
            NUM_ORDERS as int
        } else if from >= 0 && self.has_block_at(pool, from, addr - addr % block_bytes(from, PAGE_SIZE as int)) {
            from
        } else {
            self.containing_order(pool, addr, from + 1)
        }
    }

    /// `containing_order` from `from` is `o` when no order in between lists
    /// the block holding `addr` and order `o` does (or `o` is past the last).
    pub proof fn lemma_containing_order(&self, pool: GlobalNodePool, addr: int, from: int, o: int)
        requires
            0 <= from <= o <= NUM_ORDERS,
            forall|j: int| from <= j < o ==> !#[trigger] self.has_block_at(pool, j, addr - addr % block_bytes(j, PAGE_SIZE as int)),
            o == NUM_ORDERS || self.has_block_at(pool, o, addr - addr % block_bytes(o, PAGE_SIZE as int)),
        ensures
            self.containing_order(pool, addr, from) == o,
        decreases o - from,
    {
        if from < o {
            self.lemma_containing_order(pool, addr, from + 1, o);
        }
    }

    /// The request of `num_pages` pages at `base` is well placed: a
    /// non-empty run, in the zone and up to its end, page aligned, aligned to
    /// `alignment`, and aligned to the block it rounds up to.
    pub open spec fn placement_ok(&self, base: int, num_pages: int, alignment: int) -> bool {
        let ro = crate::math::order_for(num_pages as nat);
        &&& num_pages > 0
        &&& self.base() <= base < self.end()
        &&& base % PAGE_SIZE as int == 0
        &&& base % alignment == 0
        &&& base + num_pages * PAGE_SIZE <= self.end()
        &&& (base / PAGE_SIZE as int) % pow2(ro) as int == 0
    }

    /// What `alloc_pages_at` does: it turns the zone `self` over `pool` into
    /// `new_s` over `new_p`, returning `r`.
    ///
    /// The free block that contains `base` is split down, every half that
    /// does not hold `base` going back to the free lists, until the block of
    /// the request's order at `base` is left, which is handed out.
    pub open spec fn alloc_at_outcome(
        &self,
        pool: GlobalNodePool,
        new_s: Self,
        new_p: GlobalNodePool,
        base: int,
        num_pages: int,
        alignment: int,
        r: AllocResult<usize>,
    ) -> bool {
        let ro = crate::math::order_for(num_pages as nat) as int;
        let o = self.containing_order(pool, base, ro);
        let f0 = self.free_set(pool);
        let f1 = new_s.free_set(new_p);
        &&& new_s.same_geometry(self)
        &&& !self.placement_ok(base, num_pages, alignment) ==> r == Err::<usize, AllocError>(AllocError::InvalidParam)
            && new_s == *self && new_p == pool
        &&& self.placement_ok(base, num_pages, alignment) ==> {
            &&& o >= NUM_ORDERS ==> r == Err::<usize, AllocError>(AllocError::NoMemory) && new_s == *self && new_p == pool
            &&& o < NUM_ORDERS ==> (r is Ok <==> pool.free_ids().len() + 1 >= o - ro)
            &&& r is Err ==> r == Err::<usize, AllocError>(AllocError::NoMemory) && f1.subset_of(f0)
            &&& r is Ok ==> {
                &&& r == Ok::<usize, AllocError>(base as usize)
                &&& ro <= DEFAULT_MAX_ORDER
                &&& block_range(base, ro, PAGE_SIZE as int).subset_of(f0)
                &&& f1 == f0.difference(block_range(base, ro, PAGE_SIZE as int))
                &&& new_p.free_ids().len() > 0 || (ro < DEFAULT_MAX_ORDER && new_s.has_block_at(
                    new_p,
                    ro,
                    buddy_addr(base, ro, PAGE_SIZE as int),
                ))
            }
        }
    }

    /// Allocate the pages at `base`.
    ///
    /// When the request lies in a free block, that block is split
    /// appropriately and the request's block is allocated.
    #[verifier::spinoff_prover]
    #[verifier::rlimit(40)]
    pub fn alloc_pages_at(&mut self, pool: &mut GlobalNodePool, base: usize, num_pages: usize, alignment: usize) -> (r:
        AllocResult<usize>)
        requires
            old(self).wf(*old(pool)),
            old(pool).wf(),
            alignment > 0,
            base + num_pages * PAGE_SIZE <= usize::MAX,
        ensures
            final(self).wf(*final(pool)),
            final(pool).wf(),
            pool_frame(*old(pool), *final(pool), old(self).node_set()),
            forall|i: usize| #[trigger] final(self).node_set().contains(i) ==> old(self).node_set().contains(i) || old(pool).is_free(i),
            final(pool).nodes_view().len() == old(pool).nodes_view().len(),
            old(self).alloc_at_outcome(*old(pool), *final(self), *final(pool), base as int, num_pages as int, alignment as int, r),
            old(self).coalesced(*old(pool)) ==> final(self).coalesced(*final(pool)),
    {
        proof {
            lemma_page_size_ok(PAGE_SIZE as int);
        }
        if num_pages == 0 {
            return Err(AllocError::InvalidParam);
        }
        if !self.addr_in_zone(base) {
            return Err(AllocError::InvalidParam);
        }
        if base % PAGE_SIZE != 0 {
            return Err(AllocError::InvalidParam);
        }
        if base % alignment != 0 {
            return Err(AllocError::InvalidParam);
        }
        proof {
            assert(num_pages * PAGE_SIZE >= 0) by (nonlinear_arith) requires num_pages >= 0, PAGE_SIZE >= 0;
        }
        let size = num_pages * PAGE_SIZE;
        if base + size > self.end_addr {
            return Err(AllocError::InvalidParam);
        }
        let required_order = crate::math::order_of(num_pages);
        let pfn = base / PAGE_SIZE;
        let pfn_aligned = if required_order >= usize::BITS as usize {
            proof {
                crate::math::lemma_usize_bits();
                crate::math::lemma_pow2_le(usize::BITS as nat, required_order as nat);
                vstd::arithmetic::div_mod::lemma_small_mod(pfn as nat, pow2(required_order as nat) as nat);
            }
            pfn == 0
        } else {
            proof {
                crate::math::lemma_usize_bits();
                crate::math::lemma_pow2_le(required_order as nat, (usize::BITS - 1) as nat);
                vstd::arithmetic::power2::lemma_pow2_unfold(usize::BITS as nat);
            }
            pfn % crate::math::pow2_usize(required_order) == 0
        };
        if !pfn_aligned {
            return Err(AllocError::InvalidParam);
        }
        proof {
            assert(self.placement_ok(base as int, num_pages as int, alignment as int));
        }
        if required_order > DEFAULT_MAX_ORDER {
            proof {
                assert(self.containing_order(*pool, base as int, required_order as int) == NUM_ORDERS);
            }
            return Err(AllocError::NoMemory);
        }
        let ghost ro = required_order as int;
        let ghost p0 = *pool;
        let ghost s0 = *self;
        let ghost f0 = self.free_set(*pool);
        proof {
            // the request's block is aligned to its size
            vstd::arithmetic::div_mod::lemma_fundamental_div_mod(base as int, PAGE_SIZE as int);
            vstd::arithmetic::div_mod::lemma_fundamental_div_mod(pfn as int, pow2(ro as nat) as int);
            let k = (pfn as int) / (pow2(ro as nat) as int);
            assert(base as int == k * block_bytes(ro, PAGE_SIZE as int)) by (nonlinear_arith)
                requires base as int == PAGE_SIZE * (pfn as int), pfn as int == pow2(ro as nat) * k,
                    block_bytes(ro, PAGE_SIZE as int) == pow2(ro as nat) * PAGE_SIZE;
            lemma_block_bytes(ro, PAGE_SIZE as int);
            vstd::arithmetic::div_mod::lemma_mod_multiples_basic(k, block_bytes(ro, PAGE_SIZE as int));
        }
        let mut order = required_order;
        while order <= DEFAULT_MAX_ORDER
            invariant
                *pool == p0,
                *self == s0,
                p0 == *old(pool),
                s0 == *old(self),
                f0 == s0.free_set(p0),
                s0.wf(p0),
                p0.wf(),
                page_size_ok(PAGE_SIZE as int),
                ro == required_order as int,
                ro == crate::math::order_for(num_pages as nat),
                s0.placement_ok(base as int, num_pages as int, alignment as int),
                base as int % block_bytes(ro, PAGE_SIZE as int) == 0,
                ro <= order <= NUM_ORDERS,
                ro <= DEFAULT_MAX_ORDER,
                forall|j: int| ro <= j < order ==> !#[trigger] s0.has_block_at(p0, j, base as int - base as int % block_bytes(j, PAGE_SIZE as int)),
            decreases NUM_ORDERS - order,
        {
            let bs = Self::block_size(order);
            proof {
                assert(base % bs <= base) by (nonlinear_arith) requires bs > 0;
            }
            let block_addr = base - base % bs;
            match self.find_block_in_order(pool, order, block_addr) {
                None => {},
                Some((node_idx, prev_idx)) => {
                    proof {
                        self.lemma_containing_order(p0, base as int, ro, order as int);
                        let v = self.blocks(*pool, order as int);
                        let k = choose|k: int| 0 <= k < v.len() && #[trigger] self.order_ids(order as int)[k] == node_idx
                            && v[k].addr == block_addr && prev_idx == prev_of(self.order_ids(order as int), k);
                        assert(self.block_ok(v[k], order as int));
                        vstd::arithmetic::div_mod::lemma_mod_bound(base as int, bs as int);
                    }
                    let ghost s_r = *self;
                    let ghost p_r = *pool;
                    self.remove_found(pool, order, node_idx, prev_idx, Ghost(block_addr as int));
                    proof {
                        if s0.coalesced(p0) {
                            assert forall|o: int, a: int|
                                #![trigger self.has_block_at(*pool, o, a), self.has_block_at(*pool, o, buddy_addr(a, o, PAGE_SIZE as int))]
                                0 <= o < DEFAULT_MAX_ORDER implies !(self.has_block_at(*pool, o, a) && self.has_block_at(
                                    *pool,
                                    o,
                                    buddy_addr(a, o, PAGE_SIZE as int),
                                )) by {
                                if self.has_block_at(*pool, o, a) && self.has_block_at(*pool, o, buddy_addr(a, o, PAGE_SIZE as int)) {
                                    assert(s0.has_block_at(p0, o, a));
                                    assert(s0.has_block_at(p0, o, buddy_addr(a, o, PAGE_SIZE as int)));
                                }
                            }
                        }
                    }
                    let mut cur_addr = block_addr;
                    let mut cur_order = order;
                    while cur_order > required_order
                        invariant
                            self.wf(*pool),
                            pool.wf(),
                            self.same_fields(&s0),
                            p0 == *old(pool),
                            s0 == *old(self),
                            f0 == s0.free_set(p0),
                            page_size_ok(PAGE_SIZE as int),
                            ro == required_order as int,
                            ro == crate::math::order_for(num_pages as nat),
                            s0.placement_ok(base as int, num_pages as int, alignment as int),
                            s0.containing_order(p0, base as int, ro) == order as int,
                            base as int % block_bytes(ro, PAGE_SIZE as int) == 0,
                            pool_frame(p0, *pool, s0.node_set()),
                            forall|i: usize| #[trigger] self.node_set().contains(i) ==> s0.node_set().contains(i) || p0.is_free(i),
                            pool.nodes_view().len() == p0.nodes_view().len(),
                            ro <= cur_order <= order <= DEFAULT_MAX_ORDER,
                            cur_addr as int % block_bytes(cur_order as int, PAGE_SIZE as int) == 0,
                            cur_addr <= base < cur_addr + block_bytes(cur_order as int, PAGE_SIZE as int),
                            s0.base() <= cur_addr,
                            cur_addr + block_bytes(cur_order as int, PAGE_SIZE as int) <= s0.end(),
                            block_range(cur_addr as int, cur_order as int, PAGE_SIZE as int).subset_of(f0),
                            self.free_set(*pool) == f0.difference(block_range(cur_addr as int, cur_order as int, PAGE_SIZE as int)),
                            pool.free_ids().len() + (order - cur_order) == p0.free_ids().len() + 1,
                            cur_order < order ==> self.has_block_at(
                                *pool,
                                cur_order as int,
                                buddy_addr(cur_addr as int, cur_order as int, PAGE_SIZE as int),
                            ),
                            s0.coalesced(p0) ==> self.coalesced(*pool),
                        decreases cur_order,
                    {
                        let ghost c = cur_order as int;
                        let ghost p_before = *pool;
                        let ghost s_before = *self;
                        let ghost f_before = self.free_set(*pool);
                        cur_order = cur_order - 1;
                        let half = Self::block_size(cur_order);
                        proof {
                            lemma_block_bytes(c, PAGE_SIZE as int);
                            lemma_block_bytes_divides(c - 1, c, PAGE_SIZE as int);
                            crate::math::lemma_mod_trans(cur_addr as int, block_bytes(c, PAGE_SIZE as int), half as int);
                            crate::math::lemma_mod_add(cur_addr as int, half as int, half as int);
                        }
                        let upper = cur_addr + half;
                        let ghost lo = block_range(cur_addr as int, c - 1, PAGE_SIZE as int);
                        let ghost hi = block_range(upper as int, c - 1, PAGE_SIZE as int);
                        let ghost whole = block_range(cur_addr as int, c, PAGE_SIZE as int);
                        proof {
                            assert(whole =~= lo + hi);
                            assert(lo.disjoint(hi));
                        }
                        let (give_addr, keep_addr) = if base >= upper { (cur_addr, upper) } else { (upper, cur_addr) };
                        let success = self.add_block_to_order(pool, cur_order, BuddyBlock { order: cur_order, addr: give_addr });
                        if !success {
                            let _ = self.add_block_to_order(
                                pool,
                                cur_order + 1,
                                BuddyBlock { order: cur_order + 1, addr: cur_addr },
                            );
                            proof {
                                super::global_node_pool::lemma_pool_frame_trans(p0, p_before, *pool, s0.node_set(), s_before.node_set());
                                assert(f_before.subset_of(f0));
                                assert(self.free_set(*pool).subset_of(f0));
                                if s0.coalesced(p0) {
                                    assert forall|o: int, a: int|
                                        #![trigger self.has_block_at(*pool, o, a), self.has_block_at(*pool, o, buddy_addr(a, o, PAGE_SIZE as int))]
                                        0 <= o < DEFAULT_MAX_ORDER implies !(self.has_block_at(*pool, o, a) && self.has_block_at(
                                            *pool,
                                            o,
                                            buddy_addr(a, o, PAGE_SIZE as int),
                                        )) by {
                                        if self.has_block_at(*pool, o, a) && self.has_block_at(*pool, o, buddy_addr(a, o, PAGE_SIZE as int)) {
                                            assert(s_before.has_block_at(p_before, o, a));
                                            assert(s_before.has_block_at(p_before, o, buddy_addr(a, o, PAGE_SIZE as int)));
                                        }
                                    }
                                }
                            }
                            return Err(AllocError::NoMemory);
                        }
                        proof {
                            super::global_node_pool::lemma_pool_frame_trans(p0, p_before, *pool, s0.node_set(), s_before.node_set());
                            let keep = block_range(keep_addr as int, c - 1, PAGE_SIZE as int);
                            assert(self.free_set(*pool) =~= f0.difference(keep));
                            lemma_buddy_align(cur_addr as int, half as int);
                            lemma_block_bytes(c, PAGE_SIZE as int);
                            if base >= upper {
                                assert(upper as int % block_bytes(c, PAGE_SIZE as int) != 0) by {
                                    if upper as int % block_bytes(c, PAGE_SIZE as int) == 0 {
                                        crate::math::lemma_multiples_gap(cur_addr as int, upper as int, block_bytes(c, PAGE_SIZE as int));
                                    }
                                }
                                assert(buddy_addr(upper as int, c - 1, PAGE_SIZE as int) == cur_addr);
                            } else {
                                assert(buddy_addr(cur_addr as int, c - 1, PAGE_SIZE as int) == upper);
                            }
                            if s0.coalesced(p0) {
                                let ps = PAGE_SIZE as int;
                                let j = c - 1;
                                let kp = keep_addr as int;
                                let gv = give_addr as int;
                                assert(kp % block_bytes(j, ps) == 0);
                                assert(gv % block_bytes(j, ps) == 0);
                                lemma_buddy_involution(kp, j, ps);
                                lemma_buddy_involution(gv, j, ps);
                                assert(buddy_addr(gv, j, ps) == kp);
                                assert(!s_before.has_block_at(p_before, j, kp)) by {
                                    if s_before.has_block_at(p_before, j, kp) {
                                        let k = choose|k: int| 0 <= k < s_before.blocks(p_before, j).len() && #[trigger] s_before.blocks(p_before, j)[k].addr == kp;
                                        lemma_block_bytes(j, ps);
                                        s_before.lemma_block_in_free_set(p_before, j, k, kp);
                                        assert(whole.contains(kp));
                                    }
                                }
                                assert forall|o: int, a: int|
                                    #![trigger self.has_block_at(*pool, o, a), self.has_block_at(*pool, o, buddy_addr(a, o, ps))]
                                    0 <= o < DEFAULT_MAX_ORDER implies !(self.has_block_at(*pool, o, a) && self.has_block_at(
                                        *pool,
                                        o,
                                        buddy_addr(a, o, ps),
                                    )) by {
                                    let b = buddy_addr(a, o, ps);
                                    if self.has_block_at(*pool, o, a) && self.has_block_at(*pool, o, b) {
                                        self.lemma_listed_block_ok(*pool, o, a);
                                        lemma_buddy_involution(a, o, ps);
                                        if o == j && a == gv {
                                            assert(b == kp);
                                            assert(s_before.has_block_at(p_before, o, b));
                                        } else if o == j && b == gv {
                                            assert(a == kp);
                                            assert(s_before.has_block_at(p_before, o, a));
                                        } else {
                                            assert(s_before.has_block_at(p_before, o, a));
                                            assert(s_before.has_block_at(p_before, o, b));
                                        }
                                    }
                                }
                            }
                        }
                        cur_addr = keep_addr;
                    }
                    proof {
                        crate::math::lemma_align_down_unique(base as int, cur_addr as int, block_bytes(ro, PAGE_SIZE as int));
                        crate::math::lemma_align_down_unique(base as int, base as int, block_bytes(ro, PAGE_SIZE as int));
                    }
                    return Ok(base);
                },
            }
            order = order + 1;
        }
        proof {
            self.lemma_containing_order(p0, base as int, ro, NUM_ORDERS as int);
        }
        Err(AllocError::NoMemory)
    }
}

impl<const PAGE_SIZE: usize> Default for BuddySet<PAGE_SIZE> {
    fn default() -> (r: Self)
        ensures
            r.base() == 0,
            r.end() == 0,
            r.spec_total_pages() == 0,
            r.spec_zone_id() == 0,
            page_size_ok(PAGE_SIZE as int) ==> forall|p: GlobalNodePool| #[trigger] r.wf(p) && r.free_set(p) == Set::<int>::empty(),
    {
        Self::empty()
    }
}

/// The buddy of the block of order `o` at `addr`: the other half of the
/// block of order `o + 1` that contains it.
pub open spec fn buddy_addr(addr: int, o: int, page_size: int) -> int {
    if addr % block_bytes(o + 1, page_size) == 0 {
        addr + block_bytes(o, page_size)
    } else {
        addr - block_bytes(o, page_size)
    }
}

/// The buddy of a block's buddy is the block, and no block is its own buddy.
pub proof fn lemma_buddy_involution(a: int, o: int, ps: int)
    requires
        0 <= o,
        ps > 0,
        a >= 0,
        a % block_bytes(o, ps) == 0,
    ensures
        buddy_addr(buddy_addr(a, o, ps), o, ps) == a,
        buddy_addr(a, o, ps) != a,
{
    let m = block_bytes(o, ps);
    lemma_block_bytes(o + 1, ps);
    lemma_block_bytes(o, ps);
    assert(block_bytes(o + 1, ps) == 2 * m);
    lemma_buddy_align(a, m);
    let q = a / (2 * m);
    vstd::arithmetic::div_mod::lemma_fundamental_div_mod(a, 2 * m);
    if a % (2 * m) == 0 {
        assert(a + m == (2 * m) * q + m);
        vstd::arithmetic::div_mod::lemma_mod_multiples_vanish(q, m, 2 * m);
        vstd::arithmetic::div_mod::lemma_small_mod(m as nat, (2 * m) as nat);
        assert((a + m) % (2 * m) == m);
    } else {
        assert((a - m) % (2 * m) == 0);
    }
}

/// A block aligned to `m` is either aligned to `2m` or sits `m` past such a block.
pub proof fn lemma_buddy_align(x: int, m: int)
    requires
        m > 0,
        x >= 0,
        x % m == 0,
    ensures
        x % (2 * m) == 0 || (x % (2 * m) == m && x >= m && (x - m) % (2 * m) == 0),
{
    vstd::arithmetic::div_mod::lemma_fundamental_div_mod(x, 2 * m);
    vstd::arithmetic::div_mod::lemma_mod_bound(x, 2 * m);
    let q = x / (2 * m);
    let r = x % (2 * m);
    assert(x == (2 * q) * m + r) by (nonlinear_arith) requires x == (2 * m) * q + r;
    vstd::arithmetic::div_mod::lemma_mod_multiples_basic(2 * q, m);
    crate::math::lemma_mod_add(x, (2 * q) * m, m);
    assert(r % m == 0);
    if r != 0 {
        if r < m {
            vstd::arithmetic::div_mod::lemma_small_mod(r as nat, m as nat);
        }
        if r > m {
            crate::math::lemma_multiples_gap(m, r, m);
        }
        assert(r == m);
        assert(x - m == (2 * m) * q);
        assert(q >= 0) by (nonlinear_arith) requires x == (2 * m) * q + r, r < 2 * m, x >= 0, m > 0;
        assert(x >= m) by (nonlinear_arith) requires x == (2 * m) * q + m, q >= 0, m > 0;
        vstd::arithmetic::div_mod::lemma_mod_multiples_basic(q, 2 * m);
        assert((2 * m) * q == q * (2 * m)) by (nonlinear_arith);
    }
}

impl<const PAGE_SIZE: usize> BuddySet<PAGE_SIZE> {
    /// A release of `num_pages` pages at `addr` that the zone accepts: a
    /// non-empty run, rounded up to a block that lies in the zone, is aligned
    /// to its size and shares no address with free memory.
    pub open spec fn release_ok(&self, pool: GlobalNodePool, addr: int, num_pages: int) -> bool {
        let o = crate::math::order_for(num_pages as nat) as int;
        &&& num_pages > 0
        &&& self.base() <= addr < self.end()
        &&& o <= DEFAULT_MAX_ORDER
        &&& addr % block_bytes(o, PAGE_SIZE as int) == 0
        &&& addr + block_bytes(o, PAGE_SIZE as int) <= self.end()
        &&& block_range(addr, o, PAGE_SIZE as int).disjoint(self.free_set(pool))
    }

    /// What `dealloc_pages` of `num_pages` pages at `addr` does: it turns the
    /// zone `self` over `pool` into `new_s` over `new_p`.
    ///
    /// An accepted release frees the whole block it rounds up to, unless the
    /// pool has no node left for it and it has no free buddy to merge with;
    /// any other release changes nothing.
    pub open spec fn release_outcome(
        &self,
        pool: GlobalNodePool,
        new_s: Self,
        new_p: GlobalNodePool,
        addr: int,
        num_pages: int,
    ) -> bool {
        let o = crate::math::order_for(num_pages as nat) as int;
        let merges = o < DEFAULT_MAX_ORDER && self.has_block_at(pool, o, buddy_addr(addr, o, PAGE_SIZE as int));
        &&& new_s.same_geometry(self)
        &&& !self.release_ok(pool, addr, num_pages) ==> new_s == *self && new_p == pool
        &&& self.release_ok(pool, addr, num_pages) && (pool.free_ids().len() > 0 || merges) ==> new_s.free_set(new_p)
            == self.free_set(pool) + block_range(addr, o, PAGE_SIZE as int)
        &&& self.release_ok(pool, addr, num_pages) && !(pool.free_ids().len() > 0 || merges) ==> new_s.free_set(new_p)
            == self.free_set(pool)
    }

    /// Deallocate pages back to the buddy system, merging free buddies.
    ///
    /// A release that is out of the zone, misaligned or overlaps free memory
    /// (a double free) is ignored. When the node pool is exhausted and the
    /// block has no free buddy to merge with, it cannot be listed and stays
    /// out of the free lists.
    #[verifier::spinoff_prover]
    #[verifier::rlimit(40)]
    pub fn dealloc_pages(&mut self, pool: &mut GlobalNodePool, addr: usize, num_pages: usize)
        requires
            old(self).wf(*old(pool)),
            old(pool).wf(),
        ensures
            final(self).wf(*final(pool)),
            final(pool).wf(),
            pool_frame(*old(pool), *final(pool), old(self).node_set()),
            forall|i: usize| #[trigger] final(self).node_set().contains(i) ==> old(self).node_set().contains(i) || old(pool).is_free(i),
            final(pool).nodes_view().len() == old(pool).nodes_view().len(),
            old(self).release_outcome(*old(pool), *final(self), *final(pool), addr as int, num_pages as int),
            old(self).coalesced(*old(pool)) ==> final(self).coalesced(*final(pool)),
    {
        proof {
            lemma_page_size_ok(PAGE_SIZE as int);
        }
        if num_pages == 0 {
            return;
        }
        if !self.addr_in_zone(addr) {
            return;
        }
        let order = crate::math::order_of(num_pages);
        if order > DEFAULT_MAX_ORDER {
            return;
        }
        let size = Self::block_size(order);
        if addr % size != 0 {
            return;
        }
        if size > self.end_addr - addr {
            return;
        }
        if self.overlaps_free(pool, addr, order) {
            return;
        }
        let ghost p0 = *pool;
        let ghost s0 = *self;
        let ghost f0 = self.free_set(*pool);
        let ghost range = block_range(addr as int, order as int, PAGE_SIZE as int);
        let mut cur = addr;
        let mut ord = order;
        let mut merging = true;
        while merging && ord < DEFAULT_MAX_ORDER
            invariant
                self.wf(*pool),
                pool.wf(),
                self.same_fields(&s0),
                p0 == *old(pool),
                s0 == *old(self),
                f0 == s0.free_set(p0),
                s0.wf(p0),
                page_size_ok(PAGE_SIZE as int),
                range == block_range(addr as int, order as int, PAGE_SIZE as int),
                pool_frame(p0, *pool, s0.node_set()),
                forall|i: usize| #[trigger] self.node_set().contains(i) ==> s0.node_set().contains(i) || p0.is_free(i),
                pool.nodes_view().len() == p0.nodes_view().len(),
                order <= ord <= DEFAULT_MAX_ORDER,
                cur as int % block_bytes(ord as int, PAGE_SIZE as int) == 0,
                s0.base() <= cur,
                cur + block_bytes(ord as int, PAGE_SIZE as int) <= s0.end(),
                block_range(cur as int, ord as int, PAGE_SIZE as int).disjoint(self.free_set(*pool)),
                self.free_set(*pool) + block_range(cur as int, ord as int, PAGE_SIZE as int) == f0 + range,
                ord == order ==> *pool == p0 && *self == s0 && cur == addr,
                ord > order ==> pool.free_ids().len() > 0,
                ord > order ==> order < DEFAULT_MAX_ORDER && s0.has_block_at(p0, order as int, buddy_addr(addr as int, order as int, PAGE_SIZE as int)),
                ord == order && !merging ==> !s0.has_block_at(p0, order as int, buddy_addr(addr as int, order as int, PAGE_SIZE as int)),
                s0.coalesced(p0) ==> self.coalesced(*pool),
                !merging ==> !self.has_block_at(*pool, ord as int, buddy_addr(cur as int, ord as int, PAGE_SIZE as int)),
            decreases DEFAULT_MAX_ORDER - ord, if merging { 1int } else { 0int },
        {
            let bs = Self::block_size(ord);
            let bs2 = Self::block_size(ord + 1);
            proof {
                lemma_block_bytes(ord as int + 1, PAGE_SIZE as int);
                lemma_buddy_align(cur as int, bs as int);
            }
            let upper = cur % bs2 != 0;
            let buddy = if upper { cur - bs } else { cur + bs };
            proof {
                assert(buddy == buddy_addr(cur as int, ord as int, PAGE_SIZE as int));
            }
            let found = if self.addr_in_zone(buddy) { self.find_block_in_order(pool, ord, buddy) } else { None };
            match found {
                Some((node_idx, prev_idx)) => {
                    let ghost p_before = *pool;
                    let ghost s_before = *self;
                    let ghost f_before = self.free_set(*pool);
                    let ghost rc = block_range(cur as int, ord as int, PAGE_SIZE as int);
                    let ghost rb = block_range(buddy as int, ord as int, PAGE_SIZE as int);
                    proof {
                        let v = self.blocks(*pool, ord as int);
                        let k = choose|k: int| 0 <= k < v.len() && #[trigger] self.order_ids(ord as int)[k] == node_idx
                            && v[k].addr == buddy && prev_idx == prev_of(self.order_ids(ord as int), k);
                        assert(self.block_ok(v[k], ord as int));
                        if ord == order {
                            assert(s0.has_block_at(p0, order as int, buddy as int));
                        }
                    }
                    self.remove_found(pool, ord, node_idx, prev_idx, Ghost(buddy as int));
                    proof {
                        if s0.coalesced(p0) {
                            assert forall|o: int, a: int|
                                #![trigger self.has_block_at(*pool, o, a), self.has_block_at(*pool, o, buddy_addr(a, o, PAGE_SIZE as int))]
                                0 <= o < DEFAULT_MAX_ORDER implies !(self.has_block_at(*pool, o, a) && self.has_block_at(
                                    *pool,
                                    o,
                                    buddy_addr(a, o, PAGE_SIZE as int),
                                )) by {
                                if self.has_block_at(*pool, o, a) && self.has_block_at(*pool, o, buddy_addr(a, o, PAGE_SIZE as int)) {
                                    assert(s_before.has_block_at(p_before, o, a));
                                    assert(s_before.has_block_at(p_before, o, buddy_addr(a, o, PAGE_SIZE as int)));
                                }
                            }
                        }
                        super::global_node_pool::lemma_pool_frame_trans(p0, p_before, *pool, s0.node_set(), s_before.node_set());
                        let lo = if upper { buddy } else { cur };
                        let merged = block_range(lo as int, ord as int + 1, PAGE_SIZE as int);
                        assert(merged =~= rc + rb);
                        assert(merged.disjoint(self.free_set(*pool)));
                        assert(self.free_set(*pool) + merged =~= f0 + range);
                        if upper {
                            assert((cur - bs) as int % bs2 as int == 0);
                        }
                    }
                    if upper {
                        cur = buddy;
                    }
                    ord = ord + 1;
                }
                None => {
                    proof {
                        if self.has_block_at(*pool, ord as int, buddy as int) {
                            self.lemma_listed_block_ok(*pool, ord as int, buddy as int);
                        }
                        if ord == order {
                            if s0.has_block_at(p0, order as int, buddy as int) {
                                let v = s0.blocks(p0, order as int);
                                let k = choose|k: int| 0 <= k < v.len() && #[trigger] v[k].addr == buddy;
                                assert(s0.block_ok(v[k], order as int));
                            }
                        }
                    }
                    merging = false;
                }
            }
        }
        let ghost p_before = *pool;
        let ghost s_before = *self;
        let _ = self.add_block_to_order(pool, ord, BuddyBlock { order: ord, addr: cur });
        proof {
            super::global_node_pool::lemma_pool_frame_trans(p0, p_before, *pool, s0.node_set(), s_before.node_set());
            let fb = s_before.free_set(p_before);
            let rc = block_range(cur as int, ord as int, PAGE_SIZE as int);
            if p_before.free_ids().len() > 0 {
                assert(self.free_set(*pool) =~= f0 + range);
            } else {
                assert(ord == order);
                assert(self.free_set(*pool) == f0);
            }
            if s0.coalesced(p0) {
                let ps = PAGE_SIZE as int;
                assert forall|o: int, a: int|
                    #![trigger self.has_block_at(*pool, o, a), self.has_block_at(*pool, o, buddy_addr(a, o, ps))]
                    0 <= o < DEFAULT_MAX_ORDER implies !(self.has_block_at(*pool, o, a) && self.has_block_at(
                        *pool,
                        o,
                        buddy_addr(a, o, ps),
                    )) by {
                    if self.has_block_at(*pool, o, a) && self.has_block_at(*pool, o, buddy_addr(a, o, ps)) {
                        let b = buddy_addr(a, o, ps);
                        self.lemma_listed_block_ok(*pool, o, a);
                        lemma_buddy_involution(a, o, ps);
                        lemma_buddy_involution(cur as int, ord as int, ps);
                        if o == ord && a == cur {
                            assert(s_before.has_block_at(p_before, o, b));
                        } else if o == ord && b == cur {
                            assert(s_before.has_block_at(p_before, o, a));
                            assert(a == buddy_addr(cur as int, ord as int, ps));
                        } else {
                            assert(s_before.has_block_at(p_before, o, a));
                            assert(s_before.has_block_at(p_before, o, b));
                        }
                    }
                }
            }
        }
    }
}

/// Some block of `s` is at `a`.
pub open spec fn has_addr(s: Seq<BuddyBlock>, a: int) -> bool {
    exists|i: int| 0 <= i < s.len() && #[trigger] s[i].addr == a
}

/// Two lists of blocks of one order, both sorted by address, with the
/// same addresses, are the same list.
pub proof fn lemma_sorted_same_addrs(s: Seq<BuddyBlock>, t: Seq<BuddyBlock>, o: usize)
    requires
        sorted_by_addr(s),
        sorted_by_addr(t),
        forall|i: int| 0 <= i < s.len() ==> (#[trigger] s[i]).order == o,
        forall|j: int| 0 <= j < t.len() ==> (#[trigger] t[j]).order == o,
        forall|a: int| #![trigger has_addr(s, a)] #![trigger has_addr(t, a)] has_addr(s, a) <==> has_addr(t, a),
    ensures
        s == t,
    decreases s.len(),
{
    if s.len() == 0 {
        if t.len() > 0 {
            assert(has_addr(t, t[0].addr as int));
        }
        assert(s =~= t);
    } else {
        assert(has_addr(s, s[0].addr as int));
        let j = choose|j: int| 0 <= j < t.len() && #[trigger] t[j].addr == s[0].addr;
        assert(has_addr(t, t[0].addr as int));
        let i = choose|i: int| 0 <= i < s.len() && #[trigger] s[i].addr == t[0].addr;
        if j > 0 {
            assert(t[0].addr < t[j].addr);
            if i > 0 {
                assert(s[0].addr < s[i].addr);
            }
        }
        assert(j == 0);
        assert(s[0] == t[0]);
        let s1 = s.drop_first();
        let t1 = t.drop_first();
        assert forall|a: int| #![trigger has_addr(s1, a)] #![trigger has_addr(t1, a)] has_addr(s1, a) <==> has_addr(t1, a) by {
            if has_addr(s1, a) {
                let i = choose|i: int| 0 <= i < s1.len() && #[trigger] s1[i].addr == a;
                assert(s[i + 1].addr == a);
                assert(has_addr(s, a));
                let j = choose|j: int| 0 <= j < t.len() && #[trigger] t[j].addr == a;
                assert(s[0].addr < s[i + 1].addr);
                if j == 0 {
                    assert(false);
                }
                assert(t1[j - 1].addr == a);
            }
            if has_addr(t1, a) {
                let j = choose|j: int| 0 <= j < t1.len() && #[trigger] t1[j].addr == a;
                assert(t[j + 1].addr == a);
                assert(has_addr(t, a));
                let i = choose|i: int| 0 <= i < s.len() && #[trigger] s[i].addr == a;
                assert(t[0].addr < t[j + 1].addr);
                if i == 0 {
                    assert(false);
                }
                assert(s1[i - 1].addr == a);
            }
        }
        lemma_sorted_same_addrs(s1, t1, o);
        assert(s =~= seq![s[0]] + s1);
        assert(t =~= seq![t[0]] + t1);
    }
}

/// Of two overlapping aligned blocks, the one of higher order holds the other.
pub proof fn lemma_aligned_nested(x: int, o1: int, y: int, o2: int, ps: int)
    requires
        0 <= o2 <= o1,
        ps > 0,
        x % block_bytes(o1, ps) == 0,
        y % block_bytes(o2, ps) == 0,
        x < y + block_bytes(o2, ps),
        y < x + block_bytes(o1, ps),
    ensures
        x <= y,
        y + block_bytes(o2, ps) <= x + block_bytes(o1, ps),
{
    lemma_block_bytes_divides(o2, o1, ps);
    lemma_block_bytes(o2, ps);
    lemma_block_bytes(o1, ps);
    crate::math::lemma_aligned_overlap(y, block_bytes(o2, ps), x, block_bytes(o1, ps));
}

/// The block of order `o + 1` holding an aligned block of order `o`.
pub proof fn lemma_parent(a: int, o: int, ps: int)
    requires
        0 <= o,
        ps > 0,
        a >= 0,
        a % block_bytes(o, ps) == 0,
    ensures
        ({
            let p = a - a % block_bytes(o + 1, ps);
            &&& p % block_bytes(o + 1, ps) == 0
            &&& p <= a
            &&& a + block_bytes(o, ps) <= p + block_bytes(o + 1, ps)
            &&& p >= 0
            &&& buddy_addr(a, o, ps) == (if p == a { a + block_bytes(o, ps) } else { p })
        }),
{
    let m = block_bytes(o, ps);
    lemma_block_bytes(o + 1, ps);
    lemma_block_bytes(o, ps);
    lemma_buddy_align(a, m);
    if a % (2 * m) == 0 {
    } else {
        assert((a - m) % (2 * m) == 0);
    }
}

impl<const PAGE_SIZE: usize> BuddySet<PAGE_SIZE> {
    /// A free aligned region of order `k` can't be made up only of smaller
    /// free blocks: two of them would be free buddies.
    proof fn lemma_region_unsplit(&self, pool: GlobalNodePool, k: int, x: int)
        requires
            self.wf(pool),
            self.coalesced(pool),
            0 <= k <= DEFAULT_MAX_ORDER,
            x >= 0,
            x % block_bytes(k, PAGE_SIZE as int) == 0,
            forall|o: int, i: int|
                0 <= o < NUM_ORDERS && 0 <= i < self.blocks(pool, o).len() && #[trigger] self.blocks(pool, o)[i].addr < x
                    + block_bytes(k, PAGE_SIZE as int) && x < self.blocks(pool, o)[i].addr + block_bytes(o, PAGE_SIZE as int) ==> o
                    < k,
        ensures
            !block_range(x, k, PAGE_SIZE as int).subset_of(self.free_set(pool)),
        decreases k,
    {
        let ps = PAGE_SIZE as int;
        lemma_page_size_ok(ps);
        lemma_block_bytes(k, ps);
        if block_range(x, k, ps).subset_of(self.free_set(pool)) {
            assert(block_range(x, k, ps).contains(x));
            assert(self.covers(pool, x));
            let (o0, i0) = choose|o: int, i: int|
                0 <= o < NUM_ORDERS && 0 <= i < self.blocks(pool, o).len() && #[trigger] self.blocks(pool, o)[i].addr <= x < self.blocks(
                    pool,
                    o,
                )[i].addr + block_bytes(o, ps);
            lemma_block_bytes(o0, ps);
            assert(o0 < k);
            let h = block_bytes(k - 1, ps);
            let x1 = x + h;
            lemma_block_bytes(k - 1, ps);
            lemma_block_bytes_divides(k - 1, k, ps);
            crate::math::lemma_mod_trans(x, block_bytes(k, ps), h);
            crate::math::lemma_mod_add(x, h, h);
            if self.has_block_at(pool, k - 1, x) && self.has_block_at(pool, k - 1, x1) {
                assert(buddy_addr(x, k - 1, ps) == x1);
                assert(!(self.has_block_at(pool, k - 1, x) && self.has_block_at(pool, k - 1, buddy_addr(x, k - 1, ps))));
            } else {
                let y = if !self.has_block_at(pool, k - 1, x) { x } else { x1 };
                assert(!self.has_block_at(pool, k - 1, y));
                assert(y % h == 0);
                assert forall|o: int, i: int|
                    0 <= o < NUM_ORDERS && 0 <= i < self.blocks(pool, o).len() && #[trigger] self.blocks(pool, o)[i].addr < y + h && y
                        < self.blocks(pool, o)[i].addr + block_bytes(o, ps) implies o < k - 1 by {
                    let c = self.blocks(pool, o)[i].addr as int;
                    assert(self.block_ok(self.blocks(pool, o)[i], o));
                    lemma_block_bytes(o, ps);
                    assert(o < k);
                    if o == k - 1 {
                        lemma_aligned_nested(c, o, y, k - 1, ps);
                        assert(self.has_block_at(pool, k - 1, y));
                    }
                }
                assert(block_range(y, k - 1, ps).subset_of(self.free_set(pool))) by {
                    assert forall|z: int| block_range(y, k - 1, ps).contains(z) implies self.free_set(pool).contains(z) by {
                        assert(block_range(x, k, ps).contains(z));
                    }
                }
                self.lemma_region_unsplit(pool, k - 1, y);
            }
        }
    }

    /// In a coalesced zone, no listed block below the largest order lies
    /// with its buddy in free memory.
    proof fn lemma_listed_maximal(&self, pool: GlobalNodePool, o: int, a: int)
        requires
            self.wf(pool),
            self.coalesced(pool),
            0 <= o < DEFAULT_MAX_ORDER,
            self.has_block_at(pool, o, a),
        ensures
            !block_range(a - a % block_bytes(o + 1, PAGE_SIZE as int), o + 1, PAGE_SIZE as int).subset_of(self.free_set(pool)),
    {
        let ps = PAGE_SIZE as int;
        lemma_page_size_ok(ps);
        self.lemma_listed_block_ok(pool, o, a);
        lemma_parent(a, o, ps);
        let p = a - a % block_bytes(o + 1, ps);
        let b = buddy_addr(a, o, ps);
        let m = block_bytes(o, ps);
        lemma_block_bytes(o + 1, ps);
        lemma_block_bytes(o, ps);
        if block_range(p, o + 1, ps).subset_of(self.free_set(pool)) {
            assert(b % m == 0) by {
                if p == a {
                    crate::math::lemma_mod_add(a, m, m);
                } else {
                    lemma_block_bytes_divides(o, o + 1, ps);
                    crate::math::lemma_mod_trans(p, block_bytes(o + 1, ps), m);
                }
            }
            assert(block_range(b, o, ps).subset_of(self.free_set(pool))) by {
                assert forall|z: int| block_range(b, o, ps).contains(z) implies self.free_set(pool).contains(z) by {
                    assert(block_range(p, o + 1, ps).contains(z));
                }
            }
            let ka = choose|k: int| 0 <= k < self.blocks(pool, o).len() && #[trigger] self.blocks(pool, o)[k].addr == a;
            assert forall|o2: int, i: int|
                0 <= o2 < NUM_ORDERS && 0 <= i < self.blocks(pool, o2).len() && #[trigger] self.blocks(pool, o2)[i].addr < b + m
                    && b < self.blocks(pool, o2)[i].addr + block_bytes(o2, ps) implies o2 < o by {
                let c = self.blocks(pool, o2)[i].addr as int;
                assert(self.block_ok(self.blocks(pool, o2)[i], o2));
                lemma_block_bytes(o2, ps);
                if o2 >= o {
                    lemma_aligned_nested(c, o2, b, o, ps);
                    if o2 == o {
                        assert(self.has_block_at(pool, o, b));
                    } else {
                        lemma_aligned_nested(c, o2, p, o + 1, ps);
                        assert(ranges_overlap(
                            self.blocks(pool, o2)[i].addr as int,
                            block_bytes(o2, ps),
                            self.blocks(pool, o)[ka].addr as int,
                            block_bytes(o, ps),
                        ));
                    }
                }
            }
            self.lemma_region_unsplit(pool, o, b);
        }
    }

    /// Two coalesced zones with the same free memory list the same blocks.
    pub proof fn lemma_coalesced_same_blocks(s1: Self, p1: GlobalNodePool, s2: Self, p2: GlobalNodePool, o: int, a: int)
        requires
            s1.wf(p1),
            s2.wf(p2),
            s1.coalesced(p1),
            s2.coalesced(p2),
            s1.free_set(p1) == s2.free_set(p2),
            0 <= o < NUM_ORDERS,
            s1.has_block_at(p1, o, a),
        ensures
            s2.has_block_at(p2, o, a),
    {
        let ps = PAGE_SIZE as int;
        lemma_page_size_ok(ps);
        s1.lemma_listed_block_ok(p1, o, a);
        lemma_block_bytes(o, ps);
        let k = choose|k: int| 0 <= k < s1.blocks(p1, o).len() && #[trigger] s1.blocks(p1, o)[k].addr == a;
        s1.lemma_block_in_free_set(p1, o, k, a);
        assert(s2.covers(p2, a));
        let (o2, i2) = choose|o2: int, i2: int|
            0 <= o2 < NUM_ORDERS && 0 <= i2 < s2.blocks(p2, o2).len() && #[trigger] s2.blocks(p2, o2)[i2].addr <= a < s2.blocks(
                p2,
                o2,
            )[i2].addr + block_bytes(o2, ps);
        let c = s2.blocks(p2, o2)[i2].addr as int;
        assert(s2.block_ok(s2.blocks(p2, o2)[i2], o2));
        lemma_block_bytes(o2, ps);
        if o2 == o {
            lemma_aligned_nested(c, o2, a, o, ps);
            lemma_aligned_nested(a, o, c, o2, ps);
            assert(s2.blocks(p2, o2)[i2].addr == a);
        } else if o2 > o {
            lemma_parent(a, o, ps);
            let p = a - a % block_bytes(o + 1, ps);
            lemma_block_bytes(o + 1, ps);
            lemma_aligned_nested(c, o2, p, o + 1, ps);
            assert(block_range(p, o + 1, ps).subset_of(s1.free_set(p1))) by {
                assert forall|z: int| block_range(p, o + 1, ps).contains(z) implies s1.free_set(p1).contains(z) by {
                    s2.lemma_block_in_free_set(p2, o2, i2, z);
                }
            }
            s1.lemma_listed_maximal(p1, o, a);
        } else {
            lemma_aligned_nested(a, o, c, o2, ps);
            lemma_parent(c, o2, ps);
            let p = c - c % block_bytes(o2 + 1, ps);
            lemma_block_bytes(o2 + 1, ps);
            lemma_aligned_nested(a, o, p, o2 + 1, ps);
            assert(s2.has_block_at(p2, o2, c));
            assert(block_range(p, o2 + 1, ps).subset_of(s2.free_set(p2))) by {
                assert forall|z: int| block_range(p, o2 + 1, ps).contains(z) implies s2.free_set(p2).contains(z) by {
                    s1.lemma_block_in_free_set(p1, o, k, z);
                }
            }
            s2.lemma_listed_maximal(p2, o2, c);
        }
    }

    /// Two coalesced zones with the same free memory have the same free
    /// lists, order by order.
    pub proof fn lemma_same_free_same_lists(s1: Self, p1: GlobalNodePool, s2: Self, p2: GlobalNodePool)
        requires
            s1.wf(p1),
            s2.wf(p2),
            s1.coalesced(p1),
            s2.coalesced(p2),
            s1.free_set(p1) == s2.free_set(p2),
        ensures
            forall|o: int| 0 <= o < NUM_ORDERS ==> #[trigger] s2.blocks(p2, o) == s1.blocks(p1, o),
    {
        assert forall|o: int| 0 <= o < NUM_ORDERS implies #[trigger] s2.blocks(p2, o) == s1.blocks(p1, o) by {
            let b1 = s1.blocks(p1, o);
            let b2 = s2.blocks(p2, o);
            assert(s1.free_lists@[o].wf(p1));
            assert(s2.free_lists@[o].wf(p2));
            assert forall|i: int| 0 <= i < b1.len() implies (#[trigger] b1[i]).order == o as usize by {
                assert(s1.block_ok(b1[i], o));
            }
            assert forall|j: int| 0 <= j < b2.len() implies (#[trigger] b2[j]).order == o as usize by {
                assert(s2.block_ok(b2[j], o));
            }
            assert forall|a: int| #![trigger has_addr(b1, a)] #![trigger has_addr(b2, a)] has_addr(b1, a) <==> has_addr(b2, a) by {
                if has_addr(b1, a) {
                    assert(s1.has_block_at(p1, o, a));
                    Self::lemma_coalesced_same_blocks(s1, p1, s2, p2, o, a);
                }
                if has_addr(b2, a) {
                    assert(s2.has_block_at(p2, o, a));
                    Self::lemma_coalesced_same_blocks(s2, p2, s1, p1, o, a);
                }
            }
            lemma_sorted_same_addrs(b2, b1, o as usize);
        }
    }

    /// Releasing what an allocation handed out, with the same page count,
    /// gives a coalesced zone back the very free lists it had, order by
    /// order: the pieces split off merge back into the block they came from.
    pub proof fn lemma_release_restores_lists(
        s0: Self,
        p0: GlobalNodePool,
        s1: Self,
        p1: GlobalNodePool,
        s2: Self,
        p2: GlobalNodePool,
        num_pages: usize,
        alignment: usize,
        addr: usize,
    )
        requires
            s0.wf(p0),
            s1.wf(p1),
            s2.wf(p2),
            s0.coalesced(p0),
            s2.coalesced(p2),
            s0.alloc_outcome(p0, s1, p1, num_pages as int, alignment as int, Ok(addr)),
            s1.release_outcome(p1, s2, p2, addr as int, num_pages as int),
            align_order(alignment as int, PAGE_SIZE as int) <= crate::math::order_for(num_pages as nat),
        ensures
            forall|o: int| 0 <= o < NUM_ORDERS ==> #[trigger] s2.blocks(p2, o) == s0.blocks(p0, o),
    {
        Self::lemma_release_undoes_alloc(s0, p0, s1, p1, s2, p2, num_pages, alignment, addr);
        Self::lemma_same_free_same_lists(s0, p0, s2, p2);
    }

    /// Releasing what an allocation handed out, with the same page count,
    /// gives the zone back exactly the free memory it had before, provided
    /// the alignment asked for no larger block than the page count does.
    pub proof fn lemma_release_undoes_alloc(
        s0: Self,
        p0: GlobalNodePool,
        s1: Self,
        p1: GlobalNodePool,
        s2: Self,
        p2: GlobalNodePool,
        num_pages: usize,
        alignment: usize,
        addr: usize,
    )
        requires
            s0.wf(p0),
            s1.wf(p1),
            s2.wf(p2),
            s0.alloc_outcome(p0, s1, p1, num_pages as int, alignment as int, Ok(addr)),
            s1.release_outcome(p1, s2, p2, addr as int, num_pages as int),
            align_order(alignment as int, PAGE_SIZE as int) <= crate::math::order_for(num_pages as nat),
        ensures
            s2.free_set(p2) == s0.free_set(p0),
            s2.free_pages() == s0.free_pages(),
    {
        lemma_page_size_ok(PAGE_SIZE as int);
        let o = crate::math::order_for(num_pages as nat) as int;
        let need = needed_order(num_pages as int, alignment as int, PAGE_SIZE as int) as int;
        assert(need == o);
        lemma_block_bytes(o, PAGE_SIZE as int);
        let range = block_range(addr as int, o, PAGE_SIZE as int);
        let f0 = s0.free_set(p0);
        let f1 = s1.free_set(p1);
        assert(num_pages > 0);
        assert(need <= DEFAULT_MAX_ORDER);
        assert(s1.base() <= addr < s1.end());
        assert(range.disjoint(f1));
        assert(s1.release_ok(p1, addr as int, num_pages as int));
        assert(s2.free_set(p2) =~= f0);
        assert(s2.free_pages() * PAGE_SIZE == s0.free_pages() * PAGE_SIZE);
        assert(s2.free_pages() == s0.free_pages()) by (nonlinear_arith)
            requires s2.free_pages() * PAGE_SIZE == s0.free_pages() * PAGE_SIZE, PAGE_SIZE >= 1;
    }
}

impl<const PAGE_SIZE: usize> BuddySet<PAGE_SIZE> {
    /// Releasing the pages a placed allocation handed out, with the same
    /// page count, gives the zone back exactly the free memory it had.
    pub proof fn lemma_release_undoes_alloc_at(
        s0: Self,
        p0: GlobalNodePool,
        s1: Self,
        p1: GlobalNodePool,
        s2: Self,
        p2: GlobalNodePool,
        base: usize,
        num_pages: usize,
        alignment: usize,
    )
        requires
            s0.wf(p0),
            s1.wf(p1),
            s2.wf(p2),
            s0.alloc_at_outcome(p0, s1, p1, base as int, num_pages as int, alignment as int, Ok(base)),
            s1.release_outcome(p1, s2, p2, base as int, num_pages as int),
        ensures
            s2.free_set(p2) == s0.free_set(p0),
            s2.free_pages() == s0.free_pages(),
    {
        lemma_page_size_ok(PAGE_SIZE as int);
        let ro = crate::math::order_for(num_pages as nat) as int;
        lemma_block_bytes(ro, PAGE_SIZE as int);
        let range = block_range(base as int, ro, PAGE_SIZE as int);
        let f0 = s0.free_set(p0);
        let f1 = s1.free_set(p1);
        assert(s0.placement_ok(base as int, num_pages as int, alignment as int));
        assert(range.contains(base as int));
        assert(base as int % block_bytes(ro, PAGE_SIZE as int) == 0) by {
            let pfn = base as int / PAGE_SIZE as int;
            lemma_pow2_pos(ro as nat);
            vstd::arithmetic::div_mod::lemma_fundamental_div_mod(base as int, PAGE_SIZE as int);
            vstd::arithmetic::div_mod::lemma_fundamental_div_mod(pfn, pow2(ro as nat) as int);
            let k = pfn / (pow2(ro as nat) as int);
            assert(base as int == k * block_bytes(ro, PAGE_SIZE as int)) by (nonlinear_arith)
                requires base as int == PAGE_SIZE * pfn + base as int % PAGE_SIZE as int, base as int % PAGE_SIZE as int == 0,
                    pfn == pow2(ro as nat) * k + pfn % (pow2(ro as nat) as int), pfn % (pow2(ro as nat) as int) == 0,
                    block_bytes(ro, PAGE_SIZE as int) == pow2(ro as nat) * PAGE_SIZE;
            vstd::arithmetic::div_mod::lemma_mod_multiples_basic(k, block_bytes(ro, PAGE_SIZE as int));
        }
        s0.lemma_free_in_zone(p0);
        assert(range.contains(base + block_bytes(ro, PAGE_SIZE as int) - 1));
        assert(base + block_bytes(ro, PAGE_SIZE as int) <= s1.end());
        assert(range.disjoint(f1));
        assert(s1.release_ok(p1, base as int, num_pages as int));
        assert(s2.free_set(p2) =~= f0);
        assert(s2.free_pages() * PAGE_SIZE == s0.free_pages() * PAGE_SIZE);
        assert(s2.free_pages() == s0.free_pages()) by (nonlinear_arith)
            requires s2.free_pages() * PAGE_SIZE == s0.free_pages() * PAGE_SIZE, PAGE_SIZE >= 1;
    }

    /// Releasing the pages a placed allocation handed out gives a coalesced
    /// zone back the very free lists it had, order by order.
    pub proof fn lemma_release_restores_lists_at(
        s0: Self,
        p0: GlobalNodePool,
        s1: Self,
        p1: GlobalNodePool,
        s2: Self,
        p2: GlobalNodePool,
        base: usize,
        num_pages: usize,
        alignment: usize,
    )
        requires
            s0.wf(p0),
            s1.wf(p1),
            s2.wf(p2),
            s0.coalesced(p0),
            s2.coalesced(p2),
            s0.alloc_at_outcome(p0, s1, p1, base as int, num_pages as int, alignment as int, Ok(base)),
            s1.release_outcome(p1, s2, p2, base as int, num_pages as int),
        ensures
            forall|o: int| 0 <= o < NUM_ORDERS ==> #[trigger] s2.blocks(p2, o) == s0.blocks(p0, o),
    {
        Self::lemma_release_undoes_alloc_at(s0, p0, s1, p1, s2, p2, base, num_pages, alignment);
        Self::lemma_same_free_same_lists(s0, p0, s2, p2);
    }
}

/// Facts about the size of blocks.
pub proof fn lemma_block_bytes(o: int, ps: int)
    requires
        0 <= o,
        ps > 0,
    ensures
        block_bytes(o, ps) >= ps > 0,
        o > 0 ==> block_bytes(o, ps) == 2 * block_bytes(o - 1, ps),
        block_bytes(o, ps) % ps == 0,
{
    lemma_pow2_pos(o as nat);
    assert(pow2(o as nat) * ps >= ps) by (nonlinear_arith) requires pow2(o as nat) >= 1, ps > 0;
    if o > 0 {
        lemma_pow2_unfold(o as nat);
        assert(pow2(o as nat) * ps == 2 * (pow2((o - 1) as nat) * ps)) by (nonlinear_arith)
            requires pow2(o as nat) == 2 * pow2((o - 1) as nat);
    }
    vstd::arithmetic::div_mod::lemma_mod_multiples_basic(pow2(o as nat) as int, ps);
}

/// Smaller blocks divide larger ones.
pub proof fn lemma_block_bytes_divides(a: int, b: int, ps: int)
    requires
        0 <= a <= b,
        ps > 0,
    ensures
        block_bytes(b, ps) % block_bytes(a, ps) == 0,
        block_bytes(a, ps) <= block_bytes(b, ps),
{
    crate::math::lemma_pow2_divides(a as nat, b as nat);
    crate::math::lemma_pow2_le(a as nat, b as nat);
    lemma_pow2_pos(a as nat);
    let q = pow2((b - a) as nat);
    assert(block_bytes(b, ps) == q * block_bytes(a, ps)) by (nonlinear_arith)
        requires block_bytes(b, ps) == pow2(b as nat) * ps, block_bytes(a, ps) == pow2(a as nat) * ps, pow2(b as nat) == pow2(a as nat) * q;
    assert(block_bytes(a, ps) > 0) by (nonlinear_arith) requires pow2(a as nat) > 0, ps > 0, block_bytes(a, ps) == pow2(a as nat) * ps;
    vstd::arithmetic::div_mod::lemma_mod_multiples_basic(q as int, block_bytes(a, ps));
    assert(block_bytes(a, ps) <= block_bytes(b, ps)) by (nonlinear_arith)
        requires pow2(a as nat) <= pow2(b as nat), ps > 0, block_bytes(b, ps) == pow2(b as nat) * ps, block_bytes(a, ps) == pow2(a as nat) * ps;
}

/// A valid page size is a positive power of two, and the largest block fits a word.
pub proof fn lemma_page_size_ok(ps: int)
    requires page_size_ok(ps),
    ensures
        ps >= 1,
        forall|o: int| 0 <= o <= DEFAULT_MAX_ORDER ==> #[trigger] block_bytes(o, ps) <= usize::MAX,
{
    crate::math::lemma_is_pow2_pos(ps);
    assert forall|o: int| 0 <= o <= DEFAULT_MAX_ORDER implies #[trigger] block_bytes(o, ps) <= usize::MAX by {
        lemma_block_bytes_divides(o, DEFAULT_MAX_ORDER as int, ps);
    }
}

} // verus!
