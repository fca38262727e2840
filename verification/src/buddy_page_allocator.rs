//! A simpler buddy page allocator: 4KiB pages, up to `MAX_ZONES` zones,
//! and in each zone one bounded list of free blocks per order.
//!
//! A freed block merges with its buddy, found by flipping bit `order` of its
//! page frame number, as long as the buddy lies in the zone and is free at
//! that order. A push onto a full list is dropped.
use vstd::prelude::*;
use vstd::arithmetic::power2::pow2;
use crate::{AllocError, AllocResult};
use crate::buddy::buddy_block::{BuddyBlock, ZoneInfo, DEFAULT_MAX_ORDER};
use crate::buddy::linked_list::{ListItem, StaticLinkedList};
use crate::buddy::stats::BuddyStats;
use crate::math::{order_for, round_down, round_up};

verus! {

/// Page size of this allocator.
pub const PAGE_SIZE: usize = 0x1000;

/// Capacity of each free list.
pub const MAX_BLOCKS_PER_LIST: usize = 64;

/// Maximum number of zones.
pub const MAX_ZONES: usize = 8;

/// Bytes a zone leaves free above its end, so that no block reaching past
/// it can overflow an address.
pub open spec fn headroom() -> int {
    pow2(DEFAULT_MAX_ORDER as nat) * PAGE_SIZE
}

/// The first address past block `b`.
pub open spec fn block_end(b: BuddyBlock) -> int {
    b.addr + pow2(b.order as nat) * PAGE_SIZE
}

/// The order of the block `num_pages` pages take, capped at the largest.
pub open spec fn pages_order(num_pages: usize) -> usize {
    if order_for(num_pages as nat) > DEFAULT_MAX_ORDER {
        DEFAULT_MAX_ORDER
    } else {
        order_for(num_pages as nat) as usize
    }
}

/// The first position in `s` of a block at `addr`.
pub open spec fn first_at(s: Seq<BuddyBlock>, addr: int, k: int) -> bool {
    &&& 0 <= k < s.len()
    &&& s[k].addr == addr
    &&& forall|j: int| 0 <= j < k ==> #[trigger] s[j].addr != addr
}

/// No block of `s` is at `addr`.
pub open spec fn none_at(s: Seq<BuddyBlock>, addr: int) -> bool {
    forall|j: int| 0 <= j < s.len() ==> #[trigger] s[j].addr != addr
}

/// `lists` with `b` pushed onto list `o`, unless that list is full.
pub open spec fn push_block(lists: Seq<Seq<BuddyBlock>>, o: int, b: BuddyBlock) -> Seq<Seq<BuddyBlock>> {
    if lists[o].len() < MAX_BLOCKS_PER_LIST {
        lists.update(o, lists[o].push(b))
    } else {
        lists
    }
}

/// The free lists once the block of page frame `pfn` at `order` has
/// merged with its free buddies in a zone `[base, end)`, and the merged
/// block has been pushed.
pub open spec fn merged(base: int, end: int, lists: Seq<Seq<BuddyBlock>>, pfn: usize, order: usize) -> Seq<Seq<BuddyBlock>>
    decreases DEFAULT_MAX_ORDER - order,
{
    let done = push_block(lists, order as int, BuddyBlock { order, addr: (pfn * PAGE_SIZE) as usize });
    if order >= DEFAULT_MAX_ORDER {
        done
    } else {
        let bpfn = pfn ^ (1usize << order);
        let baddr = bpfn * PAGE_SIZE;
        if baddr > usize::MAX || !(base <= baddr < end) {
            done
        } else if exists|k: int| first_at(lists[order as int], baddr, k) {
            let k = choose|k: int| first_at(lists[order as int], baddr, k);
            if lists[order as int][k].order != order {
                done
            } else {
                merged(base, end, lists.update(order as int, lists[order as int].remove(k)), pfn & bpfn, (order + 1) as usize)
            }
        } else {
            done
        }
    }
}

/// The page frame number of the buddy of block `pfn` at order `o`.
pub open spec fn buddy_pfn(pfn: usize, o: int) -> usize {
    pfn ^ (1usize << (o as usize))
}

/// Every list holds blocks of its own order, page aligned, aligned to
/// their order, and starting in the zone `[base, end)`.
pub open spec fn tidy_lists(lists: Seq<Seq<BuddyBlock>>, base: int, end: int) -> bool {
    &&& lists.len() == DEFAULT_MAX_ORDER + 1
    &&& forall|o: int, k: int|
        0 <= o <= DEFAULT_MAX_ORDER && 0 <= k < lists[o].len() ==> {
            let b = #[trigger] lists[o][k];
            &&& b.order == o
            &&& b.addr % PAGE_SIZE == 0
            &&& ((b.addr / PAGE_SIZE) as int) % (pow2(o as nat) as int) == 0
            &&& base <= b.addr < end
        }
}

/// No two free blocks below the largest order are buddies: each would
/// have merged with the other.
pub open spec fn no_buddy_pairs(lists: Seq<Seq<BuddyBlock>>) -> bool {
    forall|o: int, j: int, k: int|
        #![trigger lists[o][j], lists[o][k]]
        0 <= o < DEFAULT_MAX_ORDER && 0 <= j < lists[o].len() && 0 <= k < lists[o].len() ==> lists[o][j].addr / PAGE_SIZE
            != buddy_pfn(lists[o][k].addr / PAGE_SIZE, o)
}

/// The free lists once a block of order `order` at `addr` has been split
/// down to order `want`, each upper half pushed onto the list of its
/// order; and whether every push went through. On a full list the split
/// stops, and the block, at the order it had just been given, goes back
/// onto the list one order up.
pub open spec fn split(lists: Seq<Seq<BuddyBlock>>, addr: usize, order: usize, want: usize) -> (Seq<Seq<BuddyBlock>>, bool)
    decreases order,
{
    if order <= want {
        (lists, true)
    } else {
        let k = (order - 1) as usize;
        let half = BuddyBlock { order: k, addr: (addr + pow2(k as nat) * PAGE_SIZE) as usize };
        if lists[k as int].len() < MAX_BLOCKS_PER_LIST {
            split(lists.update(k as int, lists[k as int].push(half)), addr, k, want)
        } else {
            (push_block(lists, order as int, BuddyBlock { order: k, addr }), false)
        }
    }
}

/// Block `b` starts at a multiple of `alignment`; `0` asks nothing.
pub open spec fn aligned_to(b: BuddyBlock, alignment: usize) -> bool {
    alignment == 0 || b.addr % alignment == 0
}

/// Block `k` of list `o` is the first block aligned to `alignment`: the
/// lists are searched from order `want` up, each front to back.
pub open spec fn first_aligned(lists: Seq<Seq<BuddyBlock>>, want: int, alignment: usize, o: int, k: int) -> bool {
    &&& want <= o <= DEFAULT_MAX_ORDER
    &&& 0 <= k < lists[o].len()
    &&& aligned_to(lists[o][k], alignment)
    &&& forall|j: int| 0 <= j < k ==> !aligned_to(#[trigger] lists[o][j], alignment)
    &&& forall|o2: int, j: int| want <= o2 < o && 0 <= j < lists[o2].len() ==> !aligned_to(#[trigger] lists[o2][j], alignment)
}

/// The free lists after the pages `[0, k)` of a zone `[base, end)` have
/// been freed one by one, in address order, into `lists`.
pub open spec fn freed_pages(base: int, end: int, lists: Seq<Seq<BuddyBlock>>, k: nat) -> Seq<Seq<BuddyBlock>>
    decreases k,
{
    if k == 0 {
        lists
    } else {
        let pfn = ((base + (k - 1) * PAGE_SIZE) / (PAGE_SIZE as int)) as usize;
        merged(base, end, freed_pages(base, end, lists, (k - 1) as nat), pfn, 0)
    }
}

/// The free lists after the `k` pages from `first` on have been freed one
/// by one, in address order, into `lists` of a zone `[base, end)`.
pub open spec fn freed_run(base: int, end: int, lists: Seq<Seq<BuddyBlock>>, first: int, k: nat) -> Seq<Seq<BuddyBlock>>
    decreases k,
{
    if k == 0 {
        lists
    } else {
        let pfn = ((first + (k - 1) * PAGE_SIZE) / (PAGE_SIZE as int)) as usize;
        merged(base, end, freed_run(base, end, lists, first, (k - 1) as nat), pfn, 0)
    }
}

/// The pages the first `n` free lists hold.
pub open spec fn free_pages_in(lists: Seq<Seq<BuddyBlock>>, n: int) -> int
    decreases n,
{
    if n <= 0 {
        0
    } else {
        free_pages_in(lists, n - 1) + lists[n - 1].len() * pow2((n - 1) as nat)
    }
}

/// Block `b` holds the `2^want` pages at `base`, a whole number of such
/// runs past its start.
pub open spec fn holds(b: BuddyBlock, base: int, want: int) -> bool {
    &&& want <= b.order <= DEFAULT_MAX_ORDER
    &&& b.addr <= base
    &&& base + pow2(want as nat) * PAGE_SIZE <= block_end(b)
    &&& (base - b.addr) % (pow2(want as nat) * PAGE_SIZE) as int == 0
}

/// Block `k` of list `o` is the first that holds the pages at `base`:
/// the lists are searched from order `want` up, each front to back.
pub open spec fn first_holding(lists: Seq<Seq<BuddyBlock>>, base: int, want: int, o: int, k: int) -> bool {
    &&& want <= o <= DEFAULT_MAX_ORDER
    &&& 0 <= k < lists[o].len()
    &&& holds(lists[o][k], base, want)
    &&& forall|j: int| 0 <= j < k ==> !holds(#[trigger] lists[o][j], base, want)
    &&& forall|o2: int, j: int| want <= o2 < o && 0 <= j < lists[o2].len() ==> !holds(#[trigger] lists[o2][j], base, want)
}

/// The free lists once a block of order `order` at `addr` has been split
/// down to order `want` around `base`: each half without `base` is pushed
/// onto the list of its order; and whether every push went through. On a
/// full list the split stops and the block goes back onto its own list.
pub open spec fn split_toward(lists: Seq<Seq<BuddyBlock>>, addr: usize, order: usize, want: usize, base: int) -> (
    Seq<Seq<BuddyBlock>>,
    bool,
)
    decreases order,
{
    if order <= want {
        (lists, true)
    } else {
        let k = (order - 1) as usize;
        let half = pow2(k as nat) * PAGE_SIZE;
        let keep = if base < addr + half { addr as int } else { addr + half };
        let other = if base < addr + half { addr + half } else { addr as int };
        if lists[k as int].len() < MAX_BLOCKS_PER_LIST {
            split_toward(lists.update(k as int, lists[k as int].push(BuddyBlock { order: k, addr: other as usize })), keep as usize, k, want, base)
        } else {
            (push_block(lists, order as int, BuddyBlock { order, addr }), false)
        }
    }
}

/// A memory region: its first address and its size in bytes.
#[derive(Debug, Clone)]
pub struct MemoryRegion {
    pub start_addr: usize,
    pub size: usize,
}

/// One zone: its free lists, one per order.
pub struct BuddySet {
    base_addr: usize,
    end_addr: usize,
    total_pages: usize,
    zone_id: usize,
    free_lists: Vec<StaticLinkedList<BuddyBlock, MAX_BLOCKS_PER_LIST>>,
}

impl BuddySet {
    /// First address of the zone.
    pub closed spec fn base(&self) -> usize {
        self.base_addr
    }

    /// First address past the zone.
    pub closed spec fn end(&self) -> usize {
        self.end_addr
    }

    /// Pages in the zone.
    pub closed spec fn pages(&self) -> usize {
        self.total_pages
    }

    /// Index of the zone.
    pub closed spec fn id(&self) -> usize {
        self.zone_id
    }

    /// The free lists, by order, front to back.
    pub closed spec fn lists(&self) -> Seq<Seq<BuddyBlock>> {
        Seq::new(self.free_lists@.len(), |o: int| self.free_lists@[o]@)
    }

    /// One list per order; the zone sits low enough in the address space
    /// for every block, which ends within the headroom past the zone.
    pub closed spec fn wf(&self) -> bool {
        &&& self.free_lists@.len() == DEFAULT_MAX_ORDER + 1
        &&& self.end_addr + headroom() <= usize::MAX
        &&& self.base_addr <= self.end_addr
        &&& self.total_pages * PAGE_SIZE <= self.end_addr
        &&& forall|o: int| 0 <= o <= DEFAULT_MAX_ORDER ==> #[trigger] self.lists()[o].len() <= MAX_BLOCKS_PER_LIST
        &&& forall|o: int, k: int|
            0 <= o <= DEFAULT_MAX_ORDER && 0 <= k < self.lists()[o].len() ==> {
                let b = #[trigger] self.lists()[o][k];
                &&& b.order <= DEFAULT_MAX_ORDER
                &&& block_end(b) <= self.end_addr + headroom()
            }
    }

    /// The free lists hold blocks of their own order, aligned to it, in
    /// the zone.
    pub open spec fn tidy(&self) -> bool {
        tidy_lists(self.lists(), self.base() as int, self.end() as int)
    }

    /// No two free blocks of an order below the largest are buddies.
    pub open spec fn no_free_buddies(&self) -> bool {
        no_buddy_pairs(self.lists())
    }

    /// `addr` lies in the zone.
    pub open spec fn spec_in_zone(&self, addr: int) -> bool {
        self.base() <= addr < self.end()
    }

    /// `dealloc_pages(addr, num_pages)` returns the block: a page-aligned
    /// address in the zone, aligned to the block's order.
    pub open spec fn frees(&self, addr: usize, num_pages: usize) -> bool {
        let pfn = addr / PAGE_SIZE;
        &&& num_pages > 0
        &&& self.spec_in_zone(addr as int)
        &&& (pfn as int) % (pow2(pages_order(num_pages) as nat) as int) == 0
        &&& addr % PAGE_SIZE == 0
    }

    /// `after` is this zone once `dealloc_pages(addr, num_pages)` has run.
    pub open spec fn dealloc_effect(&self, after: &Self, addr: usize, num_pages: usize) -> bool {
        &&& after.base() == self.base()
        &&& after.end() == self.end()
        &&& after.pages() == self.pages()
        &&& after.id() == self.id()
        &&& self.frees(addr, num_pages) ==> after.lists() == merged(
            self.base() as int,
            self.end() as int,
            self.lists(),
            addr / PAGE_SIZE,
            pages_order(num_pages),
        )
        &&& !self.frees(addr, num_pages) ==> after.lists() == self.lists()
    }

    /// `after` is this zone once `alloc_pages(num_pages, alignment)` has
    /// returned `r`: the first block aligned to `alignment`, searching the
    /// lists from the order `num_pages` need up, each front to back, is
    /// taken off its list and split down to that order.
    pub open spec fn alloc_effect(&self, after: &Self, num_pages: usize, alignment: usize, r: AllocResult<usize>) -> bool {
        let want = pages_order(num_pages) as int;
        &&& after.base() == self.base()
        &&& after.end() == self.end()
        &&& after.pages() == self.pages()
        &&& after.id() == self.id()
        &&& num_pages == 0 ==> r == Err::<usize, AllocError>(AllocError::InvalidParam) && after.lists() == self.lists()
        &&& num_pages > 0 && (forall|o: int, j: int|
            want <= o <= DEFAULT_MAX_ORDER && 0 <= j < self.lists()[o].len() ==> !aligned_to(#[trigger] self.lists()[o][j], alignment))
            ==> r == Err::<usize, AllocError>(AllocError::NoMemory) && after.lists() == self.lists()
        &&& forall|o: int, k: int| num_pages > 0 && #[trigger] first_aligned(self.lists(), want, alignment, o, k) ==> {
            let b = self.lists()[o][k];
            let rest = self.lists().update(o, self.lists()[o].remove(k));
            let (l2, ok) = split(rest, b.addr, b.order, want as usize);
            &&& after.lists() == l2
            &&& ok ==> r == Ok::<usize, AllocError>(b.addr)
            &&& !ok ==> r == Err::<usize, AllocError>(AllocError::NoMemory)
        }
        &&& r matches Ok(a) ==> alignment == 0 || a % alignment == 0
    }

    /// `alloc_pages_at(base, num_pages, alignment)` can be asked: pages to
    /// take, at a page-aligned base aligned to their block's order and to a
    /// nonzero `alignment`, no more than the largest block holds.
    pub open spec fn at_ok(base: usize, num_pages: usize, alignment: usize) -> bool {
        &&& num_pages > 0
        &&& order_for(num_pages as nat) <= DEFAULT_MAX_ORDER
        &&& base % PAGE_SIZE == 0
        &&& ((base / PAGE_SIZE) as int) % (pow2(order_for(num_pages as nat)) as int) == 0
        &&& alignment == 0 || base % alignment == 0
    }

    /// `after` is this zone once `alloc_pages_at(base, num_pages, alignment)`
    /// has returned `r`: the first free block holding the pages at `base`
    /// is taken off its list and split down around them, and `base` is
    /// handed out.
    pub open spec fn alloc_at_effect(&self, after: &Self, base: usize, num_pages: usize, alignment: usize, r: AllocResult<usize>) -> bool {
        let want = pages_order(num_pages) as int;
        &&& after.base() == self.base()
        &&& after.end() == self.end()
        &&& after.pages() == self.pages()
        &&& after.id() == self.id()
        &&& !Self::at_ok(base, num_pages, alignment) ==> r == Err::<usize, AllocError>(AllocError::InvalidParam) && after.lists()
            == self.lists()
        &&& Self::at_ok(base, num_pages, alignment) && (forall|o: int, j: int|
            want <= o <= DEFAULT_MAX_ORDER && 0 <= j < self.lists()[o].len() ==> !holds(#[trigger] self.lists()[o][j], base as int, want))
            ==> r == Err::<usize, AllocError>(AllocError::NoMemory) && after.lists() == self.lists()
        &&& forall|o: int, k: int| Self::at_ok(base, num_pages, alignment) && #[trigger] first_holding(self.lists(), base as int, want, o, k) ==> {
            let b = self.lists()[o][k];
            let rest = self.lists().update(o, self.lists()[o].remove(k));
            let (l2, ok) = split_toward(rest, b.addr, b.order, want as usize, base as int);
            &&& after.lists() == l2
            &&& ok ==> r == Ok::<usize, AllocError>(base)
            &&& !ok ==> r == Err::<usize, AllocError>(AllocError::NoMemory)
        }
    }

    /// A zone over `[base_addr, base_addr + size)` with empty free lists.
    pub fn new(base_addr: usize, size: usize, zone_id: usize) -> (r: Self)
        requires
            base_addr + size <= usize::MAX,
        ensures
            base_addr + size + headroom() <= usize::MAX ==> r.wf(),
            r.base() == base_addr,
            r.end() == base_addr + size,
            r.pages() == size / PAGE_SIZE,
            r.id() == zone_id,
            forall|o: int| 0 <= o <= DEFAULT_MAX_ORDER ==> #[trigger] r.lists()[o].len() == 0,
            r.tidy(),
            r.no_free_buddies(),
    {
        let mut free_lists: Vec<StaticLinkedList<BuddyBlock, MAX_BLOCKS_PER_LIST>> = Vec::new();
        let mut o: usize = 0;
        while o <= DEFAULT_MAX_ORDER
            invariant
                o <= DEFAULT_MAX_ORDER + 1,
                free_lists@.len() == o,
                forall|j: int| 0 <= j < o ==> (#[trigger] free_lists@[j])@.len() == 0,
            decreases DEFAULT_MAX_ORDER + 1 - o,
        {
            free_lists.push(StaticLinkedList::new());
            o = o + 1;
        }
        BuddySet { base_addr, end_addr: base_addr + size, total_pages: size / PAGE_SIZE, zone_id, free_lists }
    }

    /// An empty zone at address zero.
    pub fn empty() -> (r: Self)
        ensures
            headroom() <= usize::MAX ==> r.wf(),
            r.base() == 0,
            r.end() == 0,
            r.pages() == 0,
            r.id() == 0,
    {
        Self::new(0, 0, 0)
    }

    /// The largest order.
    pub fn max_order(&self) -> (r: usize)
        ensures
            r == DEFAULT_MAX_ORDER,
    {
        DEFAULT_MAX_ORDER
    }

    /// Check if an address belongs to this zone.
    pub fn addr_in_zone(&self, addr: usize) -> (r: bool)
        ensures
            r == self.spec_in_zone(addr as int),
    {
        addr >= self.base_addr && addr < self.end_addr
    }

    /// Get zone information.
    pub fn zone_info(&self) -> (r: ZoneInfo)
        ensures
            r.start_addr == self.base(),
            r.end_addr == self.end(),
            r.total_pages == self.pages(),
            r.zone_id == self.id(),
    {
        ZoneInfo { start_addr: self.base_addr, end_addr: self.end_addr, total_pages: self.total_pages, zone_id: self.zone_id }
    }

    /// Allocate the block `num_pages` pages need, at an address aligned to
    /// `alignment` bytes (`0` asks no alignment): the first aligned block,
    /// searching the lists from that order up, each front to back, is taken
    /// off its list and split down to the order, keeping its lower half.
    pub fn alloc_pages(&mut self, num_pages: usize, alignment: usize) -> (r: AllocResult<usize>)
        requires
            old(self).wf(),
        ensures
            final(self).wf(),
            old(self).alloc_effect(&*final(self), num_pages, alignment, r),
    {
        if num_pages == 0 {
            return Err(AllocError::InvalidParam);
        }
        let o = crate::math::order_of(num_pages);
        let required_order = if o < DEFAULT_MAX_ORDER {
            o
        } else {
            DEFAULT_MAX_ORDER
        };
        let mut order = required_order;
        while order <= DEFAULT_MAX_ORDER
            invariant
                *self == *old(self),
                self.wf(),
                num_pages > 0,
                required_order == pages_order(num_pages),
                required_order <= order <= DEFAULT_MAX_ORDER + 1,
                forall|o2: int, j: int|
                    required_order <= o2 < order && 0 <= j < self.lists()[o2].len() ==> !aligned_to(#[trigger] self.lists()[o2][j], alignment),
            decreases DEFAULT_MAX_ORDER + 1 - order,
        {
            let len = self.free_lists[order].len();
            let mut k: usize = 0;
            while k < len
                invariant
                    *self == *old(self),
                    self.wf(),
                    num_pages > 0,
                    required_order == pages_order(num_pages),
                    required_order <= order <= DEFAULT_MAX_ORDER,
                    len == self.lists()[order as int].len(),
                    k <= len,
                    forall|o2: int, j: int|
                        required_order <= o2 < order && 0 <= j < self.lists()[o2].len() ==> !aligned_to(#[trigger] self.lists()[o2][j], alignment),
                    forall|j: int| 0 <= j < k ==> !aligned_to(#[trigger] self.lists()[order as int][j], alignment),
                decreases len - k,
            {
                let b = match self.free_lists[order].get(k) {
                    Some(b) => *b,
                    None => {
                        return Err(AllocError::NoMemory);
                    },
                };
                let ghost l0 = self.lists();
                let ghost o0 = order as int;
                let ghost k0 = k as int;
                proof {
                    assert(b == l0[o0][k0]);
                }
                if alignment == 0 || b.addr % alignment == 0 {
                    proof {
                        assert(first_aligned(l0, required_order as int, alignment, o0, k0));
                        assert forall|o2: int, k2: int| #[trigger] first_aligned(l0, required_order as int, alignment, o2, k2) implies o2
                            == o0 && k2 == k0 by {
                            if o2 > o0 {
                                assert(!aligned_to(l0[o0][k0], alignment));
                            } else if o2 == o0 && k2 > k0 {
                                assert(!aligned_to(l0[o0][k0], alignment));
                            }
                        }
                    }
                    self.free_lists[order].remove(k);
                    proof {
                        assert(self.lists() =~= l0.update(o0, l0[o0].remove(k0)));
                        assert(b.order <= DEFAULT_MAX_ORDER);
                        assert(block_end(b) <= self.end_addr + headroom());
                        assert forall|o2: int, k2: int|
                            0 <= o2 <= DEFAULT_MAX_ORDER && 0 <= k2 < self.lists()[o2].len() implies {
                                let c = #[trigger] self.lists()[o2][k2];
                                &&& c.order <= DEFAULT_MAX_ORDER
                                &&& block_end(c) <= self.end_addr + headroom()
                            } by {
                            if o2 == o0 && k2 >= k0 {
                                assert(self.lists()[o2][k2] == l0[o2][k2 + 1]);
                            } else {
                                assert(self.lists()[o2][k2] == l0[o2][k2]);
                            }
                        }
                    }
                    let ghost rest = self.lists();
                    let mut block = b;
                    while block.order > required_order
                        invariant
                            old(self).lists() == l0,
                            num_pages > 0,
                            required_order == pages_order(num_pages),
                            first_aligned(l0, required_order as int, alignment, o0, k0),
                            forall|o2: int, k2: int| #[trigger] first_aligned(l0, required_order as int, alignment, o2, k2) ==> o2 == o0
                                && k2 == k0,
                            rest == l0.update(o0, l0[o0].remove(k0)),
                            b == l0[o0][k0],
                            self.wf(),
                            self.base_addr == old(self).base_addr,
                            self.end_addr == old(self).end_addr,
                            self.total_pages == old(self).total_pages,
                            self.zone_id == old(self).zone_id,
                            block.addr == b.addr,
                            block.order <= DEFAULT_MAX_ORDER,
                            block_end(block) <= self.end_addr + headroom(),
                            split(rest, b.addr, b.order, required_order) == split(self.lists(), block.addr, block.order, required_order),
                        decreases block.order,
                    {
                        proof {
                            lemma_headroom();
                            lemma_shift_pow2((block.order - 1) as usize);
                            vstd::arithmetic::power2::lemma_pow2_unfold(block.order as nat);
                        }
                        block.order = block.order - 1;
                        let split_size = (1usize << block.order) * PAGE_SIZE;
                        let buddy_addr = block.addr + split_size;
                        let half = BuddyBlock { order: block.order, addr: buddy_addr };
                        let ghost lists = self.lists();
                        let success = self.free_lists[block.order].push_back(half);
                        if !success {
                            let _ = self.free_lists[block.order + 1].push_back(block);
                            proof {
                                assert(self.lists() =~= push_block(lists, block.order + 1, block));
                                assert(split(lists, block.addr, (block.order + 1) as usize, required_order) == (self.lists(), false));
                                assert forall|o2: int, k2: int|
                                    0 <= o2 <= DEFAULT_MAX_ORDER && 0 <= k2 < self.lists()[o2].len() implies {
                                        let c = #[trigger] self.lists()[o2][k2];
                                        &&& c.order <= DEFAULT_MAX_ORDER
                                        &&& block_end(c) <= self.end_addr + headroom()
                                    } by {
                                    if !(o2 == block.order + 1 && k2 == lists[o2].len()) {
                                        assert(self.lists()[o2][k2] == lists[o2][k2]);
                                    }
                                }
                            }
                            return Err(AllocError::NoMemory);
                        }
                        proof {
                            assert(self.lists() =~= lists.update(block.order as int, lists[block.order as int].push(half)));
                            assert forall|o2: int, k2: int|
                                0 <= o2 <= DEFAULT_MAX_ORDER && 0 <= k2 < self.lists()[o2].len() implies {
                                    let c = #[trigger] self.lists()[o2][k2];
                                    &&& c.order <= DEFAULT_MAX_ORDER
                                    &&& block_end(c) <= self.end_addr + headroom()
                                } by {
                                if !(o2 == block.order && k2 == lists[o2].len()) {
                                    assert(self.lists()[o2][k2] == lists[o2][k2]);
                                }
                            }
                        }
                    }
                    proof {
                        assert(split(self.lists(), block.addr, block.order, required_order) == (self.lists(), true));
                    }
                    return Ok(block.addr);
                }
                k = k + 1;
            }
            order = order + 1;
        }
        Err(AllocError::NoMemory)
    }

    /// Allocate the `num_pages` pages at `base`.
    ///
    /// The first free block holding them, searching from the order they
    /// need up, is taken off its list and split down around them.
    pub fn alloc_pages_at(&mut self, base: usize, num_pages: usize, alignment: usize) -> (r: AllocResult<usize>)
        requires
            old(self).wf(),
        ensures
            final(self).wf(),
            old(self).alloc_at_effect(&*final(self), base, num_pages, alignment, r),
    {
        if num_pages == 0 || base % PAGE_SIZE != 0 || (alignment > 0 && base % alignment != 0) {
            return Err(AllocError::InvalidParam);
        }
        let want = crate::math::order_of(num_pages);
        if want > DEFAULT_MAX_ORDER {
            return Err(AllocError::InvalidParam);
        }
        proof {
            lemma_headroom();
            lemma_shift_pow2(want);
            crate::math::lemma_pow2_le(want as nat, DEFAULT_MAX_ORDER as nat);
            vstd::arithmetic::power2::lemma_pow2_pos(want as nat);
        }
        let run = 1usize << want;
        if (base / PAGE_SIZE) % run != 0 {
            return Err(AllocError::InvalidParam);
        }
        let want_bytes = run * PAGE_SIZE;
        let mut order = want;
        while order <= DEFAULT_MAX_ORDER
            invariant
                *self == *old(self),
                self.wf(),
                Self::at_ok(base, num_pages, alignment),
                want == pages_order(num_pages),
                want <= order <= DEFAULT_MAX_ORDER + 1,
                want_bytes == pow2(want as nat) * PAGE_SIZE,
                want_bytes > 0,
                forall|o2: int, j: int|
                    want <= o2 < order && 0 <= j < self.lists()[o2].len() ==> !holds(#[trigger] self.lists()[o2][j], base as int, want as int),
            decreases DEFAULT_MAX_ORDER + 1 - order,
        {
            let len = self.free_lists[order].len();
            let mut k: usize = 0;
            while k < len
                invariant
                    *self == *old(self),
                    self.wf(),
                    Self::at_ok(base, num_pages, alignment),
                    want == pages_order(num_pages),
                    want <= order <= DEFAULT_MAX_ORDER,
                    want_bytes == pow2(want as nat) * PAGE_SIZE,
                    want_bytes > 0,
                    len == self.lists()[order as int].len(),
                    k <= len,
                    forall|o2: int, j: int|
                        want <= o2 < order && 0 <= j < self.lists()[o2].len() ==> !holds(#[trigger] self.lists()[o2][j], base as int, want as int),
                    forall|j: int| 0 <= j < k ==> !holds(#[trigger] self.lists()[order as int][j], base as int, want as int),
                decreases len - k,
            {
                let b = match self.free_lists[order].get(k) {
                    Some(b) => *b,
                    None => {
                        return Err(AllocError::NoMemory);
                    },
                };
                let ghost l0 = self.lists();
                proof {
                    assert(b == l0[order as int][k as int]);
                    assert(b.order <= DEFAULT_MAX_ORDER && block_end(b) <= self.end_addr + headroom());
                }
                let hit = if b.order >= want && b.order <= DEFAULT_MAX_ORDER && b.addr <= base {
                    proof {
                        lemma_shift_pow2(b.order);
                        crate::math::lemma_pow2_le(want as nat, b.order as nat);
                        crate::math::lemma_pow2_le(b.order as nat, DEFAULT_MAX_ORDER as nat);
                        assert(pow2(want as nat) * PAGE_SIZE <= pow2(b.order as nat) * PAGE_SIZE) by (nonlinear_arith)
                            requires pow2(want as nat) <= pow2(b.order as nat);
                        assert(pow2(b.order as nat) * PAGE_SIZE <= pow2(DEFAULT_MAX_ORDER as nat) * PAGE_SIZE) by (nonlinear_arith)
                            requires pow2(b.order as nat) <= pow2(DEFAULT_MAX_ORDER as nat);
                    }
                    let bb = (1usize << b.order) * PAGE_SIZE;
                    base - b.addr <= bb - want_bytes && (base - b.addr) % want_bytes == 0
                } else {
                    false
                };
                if hit {
                    proof {
                        assert(holds(b, base as int, want as int));
                        assert(first_holding(l0, base as int, want as int, order as int, k as int));
                        assert forall|o2: int, k2: int| #[trigger] first_holding(l0, base as int, want as int, o2, k2) implies o2
                            == order && k2 == k by {
                            if o2 > order {
                                assert(!holds(l0[order as int][k as int], base as int, want as int));
                            } else if o2 == order && k2 > k {
                                assert(!holds(l0[order as int][k as int], base as int, want as int));
                            }
                        }
                    }
                    self.free_lists[order].remove(k);
                    let ghost rest = self.lists();
                    proof {
                        assert(rest =~= l0.update(order as int, l0[order as int].remove(k as int)));
                        assert forall|o2: int, k2: int|
                            0 <= o2 <= DEFAULT_MAX_ORDER && 0 <= k2 < self.lists()[o2].len() implies {
                                let c = #[trigger] self.lists()[o2][k2];
                                &&& c.order <= DEFAULT_MAX_ORDER
                                &&& block_end(c) <= self.end_addr + headroom()
                            } by {
                            if o2 == order && k2 >= k {
                                assert(self.lists()[o2][k2] == l0[o2][k2 + 1]);
                            } else {
                                assert(self.lists()[o2][k2] == l0[o2][k2]);
                            }
                        }
                    }
                    let mut block = b;
                    while block.order > want
                        invariant
                            Self::at_ok(base, num_pages, alignment),
                            want == pages_order(num_pages),
                            first_holding(old(self).lists(), base as int, want as int, order as int, k as int),
                            forall|o2: int, k3: int| #[trigger] first_holding(old(self).lists(), base as int, want as int, o2, k3)
                                ==> o2 == order && k3 == k,
                            b == old(self).lists()[order as int][k as int],
                            rest == old(self).lists().update(order as int, old(self).lists()[order as int].remove(k as int)),
                            self.wf(),
                            self.base_addr == old(self).base_addr,
                            self.end_addr == old(self).end_addr,
                            self.total_pages == old(self).total_pages,
                            self.zone_id == old(self).zone_id,
                            want <= block.order <= DEFAULT_MAX_ORDER,
                            block_end(block) <= self.end_addr + headroom(),
                            holds(block, base as int, want as int),
                            want_bytes == pow2(want as nat) * PAGE_SIZE,
                            want_bytes > 0,
                            split_toward(rest, b.addr, b.order, want, base as int) == split_toward(
                                self.lists(),
                                block.addr,
                                block.order,
                                want,
                                base as int,
                            ),
                        decreases block.order,
                    {
                        let k2 = block.order - 1;
                        proof {
                            lemma_headroom();
                            lemma_shift_pow2(k2);
                            vstd::arithmetic::power2::lemma_pow2_unfold(block.order as nat);
                            crate::math::lemma_pow2_le(want as nat, k2 as nat);
                            lemma_holds_half(block, base as int, want as int);
                        }
                        let half = (1usize << k2) * PAGE_SIZE;
                        let lower = base < block.addr + half;
                        let keep = if lower { block.addr } else { block.addr + half };
                        let other = if lower { block.addr + half } else { block.addr };
                        let ghost lists = self.lists();
                        let success = self.free_lists[k2].push_back(BuddyBlock { order: k2, addr: other });
                        if !success {
                            let _ = self.free_lists[block.order].push_back(block);
                            proof {
                                assert(self.lists() =~= push_block(lists, block.order as int, block));
                                assert(split_toward(lists, block.addr, block.order, want, base as int) == (self.lists(), false));
                                assert forall|o2: int, j2: int|
                                    0 <= o2 <= DEFAULT_MAX_ORDER && 0 <= j2 < self.lists()[o2].len() implies {
                                        let c = #[trigger] self.lists()[o2][j2];
                                        &&& c.order <= DEFAULT_MAX_ORDER
                                        &&& block_end(c) <= self.end_addr + headroom()
                                    } by {
                                    if !(o2 == block.order && j2 == lists[o2].len()) {
                                        assert(self.lists()[o2][j2] == lists[o2][j2]);
                                    }
                                }
                            }
                            return Err(AllocError::NoMemory);
                        }
                        proof {
                            assert(self.lists() =~= lists.update(k2 as int, lists[k2 as int].push(BuddyBlock { order: k2, addr: other })));
                            assert forall|o2: int, j2: int|
                                0 <= o2 <= DEFAULT_MAX_ORDER && 0 <= j2 < self.lists()[o2].len() implies {
                                    let c = #[trigger] self.lists()[o2][j2];
                                    &&& c.order <= DEFAULT_MAX_ORDER
                                    &&& block_end(c) <= self.end_addr + headroom()
                                } by {
                                if !(o2 == k2 && j2 == lists[o2].len()) {
                                    assert(self.lists()[o2][j2] == lists[o2][j2]);
                                }
                            }
                        }
                        proof {
                            assert(split_toward(lists, block.addr, block.order, want, base as int) == split_toward(
                                self.lists(),
                                keep,
                                k2,
                                want,
                                base as int,
                            ));
                        }
                        block = BuddyBlock { order: k2, addr: keep };
                    }
                    proof {
                        assert(split_toward(self.lists(), block.addr, block.order, want, base as int) == (self.lists(), true));
                        assert(block.addr == base) by (nonlinear_arith)
                            requires block.addr <= base, base + want_bytes <= block.addr + pow2(block.order as nat) * PAGE_SIZE,
                                block.order == want, want_bytes == pow2(want as nat) * PAGE_SIZE;
                    }
                    return Ok(base);
                }
                k = k + 1;
            }
            order = order + 1;
        }
        Err(AllocError::NoMemory)
    }

    /// Initialize the zone with the page-aligned hull of
    /// `[base_addr, base_addr + size)`: the free lists are emptied and every
    /// page freed, lowest first.
    pub fn init(&mut self, base_addr: usize, size: usize)
        requires
            old(self).wf(),
            base_addr + size + PAGE_SIZE <= usize::MAX,
            round_up(base_addr + size, PAGE_SIZE as int) + headroom() <= usize::MAX,
            round_up(base_addr + size, PAGE_SIZE as int) - round_down(base_addr as int, PAGE_SIZE as int) >= PAGE_SIZE,
        ensures
            final(self).wf(),
            final(self).base() == round_down(base_addr as int, PAGE_SIZE as int),
            final(self).end() == round_up(base_addr + size, PAGE_SIZE as int),
            final(self).pages() == (final(self).end() - final(self).base()) / PAGE_SIZE as int,
            final(self).id() == old(self).id(),
            final(self).lists() == freed_pages(
                final(self).base() as int,
                final(self).end() as int,
                Seq::new((DEFAULT_MAX_ORDER + 1) as nat, |o: int| Seq::<BuddyBlock>::empty()),
                final(self).pages() as nat,
            ),
            final(self).tidy(),
            final(self).no_free_buddies(),
    {
        proof {
            crate::math::lemma_round_up((base_addr + size) as int, PAGE_SIZE as int);
        }
        let aligned_base = crate::align_down(base_addr, PAGE_SIZE);
        let aligned_end = crate::align_up(base_addr + size, PAGE_SIZE);
        let aligned_size = aligned_end - aligned_base;
        self.base_addr = aligned_base;
        self.end_addr = aligned_end;
        self.total_pages = aligned_size / PAGE_SIZE;
        let mut o: usize = 0;
        while o <= DEFAULT_MAX_ORDER
            invariant
                self.free_lists@.len() == DEFAULT_MAX_ORDER + 1,
                o <= DEFAULT_MAX_ORDER + 1,
                forall|j: int| 0 <= j < o ==> (#[trigger] self.free_lists@[j])@.len() == 0,
                self.base_addr == aligned_base,
                self.end_addr == aligned_end,
                self.total_pages == aligned_size / PAGE_SIZE,
                self.zone_id == old(self).zone_id,
            decreases DEFAULT_MAX_ORDER + 1 - o,
        {
            self.free_lists[o].init();
            o = o + 1;
        }
        let ghost empty = Seq::new((DEFAULT_MAX_ORDER + 1) as nat, |o: int| Seq::<BuddyBlock>::empty());
        proof {
            assert forall|j: int| 0 <= j <= DEFAULT_MAX_ORDER implies #[trigger] self.lists()[j] == empty[j] by {
                assert(self.lists()[j] =~= Seq::<BuddyBlock>::empty());
            }
            assert(self.lists() =~= empty);
            crate::math::lemma_mod_add(aligned_end as int, aligned_base as int, PAGE_SIZE as int);
            crate::math::lemma_mod_zero_mul(aligned_size as int, PAGE_SIZE as int);
        }
        let mut pfn: usize = 0;
        while pfn < self.total_pages
            invariant
                self.wf(),
                self.base_addr == aligned_base,
                self.end_addr == aligned_end,
                self.total_pages == aligned_size / PAGE_SIZE,
                aligned_size == aligned_end - aligned_base,
                aligned_size == self.total_pages * PAGE_SIZE,
                aligned_base as int % PAGE_SIZE as int == 0,
                self.zone_id == old(self).zone_id,
                pfn <= self.total_pages,
                self.lists() == freed_pages(aligned_base as int, aligned_end as int, empty, pfn as nat),
            decreases self.total_pages - pfn,
        {
            proof {
                assert(pfn * PAGE_SIZE < aligned_size) by (nonlinear_arith)
                    requires pfn < self.total_pages, aligned_size == self.total_pages * PAGE_SIZE;
            }
            let page_addr = self.base_addr + pfn * PAGE_SIZE;
            let ghost before = *self;
            self.dealloc_pages(page_addr, 1);
            proof {
                vstd::arithmetic::power2::lemma2_to64();
                crate::math::lemma_order_unique(0, 1);
                vstd::arithmetic::div_mod::lemma_mod_multiples_basic(pfn as int, PAGE_SIZE as int);
                crate::math::lemma_mod_add(aligned_base as int, pfn * PAGE_SIZE, PAGE_SIZE as int);
                assert(before.frees(page_addr, 1));
            }
            pfn = pfn + 1;
        }
        proof {
            lemma_headroom();
            lemma_freed_pages_keep(aligned_base as int, aligned_end as int, pfn as nat);
        }
    }

    /// Widen the zone to `[new_base, new_end)`, keeping its free blocks,
    /// and free the pages of `[start, end)`, lowest first.
    fn extend(&mut self, new_base: usize, new_end: usize, start: usize, end: usize, zone_id: usize)
        requires
            old(self).wf(),
            new_base % PAGE_SIZE == 0,
            start % PAGE_SIZE == 0,
            end % PAGE_SIZE == 0,
            new_base <= old(self).base(),
            old(self).end() <= new_end,
            new_end + headroom() <= usize::MAX,
            new_base <= start,
            start < end <= new_end,
        ensures
            final(self).wf(),
            final(self).base() == new_base,
            final(self).end() == new_end,
            final(self).pages() == (new_end - new_base) / PAGE_SIZE as int,
            final(self).id() == zone_id,
            final(self).lists() == freed_run(
                new_base as int,
                new_end as int,
                old(self).lists(),
                start as int,
                ((end - start) / PAGE_SIZE as int) as nat,
            ),
    {
        self.base_addr = new_base;
        self.end_addr = new_end;
        self.total_pages = (new_end - new_base) / PAGE_SIZE;
        self.zone_id = zone_id;
        proof {
            assert(self.lists() == old(self).lists());
            assert(self.total_pages * PAGE_SIZE <= new_end - new_base) by (nonlinear_arith)
                requires self.total_pages == (new_end - new_base) / PAGE_SIZE as int, new_end >= new_base;
            crate::math::lemma_mod_add(end as int, start as int, PAGE_SIZE as int);
            crate::math::lemma_mod_zero_mul((end - start) as int, PAGE_SIZE as int);
        }
        let n = (end - start) / PAGE_SIZE;
        let mut j: usize = 0;
        while j < n
            invariant
                self.wf(),
                self.base_addr == new_base,
                self.end_addr == new_end,
                self.total_pages == (new_end - new_base) / PAGE_SIZE as int,
                self.zone_id == zone_id,
                new_base <= start,
                start < end <= new_end,
                start % PAGE_SIZE == 0,
                n == (end - start) / PAGE_SIZE as int,
                end - start == n * PAGE_SIZE,
                j <= n,
                self.lists() == freed_run(new_base as int, new_end as int, old(self).lists(), start as int, j as nat),
            decreases n - j,
        {
            proof {
                assert(j * PAGE_SIZE < end - start) by (nonlinear_arith)
                    requires j < n, end - start == n * PAGE_SIZE;
            }
            let page_addr = start + j * PAGE_SIZE;
            let ghost before = *self;
            self.dealloc_pages(page_addr, 1);
            proof {
                vstd::arithmetic::power2::lemma2_to64();
                crate::math::lemma_order_unique(0, 1);
                vstd::arithmetic::div_mod::lemma_mod_multiples_basic(j as int, PAGE_SIZE as int);
                crate::math::lemma_mod_add(start as int, j * PAGE_SIZE, PAGE_SIZE as int);
                assert(before.frees(page_addr, 1));
            }
            j = j + 1;
        }
    }

    /// Statistics of the zone: its pages, and the free blocks by order.
    pub fn get_stats(&self) -> (r: BuddyStats)
        requires
            self.wf(),
        ensures
            r.total_pages == self.pages(),
            r.free_pages == free_pages_in(self.lists(), DEFAULT_MAX_ORDER + 1),
            r.free_pages <= 64 * pow2((DEFAULT_MAX_ORDER + 1) as nat),
            r.total_pages <= usize::MAX / PAGE_SIZE,
            r.used_pages == if self.pages() >= r.free_pages { self.pages() - r.free_pages } else { 0 },
            forall|o: int| 0 <= o <= DEFAULT_MAX_ORDER ==> #[trigger] r.free_pages_by_order[o] == self.lists()[o].len(),
    {
        let mut stats = BuddyStats::new();
        stats.total_pages = self.total_pages;
        let mut order: usize = 0;
        proof {
            lemma_headroom();
        }
        while order <= DEFAULT_MAX_ORDER
            invariant
                self.wf(),
                order <= DEFAULT_MAX_ORDER + 1,
                stats.total_pages == self.total_pages,
                stats.free_pages == free_pages_in(self.lists(), order as int),
                stats.free_pages <= 64 * pow2(order as nat),
                forall|o: int| 0 <= o < order ==> #[trigger] stats.free_pages_by_order[o] == self.lists()[o].len(),
            decreases DEFAULT_MAX_ORDER + 1 - order,
        {
            let count = self.free_lists[order].len();
            proof {
                lemma_shift_pow2(order);
                crate::math::lemma_pow2_le(order as nat, DEFAULT_MAX_ORDER as nat);
                vstd::arithmetic::power2::lemma_pow2_unfold((order + 1) as nat);
                assert(count * pow2(order as nat) <= 64 * pow2(order as nat)) by (nonlinear_arith)
                    requires count <= 64;
            }
            stats.free_pages_by_order[order] = count;
            stats.free_pages = stats.free_pages + count * (1usize << order);
            order = order + 1;
        }
        stats.used_pages = stats.total_pages.saturating_sub(stats.free_pages);
        stats
    }

    /// Deallocate pages back to the buddy system, merging with free
    /// buddies. A request that is empty, outside the zone, or not aligned
    /// to the block's order is ignored.
    pub fn dealloc_pages(&mut self, addr: usize, num_pages: usize)
        requires
            old(self).wf(),
        ensures
            final(self).wf(),
            old(self).dealloc_effect(&*final(self), addr, num_pages),
    {
        if num_pages == 0 {
            return;
        }
        if !self.addr_in_zone(addr) {
            return;
        }
        let pfn = addr / PAGE_SIZE;
        let o = crate::math::order_of(num_pages);
        let mut order = if o < DEFAULT_MAX_ORDER {
            o
        } else {
            DEFAULT_MAX_ORDER
        };
        proof {
            lemma_headroom();
            lemma_shift_pow2(order);
            lemma_low_mask_mod(pfn, order);
        }
        if pfn & ((1usize << order) - 1) != 0 {
            return;
        }
        if addr & (PAGE_SIZE - 1) != 0 {
            proof {
                lemma_page_mask(addr);
            }
            return;
        }
        proof {
            lemma_page_mask(addr);
            assert(pfn * PAGE_SIZE == addr);
            assert(pow2(order as nat) <= pow2(DEFAULT_MAX_ORDER as nat)) by {
                crate::math::lemma_pow2_le(order as nat, DEFAULT_MAX_ORDER as nat);
            }
        }
        let ghost l0 = self.lists();
        let ghost base = self.base_addr as int;
        let ghost end = self.end_addr as int;
        let ghost order0 = order;
        let mut current_pfn = pfn;
        while order < DEFAULT_MAX_ORDER
            invariant
                self.wf(),
                self.base_addr == old(self).base_addr,
                self.end_addr == old(self).end_addr,
                self.total_pages == old(self).total_pages,
                self.zone_id == old(self).zone_id,
                base == self.base_addr,
                end == self.end_addr,
                order <= DEFAULT_MAX_ORDER,
                (current_pfn as int) % (pow2(order as nat) as int) == 0,
                current_pfn * PAGE_SIZE + pow2(order as nat) * PAGE_SIZE <= end + headroom(),
                merged(base, end, l0, pfn, order0) == merged(base, end, self.lists(), current_pfn, order),
            ensures
                self.wf(),
                self.base_addr == old(self).base_addr,
                self.end_addr == old(self).end_addr,
                self.total_pages == old(self).total_pages,
                self.zone_id == old(self).zone_id,
                order <= DEFAULT_MAX_ORDER,
                current_pfn * PAGE_SIZE + pow2(order as nat) * PAGE_SIZE <= end + headroom(),
                merged(base, end, l0, pfn, order0) == push_block(
                    self.lists(),
                    order as int,
                    BuddyBlock { order, addr: (current_pfn * PAGE_SIZE) as usize },
                ),
            decreases DEFAULT_MAX_ORDER - order,
        {
            proof {
                lemma_headroom();
                lemma_shift_pow2(order);
            }
            let bit = 1usize << order;
            let buddy_pfn = current_pfn ^ bit;
            let buddy_addr = match buddy_pfn.checked_mul(PAGE_SIZE) {
                Some(a) => a,
                None => {
                    break;
                },
            };
            if !self.addr_in_zone(buddy_addr) {
                break;
            }
            let ghost lists = self.lists();
            let found = self.free_lists[order].find_by_addr(buddy_addr);
            match found {
                Some(buddy_pos) => {
                    proof {
                        assert(self.free_lists@[order as int]@ == lists[order as int]);
                        assert forall|j: int| 0 <= j < buddy_pos implies #[trigger] lists[order as int][j].addr != buddy_addr by {
                            assert(lists[order as int][j].spec_addr() != buddy_addr as int);
                        }
                        assert(first_at(lists[order as int], buddy_addr as int, buddy_pos as int));
                    }
                    let node = self.free_lists[order].get(buddy_pos);
                    let consistent = match node {
                        Some(b) => b.order == order && b.addr == buddy_addr,
                        None => false,
                    };
                    if !consistent {
                        proof {
                            let k = choose|k: int| first_at(lists[order as int], buddy_addr as int, k);
                            assert(k == buddy_pos) by {
                                if k < buddy_pos {
                                } else if k > buddy_pos {
                                }
                            }
                        }
                        break;
                    }
                    proof {
                        let k = choose|k: int| first_at(lists[order as int], buddy_addr as int, k);
                        assert(k == buddy_pos) by {
                            if k < buddy_pos {
                            } else if k > buddy_pos {
                            }
                        }
                        lemma_buddy_pfn(current_pfn, order);
                        lemma_shift_pow2((order + 1) as usize);
                        assert(pow2((order + 1) as nat) == 2 * pow2(order as nat)) by {
                            vstd::arithmetic::power2::lemma_pow2_unfold((order + 1) as nat);
                        }
                        let bb = lists[order as int][buddy_pos as int];
                        assert(block_end(bb) <= end + headroom());
                    }
                    self.free_lists[order].remove(buddy_pos);
                    proof {
                        assert(self.lists() =~= lists.update(order as int, lists[order as int].remove(buddy_pos as int)));
                        assert forall|o2: int, k2: int|
                            0 <= o2 <= DEFAULT_MAX_ORDER && 0 <= k2 < self.lists()[o2].len() implies {
                                let b = #[trigger] self.lists()[o2][k2];
                                &&& b.order <= DEFAULT_MAX_ORDER
                                &&& block_end(b) <= self.end_addr + headroom()
                            } by {
                            if o2 == order && k2 >= buddy_pos {
                                assert(self.lists()[o2][k2] == lists[o2][k2 + 1]);
                            } else {
                                assert(self.lists()[o2][k2] == lists[o2][k2]);
                            }
                        }
                    }
                    current_pfn = current_pfn & buddy_pfn;
                    order = order + 1;
                },
                None => {
                    proof {
                        assert(self.free_lists@[order as int]@ == lists[order as int]);
                        assert forall|k: int| !first_at(lists[order as int], buddy_addr as int, k) by {
                            if 0 <= k < lists[order as int].len() {
                                assert(lists[order as int][k].spec_addr() != buddy_addr as int);
                            }
                        }
                    }
                    break;
                },
            }
        }
        proof {
            lemma_headroom();
            vstd::arithmetic::power2::lemma_pow2_pos(order as nat);
        }
        let final_addr = current_pfn * PAGE_SIZE;
        let block = BuddyBlock { order, addr: final_addr };
        let ghost lists = self.lists();
        let _ = self.free_lists[order].push_back(block);
        proof {
            assert(self.lists() =~= push_block(lists, order as int, block));
            assert forall|o2: int, k2: int|
                0 <= o2 <= DEFAULT_MAX_ORDER && 0 <= k2 < self.lists()[o2].len() implies {
                    let b = #[trigger] self.lists()[o2][k2];
                    &&& b.order <= DEFAULT_MAX_ORDER
                    &&& block_end(b) <= self.end_addr + headroom()
                } by {
                if o2 == order && k2 == lists[o2].len() {
                } else {
                    assert(self.lists()[o2][k2] == lists[o2][k2]);
                }
            }
        }
    }
}

/// A zone `z` freshly laid out over `[base, end)` as zone `id`: its pages
/// freed one by one into empty lists.
pub open spec fn fresh_zone(z: BuddySet, base: int, end: int, id: int) -> bool {
    &&& z.wf()
    &&& z.base() == base
    &&& z.end() == end
    &&& z.pages() == (end - base) / PAGE_SIZE as int
    &&& z.id() == id
    &&& z.lists() == freed_pages(
        base,
        end,
        Seq::new((DEFAULT_MAX_ORDER + 1) as nat, |o: int| Seq::<BuddyBlock>::empty()),
        z.pages() as nat,
    )
}

/// The free pages of a zone.
pub open spec fn zone_free(z: BuddySet) -> int {
    free_pages_in(z.lists(), DEFAULT_MAX_ORDER + 1)
}

/// The pages of a zone that are not free.
pub open spec fn zone_used(z: BuddySet) -> int {
    if z.pages() >= zone_free(z) { z.pages() - zone_free(z) } else { 0 }
}

/// The sum of `f` over the zones.
pub open spec fn sum_over(zs: Seq<BuddySet>, f: spec_fn(BuddySet) -> int) -> int
    decreases zs.len(),
{
    if zs.len() == 0 {
        0
    } else {
        sum_over(zs.drop_last(), f) + f(zs.last())
    }
}

/// The zone `z` meets the region `[start, end)`.
pub open spec fn meets(z: BuddySet, start: int, end: int) -> bool {
    !(end <= z.base() || start >= z.end())
}

/// The zone `z` borders the region `[start, end)`.
pub open spec fn borders(z: BuddySet, start: int, end: int) -> bool {
    z.end() == start || z.base() == end
}

/// Several zones, tried in order.
pub struct BuddyPageAllocator {
    zones: Vec<BuddySet>,
    num_zones: usize,
    stats: BuddyStats,
}

impl BuddyPageAllocator {
    /// The zones.
    pub closed spec fn spec_zones(&self) -> Seq<BuddySet> {
        self.zones@
    }

    /// The statistics as last gathered.
    pub closed spec fn spec_stats(&self) -> BuddyStats {
        self.stats
    }

    /// At most `MAX_ZONES` zones, each well formed.
    pub closed spec fn wf(&self) -> bool {
        &&& self.zones@.len() == self.num_zones
        &&& self.num_zones <= MAX_ZONES
        &&& forall|i: int| 0 <= i < self.zones@.len() ==> #[trigger] self.zones@[i].wf()
        &&& forall|i: int| 0 <= i < self.zones@.len() ==> (#[trigger] self.zones@[i]).base() % PAGE_SIZE == 0
            && self.zones@[i].end() % PAGE_SIZE == 0
    }

    /// The statistics sum those of the zones.
    pub open spec fn stats_current(&self) -> bool {
        let zs = self.spec_zones();
        let st = self.spec_stats();
        &&& st.total_pages == sum_over(zs, |z: BuddySet| z.pages() as int)
        &&& st.free_pages == sum_over(zs, |z: BuddySet| zone_free(z))
        &&& st.used_pages == sum_over(zs, |z: BuddySet| zone_used(z))
        &&& forall|o: int| 0 <= o <= DEFAULT_MAX_ORDER ==> #[trigger] st.free_pages_by_order[o] == sum_over(
            zs,
            |z: BuddySet| z.lists()[o].len() as int,
        )
    }

    /// Zone `i` is the first that holds `addr`.
    pub open spec fn first_zone_for(&self, addr: int, i: int) -> bool {
        &&& 0 <= i < self.spec_zones().len()
        &&& self.spec_zones()[i].spec_in_zone(addr)
        &&& forall|j: int| 0 <= j < i ==> !(#[trigger] self.spec_zones()[j]).spec_in_zone(addr)
    }

    /// No zone holds `addr`.
    pub open spec fn no_zone_for(&self, addr: int) -> bool {
        forall|j: int| 0 <= j < self.spec_zones().len() ==> !(#[trigger] self.spec_zones()[j]).spec_in_zone(addr)
    }

    /// The zones of `after` are those of this allocator, but for zone `i`.
    pub open spec fn others_kept(&self, after: &Self, i: int) -> bool {
        &&& after.spec_zones().len() == self.spec_zones().len()
        &&& forall|j: int| 0 <= j < self.spec_zones().len() && j != i ==> #[trigger] after.spec_zones()[j] == self.spec_zones()[j]
    }

    /// An allocator with no zones.
    pub fn new() -> (r: Self)
        ensures
            r.wf(),
            r.spec_zones() == Seq::<BuddySet>::empty(),
    {
        BuddyPageAllocator { zones: Vec::new(), num_zones: 0, stats: BuddyStats::new() }
    }

    /// Make `[base_addr, base_addr + size)` the only zone.
    pub fn bootstrap(&mut self, base_addr: usize, size: usize)
        requires
            old(self).wf(),
            old(self).spec_zones().len() < MAX_ZONES,
            base_addr + size + PAGE_SIZE + headroom() <= usize::MAX,
            round_up(base_addr + size, PAGE_SIZE as int) - round_down(base_addr as int, PAGE_SIZE as int) >= PAGE_SIZE,
        ensures
            final(self).wf(),
            final(self).stats_current(),
            final(self).spec_zones().len() == 1,
            fresh_zone(
                final(self).spec_zones()[0],
                round_down(base_addr as int, PAGE_SIZE as int),
                round_up(base_addr + size, PAGE_SIZE as int),
                0,
            ),
    {
        proof {
            crate::math::lemma_round_up((base_addr + size) as int, PAGE_SIZE as int);
        }
        let mut zone = BuddySet::new(base_addr, size, 0);
        zone.init(base_addr, size);
        self.zones = Vec::new();
        self.zones.push(zone);
        self.num_zones = 1;
        self.update_stats();
    }

    /// The statistics as last gathered.
    pub fn get_stats(&self) -> (r: BuddyStats)
        ensures
            r == self.spec_stats(),
    {
        self.stats
    }

    /// The number of zones.
    pub fn get_zone_count(&self) -> (r: usize)
        requires
            self.wf(),
        ensures
            r == self.spec_zones().len(),
    {
        self.num_zones
    }

    /// Zone `index`; `None` past the last zone.
    pub fn zone(&self, index: usize) -> (r: Option<&BuddySet>)
        ensures
            index < self.spec_zones().len() ==> r == Some(&self.spec_zones()[index as int]),
            index >= self.spec_zones().len() ==> r is None,
    {
        if index < self.zones.len() {
            Some(&self.zones[index])
        } else {
            None
        }
    }

    /// Gather the statistics of all zones.
    fn update_stats(&mut self)
        requires
            old(self).wf(),
        ensures
            final(self).wf(),
            final(self).spec_zones() == old(self).spec_zones(),
            final(self).stats_current(),
    {
        let mut total_stats = BuddyStats::new();
        let mut i: usize = 0;
        proof {
            assert(self.zones@.take(0) =~= Seq::<BuddySet>::empty());
        }
        while i < self.num_zones
            invariant
                self.wf(),
                *self == *old(self),
                i <= self.num_zones,
                total_stats.total_pages == sum_over(self.zones@.take(i as int), |z: BuddySet| z.pages() as int),
                total_stats.free_pages == sum_over(self.zones@.take(i as int), |z: BuddySet| zone_free(z)),
                total_stats.used_pages == sum_over(self.zones@.take(i as int), |z: BuddySet| zone_used(z)),
                forall|o: int| 0 <= o <= DEFAULT_MAX_ORDER ==> #[trigger] total_stats.free_pages_by_order[o] == sum_over(
                    self.zones@.take(i as int),
                    |z: BuddySet| z.lists()[o].len() as int,
                ),
                total_stats.total_pages <= i * (usize::MAX / PAGE_SIZE),
                total_stats.free_pages <= i * 64 * pow2((DEFAULT_MAX_ORDER + 1) as nat),
                total_stats.used_pages <= i * (usize::MAX / PAGE_SIZE),
                forall|o: int| 0 <= o <= DEFAULT_MAX_ORDER ==> #[trigger] total_stats.free_pages_by_order[o] <= i * 64,
            decreases self.num_zones - i,
        {
            let zone_stats = self.zones[i].get_stats();
            proof {
                let z = self.zones@[i as int];
                assert(z.wf());
                lemma_headroom();
                crate::math::lemma_usize_bits();
                vstd::arithmetic::power2::lemma2_to64();
                vstd::arithmetic::power2::lemma2_to64_rest();
                assert(usize::MAX == 0xffff_ffff_ffff_ffff) by {
                    if usize::BITS == 32 {
                        assert(usize::MAX == 0xffff_ffff);
                    }
                }
                assert(pow2((DEFAULT_MAX_ORDER + 1) as nat) == 0x2000_0000);
                assert forall|o: int| 0 <= o <= DEFAULT_MAX_ORDER implies #[trigger] zone_stats.free_pages_by_order[o] <= 64 by {
                    assert(zone_stats.free_pages_by_order[o] == z.lists()[o].len());
                }
                assert(self.zones@.take(i + 1).drop_last() =~= self.zones@.take(i as int));
                assert(self.zones@.take(i + 1).last() == z);
                let q = usize::MAX / PAGE_SIZE;
                assert(q == 0xf_ffff_ffff_ffff);
                assert(zone_stats.used_pages <= q);
                assert(total_stats.total_pages + zone_stats.total_pages <= (i + 1) * q) by (nonlinear_arith)
                    requires total_stats.total_pages <= i * q, zone_stats.total_pages <= q;
                assert(total_stats.used_pages + zone_stats.used_pages <= (i + 1) * q) by (nonlinear_arith)
                    requires total_stats.used_pages <= i * q, zone_stats.used_pages <= q;
                assert((i + 1) * q <= 8 * q) by (nonlinear_arith) requires i + 1 <= 8, q >= 0;
            }
            total_stats.add(&zone_stats);
            i = i + 1;
        }
        proof {
            assert(self.zones@.take(i as int) =~= self.zones@);
        }
        self.stats = total_stats;
    }

    /// Find the first zone that holds `addr`.
    fn find_zone_for_addr(&self, addr: usize) -> (r: Option<usize>)
        requires
            self.wf(),
        ensures
            r matches Some(i) ==> self.first_zone_for(addr as int, i as int),
            r is None ==> self.no_zone_for(addr as int),
    {
        let mut i: usize = 0;
        while i < self.num_zones
            invariant
                self.wf(),
                i <= self.num_zones,
                forall|j: int| 0 <= j < i ==> !(#[trigger] self.zones@[j]).spec_in_zone(addr as int),
            decreases self.num_zones - i,
        {
            if self.zones[i].addr_in_zone(addr) {
                return Some(i);
            }
            i = i + 1;
        }
        None
    }

    /// Zone `i` is the one zone bordering `[start, end)`.
    pub open spec fn sole_border(&self, start: int, end: int, i: int) -> bool {
        &&& 0 <= i < self.spec_zones().len()
        &&& borders(self.spec_zones()[i], start, end)
        &&& forall|j: int| 0 <= j < self.spec_zones().len() && j != i ==> !borders(#[trigger] self.spec_zones()[j], start, end)
    }

    /// Some zone meets `[start, end)`.
    pub open spec fn meets_any(&self, start: int, end: int) -> bool {
        exists|i: int| 0 <= i < self.spec_zones().len() && #[trigger] meets(self.spec_zones()[i], start, end)
    }

    /// `after` is this allocator with zone `i` widened over the bordering
    /// region `[start, end)`: its free blocks stay, and the pages of the
    /// region are freed into it one by one, lowest first.
    pub open spec fn merged_into(&self, after: &Self, start: int, end: int, i: int) -> bool {
        let z = self.spec_zones()[i];
        let ms = if z.end() == start { z.base() as int } else { start };
        let me = if z.end() == start { end } else { z.end() as int };
        let z2 = after.spec_zones()[i];
        &&& self.others_kept(after, i)
        &&& z2.wf()
        &&& z2.base() == ms
        &&& z2.end() == me
        &&& z2.pages() == (me - ms) / PAGE_SIZE as int
        &&& z2.id() == i
        &&& z2.lists() == freed_run(ms, me, z.lists(), start, ((end - start) / PAGE_SIZE as int) as nat)
    }

    /// `after` is this allocator with a fresh zone over `[start, end)` added.
    pub open spec fn appended(&self, after: &Self, start: int, end: int) -> bool {
        let n = self.spec_zones().len();
        &&& after.spec_zones().len() == n + 1
        &&& after.spec_zones().drop_last() == self.spec_zones()
        &&& fresh_zone(after.spec_zones()[n as int], start, end, n as int)
    }

    /// `after` is this allocator once `add_memory_region(start, size)`
    /// returned `r`.
    pub open spec fn add_effect(&self, after: &Self, start: usize, size: usize, r: AllocResult) -> bool {
        let s = round_down(start as int, PAGE_SIZE as int);
        let e = round_up(start + size, PAGE_SIZE as int);
        let n = self.spec_zones().len();
        &&& n >= MAX_ZONES ==> r == Err::<(), AllocError>(AllocError::NoMemory)
        &&& n < MAX_ZONES && e - s < PAGE_SIZE ==> r == Err::<(), AllocError>(AllocError::InvalidParam)
        &&& n < MAX_ZONES && e - s >= PAGE_SIZE && self.meets_any(s, e) ==> r == Err::<(), AllocError>(AllocError::MemoryOverlap)
        &&& r is Err ==> after.spec_zones() == self.spec_zones()
        &&& n < MAX_ZONES && e - s >= PAGE_SIZE && !self.meets_any(s, e) ==> {
            &&& r is Ok
            &&& forall|i: int| #[trigger] self.sole_border(s, e, i) ==> self.merged_into(after, s, e, i)
            &&& (forall|i: int| !#[trigger] self.sole_border(s, e, i)) ==> self.appended(after, s, e)
        }
    }

    /// Add a memory region as a new zone, or, when it borders exactly one
    /// zone, widen that zone over it.
    fn add_memory_region(&mut self, start: usize, size: usize) -> (r: AllocResult)
        requires
            old(self).wf(),
            start + size + PAGE_SIZE + headroom() <= usize::MAX,
        ensures
            final(self).wf(),
            old(self).add_effect(&*final(self), start, size, r),
            r is Ok && (exists|i: int| #[trigger] old(self).sole_border(
                round_down(start as int, PAGE_SIZE as int),
                round_up(start + size, PAGE_SIZE as int),
                i,
            )) ==> final(self).stats_current(),
    {
        if self.num_zones >= MAX_ZONES {
            return Err(AllocError::NoMemory);
        }
        proof {
            crate::math::lemma_round_up((start + size) as int, PAGE_SIZE as int);
        }
        let aligned_start = crate::align_down(start, PAGE_SIZE);
        let aligned_end = crate::align_up(start + size, PAGE_SIZE);
        let aligned_size = aligned_end - aligned_start;
        if aligned_size == 0 || aligned_size < PAGE_SIZE {
            return Err(AllocError::InvalidParam);
        }
        let mut i: usize = 0;
        while i < self.num_zones
            invariant
                self.wf(),
                *self == *old(self),
                self.num_zones < MAX_ZONES,
                i <= self.num_zones,
                aligned_start == round_down(start as int, PAGE_SIZE as int),
                aligned_end == round_up(start + size, PAGE_SIZE as int),
                aligned_end - aligned_start >= PAGE_SIZE,
                forall|j: int| 0 <= j < i ==> !meets(#[trigger] self.zones@[j], aligned_start as int, aligned_end as int),
            decreases self.num_zones - i,
        {
            let zone = &self.zones[i];
            if !(aligned_end <= zone.base_addr || aligned_start >= zone.end_addr) {
                proof {
                    assert(meets(self.spec_zones()[i as int], aligned_start as int, aligned_end as int));
                    assert(old(self).meets_any(aligned_start as int, aligned_end as int));
                }
                return Err(AllocError::MemoryOverlap);
            }
            i = i + 1;
        }
        let merged = self.try_merge_with_adjacent_zones(aligned_start, aligned_end);
        if merged.is_some() {
            self.update_stats();
            return Ok(());
        }
        let zone_id = self.num_zones;
        let mut zone = BuddySet::new(aligned_start, aligned_size, zone_id);
        proof {
            lemma_headroom();
            crate::math::lemma_round_up(aligned_end as int, PAGE_SIZE as int);
            crate::math::lemma_round_up(aligned_start as int, PAGE_SIZE as int);
            vstd::arithmetic::div_mod::lemma_fundamental_div_mod(aligned_start as int, PAGE_SIZE as int);
        }
        zone.init(aligned_start, aligned_size);
        let ghost z0 = self.zones@;
        self.zones.push(zone);
        self.num_zones = self.num_zones + 1;
        proof {
            assert(self.spec_zones().drop_last() =~= z0);
            assert(round_down(aligned_start as int, PAGE_SIZE as int) == aligned_start);
            assert(round_up(aligned_end as int, PAGE_SIZE as int) == aligned_end);
        }
        Ok(())
    }

    /// When `[start, end)` borders exactly one zone, widen that zone over
    /// it, freeing its pages into the zone, and return `Some(true)`;
    /// otherwise `None`.
    fn try_merge_with_adjacent_zones(&mut self, start: usize, end: usize) -> (r: Option<bool>)
        requires
            old(self).wf(),
            start % PAGE_SIZE == 0,
            end % PAGE_SIZE == 0,
            start + PAGE_SIZE <= end,
            end + headroom() <= usize::MAX,
            !old(self).meets_any(start as int, end as int),
        ensures
            final(self).wf(),
            r is Some <==> exists|i: int| #[trigger] old(self).sole_border(start as int, end as int, i),
            r is Some ==> r == Some(true),
            forall|i: int| #[trigger] old(self).sole_border(start as int, end as int, i) ==> old(self).merged_into(
                &*final(self),
                start as int,
                end as int,
                i,
            ),
            r is None ==> final(self).spec_zones() == old(self).spec_zones(),
    {
        let mut adjacent_zones: Vec<usize> = Vec::new();
        let mut i: usize = 0;
        while i < self.num_zones
            invariant
                self.wf(),
                *self == *old(self),
                i <= self.num_zones,
                forall|k: int| 0 <= k < adjacent_zones@.len() ==> #[trigger] adjacent_zones@[k] < i && borders(
                    self.zones@[adjacent_zones@[k] as int],
                    start as int,
                    end as int,
                ),
                forall|k1: int, k2: int| 0 <= k1 < k2 < adjacent_zones@.len() ==> #[trigger] adjacent_zones@[k1] < #[trigger] adjacent_zones@[k2],
                forall|j: int| 0 <= j < i && borders(#[trigger] self.zones@[j], start as int, end as int) ==> adjacent_zones@.contains(j as usize),
            decreases self.num_zones - i,
        {
            let zone = &self.zones[i];
            if zone.end_addr == start || zone.base_addr == end {
                let ghost prev = adjacent_zones@;
                adjacent_zones.push(i);
                proof {
                    assert forall|j: int| 0 <= j < i + 1 && borders(#[trigger] self.zones@[j], start as int, end as int) implies adjacent_zones@.contains(j as usize) by {
                        if j == i {
                            assert(adjacent_zones@[adjacent_zones@.len() - 1] == i);
                        } else {
                            assert(prev.contains(j as usize));
                            let k = choose|k: int| 0 <= k < prev.len() && prev[k] == j as usize;
                            assert(adjacent_zones@[k] == prev[k]);
                        }
                    }
                }
            }
            i = i + 1;
        }
        if adjacent_zones.len() == 0 {
            proof {
                assert forall|i2: int| !#[trigger] old(self).sole_border(start as int, end as int, i2) by {
                    if old(self).sole_border(start as int, end as int, i2) {
                        assert(adjacent_zones@.contains(i2 as usize));
                    }
                }
            }
            return None;
        }
        if adjacent_zones.len() == 1 {
            let zone_idx = adjacent_zones[0];
            proof {
                assert(old(self).sole_border(start as int, end as int, zone_idx as int)) by {
                    assert forall|j: int| 0 <= j < self.zones@.len() && j != zone_idx implies !borders(#[trigger] self.zones@[j], start as int, end as int) by {
                        if borders(self.zones@[j], start as int, end as int) {
                            assert(adjacent_zones@.contains(j as usize));
                        }
                    }
                }
                assert forall|i2: int| #[trigger] old(self).sole_border(start as int, end as int, i2) implies i2 == zone_idx by {
                }
            }
            let zone = &self.zones[zone_idx];
            let (merged_start, merged_end) = if zone.end_addr == start {
                (zone.base_addr, end)
            } else {
                (start, zone.end_addr)
            };
            proof {
                let z = self.zones@[zone_idx as int];
                assert(z.wf());
                lemma_headroom();
            }
            let ghost z0 = self.zones@;
            self.zones[zone_idx].extend(merged_start, merged_end, start, end, zone_idx);
            proof {
                assert forall|j: int| 0 <= j < self.zones@.len() implies #[trigger] self.zones@[j].wf() by {
                    if j != zone_idx {
                        assert(self.zones@[j] == z0[j]);
                    }
                }
            }
            return Some(true);
        }
        proof {
            assert forall|i2: int| !#[trigger] old(self).sole_border(start as int, end as int, i2) by {
                if old(self).sole_border(start as int, end as int, i2) {
                    let a = adjacent_zones@[0];
                    let b = adjacent_zones@[1];
                    assert(a < b);
                    assert(borders(self.zones@[a as int], start as int, end as int));
                    assert(borders(self.zones@[b as int], start as int, end as int));
                }
            }
        }
        None
    }
}

impl BuddyPageAllocator {
    /// Zones `[0, upto)` of `after` are those of this allocator once each
    /// failed the request for `num_pages` pages aligned to `alignment`.
    pub open spec fn all_failed(&self, after: &Self, num_pages: usize, alignment: usize, upto: int) -> bool {
        forall|j: int| 0 <= j < upto ==> #[trigger] self.zone_failed(after, num_pages, alignment, j)
    }

    /// Zone `j` of `after` is that of this allocator once it failed the
    /// request for `num_pages` pages aligned to `alignment`.
    pub open spec fn zone_failed(&self, after: &Self, num_pages: usize, alignment: usize, j: int) -> bool {
        exists|e: AllocError| #[trigger] self.spec_zones()[j].alloc_effect(&after.spec_zones()[j], num_pages, alignment, Err(e))
    }

    /// `after` is this allocator once `alloc_pages(num_pages, alignment)`
    /// has returned `r`: the zones are tried in order until one serves.
    pub open spec fn alloc_effect(&self, after: &Self, num_pages: usize, alignment: usize, r: AllocResult<usize>) -> bool {
        let n = self.spec_zones().len();
        &&& after.spec_zones().len() == n
        &&& r is Err ==> r == Err::<usize, AllocError>(AllocError::NoMemory) && self.all_failed(after, num_pages, alignment, n as int)
        &&& r matches Ok(a) ==> exists|i: int|
            0 <= i < n && #[trigger] self.spec_zones()[i].alloc_effect(&after.spec_zones()[i], num_pages, alignment, r)
                && self.all_failed(after, num_pages, alignment, i) && forall|j: int| i < j < n ==> #[trigger] after.spec_zones()[j]
                == self.spec_zones()[j]
        &&& r matches Ok(a) ==> alignment == 0 || a % alignment == 0
    }

    /// Allocate from the first zone that can serve the request.
    fn alloc_pages_in_zones(&mut self, num_pages: usize, alignment: usize) -> (r: AllocResult<usize>)
        requires
            old(self).wf(),
        ensures
            final(self).wf(),
            old(self).alloc_effect(&*final(self), num_pages, alignment, r),
            r is Ok ==> final(self).stats_current(),
    {
        let mut i: usize = 0;
        while i < self.num_zones
            invariant
                self.wf(),
                old(self).wf(),
                self.num_zones == old(self).num_zones,
                i <= self.num_zones,
                old(self).all_failed(&*self, num_pages, alignment, i as int),
                forall|j: int| i <= j < self.zones@.len() ==> #[trigger] self.zones@[j] == old(self).zones@[j],
            decreases self.num_zones - i,
        {
            let ghost zs = self.zones@;
            let ghost before = *self;
            let r = self.zones[i].alloc_pages(num_pages, alignment);
            proof {
                assert forall|j: int| 0 <= j < self.zones@.len() implies #[trigger] self.zones@[j].wf() && self.zones@[j].base()
                    % PAGE_SIZE == 0 && self.zones@[j].end() % PAGE_SIZE == 0 by {
                    if j != i {
                        assert(self.zones@[j] == zs[j]);
                    }
                }
                assert forall|j: int| 0 <= j < i implies #[trigger] old(self).zone_failed(&*self, num_pages, alignment, j) by {
                    assert(old(self).zone_failed(&before, num_pages, alignment, j));
                    let e = choose|e: AllocError| old(self).spec_zones()[j].alloc_effect(&before.spec_zones()[j], num_pages, alignment, Err(e));
                    assert(self.spec_zones()[j] == before.spec_zones()[j]);
                    assert(old(self).spec_zones()[j].alloc_effect(&self.spec_zones()[j], num_pages, alignment, Err(e)));
                }
            }
            match r {
                Ok(addr) => {
                    let ghost served = *self;
                    self.update_stats();
                    proof {
                        assert(old(self).spec_zones()[i as int].alloc_effect(&served.spec_zones()[i as int], num_pages, alignment, r));
                        assert(served.spec_zones() == self.spec_zones());
                        assert(old(self).all_failed(&served, num_pages, alignment, i as int));
                        assert forall|j: int| 0 <= j < i implies #[trigger] old(self).zone_failed(&*self, num_pages, alignment, j) by {
                            assert(old(self).zone_failed(&served, num_pages, alignment, j));
                        }
                    }
                    return Ok(addr);
                },
                Err(e) => {
                    proof {
                        assert(old(self).spec_zones()[i as int].alloc_effect(&self.spec_zones()[i as int], num_pages, alignment, Err(e)));
                        assert(old(self).zone_failed(&*self, num_pages, alignment, i as int));
                    }
                },
            }
            i = i + 1;
        }
        Err(AllocError::NoMemory)
    }

    /// Give back pages to the first zone that holds `pos`; an address in no
    /// zone is ignored.
    fn dealloc_pages_in_zone(&mut self, pos: usize, num_pages: usize)
        requires
            old(self).wf(),
        ensures
            final(self).wf(),
            old(self).no_zone_for(pos as int) ==> final(self).spec_zones() == old(self).spec_zones(),
            forall|i: int| #[trigger] old(self).first_zone_for(pos as int, i) ==> old(self).spec_zones()[i].dealloc_effect(
                &final(self).spec_zones()[i],
                pos,
                num_pages,
            ) && old(self).others_kept(&*final(self), i) && final(self).stats_current(),
    {
        if let Some(zone_idx) = self.find_zone_for_addr(pos) {
            let ghost zs = self.zones@;
            self.zones[zone_idx].dealloc_pages(pos, num_pages);
            proof {
                assert forall|j: int| 0 <= j < self.zones@.len() implies #[trigger] self.zones@[j].wf() && self.zones@[j].base()
                    % PAGE_SIZE == 0 && self.zones@[j].end() % PAGE_SIZE == 0 by {
                    if j != zone_idx {
                        assert(self.zones@[j] == zs[j]);
                    }
                }
                assert forall|i: int| #[trigger] old(self).first_zone_for(pos as int, i) implies i == zone_idx by {
                    if i > zone_idx {
                        assert(zs[zone_idx as int].spec_in_zone(pos as int));
                    }
                }
            }
            self.update_stats();
        }
    }

    /// `after` is this allocator once `alloc_pages_at(base, num_pages,
    /// alignment)` returned `r`: the first zone holding `base` allocates the
    /// pages there, and the statistics follow.
    pub open spec fn place_effect(&self, after: &Self, base: usize, num_pages: usize, alignment: usize, r: AllocResult<usize>) -> bool {
        &&& self.no_zone_for(base as int) ==> r == Err::<usize, AllocError>(AllocError::InvalidParam) && after.spec_zones()
            == self.spec_zones()
        &&& forall|i: int| #[trigger] self.first_zone_for(base as int, i) ==> {
            &&& self.others_kept(after, i)
            &&& self.spec_zones()[i].alloc_at_effect(&after.spec_zones()[i], base, num_pages, alignment, r)
            &&& after.stats_current()
        }
    }

    /// Take the pages at `base` from the first zone that holds it.
    fn alloc_pages_at_in_zone(&mut self, base: usize, num_pages: usize, alignment: usize) -> (r: AllocResult<usize>)
        requires
            old(self).wf(),
        ensures
            final(self).wf(),
            old(self).place_effect(&*final(self), base, num_pages, alignment, r),
    {
        match self.find_zone_for_addr(base) {
            Some(zone_idx) => {
                let ghost zs = self.zones@;
                proof {
                    assert forall|i: int| #[trigger] old(self).first_zone_for(base as int, i) implies i == zone_idx by {
                        if i > zone_idx {
                            assert(zs[zone_idx as int].spec_in_zone(base as int));
                        }
                    }
                }
                let r = self.zones[zone_idx].alloc_pages_at(base, num_pages, alignment);
                proof {
                    assert forall|j: int| 0 <= j < self.zones@.len() implies #[trigger] self.zones@[j].wf() && self.zones@[j].base()
                        % PAGE_SIZE == 0 && self.zones@[j].end() % PAGE_SIZE == 0 by {
                        if j != zone_idx {
                            assert(self.zones@[j] == zs[j]);
                        }
                    }
                }
                self.update_stats();
                r
            },
            None => Err(AllocError::InvalidParam),
        }
    }
}

impl Default for BuddyPageAllocator {
    fn default() -> (r: Self)
        ensures
            r.wf(),
            r.spec_zones() == Seq::<BuddySet>::empty(),
    {
        Self::new()
    }
}

impl crate::BaseAllocator for BuddyPageAllocator {
    open spec fn inv(&self) -> bool {
        self.wf()
    }

    open spec fn init_ok(&self, start: usize, size: usize) -> bool {
        &&& self.wf()
        &&& self.spec_zones().len() < MAX_ZONES
        &&& start + size + PAGE_SIZE + headroom() <= usize::MAX
        &&& round_up(start + size, PAGE_SIZE as int) - round_down(start as int, PAGE_SIZE as int) >= PAGE_SIZE
    }

    open spec fn add_ok(&self, start: usize, size: usize) -> bool {
        start + size + PAGE_SIZE + headroom() <= usize::MAX
    }

    fn init(&mut self, start: usize, size: usize)
        ensures
            final(self).stats_current(),
            final(self).spec_zones().len() == 1,
            fresh_zone(
                final(self).spec_zones()[0],
                round_down(start as int, PAGE_SIZE as int),
                round_up(start + size, PAGE_SIZE as int),
                0,
            ),
    {
        self.bootstrap(start, size);
    }

    fn add_memory(&mut self, start: usize, size: usize) -> (r: AllocResult)
        ensures
            old(self).add_effect(&*final(self), start, size, r),
            r is Ok ==> final(self).stats_current(),
    {
        let r = self.add_memory_region(start, size);
        if r.is_err() {
            return r;
        }
        self.update_stats();
        Ok(())
    }
}

impl crate::PageAllocator for BuddyPageAllocator {
    open spec fn alloc_ok(&self, num_pages: usize, alignment: usize) -> bool {
        true
    }

    open spec fn place_ok(&self, base: usize, num_pages: usize, alignment: usize) -> bool {
        true
    }

    fn alloc_pages(&mut self, num_pages: usize, alignment: usize) -> (r: AllocResult<usize>)
        ensures
            old(self).alloc_effect(&*final(self), num_pages, alignment, r),
            r is Ok ==> final(self).stats_current(),
    {
        self.alloc_pages_in_zones(num_pages, alignment)
    }

    fn dealloc_pages(&mut self, pos: usize, num_pages: usize)
        ensures
            old(self).no_zone_for(pos as int) ==> final(self).spec_zones() == old(self).spec_zones(),
            forall|i: int| #[trigger] old(self).first_zone_for(pos as int, i) ==> old(self).spec_zones()[i].dealloc_effect(
                &final(self).spec_zones()[i],
                pos,
                num_pages,
            ) && old(self).others_kept(&*final(self), i) && final(self).stats_current(),
    {
        self.dealloc_pages_in_zone(pos, num_pages)
    }

    fn alloc_pages_at(&mut self, base: usize, num_pages: usize, alignment: usize) -> (r: AllocResult<usize>)
        ensures
            old(self).place_effect(&*final(self), base, num_pages, alignment, r),
    {
        self.alloc_pages_at_in_zone(base, num_pages, alignment)
    }

    fn total_pages(&self) -> (r: usize)
        ensures
            r == self.spec_stats().total_pages,
    {
        self.stats.total_pages
    }

    fn used_pages(&self) -> (r: usize)
        ensures
            r == self.spec_stats().used_pages,
    {
        self.stats.used_pages
    }

    fn available_pages(&self) -> (r: usize)
        ensures
            r == self.spec_stats().free_pages,
    {
        self.stats.free_pages
    }
}

/// Slabs come from the allocator's pages.
impl crate::slab::slab_byte_allocator::PageAllocatorForSlab for BuddyPageAllocator {
    open spec fn slab_inv(&self) -> bool {
        self.wf()
    }

    open spec fn slab_alloc_effect(&self, after: &Self, num_pages: usize, alignment: usize, r: AllocResult<usize>) -> bool {
        &&& self.alloc_effect(after, num_pages, alignment, r)
        &&& r is Ok ==> after.stats_current()
    }

    open spec fn slab_dealloc_effect(&self, after: &Self, pos: usize, num_pages: usize) -> bool {
        &&& self.no_zone_for(pos as int) ==> after.spec_zones() == self.spec_zones()
        &&& forall|i: int| #[trigger] self.first_zone_for(pos as int, i) ==> self.spec_zones()[i].dealloc_effect(
            &after.spec_zones()[i],
            pos,
            num_pages,
        ) && self.others_kept(after, i) && after.stats_current()
    }

    fn alloc_pages(&mut self, num_pages: usize, alignment: usize) -> (r: AllocResult<usize>)
        ensures
            old(self).alloc_effect(&*final(self), num_pages, alignment, r),
            r is Ok ==> final(self).stats_current(),
    {
        self.alloc_pages_in_zones(num_pages, alignment)
    }

    fn dealloc_pages(&mut self, pos: usize, num_pages: usize)
        ensures
            old(self).no_zone_for(pos as int) ==> final(self).spec_zones() == old(self).spec_zones(),
            forall|i: int| #[trigger] old(self).first_zone_for(pos as int, i) ==> old(self).spec_zones()[i].dealloc_effect(
                &final(self).spec_zones()[i],
                pos,
                num_pages,
            ) && old(self).others_kept(&*final(self), i) && final(self).stats_current(),
    {
        self.dealloc_pages_in_zone(pos, num_pages)
    }
}

/// Halving a block that holds the pages at `base`: the half they lie in
/// holds them, and both halves lie in the block.
proof fn lemma_holds_half(b: BuddyBlock, base: int, want: int)
    requires
        holds(b, base, want),
        0 <= want < b.order,
        block_end(b) <= usize::MAX,
    ensures
        ({
            let k = (b.order - 1) as nat;
            let half = pow2(k) * PAGE_SIZE;
            let lo = BuddyBlock { order: k as usize, addr: b.addr };
            let hi = BuddyBlock { order: k as usize, addr: (b.addr + half) as usize };
            &&& block_end(b) == b.addr + 2 * half
            &&& base < b.addr + half ==> holds(lo, base, want)
            &&& base >= b.addr + half ==> holds(hi, base, want)
        }),
{
    let k = (b.order - 1) as nat;
    let half = pow2(k) * PAGE_SIZE;
    let w = pow2(want as nat) * PAGE_SIZE;
    let d = base - b.addr;
    vstd::arithmetic::power2::lemma_pow2_unfold(b.order as nat);
    vstd::arithmetic::power2::lemma_pow2_pos(want as nat);
    vstd::arithmetic::power2::lemma_pow2_adds((k - want) as nat, want as nat);
    assert(((k - want) as nat + want as nat) as nat == k);
    let m = pow2((k - want) as nat) as int;
    assert(half == m * w) by (nonlinear_arith)
        requires half == pow2(k) * PAGE_SIZE, w == pow2(want as nat) * PAGE_SIZE,
            pow2(k) == m * pow2(want as nat);
    assert(w > 0);
    let a = d / w;
    vstd::arithmetic::div_mod::lemma_fundamental_div_mod(d, w);
    assert(d == a * w);
    if d < half {
        assert(a < m) by (nonlinear_arith) requires d == a * w, half == m * w, d < half, w > 0;
        assert(d + w <= half) by (nonlinear_arith) requires d == a * w, half == m * w, a < m, w > 0;
    } else {
        vstd::arithmetic::div_mod::lemma_mod_multiples_basic(a - m, w);
        assert(d - half == (a - m) * w) by (nonlinear_arith) requires d == a * w, half == m * w;
    }
}

/// The headroom is `2^40` bytes, which only a 64-bit address space has.
proof fn lemma_headroom()
    ensures
        headroom() == 0x100_0000_0000,
        pow2(DEFAULT_MAX_ORDER as nat) == 0x1000_0000,
{
    vstd::arithmetic::power2::lemma2_to64();
}

/// A shifted one is the power of two.
proof fn lemma_shift_pow2(o: usize)
    requires
        o < 64,
        o < usize::BITS,
    ensures
        (1usize << o) == pow2(o as nat),
        pow2(o as nat) <= usize::MAX,
{
    vstd::bits::lemma_usize_pow2_no_overflow(o as nat);
    vstd::bits::lemma_usize_shl_is_mul(1, o);
}

/// The bits below `o` are the remainder by `2^o`.
proof fn lemma_low_mask_mod(p: usize, o: usize)
    requires
        o < 64,
        o < usize::BITS,
    ensures
        (p & (((1usize << o) - 1) as usize)) == p % (1usize << o),
{
    lemma_shift_pow2(o);
    vstd::arithmetic::power2::lemma_pow2_pos(o as nat);
    vstd::bits::lemma_usize_low_bits_mask_is_mod(p, o as nat);
    assert(vstd::bits::low_bits_mask(o as nat) == pow2(o as nat) - 1);
    assert(((1usize << o) - 1) as usize == vstd::bits::low_bits_mask(o as nat) as usize);
    assert((1usize << o) == pow2(o as nat) as usize);
}

/// The low twelve bits of an address are its offset in the page.
proof fn lemma_page_mask(a: usize)
    ensures
        (a & 0xfffusize) == a % 0x1000,
        (a / 0x1000) * 0x1000 + a % 0x1000 == a,
{
    assert((a & 0xfffusize) == a % 0x1000) by (bit_vector);
}

/// Flipping bit `o` of a number whose bits below `o` are clear: the
/// two differ by `2^o`, their conjunction is the lower one and has its
/// bits below `o + 1` clear.
#[verifier::rlimit(80)]
#[verifier::spinoff_prover]
proof fn lemma_buddy_bits(p: usize, o: usize)
    by (bit_vector)
    requires
        o < 28,
        (p & (((1usize << o) - 1) as usize)) == 0,
    ensures
        (p & (1usize << o)) == 0 ==> (p ^ (1usize << o)) == p + (1usize << o) && (p & (p ^ (1usize << o))) == p,
        (p & (1usize << o)) != 0 ==> (p ^ (1usize << o)) == p - (1usize << o) && (p & (p ^ (1usize << o))) == p - (1usize << o),
        ((p & (p ^ (1usize << o))) & (((1usize << ((o + 1) as usize)) - 1) as usize)) == 0,
{
}

/// Freeing a block into a zone whose free lists are tidy and hold no two
/// buddies leaves them so: the freed block has merged with every free
/// buddy, the one above it as well as the one below it.
pub proof fn lemma_dealloc_leaves_no_buddies(z0: &BuddySet, z1: &BuddySet, addr: usize, num_pages: usize)
    requires
        z0.wf(),
        z0.tidy(),
        z0.no_free_buddies(),
        z0.dealloc_effect(z1, addr, num_pages),
    ensures
        z1.tidy(),
        z1.no_free_buddies(),
{
    if z0.frees(addr, num_pages) {
        lemma_headroom();
        let pfn = addr / PAGE_SIZE;
        assert(pfn * PAGE_SIZE == addr);
        lemma_merged_keeps(z0.base() as int, z0.end() as int, z0.lists(), pfn, pages_order(num_pages));
    }
}

/// Freeing the first `k` pages of a zone one by one into empty lists
/// leaves them tidy and free of buddy pairs.
proof fn lemma_freed_pages_keep(base: int, end: int, k: nat)
    requires
        0 <= base,
        base % PAGE_SIZE as int == 0,
        base + k * PAGE_SIZE <= end,
        end <= usize::MAX,
    ensures
        tidy_lists(
            freed_pages(base, end, Seq::new((DEFAULT_MAX_ORDER + 1) as nat, |o: int| Seq::<BuddyBlock>::empty()), k),
            base,
            end,
        ),
        no_buddy_pairs(freed_pages(base, end, Seq::new((DEFAULT_MAX_ORDER + 1) as nat, |o: int| Seq::<BuddyBlock>::empty()), k)),
    decreases k,
{
    let empty = Seq::new((DEFAULT_MAX_ORDER + 1) as nat, |o: int| Seq::<BuddyBlock>::empty());
    if k > 0 {
        lemma_freed_pages_keep(base, end, (k - 1) as nat);
        let a = base + (k - 1) * PAGE_SIZE;
        let pfn = (a / (PAGE_SIZE as int)) as usize;
        assert(a % PAGE_SIZE as int == 0);
        assert(pfn * PAGE_SIZE == a);
        assert(pow2(0) == 1) by {
            vstd::arithmetic::power2::lemma2_to64();
        }
        lemma_merged_keeps(base, end, freed_pages(base, end, empty, (k - 1) as nat), pfn, 0);
    }
}

/// Taking a block off a list keeps the lists tidy and free of buddy pairs.
proof fn lemma_remove_keeps(lists: Seq<Seq<BuddyBlock>>, base: int, end: int, o: int, k: int)
    requires
        tidy_lists(lists, base, end),
        no_buddy_pairs(lists),
        0 <= o <= DEFAULT_MAX_ORDER,
        0 <= k < lists[o].len(),
    ensures
        tidy_lists(lists.update(o, lists[o].remove(k)), base, end),
        no_buddy_pairs(lists.update(o, lists[o].remove(k))),
{
    let l2 = lists.update(o, lists[o].remove(k));
    assert forall|o2: int, k2: int| 0 <= o2 <= DEFAULT_MAX_ORDER && 0 <= k2 < l2[o2].len() implies {
        let b = #[trigger] l2[o2][k2];
        &&& b.order == o2
        &&& b.addr % PAGE_SIZE == 0
        &&& ((b.addr / PAGE_SIZE) as int) % (pow2(o2 as nat) as int) == 0
        &&& base <= b.addr < end
    } by {
        if o2 == o {
            let i = if k2 < k { k2 } else { k2 + 1 };
            assert(l2[o2][k2] == lists[o2][i]);
        } else {
            assert(l2[o2][k2] == lists[o2][k2]);
        }
    }
    assert forall|o2: int, j2: int, k2: int|
        #![trigger l2[o2][j2], l2[o2][k2]]
        0 <= o2 < DEFAULT_MAX_ORDER && 0 <= j2 < l2[o2].len() && 0 <= k2 < l2[o2].len() implies l2[o2][j2].addr
            / PAGE_SIZE != buddy_pfn(l2[o2][k2].addr / PAGE_SIZE, o2) by {
        if o2 == o {
            let i = if j2 < k { j2 } else { j2 + 1 };
            let m = if k2 < k { k2 } else { k2 + 1 };
            assert(l2[o2][j2] == lists[o2][i]);
            assert(l2[o2][k2] == lists[o2][m]);
            assert(lists[o2][i].addr / PAGE_SIZE != buddy_pfn(lists[o2][m].addr / PAGE_SIZE, o2));
        } else {
            assert(l2[o2][j2] == lists[o2][j2]);
            assert(l2[o2][k2] == lists[o2][k2]);
            assert(lists[o2][j2].addr / PAGE_SIZE != buddy_pfn(lists[o2][k2].addr / PAGE_SIZE, o2));
        }
    }
}

/// Buddies pair up both ways, and no block is its own buddy.
proof fn lemma_buddy_symmetric(p: usize, x: usize, o: usize)
    requires
        o < 64,
        o < usize::BITS,
    ensures
        p != p ^ (1usize << o),
        (x == p ^ (1usize << o)) == (p == x ^ (1usize << o)),
{
    lemma_shift_pow2(o);
    vstd::arithmetic::power2::lemma_pow2_pos(o as nat);
    let m = 1usize << o;
    assert(m != 0);
    assert(p != p ^ m) by (bit_vector)
        requires m != 0;
    assert((x == p ^ m) == (p == x ^ m)) by (bit_vector);
}

/// Pushing a block whose buddy is not free keeps the lists tidy and free
/// of buddy pairs.
proof fn lemma_push_keeps(lists: Seq<Seq<BuddyBlock>>, base: int, end: int, pfn: usize, order: usize)
    requires
        tidy_lists(lists, base, end),
        no_buddy_pairs(lists),
        order <= DEFAULT_MAX_ORDER,
        (pfn as int) % (pow2(order as nat) as int) == 0,
        base <= pfn * PAGE_SIZE < end,
        end <= usize::MAX,
        order < DEFAULT_MAX_ORDER ==> forall|k: int|
            0 <= k < lists[order as int].len() ==> #[trigger] lists[order as int][k].addr / PAGE_SIZE != buddy_pfn(pfn, order as int),
    ensures
        tidy_lists(push_block(lists, order as int, BuddyBlock { order, addr: (pfn * PAGE_SIZE) as usize }), base, end),
        no_buddy_pairs(push_block(lists, order as int, BuddyBlock { order, addr: (pfn * PAGE_SIZE) as usize })),
{
    let b = BuddyBlock { order, addr: (pfn * PAGE_SIZE) as usize };
    let l2 = push_block(lists, order as int, b);
    let o = order as int;
    assert(b.addr / PAGE_SIZE == pfn);
    assert(b.addr % PAGE_SIZE == 0);
    if lists[o].len() < MAX_BLOCKS_PER_LIST {
        let n = lists[o].len() as int;
        assert forall|o2: int, k2: int| 0 <= o2 <= DEFAULT_MAX_ORDER && 0 <= k2 < l2[o2].len() implies {
            let c = #[trigger] l2[o2][k2];
            &&& c.order == o2
            &&& c.addr % PAGE_SIZE == 0
            &&& ((c.addr / PAGE_SIZE) as int) % (pow2(o2 as nat) as int) == 0
            &&& base <= c.addr < end
        } by {
            if o2 == o && k2 == n {
                assert(l2[o2][k2] == b);
            } else {
                assert(l2[o2][k2] == lists[o2][k2]);
            }
        }
        assert forall|o2: int, j2: int, k2: int|
            #![trigger l2[o2][j2], l2[o2][k2]]
            0 <= o2 < DEFAULT_MAX_ORDER && 0 <= j2 < l2[o2].len() && 0 <= k2 < l2[o2].len() implies l2[o2][j2].addr
                / PAGE_SIZE != buddy_pfn(l2[o2][k2].addr / PAGE_SIZE, o2) by {
            if o2 == o {
                lemma_buddy_symmetric(pfn, 0, order);
                if j2 == n && k2 == n {
                    assert(l2[o2][j2] == b && l2[o2][k2] == b);
                } else if j2 == n {
                    assert(l2[o2][j2] == b);
                    assert(l2[o2][k2] == lists[o2][k2]);
                    let x = lists[o2][k2].addr / PAGE_SIZE;
                    assert(x != buddy_pfn(pfn, o));
                    lemma_buddy_symmetric(pfn, x, order);
                } else if k2 == n {
                    assert(l2[o2][k2] == b);
                    assert(l2[o2][j2] == lists[o2][j2]);
                } else {
                    assert(l2[o2][j2] == lists[o2][j2]);
                    assert(l2[o2][k2] == lists[o2][k2]);
                    assert(lists[o2][j2].addr / PAGE_SIZE != buddy_pfn(lists[o2][k2].addr / PAGE_SIZE, o2));
                }
            } else {
                assert(l2[o2][j2] == lists[o2][j2]);
                assert(l2[o2][k2] == lists[o2][k2]);
                assert(lists[o2][j2].addr / PAGE_SIZE != buddy_pfn(lists[o2][k2].addr / PAGE_SIZE, o2));
            }
        }
    }
}

/// A block at `addr` somewhere in `s` means a first one.
proof fn lemma_first_at_exists(s: Seq<BuddyBlock>, addr: int, j: int)
    requires
        0 <= j < s.len(),
        s[j].addr == addr,
    ensures
        exists|k: int| first_at(s, addr, k),
    decreases j,
{
    if exists|i: int| 0 <= i < j && s[i].addr == addr {
        let i = choose|i: int| 0 <= i < j && s[i].addr == addr;
        lemma_first_at_exists(s, addr, i);
    } else {
        assert(first_at(s, addr, j));
    }
}

/// Merging a freed block with its free buddies keeps tidy free lists
/// tidy and free of buddy pairs.
proof fn lemma_merged_keeps(base: int, end: int, lists: Seq<Seq<BuddyBlock>>, pfn: usize, order: usize)
    requires
        tidy_lists(lists, base, end),
        no_buddy_pairs(lists),
        order <= DEFAULT_MAX_ORDER,
        (pfn as int) % (pow2(order as nat) as int) == 0,
        base <= pfn * PAGE_SIZE < end,
        end <= usize::MAX,
    ensures
        tidy_lists(merged(base, end, lists, pfn, order), base, end),
        no_buddy_pairs(merged(base, end, lists, pfn, order)),
    decreases DEFAULT_MAX_ORDER - order,
{
    let o = order as int;
    if order >= DEFAULT_MAX_ORDER {
        lemma_push_keeps(lists, base, end, pfn, order);
    } else {
        let bpfn = pfn ^ (1usize << order);
        let baddr = bpfn * PAGE_SIZE;
        assert(bpfn == buddy_pfn(pfn, o));
        if baddr > usize::MAX || !(base <= baddr < end) {
            assert forall|k: int| 0 <= k < lists[o].len() implies #[trigger] lists[o][k].addr / PAGE_SIZE != buddy_pfn(pfn, o) by {
                let c = lists[o][k];
                if c.addr / PAGE_SIZE == bpfn {
                    assert(c.addr == (c.addr / PAGE_SIZE) * PAGE_SIZE);
                }
            }
            lemma_push_keeps(lists, base, end, pfn, order);
        } else if exists|k: int| first_at(lists[o], baddr, k) {
            let k = choose|k: int| first_at(lists[o], baddr, k);
            assert(lists[o][k].order == order);
            lemma_remove_keeps(lists, base, end, o, k);
            lemma_buddy_pfn(pfn, order);
            let p2 = pfn & bpfn;
            assert(base <= p2 * PAGE_SIZE < end);
            lemma_merged_keeps(base, end, lists.update(o, lists[o].remove(k)), p2, (order + 1) as usize);
        } else {
            assert forall|k: int| 0 <= k < lists[o].len() implies #[trigger] lists[o][k].addr / PAGE_SIZE != buddy_pfn(pfn, o) by {
                let c = lists[o][k];
                if c.addr / PAGE_SIZE == bpfn {
                    assert(c.addr == (c.addr / PAGE_SIZE) * PAGE_SIZE);
                    lemma_first_at_exists(lists[o], baddr, k);
                }
            }
            lemma_push_keeps(lists, base, end, pfn, order);
        }
    }
}

/// The buddy of an aligned page frame number differs from it by `2^o`,
/// and the merged block starts at the lower of the two, aligned one
/// order up.
proof fn lemma_buddy_pfn(p: usize, o: usize)
    requires
        o < 28,
        (p as int) % (pow2(o as nat) as int) == 0,
    ensures
        (p & (1usize << o)) == 0 ==> (p ^ (1usize << o)) == p + pow2(o as nat) && (p & (p ^ (1usize << o))) == p,
        (p & (1usize << o)) != 0 ==> (p ^ (1usize << o)) == p - pow2(o as nat) && (p & (p ^ (1usize << o))) == p - pow2(o as nat),
        ((p & (p ^ (1usize << o))) as int) % (pow2((o + 1) as nat) as int) == 0,
{
    lemma_shift_pow2(o);
    lemma_shift_pow2((o + 1) as usize);
    lemma_low_mask_mod(p, o);
    lemma_buddy_bits(p, o);
    lemma_low_mask_mod(p & (p ^ (1usize << o)), (o + 1) as usize);
}

} // verus!
