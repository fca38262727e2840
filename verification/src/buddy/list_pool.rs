//! Shared pool of bounded lists for buddy free lists.
//!
//! All orders draw lists from one pool: a list is handed to an order while
//! it is needed and given back when it is empty, so orders with many free
//! blocks can hold more than one list's worth.
use vstd::prelude::*;
use super::buddy_block::{BuddyBlock, DEFAULT_MAX_ORDER};
use super::linked_list::StaticLinkedList;

verus! {

/// Number of entries of `s` equal to `v`.
pub open spec fn occurrences(s: Seq<usize>, v: usize) -> nat
    decreases s.len(),
{
    if s.len() == 0 {
        0
    } else {
        occurrences(s.drop_last(), v) + (if s.last() == v { 1nat } else { 0nat })
    }
}

/// Counting after one entry changes.
pub proof fn lemma_occurrences_update(s: Seq<usize>, i: int, x: usize, v: usize)
    requires
        0 <= i < s.len(),
    ensures
        occurrences(s.update(i, x), v) == occurrences(s, v) - (if s[i] == v { 1int } else { 0 }) + (if x == v { 1int } else { 0 }),
    decreases s.len(),
{
    let t = s.update(i, x);
    if i == s.len() - 1 {
        assert(t.drop_last() =~= s.drop_last());
    } else {
        lemma_occurrences_update(s.drop_last(), i, x, v);
        assert(t.drop_last() =~= s.drop_last().update(i, x));
    }
}

/// An entry equal to `v` is counted, so the count is positive; an entry
/// other than `v` leaves the count below the length.
pub proof fn lemma_occurrences_bounds(s: Seq<usize>, i: int, v: usize)
    requires
        0 <= i < s.len(),
    ensures
        occurrences(s, v) <= s.len(),
        s[i] == v ==> occurrences(s, v) >= 1,
        s[i] != v ==> occurrences(s, v) < s.len(),
    decreases s.len(),
{
    if s.len() == 1 {
        assert(occurrences(s.drop_last(), v) == 0);
    } else if i < s.len() - 1 {
        lemma_occurrences_bounds(s.drop_last(), i, v);
    } else {
        lemma_occurrences_bounds(s.drop_last(), 0, v);
    }
}

/// A sequence of zeros counts its length of zeros.
pub proof fn lemma_occurrences_all(n: nat, v: usize)
    ensures
        occurrences(Seq::new(n, |k: int| v), v) == n,
    decreases n,
{
    if n > 0 {
        lemma_occurrences_all((n - 1) as nat, v);
        assert(Seq::new(n, |k: int| v).drop_last() =~= Seq::new((n - 1) as nat, |k: int| v));
    }
}

/// Blocks held by the lists among the first `n` that belong to usage mark `v`.
pub open spec fn blocks_in(lens: Seq<nat>, usage: Seq<usize>, v: usize, n: int) -> int
    decreases n,
{
    if n <= 0 {
        0
    } else {
        blocks_in(lens, usage, v, n - 1) + (if usage[n - 1] == v { lens[n - 1] as int } else { 0 })
    }
}

/// Each list adds at most its capacity.
pub proof fn lemma_blocks_in_bound(lens: Seq<nat>, usage: Seq<usize>, v: usize, n: int, cap: int)
    requires
        0 <= n <= lens.len(),
        forall|k: int| 0 <= k < lens.len() ==> #[trigger] lens[k] <= cap,
        cap >= 0,
    ensures
        0 <= blocks_in(lens, usage, v, n) <= n * cap,
    decreases n,
{
    if n > 0 {
        lemma_blocks_in_bound(lens, usage, v, n - 1, cap);
        assert((n - 1) * cap + cap == n * cap) by (nonlinear_arith);
    }
}

/// Pool statistics.
#[derive(Debug)]
pub struct PoolStats {
    pub total_lists: usize,
    pub free_lists: usize,
    pub used_lists: usize,
    pub lists_by_order: [usize; 29],
    pub blocks_by_order: [usize; 29],
}

/// Pool of `TOTAL_LISTS` lists of `LIST_CAPACITY` blocks each, shared by
/// `MAX_ORDERS` orders.
pub struct StaticSharedPool<const TOTAL_LISTS: usize, const LIST_CAPACITY: usize, const MAX_ORDERS: usize> {
    lists: Vec<StaticLinkedList<BuddyBlock, LIST_CAPACITY>>,
    /// For each list: 0 when free, `order + 1` while an order holds it.
    usage: Vec<usize>,
    order_list_count: Vec<usize>,
}

impl<const TOTAL_LISTS: usize, const LIST_CAPACITY: usize, const MAX_ORDERS: usize> StaticSharedPool<
    TOTAL_LISTS,
    LIST_CAPACITY,
    MAX_ORDERS,
> {
    /// The usage mark of each list: 0 when free, `order + 1` while held.
    pub closed spec fn usage(&self) -> Seq<usize> {
        self.usage@
    }

    /// The blocks of list `i`.
    pub closed spec fn list(&self, i: int) -> Seq<BuddyBlock> {
        self.lists@[i]@
    }

    /// The number of blocks in each list.
    pub closed spec fn list_lens(&self) -> Seq<nat> {
        Seq::new(self.lists@.len(), |i: int| self.lists@[i]@.len())
    }

    /// One list and one usage mark per list, one count per order; each
    /// order's count is the number of lists it holds, and every mark names
    /// an order of the pool.
    pub closed spec fn wf(&self) -> bool {
        &&& self.lists@.len() == TOTAL_LISTS
        &&& self.usage@.len() == TOTAL_LISTS
        &&& self.order_list_count@.len() == MAX_ORDERS
        &&& forall|o: int| 0 <= o < MAX_ORDERS ==> #[trigger] self.order_list_count@[o] == occurrences(self.usage@, (o + 1) as usize)
        &&& forall|i: int| 0 <= i < TOTAL_LISTS ==> #[trigger] self.usage@[i] <= MAX_ORDERS
        &&& MAX_ORDERS < usize::MAX
    }

    /// A pool whose lists are all free and empty.
    pub fn new() -> (r: Self)
        requires
            MAX_ORDERS < usize::MAX,
        ensures
            r.wf(),
            r.usage() == Seq::new(TOTAL_LISTS as nat, |i: int| 0usize),
            forall|i: int| 0 <= i < TOTAL_LISTS ==> #[trigger] r.list(i) == Seq::<BuddyBlock>::empty(),
    {
        let mut lists: Vec<StaticLinkedList<BuddyBlock, LIST_CAPACITY>> = Vec::new();
        let mut usage: Vec<usize> = Vec::new();
        let mut i: usize = 0;
        while i < TOTAL_LISTS
            invariant
                i <= TOTAL_LISTS,
                lists@.len() == i,
                usage@.len() == i,
                forall|k: int| 0 <= k < i ==> #[trigger] lists@[k]@ == Seq::<BuddyBlock>::empty(),
                forall|k: int| 0 <= k < i ==> #[trigger] usage@[k] == 0,
            decreases TOTAL_LISTS - i,
        {
            lists.push(StaticLinkedList::new());
            usage.push(0);
            i = i + 1;
        }
        let mut order_list_count: Vec<usize> = Vec::new();
        let mut o: usize = 0;
        while o < MAX_ORDERS
            invariant
                o <= MAX_ORDERS,
                order_list_count@.len() == o,
                forall|k: int| 0 <= k < o ==> #[trigger] order_list_count@[k] == 0,
            decreases MAX_ORDERS - o,
        {
            order_list_count.push(0);
            o = o + 1;
        }
        proof {
            assert(usage@ =~= Seq::new(TOTAL_LISTS as nat, |i: int| 0usize));
            assert forall|o: int| 0 <= o < MAX_ORDERS implies #[trigger] order_list_count@[o] == occurrences(
                usage@,
                (o + 1) as usize,
            ) by {
                lemma_occurrences_all(TOTAL_LISTS as nat, 0);
                if TOTAL_LISTS > 0 {
                    lemma_occurrences_bounds(usage@, 0, (o + 1) as usize);
                    lemma_no_occurrences(usage@, (o + 1) as usize);
                }
            }
        }
        StaticSharedPool { lists, usage, order_list_count }
    }

    /// Empty every list; which order holds which list is unchanged.
    pub fn init(&mut self)
        requires
            old(self).wf(),
        ensures
            final(self).wf(),
            final(self).usage() == old(self).usage(),
            forall|i: int| 0 <= i < TOTAL_LISTS ==> #[trigger] final(self).list(i) == Seq::<BuddyBlock>::empty(),
    {
        let mut i: usize = 0;
        while i < self.lists.len()
            invariant
                self.wf(),
                self.usage@ == old(self).usage@,
                self.order_list_count@ == old(self).order_list_count@,
                i <= TOTAL_LISTS,
                forall|k: int| 0 <= k < i ==> #[trigger] self.lists@[k]@ == Seq::<BuddyBlock>::empty(),
            decreases TOTAL_LISTS - i,
        {
            self.lists.set(i, StaticLinkedList::new());
            i = i + 1;
        }
    }

    /// Hand a free list to `order`: the first free one, or `None` when every
    /// list is held.
    pub fn alloc_list(&mut self, order: usize) -> (r: Option<usize>)
        requires
            old(self).wf(),
            order < MAX_ORDERS,
        ensures
            final(self).wf(),
            forall|i: int| 0 <= i < TOTAL_LISTS ==> #[trigger] final(self).list(i) == old(self).list(i),
            r matches Some(i) ==> i < TOTAL_LISTS && old(self).usage()[i as int] == 0 && (forall|j: int|
                0 <= j < i ==> #[trigger] old(self).usage()[j] != 0) && final(self).usage() == old(self).usage().update(
                i as int,
                (order + 1) as usize,
            ),
            r is None ==> final(self).usage() == old(self).usage() && forall|j: int| 0 <= j < TOTAL_LISTS ==> #[trigger] old(self).usage()[j] != 0,
    {
        let mut i: usize = 0;
        while i < self.usage.len()
            invariant
                self.wf(),
                *self == *old(self),
                order < MAX_ORDERS,
                i <= TOTAL_LISTS,
                forall|j: int| 0 <= j < i ==> #[trigger] self.usage@[j] != 0,
            decreases TOTAL_LISTS - i,
        {
            if self.usage[i] == 0 {
                proof {
                    lemma_occurrences_bounds(self.usage@, i as int, (order + 1) as usize);
                    assert forall|o: int| 0 <= o < MAX_ORDERS && o != order implies occurrences(
                        self.usage@.update(i as int, (order + 1) as usize),
                        (o + 1) as usize,
                    ) == #[trigger] occurrences(self.usage@, (o + 1) as usize) by {
                        lemma_occurrences_update(self.usage@, i as int, (order + 1) as usize, (o + 1) as usize);
                    }
                    lemma_occurrences_update(self.usage@, i as int, (order + 1) as usize, (order + 1) as usize);
                }
                let c = self.order_list_count[order];
                self.usage.set(i, order + 1);
                self.order_list_count.set(order, c + 1);
                return Some(i);
            }
            i = i + 1;
        }
        None
    }

    /// Give list `list_idx` back from `order`; it must be held by that order
    /// and empty.
    pub fn free_list(&mut self, list_idx: usize, order: usize)
        requires
            old(self).wf(),
            list_idx < TOTAL_LISTS,
            order < MAX_ORDERS,
            old(self).usage()[list_idx as int] == order + 1,
            old(self).list(list_idx as int).len() == 0,
        ensures
            final(self).wf(),
            forall|i: int| 0 <= i < TOTAL_LISTS ==> #[trigger] final(self).list(i) == old(self).list(i),
            final(self).usage() == old(self).usage().update(list_idx as int, 0),
    {
        proof {
            lemma_occurrences_bounds(self.usage@, list_idx as int, (order + 1) as usize);
            assert forall|o: int| 0 <= o < MAX_ORDERS && o != order implies occurrences(
                self.usage@.update(list_idx as int, 0),
                (o + 1) as usize,
            ) == #[trigger] occurrences(self.usage@, (o + 1) as usize) by {
                lemma_occurrences_update(self.usage@, list_idx as int, 0, (o + 1) as usize);
            }
            lemma_occurrences_update(self.usage@, list_idx as int, 0, (order + 1) as usize);
        }
        let c = self.order_list_count[order];
        self.usage.set(list_idx, 0);
        self.order_list_count.set(order, c - 1);
    }

    /// List `list_idx`.
    pub fn get_list(&self, list_idx: usize) -> (r: &StaticLinkedList<BuddyBlock, LIST_CAPACITY>)
        requires
            self.wf(),
            list_idx < TOTAL_LISTS,
        ensures
            r@ == self.list(list_idx as int),
    {
        &self.lists[list_idx]
    }

    /// List `list_idx`, to change in place.
    pub fn get_list_mut(&mut self, list_idx: usize) -> (r: &mut StaticLinkedList<BuddyBlock, LIST_CAPACITY>)
        requires
            old(self).wf(),
            list_idx < TOTAL_LISTS,
        ensures
            (*r)@ == old(self).list(list_idx as int),
            final(self).wf(),
            final(self).usage() == old(self).usage(),
            final(self).list(list_idx as int) == (*final(r))@,
            forall|i: int| 0 <= i < TOTAL_LISTS && i != list_idx ==> #[trigger] final(self).list(i) == old(self).list(i),
    {
        &mut self.lists[list_idx]
    }

    /// The lists `order` holds, in ascending position.
    pub fn get_order_lists(&self, order: usize) -> (r: Vec<usize>)
        requires
            self.wf(),
            order < usize::MAX,
        ensures
            forall|k: int| 0 <= k < r@.len() ==> #[trigger] r@[k] < TOTAL_LISTS && self.usage()[r@[k] as int] == order + 1,
            forall|k: int, l: int| 0 <= k < l < r@.len() ==> #[trigger] r@[k] < #[trigger] r@[l],
            forall|i: int| 0 <= i < TOTAL_LISTS && #[trigger] self.usage()[i] == order + 1 ==> r@.contains(i as usize),
    {
        let mut out: Vec<usize> = Vec::new();
        let mut i: usize = 0;
        while i < self.usage.len()
            invariant
                self.wf(),
                order < usize::MAX,
                i <= TOTAL_LISTS,
                forall|k: int| 0 <= k < out@.len() ==> #[trigger] out@[k] < i && self.usage@[out@[k] as int] == order + 1,
                forall|k: int, l: int| 0 <= k < l < out@.len() ==> #[trigger] out@[k] < #[trigger] out@[l],
                forall|j: int| 0 <= j < i && #[trigger] self.usage@[j] == order + 1 ==> out@.contains(j as usize),
            decreases TOTAL_LISTS - i,
        {
            if self.usage[i] == order + 1 {
                let ghost before = out@;
                out.push(i);
                proof {
                    assert forall|j: int| 0 <= j < i + 1 && #[trigger] self.usage@[j] == order + 1 implies out@.contains(
                        j as usize,
                    ) by {
                        if j < i {
                            let k = choose|k: int| 0 <= k < before.len() && before[k] == j as usize;
                            assert(out@[k] == j as usize);
                        } else {
                            assert(out@[before.len() as int] == i);
                        }
                    }
                }
            } else {
                proof {
                    assert forall|j: int| 0 <= j < i + 1 && #[trigger] self.usage@[j] == order + 1 implies out@.contains(
                        j as usize,
                    ) by {}
                }
            }
            i = i + 1;
        }
        out
    }

    /// The first list of `order` with room for another block, if any.
    pub fn find_available_list_for_order(&self, order: usize) -> (r: Option<usize>)
        requires
            self.wf(),
            order < usize::MAX,
        ensures
            r matches Some(i) ==> i < TOTAL_LISTS && self.usage()[i as int] == order + 1 && self.list(i as int).len()
                < LIST_CAPACITY && forall|j: int|
                0 <= j < i ==> !(#[trigger] self.usage()[j] == order + 1 && self.list(j).len() < LIST_CAPACITY),
            r is None ==> forall|j: int|
                0 <= j < TOTAL_LISTS ==> !(#[trigger] self.usage()[j] == order + 1 && self.list(j).len() < LIST_CAPACITY),
    {
        let mut i: usize = 0;
        while i < self.usage.len()
            invariant
                self.wf(),
                order < usize::MAX,
                i <= TOTAL_LISTS,
                forall|j: int| 0 <= j < i ==> !(#[trigger] self.usage@[j] == order + 1 && self.lists@[j]@.len() < LIST_CAPACITY),
            decreases TOTAL_LISTS - i,
        {
            if self.usage[i] == order + 1 && self.lists[i].len() < LIST_CAPACITY {
                return Some(i);
            }
            i = i + 1;
        }
        None
    }

    /// The number of lists `order` holds; 0 for an order past the pool's.
    pub fn order_list_count(&self, order: usize) -> (r: usize)
        requires
            self.wf(),
        ensures
            order >= MAX_ORDERS ==> r == 0,
            order < MAX_ORDERS ==> r == occurrences(self.usage(), (order + 1) as usize),
    {
        if order >= MAX_ORDERS {
            return 0;
        }
        self.order_list_count[order]
    }

    /// The number of free lists.
    pub fn free_list_count(&self) -> (r: usize)
        requires
            self.wf(),
        ensures
            r == occurrences(self.usage(), 0),
    {
        let mut count: usize = 0;
        let mut i: usize = 0;
        while i < self.usage.len()
            invariant
                self.wf(),
                i <= TOTAL_LISTS,
                count == occurrences(self.usage@.subrange(0, i as int), 0),
                count <= i,
            decreases TOTAL_LISTS - i,
        {
            proof {
                assert(self.usage@.subrange(0, i + 1).drop_last() =~= self.usage@.subrange(0, i as int));
            }
            if self.usage[i] == 0 {
                count = count + 1;
            }
            i = i + 1;
        }
        proof {
            assert(self.usage@.subrange(0, TOTAL_LISTS as int) =~= self.usage@);
        }
        count
    }

    /// The blocks in all lists `order` holds.
    pub fn order_total_blocks(&self, order: usize) -> (r: usize)
        requires
            self.wf(),
            order < usize::MAX,
            TOTAL_LISTS * LIST_CAPACITY <= usize::MAX,
        ensures
            r == blocks_in(self.list_lens(), self.usage(), (order + 1) as usize, TOTAL_LISTS as int),
    {
        let ghost lens = self.list_lens();
        let mut total: usize = 0;
        let mut i: usize = 0;
        while i < self.usage.len()
            invariant
                self.wf(),
                TOTAL_LISTS * LIST_CAPACITY <= usize::MAX,
                order < usize::MAX,
                lens == self.list_lens(),
                i <= TOTAL_LISTS,
                forall|k: int| 0 <= k < i ==> #[trigger] lens[k] <= LIST_CAPACITY,
                total == blocks_in(lens, self.usage@, (order + 1) as usize, i as int),
            decreases TOTAL_LISTS - i,
        {
            let n = self.lists[i].len();
            proof {
                lemma_blocks_in_bound(lens.subrange(0, i + 1), self.usage@, (order + 1) as usize, i as int, LIST_CAPACITY as int);
                lemma_blocks_in_prefix(lens, lens.subrange(0, i + 1), self.usage@, (order + 1) as usize, i as int);
                assert(i * LIST_CAPACITY + LIST_CAPACITY <= TOTAL_LISTS * LIST_CAPACITY) by (nonlinear_arith)
                    requires i < TOTAL_LISTS;
            }
            if self.usage[i] == order + 1 {
                total = total + n;
            }
            i = i + 1;
        }
        total
    }

    /// Counts of free and held lists and, per order, of lists and blocks.
    pub fn get_stats(&self) -> (r: PoolStats)
        requires
            self.wf(),
            TOTAL_LISTS * LIST_CAPACITY <= usize::MAX,
            MAX_ORDERS <= DEFAULT_MAX_ORDER + 1,
        ensures
            r.total_lists == TOTAL_LISTS,
            r.free_lists == occurrences(self.usage(), 0),
            r.used_lists == TOTAL_LISTS - r.free_lists,
            forall|o: int| 0 <= o < MAX_ORDERS ==> #[trigger] r.lists_by_order[o] == occurrences(self.usage(), (o + 1) as usize),
            forall|o: int| 0 <= o < MAX_ORDERS ==> #[trigger] r.blocks_by_order[o] == blocks_in(
                self.list_lens(),
                self.usage(),
                (o + 1) as usize,
                TOTAL_LISTS as int,
            ),
            forall|o: int| MAX_ORDERS <= o < 29 ==> r.lists_by_order[o] == 0 && r.blocks_by_order[o] == 0,
    {
        let free_lists = self.free_list_count();
        proof {
            if TOTAL_LISTS > 0 {
                lemma_occurrences_bounds(self.usage@, 0, 0);
            }
        }
        let mut stats = PoolStats {
            total_lists: TOTAL_LISTS,
            free_lists,
            used_lists: TOTAL_LISTS - free_lists,
            lists_by_order: [0; 29],
            blocks_by_order: [0; 29],
        };
        let mut order: usize = 0;
        while order < MAX_ORDERS
            invariant
                self.wf(),
                TOTAL_LISTS * LIST_CAPACITY <= usize::MAX,
                MAX_ORDERS <= 29,
                order <= MAX_ORDERS,
                stats.total_lists == TOTAL_LISTS,
                stats.free_lists == occurrences(self.usage(), 0),
                stats.used_lists == TOTAL_LISTS - stats.free_lists,
                forall|o: int| 0 <= o < order ==> #[trigger] stats.lists_by_order[o] == occurrences(self.usage(), (o + 1) as usize),
                forall|o: int| 0 <= o < order ==> #[trigger] stats.blocks_by_order[o] == blocks_in(
                    self.list_lens(),
                    self.usage(),
                    (o + 1) as usize,
                    TOTAL_LISTS as int,
                ),
                forall|o: int| order <= o < 29 ==> stats.lists_by_order[o] == 0 && stats.blocks_by_order[o] == 0,
            decreases MAX_ORDERS - order,
        {
            stats.lists_by_order[order] = self.order_list_count(order);
            stats.blocks_by_order[order] = self.order_total_blocks(order);
            order = order + 1;
        }
        stats
    }
}

/// No entry equals `v` when all entries are zero and `v` is not.
pub proof fn lemma_no_occurrences(s: Seq<usize>, v: usize)
    requires
        forall|k: int| 0 <= k < s.len() ==> #[trigger] s[k] == 0,
        v != 0,
    ensures
        occurrences(s, v) == 0,
    decreases s.len(),
{
    if s.len() > 0 {
        lemma_no_occurrences(s.drop_last(), v);
    }
}

/// The blocks counted over the first `n` lists depend only on those lists.
pub proof fn lemma_blocks_in_prefix(lens: Seq<nat>, pre: Seq<nat>, usage: Seq<usize>, v: usize, n: int)
    requires
        0 <= n <= pre.len() <= lens.len(),
        forall|k: int| 0 <= k < pre.len() ==> #[trigger] pre[k] == lens[k],
    ensures
        blocks_in(lens, usage, v, n) == blocks_in(pre, usage, v, n),
    decreases n,
{
    if n > 0 {
        lemma_blocks_in_prefix(lens, pre, usage, v, n - 1);
    }
}

} // verus!
