//! Global node pool for the buddy allocator.
//!
//! One pool of list nodes is shared by the free lists of every zone and
//! order. Nodes are carved from memory regions handed to the pool; a node is
//! named by its index, and free nodes are kept on a LIFO free list.
use vstd::prelude::*;
use super::buddy_block::BuddyBlock;

verus! {

/// Simple linked list node used by the global node pool.
#[derive(Debug, Clone, Copy)]
pub struct ListNode<T> {
    pub data: T,
    pub next: Option<usize>,
}

/// Bytes of memory one pool node occupies in a region.
pub const NODE_SIZE: usize = 32;

/// Alignment of a pool node within a region.
pub const NODE_ALIGN: usize = 8;

/// The number of nodes a region `[start, start + size)` holds: nodes are laid
/// out back to back from `start` rounded up to the node alignment.
pub open spec fn region_node_count(start: int, size: int) -> int {
    let first = if start % NODE_ALIGN as int == 0 { start } else { start - start % NODE_ALIGN as int + NODE_ALIGN as int };
    if size < NODE_SIZE || first + NODE_SIZE > start + size {
        0
    } else {
        (start + size - first) / NODE_SIZE as int
    }
}

/// Global node pool: every zone and order takes its list nodes from here.
pub struct GlobalNodePool {
    nodes: Vec<ListNode<BuddyBlock>>,
    free_stack: Vec<usize>,
    total_nodes: usize,
    free_nodes: usize,
    total_allocations: usize,
    total_deallocations: usize,
}

/// The pool contents outside `owned` that were in use stay as they were and stay in use.
pub open spec fn pool_frame(p1: GlobalNodePool, p2: GlobalNodePool, owned: Set<usize>) -> bool {
    &&& p2.nodes_view().len() >= p1.nodes_view().len()
    &&& forall|i: usize|
        #![trigger p2.nodes_view()[i as int]]
        #![trigger p2.is_free(i)]
        i < p1.nodes_view().len() && !owned.contains(i) && !p1.is_free(i) ==> p2.nodes_view()[i as int]
            == p1.nodes_view()[i as int] && !p2.is_free(i)
}

/// Composition of two frames whose second owner set lies in the first set or in free nodes.
pub proof fn lemma_pool_frame_trans(
    p1: GlobalNodePool,
    p2: GlobalNodePool,
    p3: GlobalNodePool,
    a: Set<usize>,
    b: Set<usize>,
)
    requires
        pool_frame(p1, p2, a),
        pool_frame(p2, p3, b),
        forall|i: usize| #[trigger] b.contains(i) && i < p1.nodes_view().len() ==> a.contains(i) || p1.is_free(i),
    ensures
        pool_frame(p1, p3, a),
{
    assert forall|i: usize|
        i < p1.nodes_view().len() && !a.contains(i) && !p1.is_free(i) implies p3.nodes_view()[i as int]
            == p1.nodes_view()[i as int] && !p3.is_free(i) by {
        assert(p2.nodes_view()[i as int] == p1.nodes_view()[i as int] && !p2.is_free(i));
        assert(!b.contains(i));
    }
}

/// A frame with a larger owner set.
pub proof fn lemma_pool_frame_widen(p1: GlobalNodePool, p2: GlobalNodePool, a: Set<usize>, b: Set<usize>)
    requires
        pool_frame(p1, p2, a),
        a.subset_of(b),
    ensures
        pool_frame(p1, p2, b),
{
}

/// Growing a pool keeps its nodes, in use and free, as they were.
pub proof fn lemma_grow_frame(p0: GlobalNodePool, p1: GlobalNodePool)
    requires
        p0.wf(),
        p1.nodes_view().len() >= p0.nodes_view().len(),
        p1.nodes_view().subrange(0, p0.nodes_view().len() as int) == p0.nodes_view(),
        p1.free_ids().len() >= p0.free_ids().len(),
        p1.free_ids().subrange(0, p0.free_ids().len() as int) == p0.free_ids(),
        forall|k: int|
            p0.free_ids().len() <= k < p1.free_ids().len() ==> #[trigger] p1.free_ids()[k] >= p0.nodes_view().len(),
    ensures
        pool_frame(p0, p1, Set::<usize>::empty()),
        forall|i: usize| #[trigger] p0.is_free(i) ==> p1.is_free(i),
{
    assert forall|i: usize| i < p0.nodes_view().len() && !p0.is_free(i) implies #[trigger] p1.nodes_view()[i as int]
        == p0.nodes_view()[i as int] && !p1.is_free(i) by {
        assert(p1.nodes_view()[i as int] == p1.nodes_view().subrange(0, p0.nodes_view().len() as int)[i as int]);
        if p1.is_free(i) {
            let k = choose|k: int| 0 <= k < p1.free_ids().len() && p1.free_ids()[k] == i;
            if k < p0.free_ids().len() {
                assert(p1.free_ids().subrange(0, p0.free_ids().len() as int)[k] == i);
            }
        }
    }
    assert forall|i: usize| #[trigger] p0.is_free(i) implies p1.is_free(i) by {
        let k = choose|k: int| 0 <= k < p0.free_ids().len() && p0.free_ids()[k] == i;
        assert(p1.free_ids().subrange(0, p0.free_ids().len() as int)[k] == i);
    }
}

impl GlobalNodePool {
    /// All nodes of the pool, indexed by node id.
    pub closed spec fn nodes_view(&self) -> Seq<ListNode<BuddyBlock>> {
        self.nodes@
    }

    /// The free list of the pool, the next node to hand out last.
    pub closed spec fn free_ids(&self) -> Seq<usize> {
        self.free_stack@
    }

    /// Whether the node `i` is on the free list.
    pub open spec fn is_free(&self, i: usize) -> bool {
        self.free_ids().contains(i)
    }

    /// Number of allocations made from the pool.
    pub closed spec fn spec_total_allocations(&self) -> usize {
        self.total_allocations
    }

    /// Number of deallocations made to the pool.
    pub closed spec fn spec_total_deallocations(&self) -> usize {
        self.total_deallocations
    }

    pub closed spec fn counters_ok(&self) -> bool {
        &&& self.total_nodes == self.nodes@.len()
        &&& self.free_nodes == self.free_stack@.len()
    }

    /// Well-formedness: free ids are distinct valid node ids.
    pub open spec fn wf(&self) -> bool {
        &&& self.counters_ok()
        &&& self.free_ids().no_duplicates()
        &&& forall|k: int| 0 <= k < self.free_ids().len() ==> #[trigger] self.free_ids()[k] < self.nodes_view().len()
        &&& self.nodes_view().len() <= usize::MAX
    }

    /// Create a new, empty global node pool.
    pub fn new() -> (p: Self)
        ensures
            p.wf(),
            p.nodes_view().len() == 0,
            p.free_ids().len() == 0,
            p.spec_total_allocations() == 0,
            p.spec_total_deallocations() == 0,
    {
        GlobalNodePool {
            nodes: Vec::new(),
            free_stack: Vec::new(),
            total_nodes: 0,
            free_nodes: 0,
            total_allocations: 0,
            total_deallocations: 0,
        }
    }

    /// Reset the pool and fill it with the nodes of a backing memory region.
    pub fn init(&mut self, region_start: usize, region_size: usize)
        requires
            region_start + region_size <= usize::MAX,
        ensures
            final(self).wf(),
            final(self).nodes_view().len() == region_node_count(region_start as int, region_size as int),
            final(self).free_ids().len() == final(self).nodes_view().len(),
            forall|k: int| 0 <= k < final(self).free_ids().len() ==> #[trigger] final(self).free_ids()[k] == k,
            final(self).spec_total_allocations() == 0,
            final(self).spec_total_deallocations() == 0,
    {
        self.nodes = Vec::new();
        self.free_stack = Vec::new();
        self.total_nodes = 0;
        self.free_nodes = 0;
        self.total_allocations = 0;
        self.total_deallocations = 0;
        self.add_region(region_start, region_size);
    }

    /// Add another memory region's nodes to the pool.
    pub fn add_region(&mut self, region_start: usize, region_size: usize)
        requires
            old(self).wf(),
            region_start + region_size <= usize::MAX,
        ensures
            final(self).wf(),
            final(self).nodes_view().len() == vstd::math::min(
                old(self).nodes_view().len() + region_node_count(region_start as int, region_size as int),
                usize::MAX as int,
            ),
            final(self).nodes_view().subrange(0, old(self).nodes_view().len() as int) == old(self).nodes_view(),
            final(self).free_ids().len() == old(self).free_ids().len() + (final(self).nodes_view().len()
                - old(self).nodes_view().len()),
            final(self).free_ids().subrange(0, old(self).free_ids().len() as int) == old(self).free_ids(),
            forall|k: int|
                old(self).free_ids().len() <= k < final(self).free_ids().len() ==> #[trigger] final(self).free_ids()[k]
                    == old(self).nodes_view().len() + (k - old(self).free_ids().len()),
            final(self).spec_total_allocations() == old(self).spec_total_allocations(),
            final(self).spec_total_deallocations() == old(self).spec_total_deallocations(),
    {
        if region_size < NODE_SIZE {
            return;
        }
        let mut current = crate::align_up(region_start, NODE_ALIGN);
        let end = region_start + region_size;
        let ghost n0 = self.nodes@.len();
        let ghost f0 = self.free_stack@.len();
        let ghost first = current as int;
        proof {
            assert(first == region_start || first == region_start - region_start % 8 + 8) by {
                vstd::arithmetic::div_mod::lemma_mod_bound(region_start as int, 8);
                if region_start % 8 == 0 {
                    vstd::arithmetic::div_mod::lemma_mod_bound(region_start as int, 8);
                } else {
                    crate::math::lemma_align_down_unique(first, first, 8);
                    crate::math::lemma_align_down_unique(region_start as int, first - 8, 8);
                }
            }
        }
        while end - current >= NODE_SIZE && self.nodes.len() < usize::MAX
            invariant
                self.wf(),
                end == region_start + region_size,
                first <= current <= end,
                (current - first) % NODE_SIZE as int == 0,
                self.nodes@.len() == n0 + (current - first) / NODE_SIZE as int,
                self.free_stack@.len() == f0 + (current - first) / NODE_SIZE as int,
                self.nodes@.subrange(0, n0 as int) == old(self).nodes_view(),
                self.free_stack@.subrange(0, f0 as int) == old(self).free_ids(),
                n0 == old(self).nodes_view().len(),
                f0 == old(self).free_ids().len(),
                forall|k: int| f0 <= k < self.free_stack@.len() ==> #[trigger] self.free_stack@[k] == n0 + (k - f0),
                self.total_allocations == old(self).spec_total_allocations(),
                self.total_deallocations == old(self).spec_total_deallocations(),
                old(self).wf(),
            decreases end - current,
        {
            let id = self.nodes.len();
            proof {
                assert forall|k: int| 0 <= k < self.free_stack@.len() implies self.free_stack@[k] < id by {
                    if k < f0 {
                        assert(self.free_stack@[k] == self.free_stack@.subrange(0, f0 as int)[k]);
                        assert(old(self).free_ids()[k] < n0);
                    }
                }
                lemma_distinct_bounded(self.free_stack@, self.nodes@.len());
            }
            self.nodes.push(ListNode { data: BuddyBlock { order: 0, addr: 0 }, next: None });
            self.free_stack.push(id);
            self.total_nodes = self.total_nodes + 1;
            self.free_nodes = self.free_nodes + 1;
            proof {
                assert(self.nodes@.subrange(0, n0 as int) =~= old(self).nodes_view());
                assert(self.free_stack@.subrange(0, f0 as int) =~= old(self).free_ids());
                vstd::arithmetic::div_mod::lemma_mod_add_multiples_vanish((current - first) as int, 32);
                vstd::arithmetic::div_mod::lemma_div_plus_one((current - first) as int, 32);
                assert(self.free_stack@.no_duplicates());
            }
            current = current + NODE_SIZE;
        }
        proof {
            let cnt = (current - first) / 32;
            if end - current < 32 {
                assert(region_node_count(region_start as int, region_size as int) == cnt) by {
                    if first + 32 > end {
                        assert(current == first);
                    } else {
                        crate::math::lemma_mod_zero_mul(current - first, 32);
                        crate::math::lemma_align_down_unique(end - first, current - first, 32);
                        vstd::arithmetic::div_mod::lemma_fundamental_div_mod(end - first, 32);
                        vstd::arithmetic::div_mod::lemma_div_multiples_vanish((current - first) / 32, 32);
                    }
                }
            } else {
                assert(region_node_count(region_start as int, region_size as int) >= cnt) by {
                    crate::math::lemma_mod_zero_mul(current - first, 32);
                    vstd::arithmetic::div_mod::lemma_div_is_ordered(current - first, end - first, 32);
                }
            }
        }
    }

    /// Allocate a node from the pool; `None` when the pool is exhausted.
    pub fn alloc_node(&mut self) -> (r: Option<usize>)
        requires
            old(self).wf(),
        ensures
            final(self).wf(),
            final(self).nodes_view().len() == old(self).nodes_view().len(),
            old(self).free_ids().len() == 0 ==> r is None && final(self).nodes_view() == old(self).nodes_view()
                && final(self).free_ids() == old(self).free_ids()
                && final(self).spec_total_allocations() == old(self).spec_total_allocations()
                && final(self).spec_total_deallocations() == old(self).spec_total_deallocations(),
            old(self).free_ids().len() > 0 ==> {
                let id = old(self).free_ids().last();
                &&& r == Some(id)
                &&& final(self).free_ids() == old(self).free_ids().drop_last()
                &&& final(self).nodes_view() == old(self).nodes_view().update(
                    id as int,
                    ListNode { data: old(self).nodes_view()[id as int].data, next: None },
                )
                &&& final(self).spec_total_allocations() == old(self).spec_total_allocations().wrapping_add(1)
                &&& final(self).spec_total_deallocations() == old(self).spec_total_deallocations()
            },
    {
        match self.free_stack.pop() {
            None => None,
            Some(id) => {
                let data = self.nodes[id].data;
                self.nodes.set(id, ListNode { data, next: None });
                self.total_allocations = self.total_allocations.wrapping_add(1);
                self.free_nodes = self.free_nodes - 1;
                proof {
                    assert(self.free_stack@ =~= old(self).free_ids().drop_last());
                    assert forall|k: int| 0 <= k < self.free_ids().len() implies #[trigger] self.free_ids()[k] < self.nodes_view().len() by {
                        assert(self.free_ids()[k] == old(self).free_ids()[k]);
                    }
                }
                Some(id)
            },
        }
    }

    /// Return a node to the pool. The node must not be on any active list.
    pub fn dealloc_node(&mut self, node_idx: usize)
        requires
            old(self).wf(),
            node_idx < old(self).nodes_view().len(),
            !old(self).is_free(node_idx),
        ensures
            final(self).wf(),
            final(self).free_ids() == old(self).free_ids().push(node_idx),
            final(self).nodes_view() == old(self).nodes_view().update(
                node_idx as int,
                ListNode { data: BuddyBlock { order: 0, addr: 0 }, next: None },
            ),
            final(self).spec_total_allocations() == old(self).spec_total_allocations(),
            final(self).spec_total_deallocations() == old(self).spec_total_deallocations().wrapping_add(1),
    {
        self.nodes.set(node_idx, ListNode { data: BuddyBlock { order: 0, addr: 0 }, next: None });
        self.free_stack.push(node_idx);
        self.total_deallocations = self.total_deallocations.wrapping_add(1);
        proof {
            assert(self.free_ids().no_duplicates()) by {
                assert forall|i: int, j: int| 0 <= i < j < self.free_ids().len() implies self.free_ids()[i] != self.free_ids()[j] by {
                    if j == old(self).free_ids().len() {
                        assert(self.free_ids()[i] == old(self).free_ids()[i]);
                    } else {
                        assert(self.free_ids()[i] == old(self).free_ids()[i]);
                        assert(self.free_ids()[j] == old(self).free_ids()[j]);
                    }
                }
            }
            assert forall|k: int| 0 <= k < self.free_ids().len() implies #[trigger] self.free_ids()[k] < self.nodes_view().len() by {
                if k < old(self).free_ids().len() {
                    assert(self.free_ids()[k] == old(self).free_ids()[k]);
                }
            }
            lemma_distinct_bounded(self.free_ids(), self.nodes_view().len());
        }
        self.free_nodes = self.free_nodes + 1;
        proof {
            assert forall|k: int| 0 <= k < self.free_ids().len() implies #[trigger] self.free_ids()[k] < self.nodes_view().len() by {
                if k < old(self).free_ids().len() {
                    assert(self.free_ids()[k] == old(self).free_ids()[k]);
                }
            }
            assert(self.free_ids().no_duplicates()) by {
                assert forall|i: int, j: int| 0 <= i < j < self.free_ids().len() implies self.free_ids()[i] != self.free_ids()[j] by {
                    if j == old(self).free_ids().len() {
                        assert(self.free_ids()[i] == old(self).free_ids()[i]);
                    } else {
                        assert(self.free_ids()[i] == old(self).free_ids()[i]);
                        assert(self.free_ids()[j] == old(self).free_ids()[j]);
                    }
                }
            }
        }
    }

    /// Get a node by id; `None` for an id the pool never handed out.
    pub fn get_node(&self, node_idx: usize) -> (r: Option<&ListNode<BuddyBlock>>)
        ensures
            node_idx < self.nodes_view().len() ==> r == Some(&self.nodes_view()[node_idx as int]),
            node_idx >= self.nodes_view().len() ==> r is None,
    {
        if node_idx < self.nodes.len() {
            Some(&self.nodes[node_idx])
        } else {
            None
        }
    }

    /// Overwrite the contents of a node.
    pub fn write_node(&mut self, node_idx: usize, node: ListNode<BuddyBlock>)
        requires
            old(self).wf(),
            node_idx < old(self).nodes_view().len(),
        ensures
            final(self).wf(),
            final(self).free_ids() == old(self).free_ids(),
            final(self).nodes_view() == old(self).nodes_view().update(node_idx as int, node),
            final(self).spec_total_allocations() == old(self).spec_total_allocations(),
            final(self).spec_total_deallocations() == old(self).spec_total_deallocations(),
    {
        self.nodes.set(node_idx, node);
    }

    /// Set the link of a node.
    pub fn set_next(&mut self, node_idx: usize, next: Option<usize>)
        requires
            old(self).wf(),
            node_idx < old(self).nodes_view().len(),
        ensures
            final(self).wf(),
            final(self).free_ids() == old(self).free_ids(),
            final(self).nodes_view() == old(self).nodes_view().update(
                node_idx as int,
                ListNode { data: old(self).nodes_view()[node_idx as int].data, next },
            ),
            final(self).spec_total_allocations() == old(self).spec_total_allocations(),
            final(self).spec_total_deallocations() == old(self).spec_total_deallocations(),
    {
        let data = self.nodes[node_idx].data;
        self.nodes.set(node_idx, ListNode { data, next });
    }

    /// Get the number of free nodes in the pool.
    pub fn free_node_count(&self) -> (r: usize)
        requires self.wf(),
        ensures r == self.free_ids().len(),
    {
        self.free_nodes
    }

    /// Get the number of allocated nodes.
    pub fn allocated_node_count(&self) -> (r: usize)
        requires self.wf(),
        ensures r == self.nodes_view().len() - self.free_ids().len(),
    {
        proof {
            lemma_distinct_bounded(self.free_ids(), self.nodes_view().len());
        }
        self.total_nodes.saturating_sub(self.free_nodes)
    }

    /// Get pool statistics.
    pub fn get_stats(&self) -> (s: GlobalPoolStats)
        requires self.wf(),
        ensures
            s.total_nodes == self.nodes_view().len(),
            s.free_nodes == self.free_ids().len(),
            s.allocated_nodes == self.nodes_view().len() - self.free_ids().len(),
            s.total_allocations == self.spec_total_allocations(),
            s.total_deallocations == self.spec_total_deallocations(),
    {
        GlobalPoolStats {
            total_nodes: self.total_nodes,
            free_nodes: self.free_nodes,
            allocated_nodes: self.allocated_node_count(),
            total_allocations: self.total_allocations,
            total_deallocations: self.total_deallocations,
        }
    }
}

/// A sequence of distinct ids below `n` has at most `n` elements.
pub proof fn lemma_distinct_bounded(s: Seq<usize>, n: nat)
    requires
        s.no_duplicates(),
        forall|k: int| 0 <= k < s.len() ==> #[trigger] s[k] < n,
    ensures
        s.len() <= n,
{
    let set = s.to_set();
    s.unique_seq_to_set();
    assert(set.subset_of(Set::new(|i: usize| i < n)));
    let full = Set::new(|i: usize| i < n);
    assert(full =~= Set::new(|i: int| 0 <= i < n).map(|i: int| i as usize)) by {
        assert forall|x: usize| full.contains(x) implies Set::new(|i: int| 0 <= i < n).map(|i: int| i as usize).contains(x) by {
            assert(Set::new(|i: int| 0 <= i < n).contains(x as int));
        }
    }
    lemma_usize_range_finite_len(n);
    vstd::set_lib::lemma_len_subset(set, full);
}

/// The set of machine words below `n` is finite with `n` elements.
pub proof fn lemma_usize_range_finite_len(n: nat)
    ensures
        Set::new(|i: usize| i < n).finite(),
        Set::new(|i: usize| i < n).len() <= n,
    decreases n,
{
    let s = Set::new(|i: usize| i < n);
    if n == 0 {
        assert(s =~= Set::empty());
    } else {
        lemma_usize_range_finite_len((n - 1) as nat);
        let t = Set::new(|i: usize| i < (n - 1) as nat);
        if n - 1 <= usize::MAX {
            assert(s =~= t.insert((n - 1) as usize));
        } else {
            assert(s =~= t);
        }
    }
}

impl Default for GlobalNodePool {
    fn default() -> Self {
        Self::new()
    }
}

/// Global pool statistics.
#[derive(Debug, Default, Clone)]
pub struct GlobalPoolStats {
    pub total_nodes: usize,
    pub free_nodes: usize,
    pub allocated_nodes: usize,
    pub total_allocations: usize,
    pub total_deallocations: usize,
}

} // verus!
