//! Global pool of slab list nodes.
//!
//! The pool starts with 27 nodes of its own and grows by batches of 27
//! nodes placed in pages taken from a page allocator. Free nodes are kept
//! on two stacks, one for the initial nodes and one for the added ones.
use vstd::prelude::*;
use super::slab_node::SlabNode;
use super::slab_byte_allocator::PageAllocatorForSlab;
use crate::{AllocError, AllocResult};

verus! {

/// Number of nodes the pool starts with.
pub const INITIAL_NODES: usize = 27;

/// Number of nodes each expansion adds.
pub const EXPAND_SIZE: usize = 27;

/// Bytes one node takes in an expansion region.
pub const NODE_SIZE: usize = 48;

/// Most expansion regions the pool records.
pub const MAX_REGIONS: usize = 256;

/// A list node holding an optional value and its neighbours' indices.
#[derive(Debug, Clone, Copy)]
pub struct ListNode<T> {
    pub data: Option<T>,
    pub prev: Option<usize>,
    pub next: Option<usize>,
}

impl<T> ListNode<T> {
    /// A node with no value and no neighbours.
    pub fn empty() -> (r: Self)
        ensures
            r.data is None,
            r.prev is None,
            r.next is None,
    {
        ListNode { data: None, prev: None, next: None }
    }
}

/// One expansion region: where its nodes lie and how many there are.
#[derive(Clone, Copy)]
pub struct DynamicNodeRegion {
    pub base_addr: usize,
    pub node_count: usize,
}

/// The expansion regions of the pool.
pub struct DynamicRegion {
    regions: Vec<DynamicNodeRegion>,
    total_allocated: usize,
}

impl DynamicRegion {
    /// The recorded regions, oldest first.
    pub closed spec fn spec_regions(&self) -> Seq<DynamicNodeRegion> {
        self.regions@
    }

    /// Nodes added by all regions.
    pub closed spec fn spec_total(&self) -> usize {
        self.total_allocated
    }

    /// At most `MAX_REGIONS` regions, none running past the address space.
    pub closed spec fn wf(&self) -> bool {
        &&& self.regions@.len() <= MAX_REGIONS
        &&& forall|k: int| 0 <= k < self.regions@.len() ==> (#[trigger] self.regions@[k]).base_addr + self.regions@[k].node_count
            * NODE_SIZE <= usize::MAX
    }

    /// No regions.
    pub fn new() -> (r: Self)
        ensures
            r.wf(),
            r.spec_regions() == Seq::<DynamicNodeRegion>::empty(),
            r.spec_total() == 0,
    {
        DynamicRegion { regions: Vec::new(), total_allocated: 0 }
    }

    /// Prepare for use; there is nothing to do.
    pub fn init(&mut self)
        ensures
            final(self).spec_regions() == old(self).spec_regions(),
            final(self).spec_total() == old(self).spec_total(),
    {
    }

    /// Address of the node with global index `global_idx`: regions hold
    /// `EXPAND_SIZE` indices each, after the initial nodes.
    pub fn get_node_addr(&self, global_idx: usize) -> (r: Option<usize>)
        requires
            self.wf(),
            global_idx >= INITIAL_NODES,
        ensures
            ({
                let offset = global_idx - INITIAL_NODES;
                let k = offset / EXPAND_SIZE as int;
                let j = offset % EXPAND_SIZE as int;
                if k < self.spec_regions().len() && j < self.spec_regions()[k].node_count {
                    r == Some((self.spec_regions()[k].base_addr + j * NODE_SIZE) as usize)
                } else {
                    r is None
                }
            }),
    {
        let offset = global_idx - INITIAL_NODES;
        let region_idx = offset / EXPAND_SIZE;
        let node_in_region = offset % EXPAND_SIZE;
        if region_idx >= self.regions.len() {
            return None;
        }
        let region = self.regions[region_idx];
        if node_in_region >= region.node_count {
            return None;
        }
        proof {
            assert(node_in_region * NODE_SIZE <= region.node_count * NODE_SIZE) by (nonlinear_arith)
                requires node_in_region < region.node_count;
        }
        Some(region.base_addr + node_in_region * NODE_SIZE)
    }

    /// Record a region of `node_count` nodes at `base_addr`; once
    /// `MAX_REGIONS` are recorded, further regions are not.
    pub fn add_region(&mut self, base_addr: usize, node_count: usize)
        requires
            old(self).wf(),
            base_addr + node_count * NODE_SIZE <= usize::MAX,
            old(self).spec_total() + node_count <= usize::MAX,
        ensures
            final(self).wf(),
            old(self).spec_regions().len() < MAX_REGIONS ==> final(self).spec_regions() == old(self).spec_regions().push(
                DynamicNodeRegion { base_addr, node_count },
            ) && final(self).spec_total() == old(self).spec_total() + node_count,
            old(self).spec_regions().len() >= MAX_REGIONS ==> final(self).spec_regions() == old(self).spec_regions()
                && final(self).spec_total() == old(self).spec_total(),
    {
        if self.regions.len() < MAX_REGIONS {
            self.regions.push(DynamicNodeRegion { base_addr, node_count });
            self.total_allocated = self.total_allocated + node_count;
        }
    }

    /// Nodes added by all regions.
    pub fn total_allocated(&self) -> (r: usize)
        ensures
            r == self.spec_total(),
    {
        self.total_allocated
    }
}

/// The free indices on a stack are distinct and below `n`.
pub open spec fn stack_ok(s: Seq<usize>, lo: int, hi: int) -> bool {
    &&& forall|k: int| 0 <= k < s.len() ==> lo <= #[trigger] s[k] < hi
    &&& forall|k: int, l: int| 0 <= k < l < s.len() ==> #[trigger] s[k] != #[trigger] s[l]
}

/// Global pool of slab list nodes.
pub struct GlobalSlabNodePool {
    nodes: Vec<ListNode<SlabNode>>,
    dynamic_region: DynamicRegion,
    static_free: Vec<usize>,
    dynamic_free: Vec<usize>,
}

impl GlobalSlabNodePool {
    /// The nodes by global index.
    pub closed spec fn spec_nodes(&self) -> Seq<ListNode<SlabNode>> {
        self.nodes@
    }

    /// The free initial nodes, the next one handed out last.
    pub closed spec fn spec_static_free(&self) -> Seq<usize> {
        self.static_free@
    }

    /// The free added nodes, the next one handed out last.
    pub closed spec fn spec_dynamic_free(&self) -> Seq<usize> {
        self.dynamic_free@
    }

    /// The expansion regions.
    pub closed spec fn regions(&self) -> DynamicRegion {
        self.dynamic_region
    }

    /// Node `idx` is on a free stack.
    pub open spec fn is_free(&self, idx: usize) -> bool {
        self.spec_static_free().contains(idx) || self.spec_dynamic_free().contains(idx)
    }

    /// Nodes exist for the initial ones and for every added one; the free
    /// stacks hold distinct indices of their own kind.
    pub closed spec fn wf(&self) -> bool {
        &&& self.dynamic_region.wf()
        &&& INITIAL_NODES + self.dynamic_region.spec_total() <= usize::MAX
        &&& self.nodes@.len() == INITIAL_NODES + self.dynamic_region.spec_total()
        &&& stack_ok(self.static_free@, 0, INITIAL_NODES as int)
        &&& stack_ok(self.dynamic_free@, INITIAL_NODES as int, self.nodes@.len() as int)
    }

    /// The node count fits a machine word.
    pub proof fn lemma_len_bound(&self)
        requires
            self.wf(),
        ensures
            self.spec_nodes().len() <= usize::MAX,
    {
    }

    /// A pool with its initial nodes, none of them on the free stack yet;
    /// `init` makes them available.
    pub fn new() -> (r: Self)
        ensures
            r.wf(),
            r.spec_nodes().len() == INITIAL_NODES,
            r.spec_static_free() == Seq::<usize>::empty(),
            r.spec_dynamic_free() == Seq::<usize>::empty(),
    {
        let mut nodes: Vec<ListNode<SlabNode>> = Vec::new();
        let mut i: usize = 0;
        while i < INITIAL_NODES
            invariant
                i <= INITIAL_NODES,
                nodes@.len() == i,
            decreases INITIAL_NODES - i,
        {
            nodes.push(ListNode::empty());
            i = i + 1;
        }
        GlobalSlabNodePool { nodes, dynamic_region: DynamicRegion::new(), static_free: Vec::new(), dynamic_free: Vec::new() }
    }

    /// Make every initial node free, node 0 handed out first; added nodes
    /// are left as they are.
    pub fn init(&mut self)
        requires
            old(self).wf(),
        ensures
            final(self).wf(),
            final(self).spec_nodes().len() == old(self).spec_nodes().len(),
            final(self).spec_static_free() == Seq::new(INITIAL_NODES as nat, |k: int| (INITIAL_NODES - 1 - k) as usize),
            final(self).spec_dynamic_free() == old(self).spec_dynamic_free(),
            forall|k: int| 0 <= k < INITIAL_NODES ==> (#[trigger] final(self).spec_nodes()[k]).data is None,
    {
        self.dynamic_region.init();
        let mut free: Vec<usize> = Vec::new();
        let mut i: usize = 0;
        while i < INITIAL_NODES
            invariant
                self.wf(),
                self.nodes@.len() == old(self).nodes@.len(),
                self.dynamic_free@ == old(self).dynamic_free@,
                self.dynamic_region.spec_regions() == old(self).dynamic_region.spec_regions(),
                self.dynamic_region.spec_total() == old(self).dynamic_region.spec_total(),
                i <= INITIAL_NODES,
                free@ == Seq::new(i as nat, |k: int| (INITIAL_NODES - 1 - k) as usize),
                forall|k: int| 0 <= k < i ==> (#[trigger] self.nodes@[k]).data is None,
            decreases INITIAL_NODES - i,
        {
            self.nodes.set(i, ListNode::empty());
            free.push(INITIAL_NODES - 1 - i);
            i = i + 1;
            proof {
                assert(free@ =~= Seq::new(i as nat, |k: int| (INITIAL_NODES - 1 - k) as usize));
            }
        }
        self.static_free = free;
    }

    /// Address of node `idx`: an initial node's is its offset inside the
    /// pool, an added node's is where its region put it.
    pub fn get_node_addr(&self, idx: usize) -> (r: Option<usize>)
        requires
            self.wf(),
        ensures
            idx < INITIAL_NODES ==> r == Some((idx * NODE_SIZE) as usize),
            idx >= INITIAL_NODES ==> ({
                let offset = idx - INITIAL_NODES;
                let k = offset / EXPAND_SIZE as int;
                let j = offset % EXPAND_SIZE as int;
                if k < self.regions().spec_regions().len() && j < self.regions().spec_regions()[k].node_count {
                    r == Some((self.regions().spec_regions()[k].base_addr + j * NODE_SIZE) as usize)
                } else {
                    r is None
                }
            }),
    {
        if idx < INITIAL_NODES {
            Some(idx * NODE_SIZE)
        } else {
            self.dynamic_region.get_node_addr(idx)
        }
    }

    /// Store `data` in a free node and return its index: an initial node
    /// first, then an added one, else a new batch of nodes is added with
    /// pages from `page_allocator`.
    pub fn alloc_node<P: PageAllocatorForSlab>(&mut self, data: SlabNode, page_allocator: &mut P, page_size: usize) -> (r:
        AllocResult<usize>)
        requires
            old(self).wf(),
            old(page_allocator).slab_inv(),
            0 < page_size <= usize::MAX - EXPAND_SIZE * NODE_SIZE,
        ensures
            final(self).wf(),
            final(page_allocator).slab_inv(),
            r matches Ok(idx) ==> {
                &&& old(self).is_free(idx) || old(self).spec_nodes().len() <= idx
                &&& !final(self).is_free(idx)
                &&& idx < final(self).spec_nodes().len()
                &&& final(self).spec_nodes()[idx as int].data == Some(data)
                &&& forall|j: usize| j != idx ==> (#[trigger] final(self).is_free(j) == (old(self).is_free(j) || (
                    old(self).spec_nodes().len() <= j < final(self).spec_nodes().len())))
                &&& forall|j: int| 0 <= j < old(self).spec_nodes().len() && j != idx ==> #[trigger] final(self).spec_nodes()[j]
                    == old(self).spec_nodes()[j]
            },
            old(self).spec_static_free().len() > 0 ==> r == Ok::<usize, AllocError>(old(self).spec_static_free().last())
                && final(self).spec_static_free() == old(self).spec_static_free().drop_last() && final(self).spec_dynamic_free()
                == old(self).spec_dynamic_free(),
            old(self).spec_static_free().len() == 0 && old(self).spec_dynamic_free().len() > 0 ==> r == Ok::<usize, AllocError>(
                old(self).spec_dynamic_free().last(),
            ) && final(self).spec_static_free() == old(self).spec_static_free() && final(self).spec_dynamic_free() == old(
                self,
            ).spec_dynamic_free().drop_last(),
            r is Err ==> final(self).spec_nodes() == old(self).spec_nodes() && final(self).spec_static_free()
                == old(self).spec_static_free() && final(self).spec_dynamic_free() == old(self).spec_dynamic_free(),
            old(self).spec_static_free().len() > 0 || old(self).spec_dynamic_free().len() > 0 ==> *final(page_allocator) == *old(page_allocator),
    {
        if self.static_free.len() > 0 {
            let idx = self.static_free.pop().unwrap();
            self.nodes.set(idx, ListNode { data: Some(data), prev: None, next: None });
            proof {
                self.lemma_pop_distinct(old(self).static_free@, idx);
                lemma_pop_keeps_others(old(self).static_free@, idx);
            }
            return Ok(idx);
        }
        if self.dynamic_free.len() > 0 {
            let idx = self.dynamic_free.pop().unwrap();
            self.nodes.set(idx, ListNode { data: Some(data), prev: None, next: None });
            proof {
                self.lemma_pop_distinct(old(self).dynamic_free@, idx);
                lemma_pop_keeps_others(old(self).dynamic_free@, idx);
            }
            return Ok(idx);
        }
        self.expand_and_alloc(data, page_allocator, page_size)
    }

    /// Popping the top of a stack of distinct indices leaves it off.
    proof fn lemma_pop_distinct(&self, s: Seq<usize>, idx: usize)
        requires
            s.len() > 0,
            idx == s.last(),
            forall|k: int, l: int| 0 <= k < l < s.len() ==> #[trigger] s[k] != #[trigger] s[l],
        ensures
            !s.drop_last().contains(idx),
    {
        if s.drop_last().contains(idx) {
            let k = choose|k: int| 0 <= k < s.drop_last().len() && s.drop_last()[k] == idx;
            assert(s[k] == s[s.len() - 1]);
        }
    }

    /// Add a batch of nodes in new pages and hand out the first of them.
    fn expand_and_alloc<P: PageAllocatorForSlab>(&mut self, data: SlabNode, page_allocator: &mut P, page_size: usize) -> (r:
        AllocResult<usize>)
        requires
            old(self).wf(),
            old(page_allocator).slab_inv(),
            0 < page_size <= usize::MAX - EXPAND_SIZE * NODE_SIZE,
            old(self).spec_static_free().len() == 0,
            old(self).spec_dynamic_free().len() == 0,
        ensures
            final(self).wf(),
            final(page_allocator).slab_inv(),
            r matches Ok(idx) ==> {
                &&& old(self).spec_nodes().len() <= idx
                &&& !final(self).is_free(idx)
                &&& idx < final(self).spec_nodes().len()
                &&& final(self).spec_nodes()[idx as int].data == Some(data)
                &&& forall|j: usize| j != idx ==> (#[trigger] final(self).is_free(j) == (old(self).is_free(j) || (
                    old(self).spec_nodes().len() <= j < final(self).spec_nodes().len())))
                &&& forall|j: int| 0 <= j < old(self).spec_nodes().len() && j != idx ==> #[trigger] final(self).spec_nodes()[j]
                    == old(self).spec_nodes()[j]
            },
            r is Err ==> final(self).spec_nodes() == old(self).spec_nodes() && final(self).spec_static_free()
                == old(self).spec_static_free() && final(self).spec_dynamic_free() == old(self).spec_dynamic_free(),
    {
        let bytes_needed = EXPAND_SIZE * NODE_SIZE;
        let pages_needed = (bytes_needed + page_size - 1) / page_size;
        let base_addr = match page_allocator.alloc_pages(pages_needed, page_size) {
            Ok(a) => a,
            Err(e) => {
                return Err(e);
            },
        };
        if self.dynamic_region.regions.len() >= MAX_REGIONS || base_addr > usize::MAX - bytes_needed
            || self.dynamic_region.total_allocated > usize::MAX - INITIAL_NODES - EXPAND_SIZE {
            page_allocator.dealloc_pages(base_addr, pages_needed);
            return Err(AllocError::NoMemory);
        }
        let start_idx = INITIAL_NODES + self.dynamic_region.total_allocated;
        self.dynamic_region.add_region(base_addr, EXPAND_SIZE);
        let mut i: usize = EXPAND_SIZE;
        while i > 0
            invariant
                self.dynamic_region.wf(),
                self.dynamic_region.spec_total() == old(self).dynamic_region.spec_total() + EXPAND_SIZE,
                start_idx == old(self).nodes@.len(),
                self.static_free@ == old(self).static_free@,
                i <= EXPAND_SIZE,
                self.nodes@.len() == start_idx + (EXPAND_SIZE - i),
                forall|j: int| 0 <= j < start_idx ==> #[trigger] self.nodes@[j] == old(self).nodes@[j],
                self.dynamic_free@ == Seq::<usize>::empty(),
            decreases i,
        {
            self.nodes.push(ListNode::empty());
            i = i - 1;
        }
        let mut k: usize = EXPAND_SIZE;
        while k > 0
            invariant
                self.dynamic_region.wf(),
                self.dynamic_region.spec_total() == old(self).dynamic_region.spec_total() + EXPAND_SIZE,
                start_idx == old(self).nodes@.len(),
                self.static_free@ == old(self).static_free@,
                self.nodes@.len() == start_idx + EXPAND_SIZE,
                forall|j: int| 0 <= j < start_idx ==> #[trigger] self.nodes@[j] == old(self).nodes@[j],
                k <= EXPAND_SIZE,
                start_idx + EXPAND_SIZE <= usize::MAX,
                self.dynamic_free@ == Seq::new((EXPAND_SIZE - k) as nat, |m: int| (start_idx + EXPAND_SIZE - 1 - m) as usize),
            decreases k,
        {
            k = k - 1;
            self.dynamic_free.push(start_idx + k);
            proof {
                assert(self.dynamic_free@ =~= Seq::new(
                    (EXPAND_SIZE - k) as nat,
                    |m: int| (start_idx + EXPAND_SIZE - 1 - m) as usize,
                ));
            }
        }
        let idx = self.dynamic_free.pop().unwrap();
        self.nodes.set(idx, ListNode { data: Some(data), prev: None, next: None });
        proof {
            assert(idx == start_idx);
            let s = self.dynamic_free@;
            assert forall|j: usize| j != idx implies #[trigger] self.is_free(j) == (old(self).is_free(j) || (
                old(self).nodes@.len() <= j < self.nodes@.len())) by {
                if start_idx < j < start_idx + EXPAND_SIZE {
                    let m = start_idx + EXPAND_SIZE - 1 - j;
                    assert(s[m] == j);
                }
            }
        }
        Ok(idx)
    }

    /// Return node `idx` to its free stack, clearing its value and links;
    /// an index with no node changes nothing.
    pub fn free_node<P: PageAllocatorForSlab>(&mut self, idx: usize, page_allocator: &mut P, page_size: usize)
        requires
            old(self).wf(),
            !old(self).is_free(idx),
        ensures
            final(self).wf(),
            idx < old(self).spec_nodes().len() ==> {
                &&& final(self).spec_nodes() == old(self).spec_nodes().update(idx as int, ListNode::<SlabNode> { data: None, prev: None, next: None })
                &&& idx < INITIAL_NODES ==> final(self).spec_static_free() == old(self).spec_static_free().push(idx)
                    && final(self).spec_dynamic_free() == old(self).spec_dynamic_free()
                &&& idx >= INITIAL_NODES ==> final(self).spec_dynamic_free() == old(self).spec_dynamic_free().push(idx)
                    && final(self).spec_static_free() == old(self).spec_static_free()
            },
            idx >= old(self).spec_nodes().len() ==> final(self).spec_nodes() == old(self).spec_nodes()
                && final(self).spec_static_free() == old(self).spec_static_free() && final(self).spec_dynamic_free()
                == old(self).spec_dynamic_free(),
    {
        if idx >= self.nodes.len() {
            return;
        }
        self.nodes.set(idx, ListNode { data: None, prev: None, next: None });
        if idx < INITIAL_NODES {
            self.static_free.push(idx);
        } else {
            self.dynamic_free.push(idx);
        }
    }

    /// The value stored in node `idx`, if any.
    pub fn get(&self, idx: usize) -> (r: Option<&SlabNode>)
        ensures
            r is None <==> (idx >= self.spec_nodes().len() || self.spec_nodes()[idx as int].data is None),
            r matches Some(n) ==> self.spec_nodes()[idx as int].data == Some(*n),
    {
        if idx >= self.nodes.len() {
            return None;
        }
        self.nodes[idx].data.as_ref()
    }

    /// The value stored in node `idx`, to change in place.
    pub fn get_mut(&mut self, idx: usize) -> (r: Option<&mut SlabNode>)
        requires
            old(self).wf(),
        ensures
            r is None <==> (idx >= old(self).spec_nodes().len() || old(self).spec_nodes()[idx as int].data is None),
            final(self).wf(),
            final(self).spec_static_free() == old(self).spec_static_free(),
            final(self).spec_dynamic_free() == old(self).spec_dynamic_free(),
            r is None ==> final(self).spec_nodes() == old(self).spec_nodes(),
            r matches Some(n) ==> {
                &&& old(self).spec_nodes()[idx as int].data == Some(*n)
                &&& final(self).spec_nodes() == old(self).spec_nodes().update(
                    idx as int,
                    ListNode { data: Some(*final(n)), ..old(self).spec_nodes()[idx as int] },
                )
            },
    {
        if idx >= self.nodes.len() {
            return None;
        }
        self.nodes[idx].data.as_mut()
    }

    /// Some node is free.
    pub fn has_available(&self) -> (r: bool)
        ensures
            r == (self.spec_static_free().len() > 0 || self.spec_dynamic_free().len() > 0),
    {
        self.static_free.len() > 0 || self.dynamic_free.len() > 0
    }

    /// Number of free nodes.
    pub fn available_count(&self) -> (r: usize)
        requires
            self.wf(),
        ensures
            r == self.spec_static_free().len() + self.spec_dynamic_free().len(),
    {
        proof {
            self.lemma_free_bounds();
        }
        self.static_free.len() + self.dynamic_free.len()
    }

    /// Number of nodes in use.
    pub fn used_count(&self) -> (r: usize)
        requires
            self.wf(),
        ensures
            r == self.spec_nodes().len() - self.spec_static_free().len() - self.spec_dynamic_free().len(),
    {
        proof {
            self.lemma_free_bounds();
        }
        (INITIAL_NODES - self.static_free.len()) + (self.dynamic_region.total_allocated() - self.dynamic_free.len())
    }

    /// The free stacks are no longer than the ranges they draw from.
    proof fn lemma_free_bounds(&self)
        requires
            self.wf(),
        ensures
            self.static_free@.len() <= INITIAL_NODES,
            self.dynamic_free@.len() <= self.dynamic_region.spec_total(),
    {
        lemma_stack_len(self.static_free@, 0, INITIAL_NODES as int);
        lemma_stack_len(self.dynamic_free@, INITIAL_NODES as int, self.nodes@.len() as int);
    }

    /// The previous node linked from node `idx`.
    pub fn get_prev(&self, idx: usize) -> (r: Option<usize>)
        ensures
            idx < self.spec_nodes().len() ==> r == self.spec_nodes()[idx as int].prev,
            idx >= self.spec_nodes().len() ==> r is None,
    {
        if idx >= self.nodes.len() {
            return None;
        }
        self.nodes[idx].prev
    }

    /// The next node linked from node `idx`.
    pub fn get_next(&self, idx: usize) -> (r: Option<usize>)
        ensures
            idx < self.spec_nodes().len() ==> r == self.spec_nodes()[idx as int].next,
            idx >= self.spec_nodes().len() ==> r is None,
    {
        if idx >= self.nodes.len() {
            return None;
        }
        self.nodes[idx].next
    }

    /// Link node `idx` back to `prev`; an index with no node changes nothing.
    pub fn set_prev(&mut self, idx: usize, prev: Option<usize>)
        requires
            old(self).wf(),
        ensures
            final(self).wf(),
            final(self).spec_static_free() == old(self).spec_static_free(),
            final(self).spec_dynamic_free() == old(self).spec_dynamic_free(),
            idx < old(self).spec_nodes().len() ==> final(self).spec_nodes() == old(self).spec_nodes().update(
                idx as int,
                ListNode { prev, ..old(self).spec_nodes()[idx as int] },
            ),
            idx >= old(self).spec_nodes().len() ==> final(self).spec_nodes() == old(self).spec_nodes(),
    {
        if idx < self.nodes.len() {
            let n = self.nodes[idx];
            self.nodes.set(idx, ListNode { data: n.data, prev, next: n.next });
        }
    }

    /// Link node `idx` forward to `next`; an index with no node changes nothing.
    pub fn set_next(&mut self, idx: usize, next: Option<usize>)
        requires
            old(self).wf(),
        ensures
            final(self).wf(),
            final(self).spec_static_free() == old(self).spec_static_free(),
            final(self).spec_dynamic_free() == old(self).spec_dynamic_free(),
            idx < old(self).spec_nodes().len() ==> final(self).spec_nodes() == old(self).spec_nodes().update(
                idx as int,
                ListNode { next, ..old(self).spec_nodes()[idx as int] },
            ),
            idx >= old(self).spec_nodes().len() ==> final(self).spec_nodes() == old(self).spec_nodes(),
    {
        if idx < self.nodes.len() {
            let n = self.nodes[idx];
            self.nodes.set(idx, ListNode { data: n.data, prev: n.prev, next });
        }
    }
}

/// Popping the top of a stack keeps every other entry.
pub proof fn lemma_pop_keeps_others(s: Seq<usize>, idx: usize)
    requires
        s.len() > 0,
        idx == s.last(),
    ensures
        forall|j: usize| j != idx ==> (#[trigger] s.drop_last().contains(j) == s.contains(j)),
{
    assert forall|j: usize| j != idx implies (#[trigger] s.drop_last().contains(j) == s.contains(j)) by {
        if s.contains(j) {
            let k = choose|k: int| 0 <= k < s.len() && s[k] == j;
            assert(k < s.len() - 1);
            assert(s.drop_last()[k] == j);
        }
        if s.drop_last().contains(j) {
            let k = choose|k: int| 0 <= k < s.drop_last().len() && s.drop_last()[k] == j;
            assert(s[k] == j);
        }
    }
}

/// A stack of distinct indices in `[lo, hi)` is no longer than the range.
pub proof fn lemma_stack_len(s: Seq<usize>, lo: int, hi: int)
    requires
        stack_ok(s, lo, hi),
    ensures
        s.len() <= if hi > lo { hi - lo } else { 0 },
{
    let f = |k: int| s[k] as int;
    let dom = vstd::set_lib::set_int_range(0, s.len() as int);
    let img = Set::new(|v: int| exists|k: int| 0 <= k < s.len() && s[k] == v);
    let range = vstd::set_lib::set_int_range(lo, if hi > lo { hi } else { lo });
    vstd::set_lib::lemma_int_range(0, s.len() as int);
    vstd::set_lib::lemma_int_range(lo, if hi > lo { hi } else { lo });
    assert(img.subset_of(range));
    vstd::set_lib::lemma_len_subset(img, range);
    assert forall|v: int| #[trigger] dom.map(f).contains(v) == img.contains(v) by {
        if img.contains(v) {
            let k = choose|k: int| 0 <= k < s.len() && s[k] == v;
            assert(dom.contains(k) && f(k) == v);
        }
    }
    assert(dom.map(f) =~= img);
    assert forall|a: int, b: int| dom.contains(a) && dom.contains(b) && #[trigger] f(a) == #[trigger] f(b) implies a == b by {
        if a != b {
            if a < b {
                assert(s[a] != s[b]);
            } else {
                assert(s[b] != s[a]);
            }
        }
    }
    vstd::set_lib::lemma_map_size(dom, img, f);
}

} // verus!
