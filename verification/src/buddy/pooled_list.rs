//! Pooled linked list whose nodes come from the global node pool.
//!
//! A list keeps only its head, tail and length; the nodes live in the pool.
//! Buddy free lists are kept sorted by ascending block address, which lets
//! searches stop early.
use vstd::prelude::*;
use super::buddy_block::BuddyBlock;
use super::global_node_pool::{GlobalNodePool, ListNode, pool_frame};

verus! {

/// Blocks in strictly ascending address order.
pub open spec fn sorted_by_addr(s: Seq<BuddyBlock>) -> bool {
    forall|i: int, j: int| 0 <= i < j < s.len() ==> #[trigger] s[i].addr < #[trigger] s[j].addr
}

/// Every id of `new_ids` was already in `old_ids` or free in the pool `p`.
pub open spec fn ids_from(new_ids: Seq<usize>, old_ids: Seq<usize>, p: GlobalNodePool) -> bool {
    forall|k: int| 0 <= k < new_ids.len() ==> old_ids.contains(#[trigger] new_ids[k]) || p.is_free(new_ids[k])
}

/// The list at position `k` of a `prev` link: the id before it, if any.
pub open spec fn prev_of(ids: Seq<usize>, k: int) -> Option<usize> {
    if k == 0 {
        None
    } else {
        Some(ids[k - 1])
    }
}

/// Pooled linked list: the list structure only; nodes come from the pool.
pub struct PooledLinkedList {
    head: Option<usize>,
    tail: Option<usize>,
    len: usize,
    spine: Ghost<Seq<usize>>,
}

impl PooledLinkedList {
    /// The node ids of the list, front to back.
    pub closed spec fn ids(&self) -> Seq<usize> {
        self.spine@
    }

    /// The ids are distinct nodes of the pool that are in use.
    pub open spec fn ids_ok(&self, pool: GlobalNodePool) -> bool {
        &&& self.ids().no_duplicates()
        &&& forall|k: int|
            0 <= k < self.ids().len() ==> #[trigger] self.ids()[k] < pool.nodes_view().len() && !pool.is_free(
                self.ids()[k],
            )
    }

    /// Head, tail, length and the node links agree with the ids.
    pub closed spec fn links_ok(&self, pool: GlobalNodePool) -> bool {
        let s = self.spine@;
        &&& self.len == s.len()
        &&& s.len() == 0 ==> self.head is None && self.tail is None
        &&& s.len() > 0 ==> self.head == Some(s[0]) && self.tail == Some(s.last())
        &&& forall|k: int|
            0 <= k < s.len() ==> #[trigger] pool.nodes_view()[s[k] as int].next == (if k + 1 < s.len() {
                Some(s[k + 1])
            } else {
                None::<usize>
            })
    }

    /// The blocks of the list, front to back.
    pub open spec fn view(&self, pool: GlobalNodePool) -> Seq<BuddyBlock> {
        Seq::new(self.ids().len(), |k: int| pool.nodes_view()[self.ids()[k] as int].data)
    }

    /// Well-formedness of the list against the pool that holds its nodes.
    pub open spec fn wf(&self, pool: GlobalNodePool) -> bool {
        &&& self.ids_ok(pool)
        &&& self.links_ok(pool)
        &&& sorted_by_addr(self.view(pool))
    }

    /// A list stays well formed, with the same blocks, when its own nodes are untouched.
    pub proof fn lemma_frame(&self, p1: GlobalNodePool, p2: GlobalNodePool)
        requires
            self.wf(p1),
            forall|k: int|
                0 <= k < self.ids().len() ==> #[trigger] self.ids()[k] < p2.nodes_view().len()
                    && p2.nodes_view()[self.ids()[k] as int] == p1.nodes_view()[self.ids()[k] as int]
                    && !p2.is_free(self.ids()[k]),
        ensures
            self.wf(p2),
            self.view(p2) == self.view(p1),
    {
        assert(self.view(p2) =~= self.view(p1));
        let s = self.spine@;
        assert forall|k: int| 0 <= k < s.len() implies #[trigger] p2.nodes_view()[s[k] as int].next == (if k + 1 < s.len() {
            Some(s[k + 1])
        } else {
            None::<usize>
        }) by {
            assert(p2.nodes_view()[s[k] as int] == p1.nodes_view()[s[k] as int]);
        }
    }

    /// A pool change that owns none of the list's nodes keeps the list intact.
    pub proof fn lemma_frame_disjoint(&self, p1: GlobalNodePool, p2: GlobalNodePool, owned: Set<usize>)
        requires
            self.wf(p1),
            pool_frame(p1, p2, owned),
            forall|k: int| 0 <= k < self.ids().len() ==> !owned.contains(#[trigger] self.ids()[k]),
        ensures
            self.wf(p2),
            self.view(p2) == self.view(p1),
    {
        assert forall|k: int| 0 <= k < self.ids().len() implies #[trigger] self.ids()[k] < p2.nodes_view().len()
            && p2.nodes_view()[self.ids()[k] as int] == p1.nodes_view()[self.ids()[k] as int]
            && !p2.is_free(self.ids()[k]) by {
            let i = self.ids()[k];
            assert(!owned.contains(i));
            assert(i < p1.nodes_view().len() && !p1.is_free(i));
        }
        self.lemma_frame(p1, p2);
    }

    /// Create a new empty pooled linked list.
    pub fn new() -> (l: Self)
        ensures
            l.ids().len() == 0,
            forall|p: GlobalNodePool| #[trigger] l.wf(p),
    {
        let l = PooledLinkedList { head: None, tail: None, len: 0, spine: Ghost(Seq::empty()) };
        assert forall|p: GlobalNodePool| #[trigger] l.wf(p) by {
            assert(l.view(p) =~= Seq::empty());
        }
        l
    }

    /// Check if the list is empty.
    pub fn is_empty(&self) -> (r: bool)
        requires exists|p: GlobalNodePool| self.links_ok(p),
        ensures r == (self.ids().len() == 0),
    {
        self.len == 0
    }

    /// Get the length of the list.
    pub fn len(&self) -> (r: usize)
        requires exists|p: GlobalNodePool| self.links_ok(p),
        ensures r == self.ids().len(),
    {
        self.len
    }

    /// Insert a block keeping ascending address order.
    ///
    /// Returns `false` when the pool has no free node. A block whose address
    /// is already on the list is not inserted again; that counts as success.
    pub fn insert_sorted(&mut self, pool: &mut GlobalNodePool, data: BuddyBlock) -> (r: bool)
        requires
            old(pool).wf(),
            old(self).wf(*old(pool)),
        ensures
            final(pool).wf(),
            final(self).wf(*final(pool)),
            pool_frame(*old(pool), *final(pool), old(self).ids().to_set()),
            ids_from(final(self).ids(), old(self).ids(), *old(pool)),
            final(pool).nodes_view().len() == old(pool).nodes_view().len(),
            old(pool).free_ids().len() == 0 ==> !r && final(self).view(*final(pool)) == old(self).view(*old(pool))
                && final(pool).free_ids() == old(pool).free_ids() && final(self).ids() == old(self).ids(),
            old(pool).free_ids().len() > 0 ==> r,
            old(pool).free_ids().len() > 0 && (exists|k: int|
                0 <= k < old(self).view(*old(pool)).len() && #[trigger] old(self).view(*old(pool))[k].addr
                    == data.addr) ==> final(self).view(*final(pool)) == old(self).view(*old(pool))
                && final(pool).free_ids() == old(pool).free_ids() && final(self).ids() == old(self).ids(),
            old(pool).free_ids().len() > 0 && (forall|k: int|
                0 <= k < old(self).view(*old(pool)).len() ==> #[trigger] old(self).view(*old(pool))[k].addr
                    != data.addr) ==> exists|k: int|
                0 <= k <= old(self).view(*old(pool)).len() && final(self).view(*final(pool))
                    == old(self).view(*old(pool)).insert(k, data) && final(self).ids()
                    == old(self).ids().insert(k, old(pool).free_ids().last())
                    && final(pool).free_ids() == old(pool).free_ids().drop_last(),
    {
        let ghost p0 = *pool;
        let ghost s = self.spine@;
        let ghost v0 = self.view(*pool);
        let new_node_idx = match pool.alloc_node() {
            Some(idx) => idx,
            None => {
                return false;
            },
        };
        let ghost p1 = *pool;
        proof {
            assert(p0.free_ids().last() == new_node_idx);
            assert(p0.is_free(new_node_idx));
            assert forall|k: int| 0 <= k < s.len() implies #[trigger] s[k] != new_node_idx && p1.nodes_view()[s[k] as int]
                == p0.nodes_view()[s[k] as int] && !p1.is_free(s[k]) by {
                if p1.is_free(s[k]) {
                    let j = choose|j: int| 0 <= j < p1.free_ids().len() && p1.free_ids()[j] == s[k];
                    assert(p0.free_ids()[j] == s[k]);
                }
            }
            self.lemma_frame(p0, p1);
        }
        let mut prev_idx: Option<usize> = None;
        let mut current_idx = self.head;
        let mut visited: usize = 0;
        loop
            invariant
                pool.wf(),
                *pool == p1,
                self.wf(p1),
                self.spine@ == s,
                self.view(p1) == v0,
                visited <= s.len(),
                current_idx == (if visited < s.len() { Some(s[visited as int]) } else { None::<usize> }),
                prev_idx == prev_of(s, visited as int),
                forall|k: int| 0 <= k < visited ==> #[trigger] v0[k].addr < data.addr,
                new_node_idx < p1.nodes_view().len(),
                !p1.is_free(new_node_idx),
                forall|k: int| 0 <= k < s.len() ==> #[trigger] s[k] != new_node_idx,
                p0.wf(),
                self.wf(p0),
                p0 == *old(pool),
                s == old(self).ids(),
                v0 == old(self).view(*old(pool)),
                p0.free_ids().len() > 0,
                p1.free_ids() == p0.free_ids().drop_last(),
                new_node_idx == p0.free_ids().last(),
                p1.nodes_view().len() == p0.nodes_view().len(),
                forall|i: int| 0 <= i < p0.nodes_view().len() && i != new_node_idx ==> #[trigger] p1.nodes_view()[i] == p0.nodes_view()[i],
            ensures
                pool.wf(),
                *pool == p1,
                visited <= s.len(),
                current_idx == (if visited < s.len() { Some(s[visited as int]) } else { None::<usize> }),
                prev_idx == prev_of(s, visited as int),
                forall|k: int| 0 <= k < visited ==> #[trigger] v0[k].addr < data.addr,
                visited < s.len() ==> v0[visited as int].addr > data.addr,
            decreases s.len() - visited,
        {
            let idx = match current_idx {
                None => break,
                Some(idx) => idx,
            };
            if visited > self.len {
                pool.dealloc_node(new_node_idx);
                return false;
            }
            let node = pool.get_node(idx);
            match node {
                Some(node) => {
                    if node.data.addr == data.addr {
                        pool.dealloc_node(new_node_idx);
                        proof {
                            assert(p0.free_ids() =~= p0.free_ids().drop_last().push(new_node_idx));
                            assert(pool.free_ids() =~= p0.free_ids());
                            assert forall|k: int| 0 <= k < s.len() implies #[trigger] s[k] < pool.nodes_view().len()
                                && pool.nodes_view()[s[k] as int] == p1.nodes_view()[s[k] as int]
                                && !pool.is_free(s[k]) by {
                            }
                            self.lemma_frame(p1, *pool);
                            assert(v0[visited as int].addr == data.addr);
                        }
                        return true;
                    }
                    if node.data.addr > data.addr {
                        break;
                    }
                    prev_idx = current_idx;
                    current_idx = node.next;
                    visited = visited + 1;
                },
                None => {
                    pool.dealloc_node(new_node_idx);
                    return false;
                },
            }
        }
        let k = visited;
        pool.write_node(new_node_idx, ListNode { data, next: current_idx });
        let ghost p2 = *pool;
        match prev_idx {
            Some(prev) => {
                pool.set_next(prev, Some(new_node_idx));
            },
            None => {
                self.head = Some(new_node_idx);
            },
        }
        if current_idx.is_none() {
            self.tail = Some(new_node_idx);
        }
        proof {
            let t = s.push(new_node_idx);
            assert(t.no_duplicates()) by {
                assert forall|i: int, j: int| 0 <= i < j < t.len() implies t[i] != t[j] by {
                    if j == s.len() {
                        assert(t[i] == s[i]);
                    } else {
                        assert(t[i] == s[i] && t[j] == s[j]);
                    }
                }
            }
            assert forall|m: int| 0 <= m < t.len() implies #[trigger] t[m] < p1.nodes_view().len() by {
                if m < s.len() {
                    assert(t[m] == s[m]);
                }
            }
            super::global_node_pool::lemma_distinct_bounded(t, p1.nodes_view().len());
        }
        self.len = self.len + 1;
        self.spine = Ghost(s.insert(k as int, new_node_idx));
        proof {
            let p3 = *pool;
            let s2 = self.spine@;
            assert(p3.free_ids() == p0.free_ids().drop_last());
            assert forall|j: int| 0 <= j < s.len() implies #[trigger] p3.nodes_view()[s[j] as int].data == p0.nodes_view()[s[j] as int].data by {
            }
            assert forall|j: int| 0 <= j < s2.len() implies #[trigger] p3.nodes_view()[s2[j] as int].next == (if j + 1 < s2.len() {
                Some(s2[j + 1])
            } else {
                None::<usize>
            }) by {
                if j < k - 1 {
                    assert(s2[j] == s[j]);
                    assert(s2[j + 1] == s[j + 1]);
                    assert(s[j] != s[k - 1]);
                } else if j == k - 1 {
                    assert(s2[j] == s[j]);
                } else if j == k {
                    assert(s2[j] == new_node_idx);
                    if k < s.len() {
                        assert(s2[j + 1] == s[k as int]);
                    }
                } else {
                    assert(s2[j] == s[j - 1]);
                    if j + 1 < s2.len() {
                        assert(s2[j + 1] == s[j]);
                    }
                    if k > 0 {
                        assert(s[j - 1] != s[k - 1]);
                    }
                }
            }
            assert(self.view(p3) =~= v0.insert(k as int, data)) by {
                assert forall|j: int| 0 <= j < s2.len() implies self.view(p3)[j] == v0.insert(k as int, data)[j] by {
                    if j < k {
                        assert(s2[j] == s[j]);
                    } else if j > k {
                        assert(s2[j] == s[j - 1]);
                    }
                }
            }
            assert(sorted_by_addr(self.view(p3))) by {
                let v = self.view(p3);
                assert forall|i: int, j: int| 0 <= i < j < v.len() implies #[trigger] v[i].addr < #[trigger] v[j].addr by {
                    if i < k && j > k {
                        assert(v0[i].addr < data.addr);
                        assert(v0[k as int].addr > data.addr);
                        if j - 1 > k {
                            assert(v0[k as int].addr < v0[j - 1].addr);
                        }
                    } else if i == k && j > k {
                        if j - 1 > k {
                            assert(v0[k as int].addr < v0[j - 1].addr);
                        }
                    } else if i > k {
                        assert(v0[i - 1].addr < v0[j - 1].addr);
                    } else if j == k {
                    } else {
                        assert(v0[i].addr < v0[j].addr);
                    }
                }
            }
            assert(s2.no_duplicates()) by {
                assert forall|i: int, j: int| 0 <= i < j < s2.len() implies s2[i] != s2[j] by {
                    if i < k && j > k {
                        assert(s2[i] == s[i] && s2[j] == s[j - 1]);
                    } else if i > k {
                        assert(s2[i] == s[i - 1] && s2[j] == s[j - 1]);
                    } else if j < k {
                        assert(s2[i] == s[i] && s2[j] == s[j]);
                    }
                }
            }
            assert forall|j: int| 0 <= j < s2.len() implies #[trigger] s2[j] < p3.nodes_view().len() && !p3.is_free(s2[j]) by {
                if j < k {
                    assert(s2[j] == s[j]);
                } else if j > k {
                    assert(s2[j] == s[j - 1]);
                }
            }
            assert forall|j: int| 0 <= j < s2.len() implies s.contains(#[trigger] s2[j]) || p0.is_free(s2[j]) by {
                if j < k {
                    assert(s2[j] == s[j]);
                } else if j > k {
                    assert(s2[j] == s[j - 1]);
                }
            }
            assert forall|i: usize|
                i < p0.nodes_view().len() && !s.to_set().contains(i) && !p0.is_free(i) implies #[trigger] p3.nodes_view()[i as int]
                == p0.nodes_view()[i as int] && !p3.is_free(i) by {
                if p3.is_free(i) {
                    let j = choose|j: int| 0 <= j < p3.free_ids().len() && p3.free_ids()[j] == i;
                    assert(p0.free_ids()[j] == i);
                }
                if k > 0 {
                    assert(s.contains(s[k - 1]));
                }
            }
            assert forall|j: int|
                0 <= j < v0.len() implies #[trigger] v0[j].addr != data.addr by {
                if j < k {
                } else {
                    assert(v0[k as int].addr > data.addr);
                    if j > k {
                        assert(v0[k as int].addr < v0[j].addr);
                    }
                }
            }
        }
        true
    }

    /// Check if any block in the list starts within `[start, end)`.
    pub fn has_block_in_range(&self, pool: &GlobalNodePool, start: usize, end: usize) -> (r: bool)
        requires
            self.wf(*pool),
        ensures
            r == exists|k: int|
                0 <= k < self.view(*pool).len() && start <= #[trigger] self.view(*pool)[k].addr < end,
    {
        let ghost s = self.spine@;
        let ghost v = self.view(*pool);
        let mut current_idx = self.head;
        let mut visited: usize = 0;
        while current_idx.is_some()
            invariant
                self.wf(*pool),
                s == self.spine@,
                v == self.view(*pool),
                visited <= s.len(),
                current_idx == (if visited < s.len() { Some(s[visited as int]) } else { None::<usize> }),
                forall|k: int| 0 <= k < visited ==> !(start <= #[trigger] v[k].addr < end),
                forall|k: int| 0 <= k < visited ==> #[trigger] v[k].addr < end,
            decreases s.len() - visited,
        {
            let idx = current_idx.unwrap();
            if visited > self.len {
                return false;
            }
            let node = pool.get_node(idx).unwrap();
            if node.data.addr >= end {
                proof {
                    assert forall|k: int| 0 <= k < v.len() implies !(start <= #[trigger] v[k].addr < end) by {
                        if k > visited {
                            assert(v[visited as int].addr < v[k].addr);
                        }
                    }
                }
                return false;
            }
            if node.data.addr >= start {
                return true;
            }
            current_idx = node.next;
            visited = visited + 1;
        }
        false
    }

    /// Pop the first block of the list, returning its node to the pool.
    pub fn pop_front(&mut self, pool: &mut GlobalNodePool) -> (r: Option<BuddyBlock>)
        requires
            old(pool).wf(),
            old(self).wf(*old(pool)),
        ensures
            final(pool).wf(),
            final(self).wf(*final(pool)),
            pool_frame(*old(pool), *final(pool), old(self).ids().to_set()),
            ids_from(final(self).ids(), old(self).ids(), *old(pool)),
            final(pool).nodes_view().len() == old(pool).nodes_view().len(),
            old(self).ids().len() == 0 ==> r is None && final(self).ids() == old(self).ids() && *final(pool)
                == *old(pool),
            old(self).ids().len() > 0 ==> r == Some(old(self).view(*old(pool))[0]) && final(self).ids()
                == old(self).ids().drop_first() && final(self).view(*final(pool)) == old(self).view(
                *old(pool),
            ).drop_first() && final(pool).free_ids() == old(pool).free_ids().push(old(self).ids()[0]),
    {
        let ghost s = self.spine@;
        let ghost p0 = *pool;
        let ghost v0 = self.view(*pool);
        let head_idx = match self.head {
            None => {
                return None;
            },
            Some(h) => h,
        };
        let node = *pool.get_node(head_idx).unwrap();
        self.head = node.next;
        if self.head.is_none() {
            self.tail = None;
        }
        let data = node.data;
        pool.dealloc_node(head_idx);
        self.len = self.len - 1;
        self.spine = Ghost(s.drop_first());
        proof {
            let p1 = *pool;
            let s2 = self.spine@;
            assert forall|k: int| 0 <= k < s2.len() implies #[trigger] s2[k] < p1.nodes_view().len() && p1.nodes_view()[s2[k] as int]
                == p0.nodes_view()[s2[k] as int] && !p1.is_free(s2[k]) by {
                assert(s2[k] == s[k + 1]);
                assert(s[k + 1] != s[0]);
            }
            assert forall|k: int| 0 <= k < s2.len() implies #[trigger] p1.nodes_view()[s2[k] as int].next == (if k + 1 < s2.len() {
                Some(s2[k + 1])
            } else {
                None::<usize>
            }) by {
                assert(s2[k] == s[k + 1]);
                assert(p0.nodes_view()[s[k + 1] as int].next == (if k + 2 < s.len() {
                    Some(s[k + 2])
                } else {
                    None::<usize>
                }));
            }
            assert(self.view(p1) =~= v0.drop_first()) by {
                assert forall|k: int| 0 <= k < s2.len() implies self.view(p1)[k] == v0.drop_first()[k] by {
                    assert(s2[k] == s[k + 1]);
                }
            }
            assert(s2.no_duplicates()) by {
                assert forall|i: int, j: int| 0 <= i < j < s2.len() implies s2[i] != s2[j] by {
                    assert(s2[i] == s[i + 1] && s2[j] == s[j + 1]);
                }
            }
            if s2.len() > 0 {
                assert(s2[0] == s[1]);
                assert(s2.last() == s.last());
            }
            assert forall|k: int| 0 <= k < s2.len() implies s.contains(#[trigger] s2[k]) || p0.is_free(s2[k]) by {
                assert(s2[k] == s[k + 1]);
            }
            assert forall|i: usize|
                i < p0.nodes_view().len() && !s.to_set().contains(i) && !p0.is_free(i) implies #[trigger] p1.nodes_view()[i as int]
                == p0.nodes_view()[i as int] && !p1.is_free(i) by {
                assert(s.contains(s[0]));
            }
        }
        Some(data)
    }

    /// Find a block by its address.
    ///
    /// Returns the node holding it and the node before it (`None` at the head).
    pub fn find_by_addr(&self, pool: &GlobalNodePool, addr: usize) -> (r: Option<(usize, Option<usize>)>)
        requires
            self.wf(*pool),
        ensures
            r is None <==> forall|k: int|
                0 <= k < self.view(*pool).len() ==> #[trigger] self.view(*pool)[k].addr != addr,
            r matches Some((n, p)) ==> exists|k: int|
                0 <= k < self.ids().len() && #[trigger] self.ids()[k] == n && self.view(*pool)[k].addr == addr
                    && p == prev_of(self.ids(), k),
    {
        let ghost s = self.spine@;
        let ghost v = self.view(*pool);
        let mut prev_idx: Option<usize> = None;
        let mut current_idx = self.head;
        let mut visited: usize = 0;
        while current_idx.is_some()
            invariant
                self.wf(*pool),
                s == self.spine@,
                v == self.view(*pool),
                visited <= s.len(),
                current_idx == (if visited < s.len() { Some(s[visited as int]) } else { None::<usize> }),
                prev_idx == prev_of(s, visited as int),
                forall|k: int| 0 <= k < visited ==> #[trigger] v[k].addr < addr,
            decreases s.len() - visited,
        {
            let idx = current_idx.unwrap();
            if visited > self.len {
                return None;
            }
            let node = pool.get_node(idx).unwrap();
            if node.data.addr > addr {
                proof {
                    assert forall|k: int| 0 <= k < v.len() implies #[trigger] v[k].addr != addr by {
                        if k > visited {
                            assert(v[visited as int].addr < v[k].addr);
                        }
                    }
                }
                return None;
            }
            if node.data.addr == addr {
                return Some((idx, prev_idx));
            }
            prev_idx = current_idx;
            current_idx = node.next;
            visited = visited + 1;
        }
        None
    }

    /// Remove the node `node_idx` given the node before it (as `find_by_addr`
    /// reports). `false`, with nothing changed, when `node_idx` does not
    /// follow `prev_idx` in the list (or is not its head, for `None`).
    pub fn remove_with_prev(&mut self, pool: &mut GlobalNodePool, node_idx: usize, prev_idx: Option<usize>) -> (r: bool)
        requires
            old(pool).wf(),
            old(self).wf(*old(pool)),
        ensures
            final(pool).wf(),
            final(self).wf(*final(pool)),
            r <==> exists|k: int|
                0 <= k < old(self).ids().len() && #[trigger] old(self).ids()[k] == node_idx && prev_idx == prev_of(
                    old(self).ids(),
                    k,
                ),
            !r ==> *final(self) == *old(self) && *final(pool) == *old(pool),
            r ==> pool_frame(*old(pool), *final(pool), old(self).ids().to_set()),
            r ==> ids_from(final(self).ids(), old(self).ids(), *old(pool)),
            r ==> final(pool).nodes_view().len() == old(pool).nodes_view().len(),
            r ==> final(pool).free_ids() == old(pool).free_ids().push(node_idx),
            forall|k: int|
                0 <= k < old(self).ids().len() && #[trigger] old(self).ids()[k] == node_idx && r ==> final(self).ids()
                    == old(self).ids().remove(k) && final(self).view(*final(pool)) == old(self).view(
                    *old(pool),
                ).remove(k),
    {
        let ghost s = self.spine@;
        match prev_idx {
            None => {
                if self.head != Some(node_idx) {
                    proof {
                        assert forall|k: int| 0 <= k < s.len() && #[trigger] s[k] == node_idx implies prev_idx != prev_of(s, k) by {
                            if k == 0 {
                                assert(self.head == Some(s[0]));
                            }
                        }
                    }
                    return false;
                }
                proof {
                    assert(s[0] == node_idx && prev_of(s, 0) == prev_idx);
                }
            },
            Some(prev) => {
                let mut current_idx = self.head;
                let mut visited: usize = 0;
                while current_idx.is_some()
                    invariant
                        pool.wf(),
                        *pool == *old(pool),
                        *self == *old(self),
                        self.wf(*pool),
                        s == self.spine@,
                        prev_idx == Some(prev),
                        visited <= s.len(),
                        current_idx == (if visited < s.len() { Some(s[visited as int]) } else { None::<usize> }),
                        forall|j: int| 0 <= j < visited ==> #[trigger] s[j] != prev,
                    decreases s.len() - visited,
                {
                    let idx = current_idx.unwrap();
                    let next = pool.get_node(idx).unwrap().next;
                    if idx == prev {
                        if next != Some(node_idx) {
                            proof {
                                lemma_prev_unique(s, visited as int, prev);
                                if visited + 1 < s.len() {
                                    assert(next == Some(s[visited + 1]));
                                }
                            }
                            return false;
                        }
                        proof {
                            assert(visited + 1 < s.len() && s[visited + 1] == node_idx);
                            assert(prev_of(s, visited + 1) == prev_idx);
                        }
                        return self.remove_with_prev_impl(pool, node_idx, prev_idx);
                    }
                    current_idx = next;
                    visited = visited + 1;
                }
                proof {
                    assert forall|k: int| 0 <= k < s.len() && #[trigger] s[k] == node_idx implies prev_idx != prev_of(s, k) by {
                        if k > 0 {
                            assert(s[k - 1] != prev);
                        }
                    }
                }
                return false;
            },
        }
        self.remove_with_prev_impl(pool, node_idx, prev_idx)
    }

    /// Unlink the node at position `k` given its predecessor.
    fn remove_with_prev_impl(&mut self, pool: &mut GlobalNodePool, node_idx: usize, prev_idx: Option<usize>) -> (r: bool)
        requires
            old(pool).wf(),
            old(self).wf(*old(pool)),
            exists|k: int|
                0 <= k < old(self).ids().len() && #[trigger] old(self).ids()[k] == node_idx && prev_idx == prev_of(
                    old(self).ids(),
                    k,
                ),
        ensures
            r,
            final(pool).wf(),
            final(self).wf(*final(pool)),
            pool_frame(*old(pool), *final(pool), old(self).ids().to_set()),
            ids_from(final(self).ids(), old(self).ids(), *old(pool)),
            final(pool).nodes_view().len() == old(pool).nodes_view().len(),
            final(pool).free_ids() == old(pool).free_ids().push(node_idx),
            forall|k: int|
                0 <= k < old(self).ids().len() && #[trigger] old(self).ids()[k] == node_idx ==> final(self).ids()
                    == old(self).ids().remove(k) && final(self).view(*final(pool)) == old(self).view(
                    *old(pool),
                ).remove(k),
    {
        let ghost s = self.spine@;
        let ghost p0 = *pool;
        let ghost v0 = self.view(*pool);
        let ghost k = choose|k: int|
            0 <= k < s.len() && #[trigger] s[k] == node_idx && prev_idx == prev_of(s, k);
        let next_idx = pool.get_node(node_idx).unwrap().next;
        match prev_idx {
            Some(prev) => {
                pool.set_next(prev, next_idx);
            },
            None => {
                self.head = next_idx;
            },
        }
        if self.tail == Some(node_idx) {
            if next_idx.is_none() {
                self.tail = prev_idx;
            }
        } else if self.head.is_none() {
            self.tail = None;
        }
        let ghost p1 = *pool;
        pool.dealloc_node(node_idx);
        self.len = self.len - 1;
        self.spine = Ghost(s.remove(k));
        proof {
            let p2 = *pool;
            let s2 = self.spine@;
            assert forall|j: int| 0 <= j < s.len() && j != k implies s[j] != node_idx by {}
            assert forall|j: int| 0 <= j < s2.len() implies #[trigger] s2[j] < p2.nodes_view().len() && !p2.is_free(s2[j]) by {
                if j < k {
                    assert(s2[j] == s[j]);
                } else {
                    assert(s2[j] == s[j + 1]);
                }
            }
            assert forall|j: int| 0 <= j < s2.len() implies #[trigger] p2.nodes_view()[s2[j] as int].next == (if j + 1 < s2.len() {
                Some(s2[j + 1])
            } else {
                None::<usize>
            }) by {
                if j < k - 1 {
                    assert(s2[j] == s[j] && s2[j + 1] == s[j + 1]);
                    assert(s[j] != s[k - 1]);
                } else if j == k - 1 {
                    assert(s2[j] == s[j]);
                    if j + 1 < s2.len() {
                        assert(s2[j + 1] == s[k + 1]);
                    }
                } else {
                    assert(s2[j] == s[j + 1]);
                    if j + 1 < s2.len() {
                        assert(s2[j + 1] == s[j + 2]);
                    }
                    if k > 0 {
                        assert(s[j + 1] != s[k - 1]);
                    }
                }
            }
            assert(self.view(p2) =~= v0.remove(k)) by {
                assert forall|j: int| 0 <= j < s2.len() implies self.view(p2)[j] == v0.remove(k)[j] by {
                    if j < k {
                        assert(s2[j] == s[j]);
                    } else {
                        assert(s2[j] == s[j + 1]);
                    }
                }
            }
            assert(s2.no_duplicates()) by {
                assert forall|i: int, j: int| 0 <= i < j < s2.len() implies s2[i] != s2[j] by {
                    if j < k {
                        assert(s2[i] == s[i] && s2[j] == s[j]);
                    } else if i < k {
                        assert(s2[i] == s[i] && s2[j] == s[j + 1]);
                    } else {
                        assert(s2[i] == s[i + 1] && s2[j] == s[j + 1]);
                    }
                }
            }
            if s2.len() > 0 {
                if k == 0 {
                    assert(s2[0] == s[1]);
                } else {
                    assert(s2[0] == s[0]);
                }
                if k == s.len() - 1 {
                    assert(s2.last() == s[k - 1]);
                } else {
                    assert(s2.last() == s.last());
                }
            }
            assert(sorted_by_addr(self.view(p2))) by {
                let v = self.view(p2);
                assert forall|i: int, j: int| 0 <= i < j < v.len() implies #[trigger] v[i].addr < #[trigger] v[j].addr by {
                    let i0 = if i < k { i } else { i + 1 };
                    let j0 = if j < k { j } else { j + 1 };
                    assert(v[i] == v0[i0] && v[j] == v0[j0]);
                }
            }
            assert forall|j: int| 0 <= j < s2.len() implies s.contains(#[trigger] s2[j]) || p0.is_free(s2[j]) by {
                if j < k {
                    assert(s2[j] == s[j]);
                } else {
                    assert(s2[j] == s[j + 1]);
                }
            }
            assert forall|i: usize|
                i < p0.nodes_view().len() && !s.to_set().contains(i) && !p0.is_free(i) implies #[trigger] p2.nodes_view()[i as int]
                == p0.nodes_view()[i as int] && !p2.is_free(i) by {
                assert(s.contains(s[k]));
                if k > 0 {
                    assert(s.contains(s[k - 1]));
                }
            }
            assert forall|j: int| 0 <= j < s.len() && #[trigger] s[j] == node_idx implies j == k by {}
        }
        true
    }

    /// Remove the node `node_idx` from the list; `false` if it is not on the list.
    pub fn remove(&mut self, pool: &mut GlobalNodePool, node_idx: usize) -> (r: bool)
        requires
            old(pool).wf(),
            old(self).wf(*old(pool)),
        ensures
            final(pool).wf(),
            final(self).wf(*final(pool)),
            pool_frame(*old(pool), *final(pool), old(self).ids().to_set()),
            ids_from(final(self).ids(), old(self).ids(), *old(pool)),
            final(pool).nodes_view().len() == old(pool).nodes_view().len(),
            r == old(self).ids().contains(node_idx),
            !r ==> final(self).ids() == old(self).ids() && *final(pool) == *old(pool),
            r ==> final(pool).free_ids() == old(pool).free_ids().push(node_idx),
            forall|k: int|
                0 <= k < old(self).ids().len() && #[trigger] old(self).ids()[k] == node_idx ==> final(self).ids()
                    == old(self).ids().remove(k) && final(self).view(*final(pool)) == old(self).view(
                    *old(pool),
                ).remove(k),
    {
        let ghost s = self.spine@;
        let mut prev_idx: Option<usize> = None;
        let mut current_idx = self.head;
        let mut visited: usize = 0;
        loop
            invariant
                self.wf(*pool),
                s == self.spine@,
                visited <= s.len(),
                current_idx == (if visited < s.len() { Some(s[visited as int]) } else { None::<usize> }),
                prev_idx == prev_of(s, visited as int),
                forall|k: int| 0 <= k < visited ==> #[trigger] s[k] != node_idx,
            ensures
                visited <= s.len(),
                current_idx == (if visited < s.len() { Some(s[visited as int]) } else { None::<usize> }),
                prev_idx == prev_of(s, visited as int),
                forall|k: int| 0 <= k < visited ==> #[trigger] s[k] != node_idx,
                visited < s.len() ==> s[visited as int] == node_idx,
            decreases s.len() - visited,
        {
            let idx = match current_idx {
                None => break,
                Some(idx) => idx,
            };
            if visited > self.len {
                return false;
            }
            if idx == node_idx {
                break;
            }
            prev_idx = current_idx;
            current_idx = pool.get_node(idx).unwrap().next;
            visited = visited + 1;
        }
        if current_idx != Some(node_idx) {
            proof {
                if s.contains(node_idx) {
                    let j = choose|j: int| 0 <= j < s.len() && s[j] == node_idx;
                    assert(j < visited);
                }
            }
            return false;
        }
        self.remove_with_prev_impl(pool, node_idx, prev_idx)
    }

    /// The blocks of the list, front to back.
    pub fn iter(&self, pool: &GlobalNodePool) -> (r: Vec<BuddyBlock>)
        requires
            self.wf(*pool),
        ensures
            r@ == self.view(*pool),
    {
        let ghost s = self.spine@;
        let ghost v = self.view(*pool);
        let mut out: Vec<BuddyBlock> = Vec::new();
        let mut current_idx = self.head;
        let mut visited: usize = 0;
        while current_idx.is_some()
            invariant
                self.wf(*pool),
                s == self.spine@,
                v == self.view(*pool),
                visited <= s.len(),
                current_idx == (if visited < s.len() { Some(s[visited as int]) } else { None::<usize> }),
                out@ == v.subrange(0, visited as int),
            decreases s.len() - visited,
        {
            let idx = current_idx.unwrap();
            let node = pool.get_node(idx).unwrap();
            out.push(node.data);
            current_idx = node.next;
            visited = visited + 1;
            proof {
                assert(out@ =~= v.subrange(0, visited as int));
            }
        }
        proof {
            assert(out@ =~= v);
        }
        out
    }

    /// Clear all nodes from the list, returning them to the pool.
    pub fn clear(&mut self, pool: &mut GlobalNodePool)
        requires
            old(pool).wf(),
            old(self).wf(*old(pool)),
        ensures
            final(pool).wf(),
            final(self).wf(*final(pool)),
            final(self).ids().len() == 0,
            pool_frame(*old(pool), *final(pool), old(self).ids().to_set()),
            final(pool).nodes_view().len() == old(pool).nodes_view().len(),
            final(pool).free_ids().len() == old(pool).free_ids().len() + old(self).ids().len(),
            forall|i: usize| #[trigger] old(self).ids().contains(i) ==> final(pool).is_free(i),
            forall|i: usize| #[trigger] old(pool).is_free(i) ==> final(pool).is_free(i),
    {
        let ghost s = self.spine@;
        let ghost p0 = *pool;
        loop
            invariant
                pool.wf(),
                self.wf(*pool),
                pool_frame(p0, *pool, s.to_set()),
                pool.nodes_view().len() == p0.nodes_view().len(),
                self.ids().len() <= s.len(),
                self.ids() == s.subrange(s.len() - self.ids().len(), s.len() as int),
                pool.free_ids().len() == p0.free_ids().len() + (s.len() - self.ids().len()),
                forall|j: int| 0 <= j < s.len() - self.ids().len() ==> pool.is_free(#[trigger] s[j]),
                forall|i: usize| #[trigger] p0.is_free(i) ==> pool.is_free(i),
            ensures
                self.wf(*pool),
                self.ids().len() == 0,
                pool.wf(),
                pool_frame(p0, *pool, s.to_set()),
                pool.nodes_view().len() == p0.nodes_view().len(),
                pool.free_ids().len() == p0.free_ids().len() + s.len(),
                forall|j: int| 0 <= j < s.len() ==> pool.is_free(#[trigger] s[j]),
                forall|i: usize| #[trigger] p0.is_free(i) ==> pool.is_free(i),
            decreases self.ids().len(),
        {
            let ghost p_before = *pool;
            let ghost s_before = self.ids();
            match self.pop_front(pool) {
                None => break,
                Some(_) => {
                    proof {
                        assert(self.ids() =~= s.subrange(s.len() - self.ids().len(), s.len() as int));
                        assert(s_before[0] == s[s.len() - s_before.len()]);
                        assert forall|i: usize| #[trigger] p0.is_free(i) implies pool.is_free(i) by {
                            assert(p_before.is_free(i));
                            assert(pool.free_ids() == p_before.free_ids().push(s_before[0]));
                            let j = choose|j: int| 0 <= j < p_before.free_ids().len() && p_before.free_ids()[j] == i;
                            assert(pool.free_ids()[j] == i);
                        }
                        assert forall|j: int| 0 <= j < s.len() - self.ids().len() implies pool.is_free(#[trigger] s[j]) by {
                            if j < s.len() - s_before.len() {
                                assert(p_before.is_free(s[j]));
                                let m = choose|m: int| 0 <= m < p_before.free_ids().len() && p_before.free_ids()[m] == s[j];
                                assert(pool.free_ids()[m] == s[j]);
                            } else {
                                assert(pool.free_ids()[pool.free_ids().len() - 1] == s[j]);
                            }
                        }
                        assert forall|i: usize| #[trigger] s_before.to_set().contains(i) implies s.to_set().contains(i) || p0.is_free(i) by {
                            let m = choose|m: int| 0 <= m < s_before.len() && s_before[m] == i;
                            assert(s[s.len() - s_before.len() + m] == i);
                        }
                        super::global_node_pool::lemma_pool_frame_trans(p0, p_before, *pool, s.to_set(), s_before.to_set());
                    }
                },
            }
        }
        proof {
            assert forall|i: usize| #[trigger] s.contains(i) implies pool.is_free(i) by {
                let j = choose|j: int| 0 <= j < s.len() && s[j] == i;
                assert(pool.is_free(s[j]));
            }
        }
    }
}

impl Default for PooledLinkedList {
    fn default() -> Self {
        Self::new()
    }
}

/// In a list without repeats, only the node right after `prev` has `prev`
/// before it.
proof fn lemma_prev_unique(s: Seq<usize>, i: int, prev: usize)
    requires
        s.no_duplicates(),
        0 <= i < s.len(),
        s[i] == prev,
    ensures
        forall|k: int| 0 <= k < s.len() && prev_of(s, k) == Some(prev) ==> k == i + 1,
{
    assert forall|k: int| 0 <= k < s.len() && prev_of(s, k) == Some(prev) implies k == i + 1 by {
        assert(s[k - 1] == s[i]);
    }
}

} // verus!
