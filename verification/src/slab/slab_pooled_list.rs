//! Doubly linked list of slab nodes drawn from the global slab node pool.
//!
//! The list keeps only its ends and length; the links live in the pool's
//! nodes.
use vstd::prelude::*;
use super::slab_node::SlabNode;
use super::slab_node_pool::{GlobalSlabNodePool, ListNode, lemma_stack_len, stack_ok, INITIAL_NODES};

verus! {

/// The nodes `s` are linked in order: each points forward to the next and
/// back to the previous one, and no node appears twice.
pub open spec fn links_ok(s: Seq<usize>, nodes: Seq<ListNode<SlabNode>>) -> bool {
    &&& forall|k: int| 0 <= k < s.len() ==> #[trigger] s[k] < nodes.len()
    &&& forall|k: int| 0 <= k < s.len() ==> (#[trigger] nodes[s[k] as int]).next == (if k + 1 < s.len() {
        Some(s[k + 1])
    } else {
        None
    })
    &&& forall|k: int| 0 <= k < s.len() ==> (#[trigger] nodes[s[k] as int]).prev == (if k > 0 {
        Some(s[k - 1])
    } else {
        None
    })
    &&& forall|k: int, l: int| 0 <= k < l < s.len() ==> #[trigger] s[k] != #[trigger] s[l]
}

/// Doubly linked list of pool nodes.
pub struct SlabPooledLinkedList {
    head: Option<usize>,
    tail: Option<usize>,
    len: usize,
    order: Ghost<Seq<usize>>,
}

impl SlabPooledLinkedList {
    /// The node indices, front to back.
    pub closed spec fn view(&self) -> Seq<usize> {
        self.order@
    }

    /// The first node, if any.
    pub closed spec fn spec_head(&self) -> Option<usize> {
        self.head
    }

    /// The last node, if any.
    pub closed spec fn spec_tail(&self) -> Option<usize> {
        self.tail
    }

    /// The kept length.
    pub closed spec fn spec_len(&self) -> usize {
        self.len
    }

    /// The list's ends, length and the links in `pool` agree with its nodes.
    pub closed spec fn wf(&self, pool: GlobalSlabNodePool) -> bool {
        &&& links_ok(self.order@, pool.spec_nodes())
        &&& self.len == self.order@.len()
        &&& self.head == (if self.order@.len() > 0 { Some(self.order@[0]) } else { None })
        &&& self.tail == (if self.order@.len() > 0 { Some(self.order@.last()) } else { None })
    }

    /// In a well-formed list the kept length is that of the node order, and
    /// the ends are its first and last nodes.
    pub proof fn lemma_ends(&self, pool: GlobalSlabNodePool)
        requires
            self.wf(pool),
        ensures
            self.spec_len() == self@.len(),
            self.spec_head() == (if self@.len() > 0 { Some(self@[0]) } else { None::<usize> }),
            self.spec_tail() == (if self@.len() > 0 { Some(self@.last()) } else { None::<usize> }),
            links_ok(self@, pool.spec_nodes()),
    {
    }

    /// An empty list.
    pub fn new() -> (r: Self)
        ensures
            r@ == Seq::<usize>::empty(),
            forall|p: GlobalSlabNodePool| #[trigger] r.wf(p),
    {
        SlabPooledLinkedList { head: None, tail: None, len: 0, order: Ghost(Seq::empty()) }
    }

    /// The list holds no node.
    pub fn is_empty(&self) -> (r: bool)
        ensures
            r == (self.spec_head() is None),
    {
        self.head.is_none()
    }

    /// Number of nodes.
    pub fn len(&self) -> (r: usize)
        ensures
            r == self.spec_len(),
            forall|p: GlobalSlabNodePool| #[trigger] self.wf(p) ==> r == self@.len(),
    {
        self.len
    }

    /// The last node, if any.
    pub fn back(&self) -> (r: Option<usize>)
        ensures
            r == self.spec_tail(),
            forall|p: GlobalSlabNodePool| #[trigger] self.wf(p) ==> r == (if self@.len() > 0 { Some(self@.last()) } else { None::<usize> }),
    {
        self.tail
    }

    /// The first node, if any.
    pub fn front(&self) -> (r: Option<usize>)
        ensures
            r == self.spec_head(),
            forall|p: GlobalSlabNodePool| #[trigger] self.wf(p) ==> r == (if self@.len() > 0 { Some(self@[0]) } else { None::<usize> }),
    {
        self.head
    }

    /// Append node `idx`.
    pub fn push_back(&mut self, pool: &mut GlobalSlabNodePool, idx: usize)
        requires
            old(pool).wf(),
            old(self).wf(*old(pool)),
            idx < old(pool).spec_nodes().len(),
            !old(self)@.contains(idx),
        ensures
            final(pool).wf(),
            final(self).wf(*final(pool)),
            final(self)@ == old(self)@.push(idx),
            final(pool).spec_static_free() == old(pool).spec_static_free(),
            final(pool).spec_dynamic_free() == old(pool).spec_dynamic_free(),
            final(pool).spec_nodes().len() == old(pool).spec_nodes().len(),
            forall|j: int| 0 <= j < old(pool).spec_nodes().len() ==> (#[trigger] final(pool).spec_nodes()[j]).data
                == old(pool).spec_nodes()[j].data,
            forall|j: int|
                0 <= j < old(pool).spec_nodes().len() && j != idx && !(old(self)@.len() > 0 && j == old(self)@.last())
                    ==> #[trigger] final(pool).spec_nodes()[j] == old(pool).spec_nodes()[j],
    {
        let ghost s = self.order@;
        let ghost n0 = pool.spec_nodes();
        proof {
            pool.lemma_len_bound();
            let t = s.push(idx);
            assert forall|a: int, b: int| 0 <= a < b < t.len() implies #[trigger] t[a] != #[trigger] t[b] by {
                if b == s.len() as int {
                    assert(t[a] == s[a]);
                }
            }
            assert(stack_ok(t, 0, n0.len() as int));
            lemma_stack_len(t, 0, n0.len() as int);
        }
        pool.set_next(idx, None);
        match self.tail {
            Some(tail_idx) => {
                pool.set_next(tail_idx, Some(idx));
                pool.set_prev(idx, Some(tail_idx));
            },
            None => {
                pool.set_prev(idx, None);
                self.head = Some(idx);
            },
        }
        self.tail = Some(idx);
        self.len = self.len + 1;
        self.order = Ghost(s.push(idx));
        proof {
            let t = s.push(idx);
            let n1 = pool.spec_nodes();
            assert forall|k: int| 0 <= k < t.len() implies (#[trigger] n1[t[k] as int]).next == (if k + 1 < t.len() {
                Some(t[k + 1])
            } else {
                None
            }) && n1[t[k] as int].prev == (if k > 0 { Some(t[k - 1]) } else { None }) by {
                if k < s.len() as int {
                    assert(t[k] == s[k]);
                    assert(s[k] != idx);
                }
            }
            assert forall|k: int, l: int| 0 <= k < l < t.len() implies #[trigger] t[k] != #[trigger] t[l] by {
                if l == s.len() as int {
                    assert(t[k] == s[k]);
                }
            }
        }
    }

    /// Take the last node, if any; the links of the taken node are left as
    /// they were.
    pub fn pop_back(&mut self, pool: &mut GlobalSlabNodePool) -> (r: Option<usize>)
        requires
            old(pool).wf(),
            old(self).wf(*old(pool)),
        ensures
            final(pool).wf(),
            final(self).wf(*final(pool)),
            old(self)@.len() == 0 ==> r is None && final(self)@ == old(self)@,
            old(self)@.len() > 0 ==> r == Some(old(self)@.last()) && final(self)@ == old(self)@.drop_last(),
            final(pool).spec_static_free() == old(pool).spec_static_free(),
            final(pool).spec_dynamic_free() == old(pool).spec_dynamic_free(),
            final(pool).spec_nodes().len() == old(pool).spec_nodes().len(),
            forall|j: int| 0 <= j < old(pool).spec_nodes().len() ==> (#[trigger] final(pool).spec_nodes()[j]).data
                == old(pool).spec_nodes()[j].data,
    {
        let idx = match self.tail {
            Some(t) => t,
            None => {
                return None;
            },
        };
        let ghost s = self.order@;
        let prev = pool.get_prev(idx);
        self.tail = prev;
        match prev {
            Some(new_tail) => {
                pool.set_next(new_tail, None);
            },
            None => {
                self.head = None;
            },
        }
        self.len = self.len - 1;
        self.order = Ghost(s.drop_last());
        proof {
            let t = s.drop_last();
            let n1 = pool.spec_nodes();
            assert forall|k: int| 0 <= k < t.len() implies (#[trigger] n1[t[k] as int]).next == (if k + 1 < t.len() {
                Some(t[k + 1])
            } else {
                None
            }) && n1[t[k] as int].prev == (if k > 0 { Some(t[k - 1]) } else { None }) by {
                assert(t[k] == s[k]);
            }
            assert forall|k: int, l: int| 0 <= k < l < t.len() implies #[trigger] t[k] != #[trigger] t[l] by {
                assert(t[k] == s[k] && t[l] == s[l]);
            }
        }
        Some(idx)
    }

    /// Take the first node, if any; the links of the taken node are left
    /// as they were.
    pub fn pop_front(&mut self, pool: &mut GlobalSlabNodePool) -> (r: Option<usize>)
        requires
            old(pool).wf(),
            old(self).wf(*old(pool)),
        ensures
            final(pool).wf(),
            final(self).wf(*final(pool)),
            old(self)@.len() == 0 ==> r is None && final(self)@ == old(self)@,
            old(self)@.len() > 0 ==> r == Some(old(self)@[0]) && final(self)@ == old(self)@.drop_first(),
            final(pool).spec_static_free() == old(pool).spec_static_free(),
            final(pool).spec_dynamic_free() == old(pool).spec_dynamic_free(),
            final(pool).spec_nodes().len() == old(pool).spec_nodes().len(),
            forall|j: int| 0 <= j < old(pool).spec_nodes().len() ==> (#[trigger] final(pool).spec_nodes()[j]).data
                == old(pool).spec_nodes()[j].data,
    {
        let idx = match self.head {
            Some(h) => h,
            None => {
                return None;
            },
        };
        let ghost s = self.order@;
        let next = pool.get_next(idx);
        self.head = next;
        match next {
            Some(new_head) => {
                pool.set_prev(new_head, None);
            },
            None => {
                self.tail = None;
            },
        }
        self.len = self.len - 1;
        self.order = Ghost(s.drop_first());
        proof {
            let t = s.drop_first();
            let n1 = pool.spec_nodes();
            assert forall|k: int| 0 <= k < t.len() implies (#[trigger] n1[t[k] as int]).next == (if k + 1 < t.len() {
                Some(t[k + 1])
            } else {
                None
            }) && n1[t[k] as int].prev == (if k > 0 { Some(t[k - 1]) } else { None }) by {
                assert(t[k] == s[k + 1]);
                assert(s[k + 1] != s[0]);
            }
            assert forall|k: int, l: int| 0 <= k < l < t.len() implies #[trigger] t[k] != #[trigger] t[l] by {
                assert(t[k] == s[k + 1] && t[l] == s[l + 1]);
            }
        }
        Some(idx)
    }

    /// Unlink node `idx`, which must be on the list; its own links are
    /// left as they were.
    pub fn remove(&mut self, pool: &mut GlobalSlabNodePool, idx: usize)
        requires
            old(pool).wf(),
            old(self).wf(*old(pool)),
            old(self)@.contains(idx),
        ensures
            final(pool).wf(),
            final(self).wf(*final(pool)),
            exists|k: int| 0 <= k < old(self)@.len() && old(self)@[k] == idx && final(self)@ == old(self)@.remove(k),
            final(pool).spec_static_free() == old(pool).spec_static_free(),
            final(pool).spec_dynamic_free() == old(pool).spec_dynamic_free(),
            final(pool).spec_nodes().len() == old(pool).spec_nodes().len(),
            forall|j: int| 0 <= j < old(pool).spec_nodes().len() ==> (#[trigger] final(pool).spec_nodes()[j]).data
                == old(pool).spec_nodes()[j].data,
    {
        let ghost s = self.order@;
        let ghost k = choose|k: int| 0 <= k < s.len() && s[k] == idx;
        let prev = pool.get_prev(idx);
        let next = pool.get_next(idx);
        match prev {
            Some(prev_idx) => {
                pool.set_next(prev_idx, next);
            },
            None => {
                self.head = next;
            },
        }
        match next {
            Some(next_idx) => {
                pool.set_prev(next_idx, prev);
            },
            None => {
                self.tail = prev;
            },
        }
        self.len = self.len - 1;
        self.order = Ghost(s.remove(k));
        proof {
            let t = s.remove(k);
            let n1 = pool.spec_nodes();
            assert forall|m: int| 0 <= m < t.len() implies (#[trigger] n1[t[m] as int]).next == (if m + 1 < t.len() {
                Some(t[m + 1])
            } else {
                None
            }) && n1[t[m] as int].prev == (if m > 0 { Some(t[m - 1]) } else { None }) by {
                if m < k {
                    assert(t[m] == s[m]);
                    assert(s[m] != s[k]);
                    if m + 1 < k {
                        assert(t[m + 1] == s[m + 1]);
                    }
                    if m > 0 {
                        assert(t[m - 1] == s[m - 1]);
                    }
                } else {
                    assert(t[m] == s[m + 1]);
                    assert(s[m + 1] != s[k]);
                    if m + 1 < t.len() {
                        assert(t[m + 1] == s[m + 2]);
                    }
                    if m > k {
                        assert(t[m - 1] == s[m]);
                    } else if m > 0 {
                        assert(t[m - 1] == s[m - 1]);
                    }
                }
            }
            assert forall|a: int, b: int| 0 <= a < b < t.len() implies #[trigger] t[a] != #[trigger] t[b] by {
                let a2 = if a < k { a } else { a + 1 };
                let b2 = if b < k { b } else { b + 1 };
                assert(t[a] == s[a2] && t[b] == s[b2]);
            }
            assert(self.order@ == s.remove(k));
        }
    }

    /// The node indices, front to back.
    pub fn indices(&self, pool: &GlobalSlabNodePool) -> (r: Vec<usize>)
        requires
            self.wf(*pool),
        ensures
            r@ == self@,
    {
        let mut out: Vec<usize> = Vec::new();
        let mut current = self.head;
        let ghost s = self.order@;
        while current.is_some()
            invariant
                self.wf(*pool),
                s == self.order@,
                out@.len() <= s.len(),
                out@ == s.subrange(0, out@.len() as int),
                current == (if out@.len() < s.len() { Some(s[out@.len() as int]) } else { None }),
            decreases s.len() - out@.len(),
        {
            let idx = current.unwrap();
            out.push(idx);
            current = pool.get_next(idx);
            proof {
                assert(out@ == s.subrange(0, out@.len() as int));
            }
        }
        proof {
            assert(s.subrange(0, s.len() as int) == s);
        }
        out
    }

    /// Node `target` is on the list.
    pub fn contains(&self, pool: &GlobalSlabNodePool, target: usize) -> (r: bool)
        requires
            self.wf(*pool),
        ensures
            r == self@.contains(target),
    {
        let mut current = self.head;
        let ghost s = self.order@;
        let mut k: usize = 0;
        while current.is_some()
            invariant
                self.wf(*pool),
                s == self.order@,
                k <= s.len(),
                current == (if k < s.len() { Some(s[k as int]) } else { None }),
                forall|j: int| 0 <= j < k ==> #[trigger] s[j] != target,
            decreases s.len() - k,
        {
            let idx = current.unwrap();
            if idx == target {
                return true;
            }
            current = pool.get_next(idx);
            k = k + 1;
        }
        false
    }
}

} // verus!
