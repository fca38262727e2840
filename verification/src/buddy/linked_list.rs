//! Bounded list kept in ascending order, for buddy free lists.
//!
//! The list holds at most `N` items. Inserting in sorted order keeps the
//! blocks of a free list ordered by address, which makes contiguity easy to
//! check.
use vstd::prelude::*;
use super::buddy_block::BuddyBlock;

verus! {

/// `a` comes strictly before `b`: by the first component, then the second.
pub open spec fn key_lt(a: (int, int), b: (int, int)) -> bool {
    a.0 < b.0 || (a.0 == b.0 && a.1 < b.1)
}

/// An item a list can keep in order and look up by address.
pub trait ListItem: Sized {
    /// The item's place in the order.
    spec fn order_key(&self) -> (int, int);

    /// The address the item stands for.
    spec fn spec_addr(&self) -> int;

    /// Whether the item comes after `other` in the order.
    fn after(&self, other: &Self) -> (r: bool)
        ensures
            r == key_lt(other.order_key(), self.order_key()),
    ;

    /// The address the item stands for.
    fn addr(&self) -> (r: usize)
        ensures
            r == self.spec_addr(),
    ;
}

impl ListItem for usize {
    open spec fn order_key(&self) -> (int, int) {
        (0, *self as int)
    }

    open spec fn spec_addr(&self) -> int {
        *self as int
    }

    fn after(&self, other: &Self) -> (r: bool) {
        *self > *other
    }

    fn addr(&self) -> (r: usize) {
        *self
    }
}

impl ListItem for BuddyBlock {
    open spec fn order_key(&self) -> (int, int) {
        (self.order as int, self.addr as int)
    }

    open spec fn spec_addr(&self) -> int {
        self.addr as int
    }

    fn after(&self, other: &Self) -> (r: bool) {
        self.order > other.order || (self.order == other.order && self.addr > other.addr)
    }

    fn addr(&self) -> (r: usize) {
        self.addr
    }
}

/// The items of `s` are in ascending order.
pub open spec fn sorted_keys<T: ListItem>(s: Seq<T>) -> bool {
    forall|i: int, j: int| 0 <= i < j < s.len() ==> !key_lt(#[trigger] s[j].order_key(), #[trigger] s[i].order_key())
}

/// `p` is where sorted insertion puts `x` into `s`: past every item that
/// does not come after `x`, before the first that does.
pub open spec fn insert_position<T: ListItem>(s: Seq<T>, x: T, p: int) -> bool {
    &&& 0 <= p <= s.len()
    &&& forall|i: int| 0 <= i < p ==> !key_lt(x.order_key(), #[trigger] s[i].order_key())
    &&& p < s.len() ==> key_lt(x.order_key(), s[p].order_key())
}

/// Inserting at the sorted position keeps a sorted sequence sorted.
pub proof fn lemma_insert_keeps_sorted<T: ListItem>(s: Seq<T>, x: T, p: int)
    requires
        sorted_keys(s),
        insert_position(s, x, p),
    ensures
        sorted_keys(s.insert(p, x)),
{
    let t = s.insert(p, x);
    assert forall|i: int, j: int| 0 <= i < j < t.len() implies !key_lt(#[trigger] t[j].order_key(), #[trigger] t[i].order_key()) by {
        if j < p {
            assert(t[i] == s[i] && t[j] == s[j]);
        } else if j == p {
            assert(t[i] == s[i]);
        } else if i < p {
            assert(t[i] == s[i] && t[j] == s[j - 1]);
        } else if i == p {
            assert(t[j] == s[j - 1]);
            assert(key_lt(x.order_key(), s[p].order_key()));
            if j - 1 > p {
                assert(!key_lt(s[j - 1].order_key(), s[p].order_key()));
            }
        } else {
            assert(t[i] == s[i - 1] && t[j] == s[j - 1]);
        }
    }
}

/// List of at most `N` items.
pub struct StaticLinkedList<T, const N: usize> {
    items: Vec<T>,
}

impl<T, const N: usize> StaticLinkedList<T, N> {
    /// The list holds no more than its capacity.
    #[verifier::type_invariant]
    closed spec fn within_capacity(&self) -> bool {
        self.items@.len() <= N
    }
}

impl<T: ListItem, const N: usize> StaticLinkedList<T, N> {
    /// The items, front to back.
    pub closed spec fn view(&self) -> Seq<T> {
        self.items@
    }


    /// An empty list.
    pub fn new() -> (r: Self)
        ensures
            r@ == Seq::<T>::empty(),
    {
        StaticLinkedList { items: Vec::new() }
    }

    /// Make the list empty, with all its room free.
    pub fn init(&mut self)
        ensures
            final(self)@ == Seq::<T>::empty(),
    {
        self.items = Vec::new();
    }

    /// Append an item; `false` when the list is full.
    pub fn push_back(&mut self, data: T) -> (r: bool)
        ensures
            r == (old(self)@.len() < N),
            r ==> final(self)@ == old(self)@.push(data),
            !r ==> final(self)@ == old(self)@,
    {
        if self.items.len() >= N {
            return false;
        }
        let mut items: Vec<T> = Vec::new();
        core::mem::swap(&mut items, &mut self.items);
        items.push(data);
        self.items = items;
        true
    }


    /// Where sorted insertion puts `data`.
    fn sorted_position(&self, data: &T) -> (p: usize)
        ensures
            insert_position(self@, *data, p as int),
    {
        let mut p: usize = 0;
        while p < self.items.len()
            invariant
                p <= self@.len(),
                forall|i: int| 0 <= i < p ==> !key_lt(data.order_key(), #[trigger] self@[i].order_key()),
            ensures
                p <= self@.len(),
                forall|i: int| 0 <= i < p ==> !key_lt(data.order_key(), #[trigger] self@[i].order_key()),
                p < self@.len() ==> key_lt(data.order_key(), self@[p as int].order_key()),
            decreases self@.len() - p,
        {
            if self.items[p].after(data) {
                break;
            }
            p = p + 1;
        }
        p
    }

    /// Insert an item before the first one that comes after it, so a
    /// sorted list stays sorted; `false` when the list is full.
    pub fn insert_sorted(&mut self, data: T) -> (r: bool)
        ensures
            r == (old(self)@.len() < N),
            r ==> exists|p: int| #[trigger] insert_position(old(self)@, data, p) && final(self)@ == old(self)@.insert(p, data),
            !r ==> final(self)@ == old(self)@,
            r && sorted_keys(old(self)@) ==> sorted_keys(final(self)@),
    {
        if self.items.len() >= N {
            return false;
        }
        let ghost s = self.items@;
        let p = self.sorted_position(&data);
        let mut items: Vec<T> = Vec::new();
        core::mem::swap(&mut items, &mut self.items);
        items.insert(p, data);
        self.items = items;
        proof {
            assert(insert_position(s, data, p as int));
            if sorted_keys(s) {
                lemma_insert_keeps_sorted(s, data, p as int);
            }
            assert(self.items@ =~= s.insert(p as int, data));
        }
        true
    }

    /// Take the front item, if any.
    pub fn pop_front(&mut self) -> (r: Option<T>)
        ensures
            old(self)@.len() == 0 ==> r is None && final(self)@ == old(self)@,
            old(self)@.len() > 0 ==> r == Some(old(self)@[0]) && final(self)@ == old(self)@.drop_first(),
    {
        proof {
            use_type_invariant(&*self);
        }
        if self.items.len() == 0 {
            return None;
        }
        let mut items: Vec<T> = Vec::new();
        core::mem::swap(&mut items, &mut self.items);
        let x = items.remove(0);
        self.items = items;
        proof {
            assert(self.items@ == old(self)@.drop_first());
        }
        Some(x)
    }

    /// The list holds no item.
    pub fn is_empty(&self) -> (r: bool)
        ensures
            r == (self@.len() == 0),
    {
        self.items.len() == 0
    }

    /// Number of items; never more than the capacity.
    pub fn len(&self) -> (r: usize)
        ensures
            r == self@.len(),
            r <= N,
    {
        proof {
            use_type_invariant(self);
        }
        self.items.len()
    }

    /// The position of the first item standing for `addr`, if any.
    pub fn find_by_addr(&self, addr: usize) -> (r: Option<usize>)
        ensures
            r matches Some(k) ==> k < self@.len() && self@[k as int].spec_addr() == addr && forall|j: int|
                0 <= j < k ==> #[trigger] self@[j].spec_addr() != addr,
            r is None ==> forall|j: int| 0 <= j < self@.len() ==> #[trigger] self@[j].spec_addr() != addr,
    {
        let mut k: usize = 0;
        while k < self.items.len()
            invariant
                k <= self@.len(),
                forall|j: int| 0 <= j < k ==> #[trigger] self@[j].spec_addr() != addr,
            decreases self@.len() - k,
        {
            if self.items[k].addr() == addr {
                return Some(k);
            }
            k = k + 1;
        }
        None
    }

    /// The item at position `node_idx`; `None` past the end.
    pub fn get(&self, node_idx: usize) -> (r: Option<&T>)
        ensures
            node_idx < self@.len() ==> r == Some(&self@[node_idx as int]),
            node_idx >= self@.len() ==> r is None,
    {
        if node_idx < self.items.len() {
            Some(&self.items[node_idx])
        } else {
            None
        }
    }

    /// Remove the item at position `node_idx`; a position past the end
    /// changes nothing.
    pub fn remove(&mut self, node_idx: usize)
        ensures
            node_idx < old(self)@.len() ==> final(self)@ == old(self)@.remove(node_idx as int),
            node_idx >= old(self)@.len() ==> final(self)@ == old(self)@,
    {
        proof {
            use_type_invariant(&*self);
        }
        if node_idx < self.items.len() {
            let mut items: Vec<T> = Vec::new();
            core::mem::swap(&mut items, &mut self.items);
            items.remove(node_idx);
            self.items = items;
        }
    }
}

impl<T: ListItem + Copy, const N: usize> StaticLinkedList<T, N> {
    /// The items, front to back.
    pub fn iter(&self) -> (r: Vec<T>)
        ensures
            r@ == self@,
    {
        let mut out: Vec<T> = Vec::new();
        let mut k: usize = 0;
        while k < self.items.len()
            invariant
                k <= self@.len(),
                out@ == self@.subrange(0, k as int),
            decreases self@.len() - k,
        {
            out.push(self.items[k]);
            k = k + 1;
            proof {
                assert(out@ == self@.subrange(0, k as int));
            }
        }
        proof {
            assert(self@.subrange(0, self@.len() as int) == self@);
        }
        out
    }
}

} // verus!
