//! Memory allocation tracking.
//!
//! Records each live allocation by address with its layout, source tag
//! and generation, keeps per-tag and overall statistics, and reports the
//! allocations still live (possible leaks).
use vstd::prelude::*;
use std::collections::BTreeMap;
use crate::Layout;
use vstd::string::StringSliceAdditionalSpecFns;
use vstd::std_specs::iter::IteratorSpec;
use vstd::std_specs::cmp::OrdSpec;

verus! {

broadcast use {vstd::std_specs::btree::group_btree_axioms, vstd::laws_cmp::group_laws_cmp};

/// Number of allocation tags.
pub const TAG_COUNT: usize = 11;

/// Allocation source tags for categorization.
#[derive(Debug, Clone, Copy, PartialEq, Eq, Structural)]
pub enum AllocationTag {
    Unknown,
    Kernel,
    Driver,
    Network,
    FileSystem,
    Process,
    VMMemory,
    PageTable,
    DMA,
    Slab,
    Buddy,
}

/// The ASCII bytes of a word.
pub open spec fn ascii(s: Seq<char>) -> Seq<u8> {
    s.map_values(|c: char| c as u8)
}

/// The tag a name stands for; any other name is `Unknown`.
pub open spec fn tag_named(name: Seq<u8>) -> AllocationTag {
    if name == ascii(seq!['k', 'e', 'r', 'n', 'e', 'l']) {
        AllocationTag::Kernel
    } else if name == ascii(seq!['d', 'r', 'i', 'v', 'e', 'r']) {
        AllocationTag::Driver
    } else if name == ascii(seq!['n', 'e', 't', 'w', 'o', 'r', 'k']) {
        AllocationTag::Network
    } else if name == ascii(seq!['f', 's']) || name == ascii(seq!['f', 'i', 'l', 'e', 's', 'y', 's', 't', 'e', 'm']) {
        AllocationTag::FileSystem
    } else if name == ascii(seq!['p', 'r', 'o', 'c', 'e', 's', 's']) {
        AllocationTag::Process
    } else if name == ascii(seq!['v', 'm']) || name == ascii(seq!['v', 'm', 'm', 'e', 'm', 'o', 'r', 'y']) {
        AllocationTag::VMMemory
    } else if name == ascii(seq!['p', 'a', 'g', 'e', 't', 'a', 'b', 'l', 'e']) || name == ascii(
        seq!['p', 'a', 'g', 'e', '_', 't', 'a', 'b', 'l', 'e'],
    ) {
        AllocationTag::PageTable
    } else if name == ascii(seq!['d', 'm', 'a']) {
        AllocationTag::DMA
    } else if name == ascii(seq!['s', 'l', 'a', 'b']) {
        AllocationTag::Slab
    } else if name == ascii(seq!['b', 'u', 'd', 'd', 'y']) {
        AllocationTag::Buddy
    } else {
        AllocationTag::Unknown
    }
}

/// The bytes of `a` are those of the word `w`.
fn bytes_are(a: &[u8], w: &[u8]) -> (r: bool)
    ensures
        r == (a@ == w@),
{
    if a.len() != w.len() {
        return false;
    }
    let mut i: usize = 0;
    while i < a.len()
        invariant
            a@.len() == w@.len(),
            i <= a@.len(),
            forall|j: int| 0 <= j < i ==> a@[j] == w@[j],
        decreases a@.len() - i,
    {
        if a[i] != w[i] {
            return false;
        }
        i = i + 1;
    }
    proof {
        assert(a@ =~= w@);
    }
    true
}

impl AllocationTag {
    /// Position of the tag in declaration order.
    pub open spec fn spec_index(self) -> nat {
        match self {
            AllocationTag::Unknown => 0,
            AllocationTag::Kernel => 1,
            AllocationTag::Driver => 2,
            AllocationTag::Network => 3,
            AllocationTag::FileSystem => 4,
            AllocationTag::Process => 5,
            AllocationTag::VMMemory => 6,
            AllocationTag::PageTable => 7,
            AllocationTag::DMA => 8,
            AllocationTag::Slab => 9,
            AllocationTag::Buddy => 10,
        }
    }

    /// Position of the tag in declaration order.
    pub fn index(&self) -> (r: usize)
        ensures
            r == self.spec_index(),
            r < TAG_COUNT,
    {
        match self {
            AllocationTag::Unknown => 0,
            AllocationTag::Kernel => 1,
            AllocationTag::Driver => 2,
            AllocationTag::Network => 3,
            AllocationTag::FileSystem => 4,
            AllocationTag::Process => 5,
            AllocationTag::VMMemory => 6,
            AllocationTag::PageTable => 7,
            AllocationTag::DMA => 8,
            AllocationTag::Slab => 9,
            AllocationTag::Buddy => 10,
        }
    }

    /// The tag a lower-case name stands for (`"fs"`, `"vm"` and
    /// `"page_table"` are accepted too); any other name is `Unknown`.
    pub fn from_string(s: &str) -> (r: Self)
        ensures
            r == tag_named(s.spec_bytes()),
    {
        let b = s.as_bytes();
        let kernel: [u8; 6] = [107, 101, 114, 110, 101, 108];
        let driver: [u8; 6] = [100, 114, 105, 118, 101, 114];
        let network: [u8; 7] = [110, 101, 116, 119, 111, 114, 107];
        let fs: [u8; 2] = [102, 115];
        let filesystem: [u8; 10] = [102, 105, 108, 101, 115, 121, 115, 116, 101, 109];
        let process: [u8; 7] = [112, 114, 111, 99, 101, 115, 115];
        let vm: [u8; 2] = [118, 109];
        let vmmemory: [u8; 8] = [118, 109, 109, 101, 109, 111, 114, 121];
        let pagetable: [u8; 9] = [112, 97, 103, 101, 116, 97, 98, 108, 101];
        let page_table: [u8; 10] = [112, 97, 103, 101, 95, 116, 97, 98, 108, 101];
        let dma: [u8; 3] = [100, 109, 97];
        let slab: [u8; 4] = [115, 108, 97, 98];
        let buddy: [u8; 5] = [98, 117, 100, 100, 121];
        proof {
            assert(kernel@ =~= ascii(seq!['k', 'e', 'r', 'n', 'e', 'l']));
            assert(driver@ =~= ascii(seq!['d', 'r', 'i', 'v', 'e', 'r']));
            assert(network@ =~= ascii(seq!['n', 'e', 't', 'w', 'o', 'r', 'k']));
            assert(fs@ =~= ascii(seq!['f', 's']));
            assert(filesystem@ =~= ascii(seq!['f', 'i', 'l', 'e', 's', 'y', 's', 't', 'e', 'm']));
            assert(process@ =~= ascii(seq!['p', 'r', 'o', 'c', 'e', 's', 's']));
            assert(vm@ =~= ascii(seq!['v', 'm']));
            assert(vmmemory@ =~= ascii(seq!['v', 'm', 'm', 'e', 'm', 'o', 'r', 'y']));
            assert(pagetable@ =~= ascii(seq!['p', 'a', 'g', 'e', 't', 'a', 'b', 'l', 'e']));
            assert(page_table@ =~= ascii(seq!['p', 'a', 'g', 'e', '_', 't', 'a', 'b', 'l', 'e']));
            assert(dma@ =~= ascii(seq!['d', 'm', 'a']));
            assert(slab@ =~= ascii(seq!['s', 'l', 'a', 'b']));
            assert(buddy@ =~= ascii(seq!['b', 'u', 'd', 'd', 'y']));
        }
        if bytes_are(b, &kernel) {
            AllocationTag::Kernel
        } else if bytes_are(b, &driver) {
            AllocationTag::Driver
        } else if bytes_are(b, &network) {
            AllocationTag::Network
        } else if bytes_are(b, &fs) || bytes_are(b, &filesystem) {
            AllocationTag::FileSystem
        } else if bytes_are(b, &process) {
            AllocationTag::Process
        } else if bytes_are(b, &vm) || bytes_are(b, &vmmemory) {
            AllocationTag::VMMemory
        } else if bytes_are(b, &pagetable) || bytes_are(b, &page_table) {
            AllocationTag::PageTable
        } else if bytes_are(b, &dma) {
            AllocationTag::DMA
        } else if bytes_are(b, &slab) {
            AllocationTag::Slab
        } else if bytes_are(b, &buddy) {
            AllocationTag::Buddy
        } else {
            AllocationTag::Unknown
        }
    }
}

/// Allocation metadata.
#[derive(Debug, Clone, Copy)]
pub struct AllocationInfo {
    /// Layout of the allocation.
    pub layout: Layout,
    /// Stand-in backtrace: the address, repeated.
    pub backtrace: [usize; 8],
    /// Generation when this allocation was made.
    pub generation: u64,
    /// Timestamp of the allocation: its generation.
    pub timestamp: u64,
    /// Allocation source tag.
    pub tag: AllocationTag,
}

/// Per-tag allocation statistics.
#[derive(Debug, Clone, Copy)]
pub struct AllocationStats {
    pub total_bytes_allocated: u64,
    pub total_bytes_deallocated: u64,
    pub current_bytes_in_use: u64,
    pub allocation_count: u64,
    pub deallocation_count: u64,
}

impl AllocationStats {
    /// All counters zero.
    pub fn new() -> (r: Self)
        ensures
            r == (AllocationStats {
                total_bytes_allocated: 0,
                total_bytes_deallocated: 0,
                current_bytes_in_use: 0,
                allocation_count: 0,
                deallocation_count: 0,
            }),
    {
        AllocationStats {
            total_bytes_allocated: 0,
            total_bytes_deallocated: 0,
            current_bytes_in_use: 0,
            allocation_count: 0,
            deallocation_count: 0,
        }
    }

    /// The counters can take one more allocation of `size` bytes.
    pub open spec fn can_record(&self, size: usize) -> bool {
        &&& self.total_bytes_allocated + size <= u64::MAX
        &&& self.current_bytes_in_use + size <= u64::MAX
        &&& self.allocation_count < u64::MAX
    }

    /// Count an allocation of `size` bytes.
    pub fn record_allocation(&mut self, size: usize)
        requires
            old(self).can_record(size),
        ensures
            *final(self) == (AllocationStats {
                total_bytes_allocated: (old(self).total_bytes_allocated + size) as u64,
                current_bytes_in_use: (old(self).current_bytes_in_use + size) as u64,
                allocation_count: (old(self).allocation_count + 1) as u64,
                ..*old(self)
            }),
    {
        self.total_bytes_allocated = self.total_bytes_allocated + size as u64;
        self.current_bytes_in_use = self.current_bytes_in_use + size as u64;
        self.allocation_count = self.allocation_count + 1;
    }

    /// Count a deallocation of `size` bytes; the bytes in use stop at zero.
    pub fn record_deallocation(&mut self, size: usize)
        requires
            old(self).total_bytes_deallocated + size <= u64::MAX,
            old(self).deallocation_count < u64::MAX,
        ensures
            *final(self) == (AllocationStats {
                total_bytes_deallocated: (old(self).total_bytes_deallocated + size) as u64,
                current_bytes_in_use: vstd::math::clip(old(self).current_bytes_in_use - size) as u64,
                deallocation_count: (old(self).deallocation_count + 1) as u64,
                ..*old(self)
            }),
    {
        self.total_bytes_deallocated = self.total_bytes_deallocated + size as u64;
        self.current_bytes_in_use = self.current_bytes_in_use.saturating_sub(size as u64);
        self.deallocation_count = self.deallocation_count + 1;
    }
}

/// Overall memory statistics.
#[derive(Debug, Clone, Copy)]
pub struct OverallStats {
    pub total_allocations: usize,
    pub total_deallocations: usize,
    pub current_allocations: usize,
    pub current_memory_usage: usize,
    pub peak_memory_usage: usize,
    pub generation: u64,
}

/// Allocation tracking state.
pub struct TrackingState {
    allocations: BTreeMap<usize, AllocationInfo>,
    generation: u64,
    next_generation: u64,
    tag_stats: [AllocationStats; 11],
    total_allocations: usize,
    total_deallocations: usize,
    peak_memory_usage: usize,
    current_memory_usage: usize,
}

impl TrackingState {
    /// The live allocations by address.
    pub closed spec fn view(&self) -> Map<usize, AllocationInfo> {
        self.allocations@
    }

    /// The statistics of the tag at position `k`.
    pub closed spec fn tag_stats(&self, k: int) -> AllocationStats {
        self.tag_stats[k]
    }

    /// The generation the next allocation gets.
    pub closed spec fn spec_next_generation(&self) -> u64 {
        self.next_generation
    }

    /// The counters, as `get_overall_stats` reports them.
    pub closed spec fn overall(&self) -> OverallStats {
        OverallStats {
            total_allocations: self.total_allocations,
            total_deallocations: self.total_deallocations,
            current_allocations: self.allocations@.len() as usize,
            current_memory_usage: self.current_memory_usage,
            peak_memory_usage: self.peak_memory_usage,
            generation: self.generation,
        }
    }

    /// No allocation recorded, every counter zero.
    pub fn new() -> (r: Self)
        ensures
            r@ == Map::<usize, AllocationInfo>::empty(),
            r.spec_next_generation() == 0,
            r.overall() == (OverallStats {
                total_allocations: 0,
                total_deallocations: 0,
                current_allocations: 0,
                current_memory_usage: 0,
                peak_memory_usage: 0,
                generation: 0,
            }),
            forall|k: int| 0 <= k < TAG_COUNT ==> #[trigger] r.tag_stats(k) == AllocationStats::new_spec(),
    {
        let z = AllocationStats::new();
        let r = TrackingState {
            allocations: BTreeMap::new(),
            generation: 0,
            next_generation: 0,
            tag_stats: [z, z, z, z, z, z, z, z, z, z, z],
            total_allocations: 0,
            total_deallocations: 0,
            peak_memory_usage: 0,
            current_memory_usage: 0,
        };
        proof {
            vstd::std_specs::btree::axiom_btree_map_view_finite_dom(r.allocations);
            assert(r.allocations@.len() == 0);
        }
        r
    }

    /// The counters can take an allocation of `size` bytes with `tag`.
    pub open spec fn can_track(&self, size: usize, tag: AllocationTag) -> bool {
        &&& self.overall().current_memory_usage + size <= usize::MAX
        &&& self.tag_stats(tag.spec_index() as int).can_record(size)
    }

    /// Record an allocation of `layout` at `addr` with `tag`; a record
    /// already at `addr` is replaced.
    pub fn track_allocation(&mut self, addr: usize, layout: Layout, tag: AllocationTag)
        requires
            old(self).can_track(layout.spec_size(), tag),
        ensures
            final(self)@.contains_key(addr),
            final(self)@.remove(addr) == old(self)@.remove(addr),
            ({
                let info = final(self)@[addr];
                &&& info.layout == layout
                &&& info.generation == old(self).spec_next_generation()
                &&& info.timestamp == old(self).spec_next_generation()
                &&& info.tag == tag
                &&& forall|k: int| 0 <= k < 8 ==> info.backtrace[k] == addr
            }),
            final(self).spec_next_generation() == old(self).spec_next_generation().wrapping_add(1),
            ({
                let o = old(self).overall();
                let n = final(self).overall();
                let usage = (o.current_memory_usage + layout.spec_size()) as usize;
                &&& n.current_memory_usage == usage
                &&& n.peak_memory_usage == vstd::math::max(o.peak_memory_usage as int, usage as int)
                &&& n.total_allocations == o.total_allocations.wrapping_add(1)
                &&& n.total_deallocations == o.total_deallocations
                &&& n.generation == o.generation
            }),
            forall|k: int| 0 <= k < TAG_COUNT && k != tag.spec_index() ==> #[trigger] final(self).tag_stats(k) == old(self).tag_stats(k),
            ({
                let s = old(self).tag_stats(tag.spec_index() as int);
                final(self).tag_stats(tag.spec_index() as int) == AllocationStats {
                    total_bytes_allocated: (s.total_bytes_allocated + layout.spec_size()) as u64,
                    current_bytes_in_use: (s.current_bytes_in_use + layout.spec_size()) as u64,
                    allocation_count: (s.allocation_count + 1) as u64,
                    ..s
                }
            }),
    {
        let generation = self.next_generation;
        self.next_generation = self.next_generation.wrapping_add(1);
        let info = AllocationInfo { layout, backtrace: [addr; 8], generation, timestamp: generation, tag };
        self.allocations.insert(addr, info);
        let k = tag.index();
        let mut s = self.tag_stats[k];
        s.record_allocation(layout.size());
        self.tag_stats[k] = s;
        let new_usage = self.current_memory_usage + layout.size();
        self.current_memory_usage = new_usage;
        if new_usage > self.peak_memory_usage {
            self.peak_memory_usage = new_usage;
        }
        self.total_allocations = self.total_allocations.wrapping_add(1);
        proof {
            vstd::std_specs::btree::axiom_btree_map_view_finite_dom(self.allocations);
        }
    }

    /// Remove the record at `addr` and return it; `None`, changing nothing,
    /// when there is none.
    pub fn track_deallocation(&mut self, addr: usize) -> (r: Option<AllocationInfo>)
        requires
            old(self)@.contains_key(addr) ==> {
                let s = old(self).tag_stats(old(self)@[addr].tag.spec_index() as int);
                &&& s.total_bytes_deallocated + old(self)@[addr].layout.spec_size() <= u64::MAX
                &&& s.deallocation_count < u64::MAX
            },
        ensures
            !old(self)@.contains_key(addr) ==> r is None && final(self)@ == old(self)@ && final(self).overall()
                == old(self).overall() && forall|k: int| #[trigger] final(self).tag_stats(k) == old(self).tag_stats(k),
            old(self)@.contains_key(addr) ==> {
                let info = old(self)@[addr];
                let o = old(self).overall();
                let n = final(self).overall();
                let s = old(self).tag_stats(info.tag.spec_index() as int);
                &&& r == Some(info)
                &&& final(self)@ == old(self)@.remove(addr)
                &&& n.current_memory_usage == o.current_memory_usage.wrapping_sub(info.layout.spec_size())
                &&& n.total_deallocations == o.total_deallocations.wrapping_add(1)
                &&& n.total_allocations == o.total_allocations
                &&& n.peak_memory_usage == o.peak_memory_usage
                &&& n.generation == o.generation
                &&& forall|k: int| 0 <= k < TAG_COUNT && k != info.tag.spec_index() ==> #[trigger] final(self).tag_stats(k)
                    == old(self).tag_stats(k)
                &&& final(self).tag_stats(info.tag.spec_index() as int) == AllocationStats {
                    total_bytes_deallocated: (s.total_bytes_deallocated + info.layout.spec_size()) as u64,
                    current_bytes_in_use: vstd::math::clip(s.current_bytes_in_use - info.layout.spec_size()) as u64,
                    deallocation_count: (s.deallocation_count + 1) as u64,
                    ..s
                }
            },
    {
        let info = match self.allocations.remove(&addr) {
            Some(i) => i,
            None => {
                return None;
            },
        };
        let k = info.tag.index();
        let mut s = self.tag_stats[k];
        s.record_deallocation(info.layout.size());
        self.tag_stats[k] = s;
        self.current_memory_usage = self.current_memory_usage.wrapping_sub(info.layout.size());
        self.total_deallocations = self.total_deallocations.wrapping_add(1);
        proof {
            vstd::std_specs::btree::axiom_btree_map_view_finite_dom(self.allocations);
            vstd::std_specs::btree::axiom_btree_map_view_finite_dom(old(self).allocations);
        }
        Some(info)
    }

    /// The live allocations, by ascending address.
    pub fn get_leaks(&self) -> (r: Vec<(usize, AllocationInfo)>)
        ensures
            r@.len() == self@.dom().len(),
            forall|i: int| 0 <= i < r@.len() ==> self@.contains_key(#[trigger] r@[i].0) && self@[r@[i].0] == r@[i].1,
            forall|a: usize| #[trigger] self@.contains_key(a) ==> exists|i: int| 0 <= i < r@.len() && r@[i].0 == a,
            forall|i: int, j: int| 0 <= i < j < r@.len() ==> #[trigger] r@[i].0 < #[trigger] r@[j].0,
    {
        let ghost v = self.allocations.iter().remaining();
        let mut out: Vec<(usize, AllocationInfo)> = Vec::new();
        for pair in it: self.allocations.iter()
            invariant
                it.seq() == v,
                out@.len() == it.index(),
                forall|i: int| 0 <= i < it.index() ==> #[trigger] out@[i] == (*v[i].0, *v[i].1),
        {
            out.push((*pair.0, *pair.1));
        }
        proof {
            let keys = v.map_values(|kv: (&usize, &AllocationInfo)| *kv.0);
            assert(vstd::std_specs::btree::increasing_seq(keys));
            assert forall|i: int, j: int| 0 <= i < j < out@.len() implies #[trigger] out@[i].0 < #[trigger] out@[j].0 by {
                assert(keys[i] == out@[i].0 && keys[j] == out@[j].0);
                lemma_key_order(keys[i], keys[j]);
            }
            assert forall|a: usize| #[trigger] self@.contains_key(a) implies exists|i: int| 0 <= i < out@.len() && out@[i].0 == a by {
                assert(v.contains((&a, &self@[a])));
                let i = choose|i: int| 0 <= i < v.len() && v[i] == (&a, &self@[a]);
                assert(out@[i].0 == a);
            }
        }
        out
    }

    /// The statistics of a tag.
    pub fn get_stats_by_tag(&self, tag: AllocationTag) -> (r: &AllocationStats)
        ensures
            *r == self.tag_stats(tag.spec_index() as int),
    {
        &self.tag_stats[tag.index()]
    }

    /// The overall counters.
    pub fn get_overall_stats(&self) -> (r: OverallStats)
        ensures
            r == self.overall(),
    {
        proof {
            vstd::std_specs::btree::axiom_btree_map_view_finite_dom(self.allocations);
        }
        OverallStats {
            total_allocations: self.total_allocations,
            total_deallocations: self.total_deallocations,
            current_allocations: self.allocations.len(),
            current_memory_usage: self.current_memory_usage,
            peak_memory_usage: self.peak_memory_usage,
            generation: self.generation,
        }
    }
}

/// Keys that compare as less are smaller.
proof fn lemma_key_order(a: usize, b: usize)
    requires
        a.cmp_spec(&b) is Less,
    ensures
        a < b,
{
}

impl AllocationStats {
    /// All counters zero.
    pub open spec fn new_spec() -> AllocationStats {
        AllocationStats {
            total_bytes_allocated: 0,
            total_bytes_deallocated: 0,
            current_bytes_in_use: 0,
            allocation_count: 0,
            deallocation_count: 0,
        }
    }
}

} // verus!
