//! Whether a collector and its packets can be worked with.

use crate::args::ADDRESS_SLACK;
use crate::object::MemorySlice;
use crate::object::ObjectKind;
use crate::object::Shape;
use crate::packets::ProcessIncs;
use crate::packets::Submission;
use crate::packets::Work;
use crate::plan::Lxr;
use crate::plan::Space;
use crate::state::HeapItem;
use crate::trace::RC_TRACE_MAX_ADDRS;
use vstd::prelude::*;

verus! {

/// Whether something of `size` bytes at `address` ends well inside the address
/// space.
fn ends_low(address: usize, size: usize) -> (low: bool)
    ensures
        low == (address + size + ADDRESS_SLACK <= usize::MAX),
{
    address <= usize::MAX - ADDRESS_SLACK && size <= usize::MAX - ADDRESS_SLACK - address
}

impl MemorySlice {
    /// Whether the slice lies in the address space.
    pub fn is_valid(&self) -> (valid: bool)
        ensures
            valid == self.wf(),
    {
        if self.start == 0 || self.slot_bytes == 0 {
            return false;
        }
        match self.len.checked_mul(self.slot_bytes) {
            Some(bytes) => bytes <= usize::MAX - self.start,
            None => false,
        }
    }
}

impl Shape {
    /// Whether an object with this shape can lie at `address`.
    pub fn is_valid_at(&self, address: usize) -> (valid: bool)
        ensures
            valid == self@.wf_at(address),
    {
        ends_low(address, self.size) && match self.kind {
            ObjectKind::ObjArray(slice) => slice.is_valid(),
            _ => true,
        }
    }
}

impl Space {
    /// Whether the space ends well below the end of the address space.
    pub fn is_valid(&self) -> (valid: bool)
        ensures
            valid == self@.wf(),
    {
        let mut i: usize = 0;
        while i < self.ranges.len()
            invariant
                i <= self.ranges.len(),
                forall|j: int|
                    0 <= j < i ==> (#[trigger] self.ranges@[j]).end <= usize::MAX - ADDRESS_SLACK,
            decreases self.ranges.len() - i,
        {
            if self.ranges[i].end > usize::MAX - ADDRESS_SLACK {
                assert(self@.ranges[i as int].end > usize::MAX - ADDRESS_SLACK);
                return false;
            }
            i += 1;
        }
        let mut k: usize = 0;
        while k < self.items.len()
            invariant
                k <= self.items.len(),
                forall|j: int|
                    0 <= j < k ==> ((#[trigger] self.items@[j]) matches HeapItem::Range(r)
                        ==> r.end <= usize::MAX - ADDRESS_SLACK),
            decreases self.items.len() - k,
        {
            match self.items[k] {
                HeapItem::Range(r) => {
                    if r.end > usize::MAX - ADDRESS_SLACK {
                        assert(self@.items[k as int] == HeapItem::Range(r));
                        return false;
                    }
                },
                HeapItem::Object(_) => {},
            }
            k += 1;
        }
        true
    }
}

/// Whether the slices lie in the address space.
fn slices_are_valid(slices: &Vec<MemorySlice>) -> (valid: bool)
    ensures
        valid == (forall|i: int| 0 <= i < slices@.len() ==> (#[trigger] slices@[i]).wf()),
{
    let mut i: usize = 0;
    while i < slices.len()
        invariant
            i <= slices.len(),
            forall|j: int| 0 <= j < i ==> (#[trigger] slices@[j]).wf(),
        decreases slices.len() - i,
    {
        if !slices[i].is_valid() {
            return false;
        }
        i += 1;
    }
    true
}

impl<const KIND: u8> ProcessIncs<KIND> {
    /// Whether the packet can be processed by the collector.
    pub fn is_ready(&self, lxr: &Lxr) -> (ready: bool)
        ensures
            ready == self@.wf(lxr@),
    {
        if !slices_are_valid(&self.inc_slices) {
            proof {
                let i = choose|i: int|
                    0 <= i < self.inc_slices@.len() && !(#[trigger] self.inc_slices@[i]).wf();
                assert(!self@.inc_slices[i].wf());
            }
            return false;
        }
        let mut i: usize = 0;
        while i < self.new_inc_slices.len()
            invariant
                i <= self.new_inc_slices@.len(),
                forall|j: int| 0 <= j < i ==> (#[trigger] self.new_inc_slices@[j]).wf(),
            decreases self.new_inc_slices@.len() - i,
        {
            if !self.new_inc_slices.get(i).is_valid() {
                assert(!self@.new_inc_slices[i as int].wf());
                return false;
            }
            i += 1;
        }
        (self.new_incs_count as usize) < lxr.args.buffer_size
    }
}

impl Submission {
    /// Whether the work can be processed by the collector.
    pub fn is_ready(&self, lxr: &Lxr) -> (ready: bool)
        ensures
            ready == self@.work.ready(lxr@.args),
    {
        match &self.work {
            Work::MatureIncs(packet) => packet.is_ready(lxr),
            Work::NurseryIncs(packet) => packet.is_ready(lxr),
            _ => true,
        }
    }
}

impl Lxr {
    /// Whether every object can lie where it was laid out.
    fn objects_are_valid(&self) -> (valid: bool)
        ensures
            valid == (forall|a: usize| #[trigger]
                self@.objects.contains_key(a) ==> self@.objects[a].wf_at(a)),
    {
        let keys: Vec<usize> = self.objects.keys();
        let mut i: usize = 0;
        while i < keys.len()
            invariant
                i <= keys.len(),
                forall|key: usize| #[trigger]
                    keys@.contains(key) == self.objects@.contains_key(key),
                forall|j: int|
                    0 <= j < i ==> self@.objects[#[trigger] keys@[j]].wf_at(keys@[j]),
            decreases keys.len() - i,
        {
            let address: usize = keys[i];
            assert(keys@.contains(address));
            match self.objects.get(address) {
                Some(shape) => {
                    if !shape.is_valid_at(address) {
                        assert(self@.objects.contains_key(address));
                        return false;
                    }
                },
                None => {},
            }
            i += 1;
        }
        proof {
            assert forall|a: usize| #[trigger]
                self@.objects.contains_key(a) implies self@.objects[a].wf_at(a) by {
                assert(keys@.contains(a));
                let j = choose|j: int| 0 <= j < keys@.len() && keys@[j] == a;
                assert(self@.objects[keys@[j]].wf_at(keys@[j]));
            }
        }
        true
    }

    /// Whether no count is above the largest count.
    fn counts_are_valid(&self) -> (valid: bool)
        ensures
            valid == (forall|a: usize| #[trigger]
                self@.counts.contains_key(a) ==> self@.counts[a] <= self@.args.max_ref_count),
    {
        let keys: Vec<usize> = self.counts.keys();
        let mut i: usize = 0;
        while i < keys.len()
            invariant
                i <= keys.len(),
                forall|key: usize| #[trigger]
                    keys@.contains(key) == self.counts@.contains_key(key),
                forall|j: int|
                    0 <= j < i ==> self@.counts[#[trigger] keys@[j]] <= self@.args.max_ref_count,
            decreases keys.len() - i,
        {
            let address: usize = keys[i];
            assert(keys@.contains(address));
            if self.counts.get_or(address, 0) > self.args.max_ref_count {
                assert(self@.counts.contains_key(address));
                return false;
            }
            i += 1;
        }
        proof {
            assert forall|a: usize| #[trigger]
                self@.counts.contains_key(a) implies self@.counts[a]
                <= self@.args.max_ref_count by {
                assert(keys@.contains(a));
                let j = choose|j: int| 0 <= j < keys@.len() && keys@[j] == a;
                assert(self@.counts[keys@[j]] <= self@.args.max_ref_count);
            }
        }
        true
    }

    /// Whether every place that the copy allocator will answer has room for a copy.
    fn copies_are_valid(&self) -> (valid: bool)
        ensures
            valid == (forall|i: int|
                0 <= i < self@.copies.len() ==> ((#[trigger] self@.copies[i]) matches Some(o)
                    ==> 0 < o.address && o.address + self@.args.max_young_evac_size
                    + ADDRESS_SLACK <= usize::MAX)),
    {
        let mut i: usize = 0;
        while i < self.copies.len()
            invariant
                i <= self.copies.len(),
                forall|j: int|
                    0 <= j < i ==> ((#[trigger] self@.copies[j]) matches Some(o) ==> 0 < o.address
                        && o.address + self@.args.max_young_evac_size + ADDRESS_SLACK
                        <= usize::MAX),
            decreases self.copies.len() - i,
        {
            match self.copies[i] {
                Some(o) => {
                    if o.address == 0 || !ends_low(o.address, self.args.max_young_evac_size) {
                        assert(self@.copies[i as int] == Some(o));
                        return false;
                    }
                },
                None => {},
            }
            i += 1;
        }
        true
    }

    /// Whether the submitted work can be processed.
    fn work_is_valid(&self) -> (valid: bool)
        ensures
            valid == (forall|i: int|
                0 <= i < self@.work.len() ==> (#[trigger] self@.work[i]).work.ready(self@.args)),
    {
        let mut i: usize = 0;
        while i < self.work.len()
            invariant
                i <= self.work.len(),
                forall|j: int| 0 <= j < i ==> (#[trigger] self@.work[j]).work.ready(self@.args),
            decreases self.work.len() - i,
        {
            if !self.work[i].is_ready(self) {
                assert(!self@.work[i as int].work.ready(self@.args));
                return false;
            }
            i += 1;
        }
        true
    }

    /// Whether the collector can be worked with. Its tables are read from end to end.
    pub fn is_valid(&self) -> (valid: bool)
        ensures
            valid == self@.wf(),
    {
        proof {
            self.objects.finite();
            assert(self@.objects.dom() =~= self.objects@.dom());
        }
        self.args.is_valid() && self.immix.is_valid() && self.los.is_valid()
            && self.immortal.is_valid() && self.other.is_valid() && self.objects_are_valid()
            && self.counts_are_valid() && self.copies_are_valid() && self.work_is_valid()
            && self.diag.addresses.len() <= RC_TRACE_MAX_ADDRS
    }
}

} // verus!
