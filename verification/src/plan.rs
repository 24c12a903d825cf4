//! The collector: its tables, its spaces, and the operations on them that
//! reference counting is built from.

use crate::args::Args;
use crate::object::Field;
use crate::object::ObjectKind;
use crate::object::ObjectReference;
use crate::object::Shape;
use crate::object::ShapeView;
use crate::object::Slot;
use crate::packets::Submission;
use crate::packets::Work;
use crate::state::AddressRange;
use crate::state::Destination;
use crate::state::Effect;
use crate::state::Event;
use crate::state::Forwarding;
use crate::state::HeapItem;
use crate::state::Phase;
use crate::state::SpaceView;
use crate::state::State;
use crate::state::SubmissionView;
use crate::state::LOGGED_VALUE;
use crate::state::UNLOGGED_VALUE;
use crate::table::AddressSet;
use crate::table::AddressTable;
use crate::trace::Diagnostics;
use vstd::prelude::*;

verus! {

/// A space: the addresses it covers, and what an enumeration of it visits.
pub struct Space {
    pub ranges: Vec<AddressRange>,
    pub items: Vec<HeapItem>,
}

impl View for Space {
    type V = SpaceView;

    open spec fn view(&self) -> SpaceView {
        SpaceView { ranges: self.ranges@, items: self.items@ }
    }
}

impl Space {
    /// The space without addresses.
    pub fn new() -> (space: Self)
        ensures
            space@ == (SpaceView { ranges: Seq::empty(), items: Seq::empty() }),
    {
        Space { ranges: Vec::new(), items: Vec::new() }
    }

    /// Whether `address` lies in the space.
    pub fn address_in_space(&self, address: usize) -> (inside: bool)
        ensures
            inside == self@.has(address),
    {
        let mut i: usize = 0;
        while i < self.ranges.len()
            invariant
                i <= self.ranges.len(),
                forall|j: int|
                    0 <= j < i ==> !((#[trigger] self.ranges@[j]).start <= address
                        < self.ranges@[j].end),
            decreases self.ranges.len() - i,
        {
            if self.ranges[i].start <= address && address < self.ranges[i].end {
                assert(self@.ranges[i as int].start <= address);
                return true;
            }
            i += 1;
        }
        false
    }

    /// Whether the object lies in the space.
    pub fn in_space(&self, o: ObjectReference) -> (inside: bool)
        ensures
            inside == self@.has(o.address),
    {
        self.address_in_space(o.address)
    }
}

/// The collector.
pub struct Lxr {
    pub args: Args,
    pub phase: Phase,
    /// Memory: the words at the mapped addresses.
    pub words: AddressTable<usize>,
    /// The metadata bytes that hold the unlog bits.
    pub unlog: AddressTable<u8>,
    /// The objects that were laid out.
    pub objects: AddressTable<Shape>,
    /// Reference counts.
    pub counts: AddressTable<u8>,
    /// The marked objects.
    pub marks: AddressSet,
    /// Which objects moved.
    pub forwarding: AddressTable<Forwarding>,
    /// What the copy allocator will answer, the next answer last.
    pub copies: Vec<Option<ObjectReference>>,
    pub immix: Space,
    pub los: Space,
    pub immortal: Space,
    pub other: Space,
    /// The blocks of the nursery.
    pub nursery: AddressSet,
    /// The blocks that are being emptied.
    pub defrag: AddressSet,
    /// Whether nursery evacuation has stopped.
    pub no_evac: bool,
    /// What was asked of the spaces.
    pub effects: Vec<Effect>,
    /// What was handed to the scheduler.
    pub work: Vec<Submission>,
    /// The roots whose decrements come in the next pause.
    pub curr_roots: Vec<Vec<ObjectReference>>,
    /// The root slots kept for a sanity collection.
    pub sanity_roots: Vec<Vec<Slot>>,
    /// How many increments the barrier has handed over.
    pub inc_buffer_size: usize,
    /// The sizes of the nursery objects that were copied.
    pub survival: Vec<usize>,
    pub diag: Diagnostics,
}

/// The values of the shapes in a table.
pub open spec fn shapes(objects: Map<usize, Shape>) -> Map<usize, ShapeView> {
    objects.map_values(|s: Shape| s@)
}

/// The values of submitted work.
pub open spec fn submissions(work: Seq<Submission>) -> Seq<SubmissionView> {
    work.map_values(|s: Submission| s@)
}

impl View for Lxr {
    type V = State;

    open spec fn view(&self) -> State {
        State {
            args: self.args,
            phase: self.phase,
            words: self.words@,
            unlog: self.unlog@,
            objects: shapes(self.objects@),
            counts: self.counts@,
            marks: self.marks@,
            forwarding: self.forwarding@,
            copies: self.copies@,
            immix: self.immix@,
            los: self.los@,
            immortal: self.immortal@,
            other: self.other@,
            nursery: self.nursery@,
            defrag: self.defrag@,
            no_evac: self.no_evac,
            effects: self.effects@,
            work: submissions(self.work@),
            curr_roots: self.curr_roots@.map_values(|r: Vec<ObjectReference>| r@),
            sanity_roots: self.sanity_roots@.map_values(|r: Vec<Slot>| r@),
            inc_buffer_size: self.inc_buffer_size,
            survival: self.survival@,
            diag: self.diag@,
        }
    }
}

/// The state of a collector with empty tables and spaces.
pub open spec fn fresh_state(args: Args, phase: Phase) -> State {
    let nowhere = SpaceView { ranges: Seq::empty(), items: Seq::empty() };
    State {
        args,
        phase,
        words: Map::empty(),
        unlog: Map::empty(),
        objects: Map::empty(),
        counts: Map::empty(),
        marks: Set::empty(),
        forwarding: Map::empty(),
        copies: Seq::empty(),
        immix: nowhere,
        los: nowhere,
        immortal: nowhere,
        other: nowhere,
        nursery: Set::empty(),
        defrag: Set::empty(),
        no_evac: false,
        effects: Seq::empty(),
        work: Seq::empty(),
        curr_roots: Seq::empty(),
        sanity_roots: Seq::empty(),
        inc_buffer_size: 0,
        survival: Seq::empty(),
        diag: crate::trace::no_diagnostics(),
    }
}

impl Lxr {
    /// A collector with empty tables and spaces.
    pub fn new(args: Args, phase: Phase) -> (lxr: Self)
        ensures
            lxr@ == fresh_state(args, phase),
            args.wf() ==> lxr@.wf(),
    {
        let lxr = Lxr {
            args,
            phase,
            words: AddressTable::new(),
            unlog: AddressTable::new(),
            objects: AddressTable::new(),
            counts: AddressTable::new(),
            marks: AddressSet::new(),
            forwarding: AddressTable::new(),
            copies: Vec::new(),
            immix: Space::new(),
            los: Space::new(),
            immortal: Space::new(),
            other: Space::new(),
            nursery: AddressSet::new(),
            defrag: AddressSet::new(),
            no_evac: false,
            effects: Vec::new(),
            work: Vec::new(),
            curr_roots: Vec::new(),
            sanity_roots: Vec::new(),
            inc_buffer_size: 0,
            survival: Vec::new(),
            diag: Diagnostics::new(),
        };
        proof {
            assert(lxr@.objects =~= Map::<usize, ShapeView>::empty());
            assert(lxr@.work =~= Seq::<SubmissionView>::empty());
            assert(lxr@.curr_roots =~= Seq::<Seq<ObjectReference>>::empty());
            assert(lxr@.sanity_roots =~= Seq::<Seq<Slot>>::empty());
        }
        lxr
    }

    // Memory.

    /// Whether `address` is mapped.
    pub fn is_mapped(&self, address: usize) -> (mapped: bool)
        ensures
            mapped == self@.mapped(address),
    {
        self.words.contains(address)
    }

    /// The word at `address`.
    pub fn load_word(&self, address: usize) -> (word: usize)
        ensures
            word == self@.word(address),
    {
        self.words.get_or(address, 0)
    }

    /// Writes a word.
    pub fn store_word(&mut self, address: usize, value: usize)
        ensures
            final(self)@ == old(self)@.with_word(address, value),
            old(self)@.wf() ==> final(self)@.wf(),
    {
        self.words.set(address, value);
    }

    /// The word before an object, or `default` where it is not mapped.
    pub fn tag_word(&self, address: usize, default: usize) -> (tag: usize)
        ensures
            tag == self@.tag_word(address, default),
    {
        if address >= 8 && self.is_mapped(address - 8) {
            self.load_word(address - 8)
        } else {
            default
        }
    }

    /// The reference in `slot`.
    pub fn load(&self, slot: Slot) -> (target: Option<ObjectReference>)
        ensures
            target == self@.load(slot),
    {
        let word: usize = self.load_word(slot.address);
        if word == 0 {
            None
        } else {
            Some(ObjectReference { address: word })
        }
    }

    // Unlog bits.

    /// The metadata byte at `meta`.
    pub fn load_unlog_byte(&self, meta: usize) -> (byte: u8)
        ensures
            byte == self@.unlog_byte(meta),
    {
        self.unlog.get_or(meta, 0)
    }

    /// The unlog bit of `address`.
    pub fn load_unlog_bit(&self, address: usize) -> (bit: u8)
        requires
            self@.args.wf(),
        ensures
            bit == self@.logging_state(address),
            bit == LOGGED_VALUE || bit == UNLOGGED_VALUE,
    {
        let byte: u8 = self.load_unlog_byte(self.args.address_to_meta_address(address));
        let bit: u8 = self.args.bit_of(address);
        let value: u8 = (byte >> bit) & 1;
        assert((byte >> bit) & 1 == 0 || (byte >> bit) & 1 == 1) by (bit_vector);
        value
    }

    /// Sets the unlog bit of `address` to `new` where it is `expected`.
    /// Returns the bit that was there: `Ok` where it was replaced.
    pub fn compare_exchange_unlog_bit(&mut self, address: usize, expected: u8, new: u8) -> (result:
        Result<u8, u8>)
        requires
            old(self)@.args.wf(),
        ensures
            result == (if old(self)@.logging_state(address) == expected {
                Ok::<u8, u8>(expected)
            } else {
                Err::<u8, u8>(old(self)@.logging_state(address))
            }),
            final(self)@ == (if old(self)@.logging_state(address) == expected {
                old(self)@.with_logging_state(address, new)
            } else {
                old(self)@
            }),
            old(self)@.wf() ==> final(self)@.wf(),
    {
        let current: u8 = self.load_unlog_bit(address);
        if current == expected {
            self.store_unlog_bit(address, new);
            Ok(current)
        } else {
            Err(current)
        }
    }

    /// Sets the unlog bit of `address`.
    pub fn store_unlog_bit(&mut self, address: usize, bit: u8)
        requires
            old(self)@.args.wf(),
        ensures
            final(self)@ == old(self)@.with_logging_state(address, bit),
            old(self)@.wf() ==> final(self)@.wf(),
    {
        let meta: usize = self.args.address_to_meta_address(address);
        let byte: u8 = self.load_unlog_byte(meta);
        let index: u8 = self.args.bit_of(address);
        let mask: u8 = 1u8 << index;
        let updated: u8 = if bit == LOGGED_VALUE {
            byte & !mask
        } else {
            byte | mask
        };
        self.unlog.set(meta, updated);
    }

    /// Sets all unlog bits in the metadata bytes from `lo` up to `hi`.
    pub fn fill_unlog_bytes(&mut self, lo: usize, hi: usize)
        ensures
            final(self)@ == old(self)@.with_unlogged(lo as int, hi as int),
            old(self)@.wf() ==> final(self)@.wf(),
    {
        let mut meta: usize = lo;
        proof {
            assert(self@.unlog =~= old(self)@.with_unlogged(lo as int, lo as int).unlog);
        }
        while meta < hi
            invariant
                lo <= meta,
                meta <= hi || meta == lo,
                self@ == old(self)@.with_unlogged(lo as int, meta as int),
            decreases hi - meta,
        {
            self.unlog.set(meta, 0xffu8);
            meta += 1;
            proof {
                assert(self@.unlog =~= old(self)@.with_unlogged(lo as int, meta as int).unlog);
            }
        }
        proof {
            assert(self@.unlog =~= old(self)@.with_unlogged(lo as int, hi as int).unlog);
        }
    }

    // Objects.

    /// The size of an object.
    pub fn get_size(&self, o: ObjectReference) -> (size: usize)
        ensures
            size == self@.shape(o.address).size,
    {
        match self.objects.get(o.address) {
            Some(shape) => shape.size,
            None => 0,
        }
    }

    /// The kind of an object.
    pub fn get_kind(&self, o: ObjectReference) -> (kind: ObjectKind)
        ensures
            kind == self@.shape(o.address).kind,
    {
        match self.objects.get(o.address) {
            Some(shape) => shape.kind,
            None => ObjectKind::Plain,
        }
    }

    /// The slots that a scan of the object visits.
    pub fn get_fields(&self, o: ObjectReference) -> (fields: Vec<Field>)
        ensures
            fields@ == self@.shape(o.address).fields,
    {
        match self.objects.get(o.address) {
            Some(shape) => copy_fields(&shape.fields),
            None => Vec::new(),
        }
    }

    /// Whether the tag of the object denotes a type.
    pub fn debug_object_tag_is_valid(&self, o: ObjectReference) -> (valid: bool)
        ensures
            valid == self@.tag_is_valid(o),
    {
        match self.objects.get(o.address) {
            Some(shape) => shape.tag_valid,
            None => false,
        }
    }

    // Spaces and blocks.

    /// Whether the object lies in any space of the collector.
    pub fn is_managed(&self, o: ObjectReference) -> (managed: bool)
        ensures
            managed == self@.is_managed(o),
    {
        self.immix.in_space(o) || self.los.in_space(o) || self.immortal.in_space(o)
            || self.other.in_space(o)
    }

    /// Whether the block is a block of the nursery.
    pub fn is_nursery_block(&self, block: usize) -> (nursery: bool)
        ensures
            nursery == self@.nursery.contains(block),
    {
        self.nursery.contains(block)
    }

    /// Whether the address lies in a block that is being emptied.
    pub fn in_defrag_block(&self, address: usize) -> (defrag: bool)
        requires
            self@.args.wf(),
        ensures
            defrag == self@.in_defrag_block(address),
    {
        self.defrag.contains(self.args.block_containing(address))
    }

    /// Whether the address lies in an Immix block that is being emptied.
    pub fn address_in_defrag(&self, address: usize) -> (defrag: bool)
        requires
            self@.args.wf(),
        ensures
            defrag == self@.in_defrag(address),
    {
        self.immix.address_in_space(address) && self.in_defrag_block(address)
    }

    /// Whether the object lies in an Immix block that is being emptied.
    pub fn in_defrag(&self, o: ObjectReference) -> (defrag: bool)
        requires
            self@.args.wf(),
        ensures
            defrag == self@.in_defrag(o.address),
    {
        self.address_in_defrag(o.address)
    }

    // Counts.

    /// The reference count of an object.
    pub fn count(&self, o: ObjectReference) -> (count: u8)
        ensures
            count == self@.count(o),
            self@.wf() ==> count <= self@.args.max_ref_count,
    {
        assert(self@.counts.contains_key(o.address) == self.counts@.contains_key(o.address));
        self.counts.get_or(o.address, 0)
    }

    /// Replaces the count of an object.
    pub fn set_count(&mut self, o: ObjectReference, count: u8)
        ensures
            final(self)@ == old(self)@.with_count(o, count),
            old(self)@.wf() && count <= old(self)@.args.max_ref_count ==> final(self)@.wf(),
    {
        self.counts.set(o.address, count);
    }

    /// Raises the count of an object by one unless it is stuck. Returns the
    /// count that was there: `Ok` where it was raised.
    pub fn inc(&mut self, o: ObjectReference) -> (result: Result<u8, u8>)
        requires
            old(self)@.wf(),
        ensures
            result == (if old(self)@.count(o) == old(self)@.args.max_ref_count {
                Err::<u8, u8>(old(self)@.count(o))
            } else {
                Ok::<u8, u8>(old(self)@.count(o))
            }),
            final(self)@ == old(self)@.incremented(o),
            final(self)@.wf(),
    {
        let count: u8 = self.count(o);
        if count == self.args.max_ref_count {
            Err(count)
        } else {
            self.set_count(o, count + 1);
            Ok(count)
        }
    }

    /// Makes the count of an object stick. Returns the count that was there:
    /// `Ok` where it was replaced.
    pub fn stick(&mut self, o: ObjectReference) -> (result: Result<u8, u8>)
        ensures
            result == (if old(self)@.count(o) == old(self)@.args.max_ref_count {
                Err::<u8, u8>(old(self)@.count(o))
            } else {
                Ok::<u8, u8>(old(self)@.count(o))
            }),
            final(self)@ == old(self)@.with_stuck(o),
            old(self)@.wf() ==> final(self)@.wf(),
    {
        let count: u8 = self.count(o);
        if count == self.args.max_ref_count {
            Err(count)
        } else {
            let max: u8 = self.args.max_ref_count;
            self.set_count(o, max);
            Ok(count)
        }
    }

    /// Whether the object's count does not change any more.
    pub fn is_dead_or_stuck(&self, o: ObjectReference) -> (fixed: bool)
        ensures
            fixed == self@.dead_or_stuck(o),
    {
        let count: u8 = self.count(o);
        count == 0 || count == self.args.max_ref_count
    }

    // Marks and forwarding.

    /// Whether the object is marked.
    pub fn is_marked(&self, o: ObjectReference) -> (marked: bool)
        ensures
            marked == self@.is_marked(o),
    {
        self.marks.contains(o.address)
    }

    /// Marks an object.
    pub fn mark(&mut self, o: ObjectReference)
        ensures
            final(self)@ == old(self)@.with_mark(o),
            old(self)@.wf() ==> final(self)@.wf(),
    {
        self.marks.insert(o.address);
    }

    /// Whether, and where to, the object moved.
    pub fn forwarding_of(&self, o: ObjectReference) -> (forwarding: Forwarding)
        ensures
            forwarding == self@.forwarding_of(o),
    {
        self.forwarding.get_or(o.address, Forwarding::Untouched)
    }

    /// Replaces what is known of the object's move.
    pub fn set_forwarding(&mut self, o: ObjectReference, forwarding: Forwarding)
        ensures
            final(self)@ == old(self)@.with_forwarding(o, forwarding),
            old(self)@.wf() ==> final(self)@.wf(),
    {
        self.forwarding.set(o.address, forwarding);
    }

    // What leaves the collector.

    /// Asks something of the spaces.
    pub fn request(&mut self, effect: Effect)
        ensures
            final(self)@ == old(self)@.with_effect(effect),
            old(self)@.wf() ==> final(self)@.wf(),
    {
        self.effects.push(effect);
    }

    /// Hands work to the scheduler.
    pub fn submit(&mut self, to: Destination, work: Work)
        ensures
            final(self)@ == old(self)@.with_work(to, work@),
            old(self)@.wf() && work@.ready(old(self)@.args) ==> final(self)@.wf(),
    {
        self.work.push(Submission { to, work });
        proof {
            assert(self@.work =~= old(self)@.with_work(to, work@).work);
        }
    }

    // Diagnostics.

    /// Adds a line to the diagnostic log.
    pub fn log(&mut self, event: Event)
        ensures
            final(self)@ == old(self)@.with_event(event),
            old(self)@.wf() ==> final(self)@.wf(),
    {
        self.diag.log.push(event);
    }
}

/// Whether an object has a reference count. Only objects of the Immix space and
/// large objects do; all others are skipped by reference counting.
pub fn has_rc_metadata(lxr: &Lxr, o: ObjectReference) -> (counted: bool)
    ensures
        counted == lxr@.has_rc(o),
{
    lxr.immix.in_space(o) || lxr.los.in_space(o)
}

/// A copy of a list of fields.
fn copy_fields(fields: &Vec<Field>) -> (copy: Vec<Field>)
    ensures
        copy@ == fields@,
{
    let mut copy: Vec<Field> = Vec::new();
    let mut i: usize = 0;
    while i < fields.len()
        invariant
            i <= fields.len(),
            copy@ == fields@.take(i as int),
        decreases fields.len() - i,
    {
        copy.push(fields[i]);
        i += 1;
        proof {
            assert(fields@.take(i as int) =~= fields@.take(i - 1).push(fields@[i - 1]));
        }
    }
    proof {
        assert(fields@.take(i as int) =~= fields@);
    }
    copy
}

} // verus!
