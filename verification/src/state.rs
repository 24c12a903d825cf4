//! The collector's state as a mathematical value, and the plain values that
//! the state is made of.
//!
//! [`State`] is the view of [`crate::plan::Lxr`]. The functions that change the
//! collector say what they do as a function from one `State` to the next.

use crate::args::Args;
use crate::object::no_shape;
use crate::object::MemorySlice;
use crate::object::ObjectReference;
use crate::object::ShapeView;
use crate::object::Slot;
use crate::parse::NumberError;
use crate::stats::Stats;
use crate::table::lookup;
use vstd::prelude::*;

verus! {

/// The unlog bit of a slot whose next write needs no barrier.
pub const LOGGED_VALUE: u8 = 0;

/// The unlog bit of a slot whose next write has to be recorded.
pub const UNLOGGED_VALUE: u8 = 1;

/// The kind of a pause.
#[derive(Clone, Copy, Debug, PartialEq, Eq, Structural)]
pub enum Pause {
    /// A full collection.
    Full,
    /// Reference counting alone.
    RefCount,
    /// The pause that starts concurrent marking.
    InitialMark,
    /// The pause that ends concurrent marking.
    FinalMark,
}

/// What a set of roots asks of the collector.
#[derive(Clone, Copy, Debug, PartialEq, Eq, Structural)]
pub struct RootKind {
    /// The roots do not keep their objects alive.
    pub weak: bool,
    /// References from the roots into fragmented blocks are remembered.
    pub record_remset: bool,
    /// The roots are neither traced nor decremented.
    pub skip_mark_and_decs: bool,
    /// The roots are not decremented in the next pause.
    pub skip_decs: bool,
}

/// The stages at which the scheduler runs work.
#[derive(Clone, Copy, Debug, PartialEq, Eq, Structural)]
pub enum WorkBucketStage {
    Unconstrained,
    RCProcessIncs,
    STWRCDecsAndSweep,
    FinishConcurrentWork,
    Closure,
}

/// How work is handed to the scheduler.
#[derive(Clone, Copy, Debug, PartialEq, Eq, Structural)]
pub enum Destination {
    /// Into the bucket of a stage.
    Bucket(WorkBucketStage),
    /// Through the running worker.
    Worker(WorkBucketStage),
    /// Through the running worker, ahead of other work.
    WorkerPrioritized(WorkBucketStage),
    /// After the pause.
    Postponed,
    /// After the pause, ahead of other work.
    PostponedPrioritized,
}

/// Counts the lazy jobs of one collection. A packet holds one while it exists.
#[derive(Clone, Copy, Debug, PartialEq, Eq, Structural)]
pub struct LazySweepingJobsCounter {
    /// The collection whose jobs it counts.
    pub cycle: usize,
    /// Whether the packet counts as decrements that are still to come.
    pub decs: bool,
}

impl LazySweepingJobsCounter {
    /// A counter of the same collection for a packet of decrements.
    pub open spec fn with_decs(self) -> LazySweepingJobsCounter {
        LazySweepingJobsCounter { cycle: self.cycle, decs: true }
    }

    /// A counter of the same collection for a packet of decrements.
    pub fn clone_with_decs(&self) -> (counter: LazySweepingJobsCounter)
        ensures
            counter == self.with_decs(),
    {
        LazySweepingJobsCounter { cycle: self.cycle, decs: true }
    }
}

/// Whether, and where to, an object moved.
#[derive(Clone, Copy, Debug, PartialEq, Eq, Structural)]
pub enum Forwarding {
    /// Nobody has claimed the object.
    Untouched,
    /// A worker has claimed the object. What it will publish is the copy, or
    /// nothing where it leaves the object in place.
    BeingForwarded(Option<ObjectReference>),
    /// The object moved.
    Forwarded(ObjectReference),
}

/// What is asked of the spaces, beyond the tables that the collector keeps.
#[derive(Clone, Copy, Debug, PartialEq, Eq, Structural)]
pub enum Effect {
    /// An object of a nursery block survived in place.
    InPlacePromoted { block: usize },
    /// An object became mature: mark the lines that it straddles.
    PromoteWithSize { object: ObjectReference, size: usize },
    /// Remember that `slot` refers to an object in a fragmented block.
    RemsetRecord { slot: Slot, object: ObjectReference },
    /// A mature object died: unmark the lines that it straddled.
    UnmarkStraddle { object: ObjectReference },
    /// A block may hold nothing but dead objects.
    PossiblyDeadBlock { block: usize },
    /// A large object is free.
    RcFree { object: ObjectReference },
}

/// The addresses from `start` up to but not including `end`.
#[derive(Clone, Copy, Debug, PartialEq, Eq, Structural)]
pub struct AddressRange {
    pub start: usize,
    pub end: usize,
}

/// What an enumeration of a space visits.
#[derive(Clone, Copy, Debug, PartialEq, Eq, Structural)]
pub enum HeapItem {
    Object(ObjectReference),
    Range(AddressRange),
}

/// The name of a space, for reports.
#[derive(Clone, Copy, Debug, PartialEq, Eq, Structural)]
pub enum SpaceName {
    Immix,
    Los,
    Immortal,
    Other,
}

/// Where the collector is in its cycle, and what the plan reports of itself.
#[derive(Clone, Copy, Debug, PartialEq, Eq, Structural)]
pub struct Phase {
    /// The pause that is going on.
    pub current_pause: Option<Pause>,
    /// The pause before that.
    pub previous_pause: Option<Pause>,
    /// Whether concurrent marking is configured.
    pub cm_enabled: bool,
    /// Whether concurrent marking is going on.
    pub cm_in_progress: bool,
    /// Whether a sanity collection is going on.
    pub in_sanity: bool,
    /// The pages in use.
    pub used_pages: usize,
    /// The pages kept back for the collection.
    pub collection_reserved_pages: usize,
    /// The pages of the heap.
    pub total_pages: usize,
    /// The collection that new lazy jobs count for.
    pub lazy_jobs_cycle: usize,
}

/// A line of the diagnostic log.
#[derive(Clone, Copy, Debug, PartialEq, Eq, Structural)]
pub enum Event {
    /// An address joined the trace set.
    TracingAddress { address: usize, index: usize },
    /// The trace set is full; an address was ignored.
    TraceSetFull { address: usize },
    /// A part of the address list did not parse.
    BadAddress { part: usize, error: NumberError },
    /// Objects with this tag are traced.
    TracingTag { tag: usize },
    /// The tag did not parse.
    BadTag { error: NumberError },
    /// The undercount detector was switched on.
    UndercountEnabled { budget: usize, from_gc: usize },
    /// A traced slot is processed.
    ProcessSlot { gc: usize, slot: usize, kind: u8, loaded: usize, reported_rc: i16, depth: u32 },
    /// A slot with a traced object is processed.
    IncSlot { gc: usize, object: usize, slot: usize, kind: u8, rc_before: i16, depth: u32 },
    /// A slot refers to an object whose tag denotes no type.
    CorruptInc {
        gc: usize,
        number: usize,
        object: usize,
        tag: usize,
        reported_rc: i16,
        from_slot: Slot,
        kind: u8,
        depth: u32,
    },
    /// A promoted object refers to an object whose tag denotes no type.
    CorruptChild { gc: usize, number: usize, child: usize, tag: usize, slot: usize, parent: usize },
    /// An object became mature.
    Promote { gc: usize, object: usize, copied: bool, los: bool, depth: u32 },
    /// A child of a promoted object has no reference count.
    IncPromoSkip { gc: usize, object: usize, parent: usize, slot: usize },
    /// A child of a promoted object was queued.
    IncPromo { gc: usize, object: usize, parent: usize, slot: usize },
    /// A mature child of a promoted object was incremented.
    IncPromoDirect { gc: usize, object: usize, parent: usize, slot: usize, rc: u8 },
    /// A count went up by one from `old`.
    Inc { gc: usize, object: usize, old: u8 },
    /// A count is stuck and did not go up.
    IncStuck { gc: usize, object: usize, old: u8 },
    /// An object is being freed.
    Death { gc: usize, object: usize, tag: usize, size: usize },
    /// A child of a dying object is to be decremented.
    RecDec { gc: usize, object: usize, parent: usize, slot: usize, rc: u8 },
    /// A decrement was dropped: the object has no reference count.
    DecSkipSpace { gc: usize, object: usize },
    /// A decrement was dropped.
    DecSkip { gc: usize, object: usize, rc: u8, dead_or_stuck: bool, unmarked: bool },
    /// A count went down by one from `old`.
    Dec { gc: usize, object: usize, old: u8, dead: bool },
    /// A count is zero or stuck and did not go down.
    DecStuck { gc: usize, object: usize, old: u8, dead: bool },
    /// A word of the heap refers to a target.
    ReferrerWord {
        at: usize,
        space: SpaceName,
        owner_live: bool,
        field_logged: bool,
        target: usize,
    },
    /// An object that may own the last reported word.
    OwnerCandidate {
        owner: usize,
        field_offset: usize,
        reported_rc: i16,
        space: SpaceName,
        marked: bool,
    },
    /// A word before the last reported one.
    DumpWord { at: usize, value: usize },
    /// A scan for referrers ended.
    ReferrerScanDone { gc: usize, target: usize, words: usize, matches: usize },
    /// An object was freed although a live slot refers to it.
    Undercount {
        gc: usize,
        number: usize,
        freed: usize,
        tag: usize,
        size: usize,
        live_referrers: usize,
        marked: bool,
    },
    /// An object died.
    RcDeath { number: usize, gc: usize, object: usize, tag: usize, size: usize, space: SpaceName },
    /// The words of a dead object that has the size of a binding partition.
    RcDeathFields {
        restriction: usize,
        restriction_rc: i16,
        partition_kind: usize,
        min_world: usize,
        max_world: usize,
        next: usize,
        next_rc: i16,
    },
    /// Nursery evacuation stops: the heap is too full, or the pause too long.
    EvacuationStopped { over_space: bool, over_time: bool },
    /// The copy allocator has no room.
    ToSpaceOverflow,
    /// Further deaths are not logged.
    RcDeathSuppressed { gc: usize },
}

/// The value of a packet of increments.
pub struct IncsState {
    pub incs: Seq<Slot>,
    pub inc_slices: Seq<MemorySlice>,
    pub new_incs: Seq<Slot>,
    pub new_inc_slices: Seq<MemorySlice>,
    pub new_incs_count: u32,
    pub pause: Pause,
    pub in_cm: bool,
    pub no_evac: bool,
    pub root_kind: Option<RootKind>,
    pub depth: u32,
    pub copied_sizes: Seq<usize>,
}

/// The value of a packet of decrements.
pub struct DecsState {
    pub decs: Option<Seq<ObjectReference>>,
    pub decs_arc: Option<Seq<ObjectReference>>,
    pub new_decs: Seq<ObjectReference>,
    pub counter: LazySweepingJobsCounter,
    pub mark_objects: Seq<ObjectReference>,
    pub mark_dead_objects: bool,
    pub mature_sweeping_in_progress: bool,
}

/// The value of a piece of work.
pub enum WorkView {
    /// Increments of slots that were written.
    MatureIncs(IncsState),
    /// Increments of slots of promoted objects.
    NurseryIncs(IncsState),
    /// Decrements.
    Decs(DecsState),
    /// Objects that marking must not miss.
    ModBufSatb(Seq<ObjectReference>),
    /// Objects to trace concurrently.
    ConcurrentTrace(Seq<ObjectReference>),
    /// Root slots to trace in the pause.
    ProcessEdges { slots: Seq<Slot>, full: bool, root_kind: Option<RootKind> },
}

impl IncsState {
    /// What a packet satisfies between two steps: its slices lie in the address
    /// space, and its buffer of new increments is not full.
    pub open spec fn ready(self, args: Args) -> bool {
        &&& forall|i: int|
            0 <= i < self.inc_slices.len() ==> (#[trigger] self.inc_slices[i]).wf()
        &&& forall|i: int|
            0 <= i < self.new_inc_slices.len() ==> (#[trigger] self.new_inc_slices[i]).wf()
        &&& self.new_incs_count < args.buffer_size
    }
}

impl WorkView {
    /// Whether the work can be processed.
    pub open spec fn ready(self, args: Args) -> bool {
        match self {
            WorkView::MatureIncs(packet) => packet.ready(args),
            WorkView::NurseryIncs(packet) => packet.ready(args),
            _ => true,
        }
    }
}

/// Work and the way in which it was handed over.
pub struct SubmissionView {
    pub to: Destination,
    pub work: WorkView,
}

/// The value of a space.
pub struct SpaceView {
    pub ranges: Seq<AddressRange>,
    pub items: Seq<HeapItem>,
}

impl SpaceView {
    /// Whether `address` lies in the space.
    pub open spec fn has(self, address: usize) -> bool {
        exists|i: int|
            0 <= i < self.ranges.len() && (#[trigger] self.ranges[i]).start <= address
                < self.ranges[i].end
    }

    /// The space ends well below the end of the address space.
    pub open spec fn wf(self) -> bool {
        &&& forall|i: int|
            0 <= i < self.ranges.len() ==> (#[trigger] self.ranges[i]).end
                <= usize::MAX - crate::args::ADDRESS_SLACK
        &&& forall|i: int|
            0 <= i < self.items.len() ==> ((#[trigger] self.items[i]) matches HeapItem::Range(r)
                ==> r.end <= usize::MAX - crate::args::ADDRESS_SLACK)
    }
}

/// The value of the diagnostics.
pub struct DiagView {
    pub rc_trace: bool,
    pub death_diag: bool,
    pub addresses: Seq<usize>,
    pub tag: usize,
    pub gc_count: usize,
    pub corrupt_count: usize,
    pub undercount_enabled: bool,
    pub undercount_budget: usize,
    pub undercount_from_gc: usize,
    pub undercount_found: usize,
    pub death_count: usize,
    pub gc_cycle: usize,
    pub stats: Stats,
    pub log: Seq<Event>,
}

/// The state of the collector.
pub struct State {
    pub args: Args,
    pub phase: Phase,
    /// Memory: the words at the mapped addresses.
    pub words: Map<usize, usize>,
    /// The metadata bytes that hold the unlog bits.
    pub unlog: Map<usize, u8>,
    /// The objects that were laid out.
    pub objects: Map<usize, ShapeView>,
    /// Reference counts.
    pub counts: Map<usize, u8>,
    /// The marked objects.
    pub marks: Set<usize>,
    /// Which objects moved.
    pub forwarding: Map<usize, Forwarding>,
    /// What the copy allocator will answer, the next answer last.
    pub copies: Seq<Option<ObjectReference>>,
    pub immix: SpaceView,
    pub los: SpaceView,
    pub immortal: SpaceView,
    pub other: SpaceView,
    /// The blocks of the nursery.
    pub nursery: Set<usize>,
    /// The blocks that are being emptied.
    pub defrag: Set<usize>,
    /// Whether nursery evacuation has stopped.
    pub no_evac: bool,
    pub effects: Seq<Effect>,
    pub work: Seq<SubmissionView>,
    /// The roots whose decrements come in the next pause.
    pub curr_roots: Seq<Seq<ObjectReference>>,
    /// The root slots kept for a sanity collection.
    pub sanity_roots: Seq<Seq<Slot>>,
    /// How many increments the barrier has handed over.
    pub inc_buffer_size: usize,
    /// The sizes of the nursery objects that were copied.
    pub survival: Seq<usize>,
    pub diag: DiagView,
}

impl State {
    /// What every state of the collector satisfies.
    pub open spec fn wf(self) -> bool {
        &&& self.args.wf()
        &&& self.immix.wf()
        &&& self.los.wf()
        &&& self.immortal.wf()
        &&& self.other.wf()
        &&& self.objects.dom().finite()
        &&& forall|a: usize| #[trigger]
            self.objects.contains_key(a) ==> self.objects[a].wf_at(a)
        &&& forall|a: usize| #[trigger]
            self.counts.contains_key(a) ==> self.counts[a] <= self.args.max_ref_count
        &&& forall|i: int|
            0 <= i < self.copies.len() ==> ((#[trigger] self.copies[i]) matches Some(o)
                ==> 0 < o.address && o.address + self.args.max_young_evac_size
                + crate::args::ADDRESS_SLACK <= usize::MAX)
        &&& forall|i: int|
            0 <= i < self.work.len() ==> (#[trigger] self.work[i]).work.ready(self.args)
        &&& self.diag.addresses.len() <= crate::trace::RC_TRACE_MAX_ADDRS
    }

    // Memory.

    /// Whether `address` is mapped.
    pub open spec fn mapped(self, address: usize) -> bool {
        self.words.contains_key(address)
    }

    /// The word at `address`; memory that is not mapped reads as zero.
    pub open spec fn word(self, address: usize) -> usize {
        lookup(self.words, address, 0)
    }

    /// Whether the word before `address` is mapped.
    pub open spec fn tag_mapped(self, address: usize) -> bool {
        address >= 8 && self.mapped((address - 8) as usize)
    }

    /// The word before an object, which holds its tag; `default` where it is
    /// not mapped.
    pub open spec fn tag_word(self, address: usize, default: usize) -> usize {
        if self.tag_mapped(address) {
            self.word((address - 8) as usize)
        } else {
            default
        }
    }

    /// The reference in `slot`.
    pub open spec fn load(self, slot: Slot) -> Option<ObjectReference> {
        if self.word(slot.address) == 0 {
            None
        } else {
            Some(ObjectReference { address: self.word(slot.address) })
        }
    }

    pub open spec fn with_word(self, address: usize, value: usize) -> State {
        State { words: self.words.insert(address, value), ..self }
    }

    // Unlog bits.

    /// The metadata byte at `meta`.
    pub open spec fn unlog_byte(self, meta: usize) -> u8 {
        lookup(self.unlog, meta, 0)
    }

    /// The unlog bit of `address`.
    pub open spec fn logging_state(self, address: usize) -> u8 {
        (self.unlog_byte(self.args.meta_address(address)) >> self.args.unlog_bit(address)) & 1
    }

    /// The state in which `address` has `bit` as its unlog bit.
    pub open spec fn with_logging_state(self, address: usize, bit: u8) -> State {
        let meta = self.args.meta_address(address);
        let mask = 1u8 << self.args.unlog_bit(address);
        let byte = if bit == LOGGED_VALUE {
            self.unlog_byte(meta) & !mask
        } else {
            self.unlog_byte(meta) | mask
        };
        State { unlog: self.unlog.insert(meta, byte), ..self }
    }

    /// The state in which all unlog bits in the metadata bytes from `lo` up to
    /// `hi` are set.
    pub open spec fn with_unlogged(self, lo: int, hi: int) -> State {
        State {
            unlog: Map::new(
                |m: usize| self.unlog.contains_key(m) || lo <= m < hi,
                |m: usize|
                    if lo <= m < hi {
                        0xffu8
                    } else {
                        self.unlog[m]
                    },
            ),
            ..self
        }
    }

    // Objects.

    /// The shape of the object at `address`.
    pub open spec fn shape(self, address: usize) -> ShapeView {
        lookup(self.objects, address, no_shape())
    }

    /// Whether the tag of the object denotes a type.
    pub open spec fn tag_is_valid(self, o: ObjectReference) -> bool {
        self.shape(o.address).tag_valid
    }

    // Spaces and blocks.

    /// Whether the object has a reference count: it lies in the Immix space or
    /// is a large object.
    pub open spec fn has_rc(self, o: ObjectReference) -> bool {
        self.immix.has(o.address) || self.los.has(o.address)
    }

    /// Whether the object lies in any space of the collector.
    pub open spec fn is_managed(self, o: ObjectReference) -> bool {
        ||| self.immix.has(o.address)
        ||| self.los.has(o.address)
        ||| self.immortal.has(o.address)
        ||| self.other.has(o.address)
    }

    /// Whether the object lies in a block of the nursery.
    pub open spec fn in_nursery(self, o: ObjectReference) -> bool {
        self.nursery.contains(self.args.block_of(o.address))
    }

    /// Whether the address lies in a block that is being emptied.
    pub open spec fn in_defrag_block(self, address: usize) -> bool {
        self.defrag.contains(self.args.block_of(address))
    }

    /// Whether the address lies in a block of the Immix space that is being
    /// emptied.
    pub open spec fn in_defrag(self, address: usize) -> bool {
        self.immix.has(address) && self.in_defrag_block(address)
    }

    // Counts, marks and forwarding.

    /// The reference count of an object.
    pub open spec fn count(self, o: ObjectReference) -> u8 {
        lookup(self.counts, o.address, 0)
    }

    /// Whether the object's count does not change any more: it is zero, or it
    /// has reached the largest count.
    pub open spec fn dead_or_stuck(self, o: ObjectReference) -> bool {
        self.count(o) == 0 || self.count(o) == self.args.max_ref_count
    }

    pub open spec fn with_count(self, o: ObjectReference, count: u8) -> State {
        State { counts: self.counts.insert(o.address, count), ..self }
    }

    /// The state after an increment: the count goes up by one unless it is
    /// stuck.
    pub open spec fn incremented(self, o: ObjectReference) -> State {
        if self.count(o) == self.args.max_ref_count {
            self
        } else {
            self.with_count(o, (self.count(o) + 1) as u8)
        }
    }

    /// The state in which the count of an object sticks.
    pub open spec fn with_stuck(self, o: ObjectReference) -> State {
        if self.count(o) == self.args.max_ref_count {
            self
        } else {
            self.with_count(o, self.args.max_ref_count)
        }
    }

    /// Whether the object is marked.
    pub open spec fn is_marked(self, o: ObjectReference) -> bool {
        self.marks.contains(o.address)
    }

    pub open spec fn with_mark(self, o: ObjectReference) -> State {
        State { marks: self.marks.insert(o.address), ..self }
    }

    /// Whether the object moved.
    pub open spec fn forwarding_of(self, o: ObjectReference) -> Forwarding {
        lookup(self.forwarding, o.address, Forwarding::Untouched)
    }

    pub open spec fn with_forwarding(self, o: ObjectReference, f: Forwarding) -> State {
        State { forwarding: self.forwarding.insert(o.address, f), ..self }
    }

    // What leaves the collector.

    pub open spec fn with_effect(self, effect: Effect) -> State {
        State { effects: self.effects.push(effect), ..self }
    }

    pub open spec fn with_work(self, to: Destination, work: WorkView) -> State {
        State { work: self.work.push(SubmissionView { to, work }), ..self }
    }

    // Diagnostics.

    pub open spec fn with_event(self, event: Event) -> State {
        State { diag: DiagView { log: self.diag.log.push(event), ..self.diag }, ..self }
    }

    pub open spec fn with_events(self, events: Seq<Event>) -> State {
        State { diag: DiagView { log: self.diag.log + events, ..self.diag }, ..self }
    }

    /// Whether `address` is in the trace set.
    pub open spec fn is_traced_address(self, address: usize) -> bool {
        self.diag.addresses.contains(address)
    }

    /// Whether the object is in the trace set, by its address or by its tag.
    pub open spec fn is_traced(self, o: ObjectReference) -> bool {
        ||| self.is_traced_address(o.address)
        ||| {
            &&& self.diag.tag != 0
            &&& self.tag_mapped(o.address)
            &&& self.tag_word(o.address, 0) - self.tag_word(o.address, 0) % 16 == self.diag.tag
        }
    }

    /// The state after `event` was logged, where tracing is built in and the
    /// object is traced.
    pub open spec fn traced(self, o: ObjectReference, event: Event) -> State {
        if self.diag.rc_trace && self.is_traced(o) {
            self.with_event(event)
        } else {
            self
        }
    }

    /// The count of an object for a report: -1 where it has none.
    pub open spec fn reported_rc(self, o: ObjectReference) -> i16 {
        if self.has_rc(o) {
            self.count(o) as i16
        } else {
            (-1) as i16
        }
    }
}

} // verus!
