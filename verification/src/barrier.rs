//! The field-logging write barrier.

use crate::args::align_down;
use crate::args::round_down;
use crate::args::Args;
use crate::decrements::fresh_decs;
use crate::decrements::shared_decs;
use crate::increments::fresh_incs;
use crate::object::Field;
use crate::object::MemorySlice;
use crate::object::ObjectReference;
use crate::object::Slot;
use crate::packets::ProcessDecs;
use crate::packets::ProcessIncs;
use crate::packets::Work;
use crate::plan::Lxr;
use crate::queue::VectorQueue;
use crate::state::Destination;
use crate::state::LazySweepingJobsCounter;
use crate::state::Pause;
use crate::state::State;
use crate::state::WorkBucketStage;
use crate::state::WorkView;
use crate::state::LOGGED_VALUE;
use crate::state::UNLOGGED_VALUE;
use std::sync::Arc;
use vstd::prelude::*;

verus! {

/// The value of a barrier: what it has recorded and not yet handed over.
pub struct BarrierState {
    pub incs: Seq<Slot>,
    pub decs: Seq<ObjectReference>,
    pub refs: Seq<ObjectReference>,
}

impl BarrierState {
    /// A barrier that has recorded nothing.
    pub open spec fn empty() -> BarrierState {
        BarrierState { incs: Seq::empty(), decs: Seq::empty(), refs: Seq::empty() }
    }
}

// What the barrier hands over.

/// Whether old values have to be kept for marking.
pub open spec fn keeps_snapshot(s: State) -> bool {
    s.phase.cm_enabled && (s.phase.cm_in_progress || s.phase.current_pause == Some(
        Pause::FinalMark,
    ))
}

/// After the recorded slots were handed over.
pub open spec fn slots_flushed(b: BarrierState, s: State) -> (BarrierState, State) {
    if b.incs.len() > 0 {
        (
            BarrierState { incs: Seq::empty(), ..b },
            State {
                inc_buffer_size: s.inc_buffer_size.wrapping_add(b.incs.len() as usize),
                ..s
            }.with_work(
                Destination::Bucket(WorkBucketStage::RCProcessIncs),
                WorkView::MatureIncs(fresh_incs(b.incs)),
            ),
        )
    } else {
        (b, s)
    }
}

/// After the recorded old values were handed over: to marking, where it needs
/// them, and to reference counting, after the pause where decrements are lazy.
pub open spec fn old_values_flushed(b: BarrierState, s: State) -> (BarrierState, State) {
    if b.decs.len() > 0 {
        let counter = LazySweepingJobsCounter { cycle: s.phase.lazy_jobs_cycle, decs: true };
        let (s1, packet) = if keeps_snapshot(s) {
            (
                s.with_work(
                    Destination::Bucket(WorkBucketStage::FinishConcurrentWork),
                    WorkView::ModBufSatb(b.decs),
                ),
                shared_decs(b.decs, counter),
            )
        } else {
            (s, fresh_decs(b.decs, counter))
        };
        (
            BarrierState { decs: Seq::empty(), ..b },
            s1.with_work(
                if s.args.lazy_decrements {
                    Destination::PostponedPrioritized
                } else {
                    Destination::Bucket(WorkBucketStage::STWRCDecsAndSweep)
                },
                WorkView::Decs(packet),
            ),
        )
    } else {
        (b, s)
    }
}

/// After the recorded weak references were handed over to marking.
pub open spec fn weak_refs_flushed(b: BarrierState, s: State) -> (BarrierState, State) {
    if b.refs.len() > 0 {
        (
            BarrierState { refs: Seq::empty(), ..b },
            s.with_work(
                Destination::Bucket(WorkBucketStage::FinishConcurrentWork),
                WorkView::ModBufSatb(b.refs),
            ),
        )
    } else {
        (b, s)
    }
}

/// After everything that was recorded was handed over.
pub open spec fn barrier_flushed(b: BarrierState, s: State) -> (BarrierState, State) {
    let (b1, s1) = weak_refs_flushed(b, s);
    let (b2, s2) = slots_flushed(b1, s1);
    old_values_flushed(b2, s2)
}

// What the barrier records.

/// After an old value was recorded.
pub open spec fn old_value_recorded(b: BarrierState, s: State, old: Option<ObjectReference>) -> (
    BarrierState,
    State,
) {
    match old {
        Some(old) => {
            let added = BarrierState { decs: b.decs.push(old), ..b };
            if added.decs.len() >= s.args.buffer_size {
                old_values_flushed(added, s)
            } else {
                (added, s)
            }
        },
        None => (b, s),
    }
}

/// After a slot was recorded.
pub open spec fn slot_recorded(b: BarrierState, s: State, slot: Slot) -> (BarrierState, State) {
    let added = BarrierState { incs: b.incs.push(slot), ..b };
    if added.incs.len() >= s.args.buffer_size {
        slots_flushed(added, s)
    } else {
        (added, s)
    }
}

/// After a write was recorded: the value that it replaced, and the slot.
pub open spec fn write_recorded(
    b: BarrierState,
    s: State,
    slot: Slot,
    old: Option<ObjectReference>,
) -> (BarrierState, State) {
    let (b1, s1) = old_value_recorded(b, s, old);
    slot_recorded(b1, s1, slot)
}

/// After a write to `slot` that is about to happen. In the heap only the first
/// write since the slot was armed is recorded. Elsewhere there are no unlog bits,
/// and every write is. The result is whether it was recorded.
pub open spec fn node_enqueued(b: BarrierState, s: State, slot: Slot) -> (
    BarrierState,
    State,
    bool,
) {
    if !s.args.in_heap(slot.address) {
        let (b1, s1) = write_recorded(b, s, slot, s.load(slot));
        (b1, s1, true)
    } else if s.logging_state(slot.address) == LOGGED_VALUE {
        (b, s, false)
    } else {
        let (b1, s1) = write_recorded(
            b,
            s.with_logging_state(slot.address, LOGGED_VALUE),
            slot,
            s.load(slot),
        );
        (b1, s1, true)
    }
}

/// After writes to slots that are about to happen.
pub open spec fn nodes_enqueued(b: BarrierState, s: State, slots: Seq<Slot>) -> (
    BarrierState,
    State,
)
    decreases slots.len(),
{
    if slots.len() == 0 {
        (b, s)
    } else {
        let (b1, s1) = nodes_enqueued(b, s, slots.drop_last());
        let (b2, s2, _) = node_enqueued(b1, s1, slots.last());
        (b2, s2)
    }
}

/// The metadata bytes from the first up to the last group of sixteen that holds
/// an unlog bit of `dst`.
pub open spec fn covers_region(s: State, dst: MemorySlice, meta: usize) -> bool {
    align_down(s.args.meta_address(dst.start) as int, 16) <= meta && meta < align_down(
        s.args.meta_address((dst.start + dst.bytes() - 1) as usize) as int,
        16,
    ) + 16
}

/// Whether all metadata bytes around `dst` are zero.
pub open spec fn region_is_logged(s: State, dst: MemorySlice) -> bool {
    forall|meta: usize| covers_region(s, dst, meta) ==> #[trigger] s.unlog_byte(meta) == 0
}

/// After a copy to `dst` that is about to happen.
pub open spec fn region_recorded(b: BarrierState, s: State, dst: MemorySlice) -> (
    BarrierState,
    State,
) {
    if region_is_logged(s, dst) {
        (b, s)
    } else {
        nodes_enqueued(b, s, dst.slots())
    }
}

/// After a weak reference to `o` was read: marking must not miss the object
/// while it goes on.
pub open spec fn weak_reference_loaded(b: BarrierState, s: State, o: ObjectReference) -> (
    BarrierState,
    State,
) {
    if !s.phase.cm_in_progress || s.is_marked(o) {
        (b, s)
    } else {
        let added = BarrierState { refs: b.refs.push(o), ..b };
        if added.refs.len() >= s.args.buffer_size {
            weak_refs_flushed(added, s)
        } else {
            (added, s)
        }
    }
}

/// The slots of fields.
pub open spec fn field_slots(fields: Seq<Field>) -> Seq<Slot> {
    fields.map_values(|f: Field| f.slot)
}

/// After `obj` is about to be written somewhere.
pub open spec fn object_write_recorded(b: BarrierState, s: State, obj: ObjectReference) -> (
    BarrierState,
    State,
) {
    nodes_enqueued(b, s, field_slots(s.shape(obj.address).fields))
}

/// After an exchange that has stored a new value in `slot` in place of `old`.
/// Slots outside the heap are left alone.
pub open spec fn exchange_recorded(
    b: BarrierState,
    s: State,
    slot: Slot,
    old: Option<ObjectReference>,
) -> (BarrierState, State) {
    if !s.args.in_heap(slot.address) || s.logging_state(slot.address) == LOGGED_VALUE {
        (b, s)
    } else {
        write_recorded(b, s.with_logging_state(slot.address, LOGGED_VALUE), slot, old)
    }
}

/// There is room for another group behind the metadata byte of an address.
proof fn lemma_metadata_room(args: Args, address: usize)
    requires
        args.wf(),
    ensures
        args.unlog_base + address / args.unlog_span() + 16 <= usize::MAX,
{
    if args.compressed_pointers {
        assert(address / 32usize <= usize::MAX / 32);
    } else {
        assert(address / 64usize <= usize::MAX / 64);
    }
    assert(usize::MAX / 2 + usize::MAX / 32 + 16 <= usize::MAX);
}

/// Shares a list: `Arc::clone`, which makes another pointer to the same value.
#[verifier::external_body]
fn share(list: &Arc<Vec<ObjectReference>>) -> (shared: Arc<Vec<ObjectReference>>)
    ensures
        shared@ == list@,
{
    Arc::clone(list)
}

/// What an attempt to take an unlog bit led to: whether the slot was logged by
/// it, or nothing where the attempt has to be repeated. `Ok` is an attempt that
/// replaced the bit, and an error holds the bit that was there instead.
pub fn log_attempt_result(attempt: Result<u8, u8>) -> (logged: Option<bool>)
    ensures
        logged == (match attempt {
            Ok(_) => Some(true),
            Err(current) => if current == LOGGED_VALUE {
                Some(false)
            } else {
                None
            },
        }),
{
    match attempt {
        Ok(_) => Some(true),
        Err(current) => {
            if current == LOGGED_VALUE {
                Some(false)
            } else {
                None
            }
        },
    }
}

/// The barrier of a mutator.
pub struct LXRFieldBarrierSemantics {
    incs: VectorQueue<Slot>,
    decs: VectorQueue<ObjectReference>,
    refs: VectorQueue<ObjectReference>,
}

impl View for LXRFieldBarrierSemantics {
    type V = BarrierState;

    closed spec fn view(&self) -> BarrierState {
        BarrierState { incs: self.incs@, decs: self.decs@, refs: self.refs@ }
    }
}

impl LXRFieldBarrierSemantics {
    /// A barrier that has recorded nothing.
    pub fn new() -> (barrier: Self)
        ensures
            barrier@ == BarrierState::empty(),
    {
        LXRFieldBarrierSemantics {
            incs: VectorQueue::default(),
            decs: VectorQueue::default(),
            refs: VectorQueue::default(),
        }
    }

    /// The unlog bit of a slot.
    pub fn get_slot_logging_state(&self, lxr: &Lxr, slot: Slot) -> (state: u8)
        requires
            lxr@.args.wf(),
        ensures
            state == lxr@.logging_state(slot.address),
            state == LOGGED_VALUE || state == UNLOGGED_VALUE,
    {
        lxr.load_unlog_bit(slot.address)
    }

    /// Logs a slot. Returns whether it was not logged before.
    pub fn attempt_to_log_field(&self, lxr: &mut Lxr, slot: Slot) -> (logged: bool)
        requires
            old(lxr)@.wf(),
        ensures
            logged == (old(lxr)@.logging_state(slot.address) != LOGGED_VALUE),
            final(lxr)@ == (if logged {
                old(lxr)@.with_logging_state(slot.address, LOGGED_VALUE)
            } else {
                old(lxr)@
            }),
            final(lxr)@.wf(),
    {
        loop
            invariant
                lxr@.wf(),
                lxr@ == old(lxr)@,
            decreases 0int,
        {
            // Bail out if the slot is logged.
            if self.get_slot_logging_state(lxr, slot) == LOGGED_VALUE {
                return false;
            }
            // Attempt to log the slot.
            let attempt: Result<u8, u8> = lxr.compare_exchange_unlog_bit(
                slot.address,
                UNLOGGED_VALUE,
                LOGGED_VALUE,
            );
            match log_attempt_result(attempt) {
                Some(logged) => {
                    return logged;
                },
                None => {},
            }
        }
    }

    /// Logs a slot and returns what it refers to, or an error where it is logged.
    pub fn log_slot_and_get_old_target(&self, lxr: &mut Lxr, slot: Slot) -> (target: Result<
        Option<ObjectReference>,
        (),
    >)
        requires
            old(lxr)@.wf(),
        ensures
            target == (if old(lxr)@.logging_state(slot.address) == LOGGED_VALUE {
                Err::<Option<ObjectReference>, ()>(())
            } else {
                Ok::<Option<ObjectReference>, ()>(old(lxr)@.load(slot))
            }),
            final(lxr)@ == (if old(lxr)@.logging_state(slot.address) == LOGGED_VALUE {
                old(lxr)@
            } else {
                old(lxr)@.with_logging_state(slot.address, LOGGED_VALUE)
            }),
            final(lxr)@.wf(),
    {
        if self.get_slot_logging_state(lxr, slot) == LOGGED_VALUE {
            return Err(());
        }
        let old: Option<ObjectReference> = lxr.load(slot);
        if self.attempt_to_log_field(lxr, slot) {
            Ok(old)
        } else {
            Err(())
        }
    }

    /// Records a write.
    pub fn slow(
        &mut self,
        lxr: &mut Lxr,
        _src: Option<ObjectReference>,
        slot: Slot,
        replaced: Option<ObjectReference>,
    )
        requires
            old(lxr)@.wf(),
        ensures
            (final(self)@, final(lxr)@) == write_recorded(old(self)@, old(lxr)@, slot, replaced),
            final(lxr)@.wf(),
    {
        if let Some(replaced) = replaced {
            self.decs.push(replaced);
            if self.decs.is_full(lxr.args.buffer_size) {
                self.flush_decs_and_satb(lxr);
            }
        }
        self.incs.push(slot);
        if self.incs.is_full(lxr.args.buffer_size) {
            self.flush_incs(lxr);
        }
    }

    /// Records a write that is about to happen, unless the slot is logged.
    /// Returns whether it was recorded.
    pub fn enqueue_node(
        &mut self,
        lxr: &mut Lxr,
        src: Option<ObjectReference>,
        slot: Slot,
        _new: Option<ObjectReference>,
    ) -> (recorded: bool)
        requires
            old(lxr)@.wf(),
        ensures
            (final(self)@, final(lxr)@, recorded) == node_enqueued(
                old(self)@,
                old(lxr)@,
                slot,
            ),
            final(lxr)@.wf(),
    {
        if lxr.args.contains_address(slot.address) {
            match self.log_slot_and_get_old_target(lxr, slot) {
                Ok(old) => {
                    self.slow(lxr, src, slot, old);
                    true
                },
                Err(_) => false,
            }
        } else {
            // There is no unlog bit for this address.
            let old: Option<ObjectReference> = lxr.load(slot);
            self.slow(lxr, src, slot, old);
            true
        }
    }

    /// Whether old values have to be kept for marking.
    pub fn should_create_satb_packets(&self, lxr: &Lxr) -> (needed: bool)
        ensures
            needed == keeps_snapshot(lxr@),
    {
        lxr.phase.cm_enabled && (lxr.phase.cm_in_progress || lxr.phase.current_pause == Some(
            Pause::FinalMark,
        ))
    }

    /// Hands over the recorded slots.
    pub fn flush_incs(&mut self, lxr: &mut Lxr)
        ensures
            (final(self)@, final(lxr)@) == slots_flushed(old(self)@, old(lxr)@),
            old(lxr)@.wf() ==> final(lxr)@.wf(),
    {
        if !self.incs.is_empty() {
            let incs: Vec<Slot> = self.incs.take();
            lxr.inc_buffer_size = lxr.inc_buffer_size.wrapping_add(incs.len());
            lxr.submit(
                Destination::Bucket(WorkBucketStage::RCProcessIncs),
                Work::MatureIncs(ProcessIncs::new(incs)),
            );
        }
    }

    /// Hands over the recorded old values.
    pub fn flush_decs_and_satb(&mut self, lxr: &mut Lxr)
        ensures
            (final(self)@, final(lxr)@) == old_values_flushed(old(self)@, old(lxr)@),
            old(lxr)@.wf() ==> final(lxr)@.wf(),
    {
        if !self.decs.is_empty() {
            let counter = LazySweepingJobsCounter {
                cycle: lxr.phase.lazy_jobs_cycle,
                decs: true,
            };
            let w: ProcessDecs = if self.should_create_satb_packets(lxr) {
                let decs: Arc<Vec<ObjectReference>> = Arc::new(self.decs.take());
                lxr.submit(
                    Destination::Bucket(WorkBucketStage::FinishConcurrentWork),
                    Work::ModBufSatbShared(share(&decs)),
                );
                ProcessDecs::new_arc(decs, counter)
            } else {
                ProcessDecs::new(self.decs.take(), counter)
            };
            if lxr.args.lazy_decrements {
                lxr.submit(Destination::PostponedPrioritized, Work::Decs(w));
            } else {
                lxr.submit(
                    Destination::Bucket(WorkBucketStage::STWRCDecsAndSweep),
                    Work::Decs(w),
                );
            }
        }
    }

    /// Hands over the recorded weak references.
    pub fn flush_weak_refs(&mut self, lxr: &mut Lxr)
        ensures
            (final(self)@, final(lxr)@) == weak_refs_flushed(old(self)@, old(lxr)@),
            old(lxr)@.wf() ==> final(lxr)@.wf(),
    {
        if !self.refs.is_empty() {
            let nodes: Vec<ObjectReference> = self.refs.take();
            lxr.submit(
                Destination::Bucket(WorkBucketStage::FinishConcurrentWork),
                Work::ModBufSatb(nodes),
            );
        }
    }

    /// Hands over everything that was recorded.
    pub fn flush(&mut self, lxr: &mut Lxr)
        ensures
            (final(self)@, final(lxr)@) == barrier_flushed(old(self)@, old(lxr)@),
            old(lxr)@.wf() ==> final(lxr)@.wf(),
    {
        self.flush_weak_refs(lxr);
        self.flush_incs(lxr);
        self.flush_decs_and_satb(lxr);
    }

    /// The barrier of a write to a slot of `src`, before the write.
    pub fn object_reference_write_slow(
        &mut self,
        lxr: &mut Lxr,
        src: ObjectReference,
        slot: Slot,
        target: Option<ObjectReference>,
    )
        requires
            old(lxr)@.wf(),
        ensures
            ({
                let (b, s, _) = node_enqueued(old(self)@, old(lxr)@, slot);
                &&& final(self)@ == b
                &&& final(lxr)@ == s
            }),
            final(lxr)@.wf(),
    {
        let _ = self.enqueue_node(lxr, Some(src), slot, target);
    }

    /// Whether all metadata bytes around `dst` are zero.
    fn all_logged(&self, lxr: &Lxr, dst: MemorySlice) -> (logged: bool)
        requires
            lxr@.wf(),
            dst.wf(),
        ensures
            logged == region_is_logged(lxr@, dst),
    {
        let end: usize = dst.start + (dst.len * dst.slot_bytes) - 1;
        let start_meta: usize = lxr.args.address_to_meta_address(dst.start);
        let end_meta: usize = lxr.args.address_to_meta_address(end);
        let first: usize = round_down(start_meta, 16);
        let last: usize = round_down(end_meta, 16);
        proof {
            lemma_metadata_room(lxr@.args, end);
            assert(last <= end_meta);
        }
        let mut cursor: usize = first;
        while cursor <= last
            invariant
                lxr@.wf(),
                dst.wf(),
                first <= cursor,
                first == align_down(lxr@.args.meta_address(dst.start) as int, 16),
                last == align_down(
                    lxr@.args.meta_address((dst.start + dst.bytes() - 1) as usize) as int,
                    16,
                ),
                last + 16 <= usize::MAX,
                forall|meta: usize|
                    first <= meta < cursor ==> #[trigger] lxr@.unlog_byte(meta) == 0,
                cursor % 16 == 0,
                last % 16 == 0,
            decreases last + 16 - cursor,
        {
            let end: usize = cursor + 16;
            let mut meta: usize = cursor;
            while meta < end
                invariant
                    lxr@.wf(),
                    first <= cursor <= meta <= end,
                    end == cursor + 16,
                    cursor <= last,
                    first == align_down(lxr@.args.meta_address(dst.start) as int, 16),
                    last == align_down(
                        lxr@.args.meta_address((dst.start + dst.bytes() - 1) as usize) as int,
                        16,
                    ),
                    forall|m: usize| first <= m < meta ==> #[trigger] lxr@.unlog_byte(m) == 0,
                    cursor % 16 == 0,
                    last % 16 == 0,
                decreases end - meta,
            {
                if lxr.load_unlog_byte(meta) != 0 {
                    proof {
                        assert(covers_region(lxr@, dst, meta));
                    }
                    return false;
                }
                meta += 1;
            }
            cursor = end;
        }
        true
    }

    /// The barrier of a copy to `dst`, before the copy.
    pub fn memory_region_copy_slow(&mut self, lxr: &mut Lxr, _src: MemorySlice, dst: MemorySlice)
        requires
            old(lxr)@.wf(),
            dst.wf(),
        ensures
            (final(self)@, final(lxr)@) == region_recorded(old(self)@, old(lxr)@, dst),
            final(lxr)@.wf(),
    {
        // Skip the barrier where all fields are logged.
        if self.all_logged(lxr, dst) {
            return;
        }
        let ghost slots = dst.slots();
        let mut i: usize = 0;
        while i < dst.len
            invariant
                i <= dst.len,
                dst.wf(),
                slots == dst.slots(),
                lxr@.wf(),
                (self@, lxr@) == nodes_enqueued(old(self)@, old(lxr)@, slots.take(i as int)),
            decreases dst.len - i,
        {
            let _ = self.enqueue_node(lxr, None, dst.get(i), None);
            i += 1;
            proof {
                assert(slots.take(i as int).drop_last() =~= slots.take(i - 1));
                assert(slots.take(i as int).last() == slots[i - 1]);
            }
        }
        proof {
            assert(slots.take(i as int) =~= slots);
        }
    }

    /// The barrier of a weak reference that was read.
    pub fn load_weak_reference(&mut self, lxr: &mut Lxr, o: ObjectReference)
        ensures
            (final(self)@, final(lxr)@) == weak_reference_loaded(old(self)@, old(lxr)@, o),
            old(lxr)@.wf() ==> final(lxr)@.wf(),
    {
        if !lxr.phase.cm_in_progress || lxr.is_marked(o) {
            return;
        }
        self.refs.push(o);
        if self.refs.is_full(lxr.args.buffer_size) {
            self.flush_weak_refs(lxr);
        }
    }

    /// The barrier of an object that is about to be written somewhere.
    pub fn object_probable_write_slow(&mut self, lxr: &mut Lxr, obj: ObjectReference)
        requires
            old(lxr)@.wf(),
        ensures
            (final(self)@, final(lxr)@) == object_write_recorded(old(self)@, old(lxr)@, obj),
            final(lxr)@.wf(),
    {
        let fields: Vec<Field> = lxr.get_fields(obj);
        let ghost slots = field_slots(fields@);
        let mut i: usize = 0;
        while i < fields.len()
            invariant
                i <= fields.len(),
                slots == field_slots(fields@),
                lxr@.wf(),
                (self@, lxr@) == nodes_enqueued(old(self)@, old(lxr)@, slots.take(i as int)),
            decreases fields.len() - i,
        {
            let _ = self.enqueue_node(lxr, Some(obj), fields[i].slot, None);
            i += 1;
            proof {
                assert(slots.take(i as int).drop_last() =~= slots.take(i - 1));
                assert(slots.take(i as int).last() == slots[i - 1]);
            }
        }
        proof {
            assert(slots.take(i as int) =~= slots);
        }
    }

    /// The barrier of an exchange that has stored a new value in `slot` in place
    /// of `replaced`.
    pub fn object_reference_write_post_cmpswap(
        &mut self,
        lxr: &mut Lxr,
        src: ObjectReference,
        slot: Slot,
        replaced: Option<ObjectReference>,
        _new: Option<ObjectReference>,
    )
        requires
            old(lxr)@.wf(),
        ensures
            (final(self)@, final(lxr)@) == exchange_recorded(
                old(self)@,
                old(lxr)@,
                slot,
                replaced,
            ),
            final(lxr)@.wf(),
    {
        // Slots outside the heap have no metadata.
        if !lxr.args.contains_address(slot.address) {
            return;
        }
        if !self.attempt_to_log_field(lxr, slot) {
            return;
        }
        // The slot holds the new value: the old one comes from the caller.
        self.slow(lxr, Some(src), slot, replaced);
    }
}

} // verus!
