//! Processing a packet of decrements.

use crate::decrements::dead_reference_recorded;
use crate::decrements::dec_added;
use crate::decrements::dec_processed;
use crate::decrements::decs_begun;
use crate::decrements::decs_flushed;
use crate::decrements::decs_processed;
use crate::decrements::decs_sent;
use crate::decrements::field_released;
use crate::decrements::fields_released;
use crate::decrements::fresh_decs;
use crate::decrements::given_decs_processed;
use crate::decrements::lowered;
use crate::decrements::lowered_or_died;
use crate::decrements::object_died;
use crate::decrements::shared_decs;
use crate::decrements::POISON;
use crate::object::Field;
use crate::object::ObjectReference;
use crate::object::Slot;
use crate::packets::ProcessDecs;
use crate::packets::Work;
use crate::plan::has_rc_metadata;
use crate::plan::Lxr;
use crate::progress::bounded;
use crate::progress::lemma_wf_bounded;
use crate::queue::VectorQueue;
use crate::referrers::note_death;
use crate::release::decs_framed;
use crate::release::held;
use crate::release::lemma_decs_processed;
use crate::release::lemma_framed_trans;
use crate::release::lemma_object_died;
use crate::state::DecsState;
use crate::state::Destination;
use crate::state::Effect;
use crate::state::Event;
use crate::state::Forwarding;
use crate::state::LazySweepingJobsCounter;
use crate::state::Pause;
use crate::state::State;
use crate::state::WorkBucketStage;
use crate::trace::count_up;
use crate::trace::rc_trace_inc_gc_count;
use crate::trace::trace;
use std::sync::Arc;
use vstd::prelude::*;

verus! {

/// The count after a decrement of `count`: nothing where it is zero or stuck.
pub fn lower(count: u8, max: u8) -> (new: Option<u8>)
    ensures
        new == lowered(count, max),
{
    if count == 0 || count == max {
        None
    } else {
        Some(count - 1)
    }
}

impl ProcessDecs {
    /// A packet with decrements for `decs`.
    pub fn new(decs: Vec<ObjectReference>, counter: LazySweepingJobsCounter) -> (packet: Self)
        ensures
            packet@ == fresh_decs(decs@, counter),
    {
        ProcessDecs {
            decs: Some(decs),
            decs_arc: None,
            new_decs: VectorQueue::default(),
            counter,
            mark_objects: VectorQueue::default(),
            mark_dead_objects: false,
            mature_sweeping_in_progress: false,
        }
    }

    /// A packet with decrements that it shares.
    pub fn new_arc(decs: Arc<Vec<ObjectReference>>, counter: LazySweepingJobsCounter) -> (packet:
        Self)
        ensures
            packet@ == shared_decs(decs@, counter),
    {
        ProcessDecs {
            decs: None,
            decs_arc: Some(decs),
            new_decs: VectorQueue::default(),
            counter,
            mark_objects: VectorQueue::default(),
            mark_dead_objects: false,
            mature_sweeping_in_progress: false,
        }
    }

    /// Queues a new decrement.
    pub fn recursive_dec(&mut self, lxr: &mut Lxr, o: ObjectReference)
        ensures
            (final(self)@, final(lxr)@) == dec_added(old(self)@, old(lxr)@, o),
            old(lxr)@.wf() ==> final(lxr)@.wf(),
    {
        self.new_decs.push(o);
        if self.new_decs.is_full(lxr.args.buffer_size) {
            self.flush(lxr);
        }
    }

    /// Hands a packet to the scheduler.
    pub fn new_work(&self, lxr: &mut Lxr, w: ProcessDecs)
        ensures
            final(lxr)@ == decs_sent(old(lxr)@, w@),
            old(lxr)@.wf() ==> final(lxr)@.wf(),
    {
        if lxr.phase.current_pause.is_none() {
            lxr.submit(
                Destination::WorkerPrioritized(WorkBucketStage::Unconstrained),
                Work::Decs(w),
            );
        } else {
            lxr.submit(Destination::Worker(WorkBucketStage::Unconstrained), Work::Decs(w));
        }
    }

    /// Hands the new decrements, and the objects put aside for marking, to the
    /// scheduler.
    pub fn flush(&mut self, lxr: &mut Lxr)
        ensures
            (final(self)@, final(lxr)@) == decs_flushed(old(self)@, old(lxr)@),
            old(lxr)@.wf() ==> final(lxr)@.wf(),
    {
        if !self.new_decs.is_empty() {
            let new_decs: Vec<ObjectReference> = self.new_decs.take();
            let w: ProcessDecs = ProcessDecs::new(new_decs, self.counter.clone_with_decs());
            self.new_work(lxr, w);
        }
        if !self.mark_objects.is_empty() {
            let objects: Vec<ObjectReference> = self.mark_objects.take();
            if lxr.args.lazy_decrements {
                lxr.submit(
                    Destination::Worker(WorkBucketStage::Unconstrained),
                    Work::ConcurrentTrace(objects),
                );
            } else {
                lxr.submit(Destination::Postponed, Work::ConcurrentTrace(objects));
            }
        }
    }

    /// Remembers a reference of a dying object that leads from outside into a
    /// block that is being emptied.
    pub fn record_mature_evac_remset(&mut self, lxr: &mut Lxr, s: Slot, o: ObjectReference)
        requires
            old(lxr)@.wf(),
        ensures
            final(self)@ == old(self)@,
            final(lxr)@ == dead_reference_recorded(old(self)@, old(lxr)@, s, o),
            final(lxr)@.wf(),
    {
        if !(lxr.args.rc_mature_evacuation && self.mark_dead_objects) {
            return;
        }
        if !lxr.address_in_defrag(s.address) && lxr.in_defrag(o) {
            lxr.request(Effect::RemsetRecord { slot: s, object: o });
        }
    }

    /// Gives up the reference of a slot of a dying object.
    fn release_field(&mut self, lxr: &mut Lxr, parent: ObjectReference, field: Field)
        requires
            old(lxr)@.wf(),
        ensures
            (final(self)@, final(lxr)@) == field_released(
                old(self)@,
                old(lxr)@,
                parent,
                field,
            ),
            final(lxr)@.wf(),
    {
        proof {
            reveal(field_released);
        }
        let slot: Slot = field.slot;
        let x: ObjectReference = match lxr.load(slot) {
            Some(x) => x,
            None => {
                return;
            },
        };
        let ghost s0 = lxr@;
        let has_rc: bool = has_rc_metadata(lxr, x);
        if !field.out_of_heap {
            if has_rc {
                let rc: u8 = lxr.count(x);
                if rc != lxr.args.max_ref_count && rc != 0 {
                    let gc: usize = lxr.diag.gc_count;
                    trace(
                        lxr,
                        x,
                        Event::RecDec {
                            gc,
                            object: x.address,
                            parent: parent.address,
                            slot: slot.address,
                            rc,
                        },
                    );
                    self.recursive_dec(lxr, x);
                }
            }
        } else {
            self.record_mature_evac_remset(lxr, slot, x);
        }
        if self.mark_dead_objects && has_rc && !lxr.is_marked(x) {
            self.mark_objects.push(x);
            if self.mark_objects.is_full(lxr.args.buffer_size) {
                self.flush(lxr);
            }
        }
    }

    /// Processes the death of an object. Returns whether it is a large object.
    pub fn process_dead_object(&mut self, lxr: &mut Lxr, o: ObjectReference) -> (is_los: bool)
        requires
            old(lxr)@.wf(),
        ensures
            (final(self)@, final(lxr)@) == object_died(old(self)@, old(lxr)@, o),
            is_los == !old(lxr)@.immix.has(o.address),
            final(lxr)@.wf(),
    {
        proof {
            reveal(object_died);
            lemma_object_died(self@, lxr@, o);
        }
        note_death(lxr, o);
        if self.mark_dead_objects {
            lxr.mark(o);
        }
        let fields: Vec<Field> = lxr.get_fields(o);
        let ghost p2 = self@;
        let ghost s2 = lxr@;
        let mut i: usize = 0;
        while i < fields.len()
            invariant
                i <= fields.len(),
                lxr@.wf(),
                (self@, lxr@) == fields_released(p2, s2, o, fields@.take(i as int)),
            decreases fields.len() - i,
        {
            self.release_field(lxr, o, fields[i]);
            i += 1;
            proof {
                assert(fields@.take(i as int).drop_last() =~= fields@.take(i - 1));
                assert(fields@.take(i as int).last() == fields@[i - 1]);
            }
        }
        proof {
            assert(fields@.take(i as int) =~= fields@);
        }
        let in_ix_space: bool = lxr.immix.in_space(o);
        if in_ix_space {
            lxr.request(Effect::UnmarkStraddle { object: o });
        }
        if lxr.args.poison_dead_objects {
            lxr.store_word(o.address, POISON);
        }
        if in_ix_space {
            let block: usize = lxr.args.block_containing(o.address);
            lxr.request(Effect::PossiblyDeadBlock { block });
            false
        } else {
            true
        }
    }

    /// Lowers the count of an object. The last reference takes the object with
    /// it.
    fn lower_count(&mut self, lxr: &mut Lxr, o: ObjectReference)
        requires
            old(lxr)@.wf(),
        ensures
            (final(self)@, final(lxr)@) == lowered_or_died(old(self)@, old(lxr)@, o),
            final(lxr)@.wf(),
    {
        proof {
            reveal(lowered_or_died);
            lemma_object_died(self@, lxr@, o);
        }
        let old: u8 = lxr.count(o);
        let max: u8 = lxr.args.max_ref_count;
        let dead: bool = old == 1;
        let mut is_los: bool = false;
        if dead {
            is_los = self.process_dead_object(lxr, o);
        }
        let gc: usize = lxr.diag.gc_count;
        match lower(old, max) {
            Some(new) => {
                lxr.set_count(o, new);
                trace(lxr, o, Event::Dec { gc, object: o.address, old, dead });
            },
            None => {
                trace(lxr, o, Event::DecStuck { gc, object: o.address, old, dead });
            },
        }
        if old == 1 && is_los {
            lxr.request(Effect::RcFree { object: o });
        }
    }

    /// Processes a decrement.
    fn process_dec(&mut self, lxr: &mut Lxr, o: ObjectReference)
        requires
            old(lxr)@.wf(),
        ensures
            (final(self)@, final(lxr)@) == dec_processed(old(self)@, old(lxr)@, o),
            final(lxr)@.wf(),
    {
        proof {
            reveal(dec_processed);
        }
        let gc: usize = lxr.diag.gc_count;
        let in_immix: bool = lxr.immix.in_space(o);
        let in_los: bool = !in_immix && lxr.los.in_space(o);
        if !in_immix && !in_los {
            trace(lxr, o, Event::DecSkipSpace { gc, object: o.address });
            return;
        }
        let dead_or_stuck: bool = lxr.is_dead_or_stuck(o);
        let unmarked: bool = self.mature_sweeping_in_progress && !lxr.is_marked(o);
        if dead_or_stuck || unmarked {
            let rc: u8 = lxr.count(o);
            trace(
                lxr,
                o,
                Event::DecSkip { gc, object: o.address, rc, dead_or_stuck, unmarked },
            );
            return;
        }
        // Only objects of the Immix space move.
        let mut target: ObjectReference = o;
        if lxr.args.rc_mature_evacuation && in_immix {
            match lxr.forwarding_of(o) {
                Forwarding::Forwarded(new) => {
                    target = new;
                },
                _ => {},
            }
        }
        self.lower_count(lxr, target);
    }

    /// Processes decrements.
    pub fn process_decs(&mut self, lxr: &mut Lxr, decs: &Vec<ObjectReference>)
        requires
            old(lxr)@.wf(),
        ensures
            (final(self)@, final(lxr)@) == decs_processed(old(self)@, old(lxr)@, decs@),
            final(lxr)@.wf(),
    {
        let mut i: usize = 0;
        while i < decs.len()
            invariant
                i <= decs.len(),
                lxr@.wf(),
                (self@, lxr@) == decs_processed(old(self)@, old(lxr)@, decs@.take(i as int)),
            decreases decs.len() - i,
        {
            self.process_dec(lxr, decs[i]);
            i += 1;
            proof {
                assert(decs@.take(i as int).drop_last() =~= decs@.take(i - 1));
                assert(decs@.take(i as int).last() == decs@[i - 1]);
            }
        }
        proof {
            assert(decs@.take(i as int) =~= decs@);
        }
    }
}

// The packet.

/// After rounds of new decrements until there are none.
pub open spec fn decs_drained(p: DecsState, s: State) -> (DecsState, State)
    decreases held(s).len(),
    when bounded(s)
    via decs_drained_ends
{
    if p.new_decs.len() > 0 {
        let (p1, s1) = decs_processed(DecsState { new_decs: Seq::empty(), ..p }, s, p.new_decs);
        if p1.new_decs.len() > 0 {
            decs_drained(p1, s1)
        } else {
            (p1, s1)
        }
    } else {
        (p, s)
    }
}

#[via_fn]
proof fn decs_drained_ends(p: DecsState, s: State) {
    lemma_decs_processed(DecsState { new_decs: Seq::empty(), ..p }, s, p.new_decs);
}

/// After the packet was processed: the decrements that it was given, those that
/// they led to, and a flush of what is left.
pub open spec fn decs_done(p: DecsState, s: State) -> (DecsState, State) {
    let (p1, s1) = decs_begun(p, s);
    let (p2, s2) = given_decs_processed(p1, s1);
    let (p3, s3) = decs_drained(p2, s2);
    decs_flushed(p3, s3)
}

/// Rounds until there are no new decrements leave none, and change the collector
/// no further than decrements do.
pub proof fn lemma_decs_drained(p: DecsState, s: State)
    requires
        bounded(s),
    ensures
        ({
            let (q, t) = decs_drained(p, s);
            &&& q.new_decs.len() == 0
            &&& decs_framed(p, s, q, t)
            &&& bounded(t)
        }),
    decreases held(s).len(),
{
    if p.new_decs.len() > 0 {
        let p0 = DecsState { new_decs: Seq::empty(), ..p };
        lemma_decs_processed(p0, s, p.new_decs);
        let (p1, s1) = decs_processed(p0, s, p.new_decs);
        if p1.new_decs.len() > 0 {
            lemma_decs_drained(p1, s1);
            let (q, t) = decs_drained(p1, s1);
            lemma_framed_trans(p0, s, p1, s1, q, t);
        }
    } else {
        lemma_decs_processed(p, s, Seq::empty());
    }
}

impl ProcessDecs {
    /// Takes note of the pauses.
    fn begin(&mut self, lxr: &mut Lxr)
        requires
            old(lxr)@.wf(),
        ensures
            (final(self)@, final(lxr)@) == decs_begun(old(self)@, old(lxr)@),
            final(lxr)@.wf(),
    {
        if lxr.diag.death_diag {
            lxr.diag.gc_cycle = count_up(lxr.diag.gc_cycle);
        }
        if lxr.diag.rc_trace {
            rc_trace_inc_gc_count(lxr);
        }
        let belongs_to: Option<Pause> = if lxr.args.lazy_decrements {
            lxr.phase.previous_pause
        } else {
            lxr.phase.current_pause
        };
        self.mark_dead_objects = lxr.phase.cm_in_progress && belongs_to != Some(
            Pause::InitialMark,
        );
        self.mature_sweeping_in_progress = belongs_to == Some(Pause::FinalMark)
            || lxr.phase.current_pause == Some(Pause::Full);
    }

    /// Processes new decrements until there are none.
    fn drain(&mut self, lxr: &mut Lxr)
        requires
            old(lxr)@.wf(),
        ensures
            (final(self)@, final(lxr)@) == decs_drained(old(self)@, old(lxr)@),
            final(lxr)@.wf(),
    {
        let mut decs: Vec<ObjectReference> = Vec::new();
        proof {
            lemma_wf_bounded(lxr@);
        }
        while !self.new_decs.is_empty()
            invariant
                lxr@.wf(),
                bounded(lxr@),
                decs_drained(self@, lxr@) == decs_drained(old(self)@, old(lxr)@),
            decreases
                    if self@.new_decs.len() > 0 {
                        1int
                    } else {
                        0int
                    },
                    held(lxr@).len(),
        {
            let ghost p0 = self@;
            let ghost s0 = lxr@;
            decs.clear();
            self.new_decs.swap(&mut decs);
            proof {
                assert(self@ == (DecsState { new_decs: Seq::empty(), ..p0 }));
                lemma_decs_processed(self@, s0, p0.new_decs);
            }
            self.process_decs(lxr, &decs);
        }
    }

    /// Processes the packet.
    pub fn do_work(&mut self, lxr: &mut Lxr)
        requires
            old(lxr)@.wf(),
        ensures
            (final(self)@, final(lxr)@) == decs_done(old(self)@, old(lxr)@),
            final(self)@.new_decs.len() == 0,
            final(self)@.mark_objects.len() == 0,
            final(lxr)@.wf(),
    {
        self.begin(lxr);
        match self.decs.take() {
            Some(decs) => {
                self.process_decs(lxr, &decs);
            },
            None => match self.decs_arc.take() {
                Some(decs) => {
                    self.process_decs(lxr, &decs);
                },
                None => {},
            },
        }
        proof {
            lemma_wf_bounded(lxr@);
            lemma_decs_drained(self@, lxr@);
        }
        self.drain(lxr);
        self.flush(lxr);
    }
}

} // verus!
