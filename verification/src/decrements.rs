//! What a packet of decrements does, as functions on states.

use crate::object::Field;
use crate::object::ObjectReference;
use crate::object::Slot;
use crate::referrers::death_noted;
use crate::state::DecsState;
use crate::state::Destination;
use crate::state::Effect;
use crate::state::Event;
use crate::state::Forwarding;
use crate::state::LazySweepingJobsCounter;
use crate::state::Pause;
use crate::state::State;
use crate::state::WorkBucketStage;
use crate::state::WorkView;
use crate::trace::counted;
use crate::trace::gc_counted;
use vstd::prelude::*;

verus! {

/// The word that overwrites the first word of a dead object.
pub const POISON: usize = 0xdead;

/// A new packet with decrements for `decs`.
pub open spec fn fresh_decs(decs: Seq<ObjectReference>, counter: LazySweepingJobsCounter) -> DecsState {
    DecsState {
        decs: Some(decs),
        decs_arc: None,
        new_decs: Seq::empty(),
        counter,
        mark_objects: Seq::empty(),
        mark_dead_objects: false,
        mature_sweeping_in_progress: false,
    }
}

/// A new packet with decrements that it shares.
pub open spec fn shared_decs(decs: Seq<ObjectReference>, counter: LazySweepingJobsCounter) -> DecsState {
    DecsState { decs: None, decs_arc: Some(decs), ..fresh_decs(decs, counter) }
}

// New decrements.

/// After a packet was handed to the scheduler: outside a pause it goes ahead of
/// other work.
pub open spec fn decs_sent(s: State, packet: DecsState) -> State {
    s.with_work(
        if s.phase.current_pause is None {
            Destination::WorkerPrioritized(WorkBucketStage::Unconstrained)
        } else {
            Destination::Worker(WorkBucketStage::Unconstrained)
        },
        WorkView::Decs(packet),
    )
}

/// After a flush of new decrements: where there are any, they are a packet of
/// their own.
pub open spec fn new_decs_flushed(p: DecsState, s: State) -> (DecsState, State) {
    if p.new_decs.len() > 0 {
        (
            DecsState { new_decs: Seq::empty(), ..p },
            decs_sent(s, fresh_decs(p.new_decs, p.counter.with_decs())),
        )
    } else {
        (p, s)
    }
}

/// After a flush of the objects that marking has yet to reach: where there are
/// any, they are traced concurrently, at once where decrements are lazy, and
/// otherwise after the pause.
pub open spec fn mark_objects_flushed(p: DecsState, s: State) -> (DecsState, State) {
    if p.mark_objects.len() > 0 {
        (
            DecsState { mark_objects: Seq::empty(), ..p },
            s.with_work(
                if s.args.lazy_decrements {
                    Destination::Worker(WorkBucketStage::Unconstrained)
                } else {
                    Destination::Postponed
                },
                WorkView::ConcurrentTrace(p.mark_objects),
            ),
        )
    } else {
        (p, s)
    }
}

/// After a flush.
pub open spec fn decs_flushed(p: DecsState, s: State) -> (DecsState, State) {
    let (p1, s1) = new_decs_flushed(p, s);
    mark_objects_flushed(p1, s1)
}

/// After a new decrement.
pub open spec fn dec_added(p: DecsState, s: State, o: ObjectReference) -> (DecsState, State) {
    let added = DecsState { new_decs: p.new_decs.push(o), ..p };
    if added.new_decs.len() >= s.args.buffer_size {
        decs_flushed(added, s)
    } else {
        (added, s)
    }
}

/// After an object was put aside for marking.
pub open spec fn mark_object_added(p: DecsState, s: State, o: ObjectReference) -> (
    DecsState,
    State,
) {
    let added = DecsState { mark_objects: p.mark_objects.push(o), ..p };
    if added.mark_objects.len() >= s.args.buffer_size {
        decs_flushed(added, s)
    } else {
        (added, s)
    }
}

// Deaths.

/// After a reference of a dying object was considered for remembering.
pub open spec fn dead_reference_recorded(
    p: DecsState,
    s: State,
    slot: Slot,
    o: ObjectReference,
) -> State {
    if s.args.rc_mature_evacuation && p.mark_dead_objects && !s.in_defrag(slot.address)
        && s.in_defrag(o.address) {
        s.with_effect(Effect::RemsetRecord { slot, object: o })
    } else {
        s
    }
}

/// After a slot of a dying object gave up its reference. A child that is counted,
/// and neither dead nor stuck, is to be decremented, unless the slot lies outside
/// the heap; a slot there is considered for remembering instead. Where dead
/// objects are marked, an unmarked child is put aside for marking.
#[verifier::opaque]
pub open spec fn field_released(
    p: DecsState,
    s: State,
    parent: ObjectReference,
    field: Field,
) -> (DecsState, State) {
    match s.load(field.slot) {
        None => (p, s),
        Some(x) => {
            let (p1, s1) = if field.out_of_heap {
                (p, dead_reference_recorded(p, s, field.slot, x))
            } else if s.has_rc(x) && !s.dead_or_stuck(x) {
                dec_added(
                    p,
                    s.traced(
                        x,
                        Event::RecDec {
                            gc: s.diag.gc_count,
                            object: x.address,
                            parent: parent.address,
                            slot: field.slot.address,
                            rc: s.count(x),
                        },
                    ),
                    x,
                )
            } else {
                (p, s)
            };
            if p.mark_dead_objects && s.has_rc(x) && !s.is_marked(x) {
                mark_object_added(p1, s1, x)
            } else {
                (p1, s1)
            }
        },
    }
}

/// After the slots of a dying object gave up their references, in order.
pub open spec fn fields_released(
    p: DecsState,
    s: State,
    parent: ObjectReference,
    fields: Seq<Field>,
) -> (DecsState, State)
    decreases fields.len(),
{
    if fields.len() == 0 {
        (p, s)
    } else {
        let (p1, s1) = fields_released(p, s, parent, fields.drop_last());
        field_released(p1, s1, parent, fields.last())
    }
}

/// After an object died: it is marked where dead objects are, its slots give up
/// their references, and in the Immix space its lines are unmarked and its block
/// may be dead. Its first word is overwritten where that is configured.
#[verifier::opaque]
pub open spec fn object_died(p: DecsState, s: State, o: ObjectReference) -> (DecsState, State) {
    let s1 = death_noted(s, o);
    let s2 = if p.mark_dead_objects {
        s1.with_mark(o)
    } else {
        s1
    };
    let (p3, s3) = fields_released(p, s2, o, s2.shape(o.address).fields);
    let in_immix = s3.immix.has(o.address);
    let s4 = if in_immix {
        s3.with_effect(Effect::UnmarkStraddle { object: o })
    } else {
        s3
    };
    let s5 = if s4.args.poison_dead_objects {
        s4.with_word(o.address, POISON)
    } else {
        s4
    };
    let s6 = if in_immix {
        s5.with_effect(Effect::PossiblyDeadBlock { block: s5.args.block_of(o.address) })
    } else {
        s5
    };
    (p3, s6)
}

// Decrements.

/// Whether a decrement is dropped: the count does not change any more, or mature
/// sweeping is about to free the object.
pub open spec fn dec_dropped(p: DecsState, s: State, o: ObjectReference) -> bool {
    s.dead_or_stuck(o) || (p.mature_sweeping_in_progress && !s.is_marked(o))
}

/// The object that a decrement of `o` is for: where `o` moved, its copy.
pub open spec fn dec_target(s: State, o: ObjectReference) -> ObjectReference {
    if s.args.rc_mature_evacuation && s.immix.has(o.address) {
        match s.forwarding_of(o) {
            Forwarding::Forwarded(new) => new,
            _ => o,
        }
    } else {
        o
    }
}

/// The count after a decrement: nothing where it does not change any more.
pub open spec fn lowered(count: u8, max: u8) -> Option<u8> {
    if count == 0 || count == max {
        None
    } else {
        Some((count - 1) as u8)
    }
}

/// After the count of an object was lowered. The last reference takes the object
/// with it; a large object is freed.
#[verifier::opaque]
pub open spec fn lowered_or_died(p: DecsState, s: State, o: ObjectReference) -> (DecsState, State) {
    let old = s.count(o);
    let dead = old == 1;
    let (p1, s1) = if dead {
        object_died(p, s, o)
    } else {
        (p, s)
    };
    let gc = s1.diag.gc_count;
    let s2 = match lowered(old, s.args.max_ref_count) {
        Some(new) => s1.with_count(o, new).traced(
            o,
            Event::Dec { gc, object: o.address, old, dead },
        ),
        None => s1.traced(o, Event::DecStuck { gc, object: o.address, old, dead }),
    };
    let s3 = if dead && !s.immix.has(o.address) {
        s2.with_effect(Effect::RcFree { object: o })
    } else {
        s2
    };
    (p1, s3)
}

/// After a decrement. Objects without a count are left alone.
#[verifier::opaque]
pub open spec fn dec_processed(p: DecsState, s: State, o: ObjectReference) -> (DecsState, State) {
    let gc = s.diag.gc_count;
    if !s.has_rc(o) {
        (p, s.traced(o, Event::DecSkipSpace { gc, object: o.address }))
    } else if dec_dropped(p, s, o) {
        (
            p,
            s.traced(
                o,
                Event::DecSkip {
                    gc,
                    object: o.address,
                    rc: s.count(o),
                    dead_or_stuck: s.dead_or_stuck(o),
                    unmarked: p.mature_sweeping_in_progress && !s.is_marked(o),
                },
            ),
        )
    } else {
        lowered_or_died(p, s, dec_target(s, o))
    }
}

/// After decrements, in order.
pub open spec fn decs_processed(p: DecsState, s: State, decs: Seq<ObjectReference>) -> (
    DecsState,
    State,
)
    decreases decs.len(),
{
    if decs.len() == 0 {
        (p, s)
    } else {
        let (p1, s1) = decs_processed(p, s, decs.drop_last());
        dec_processed(p1, s1, decs.last())
    }
}

// The packet.

/// Whether dead objects are marked: marking goes on, and did not start in the
/// pause that the decrements belong to.
pub open spec fn marks_dead_objects(s: State) -> bool {
    s.phase.cm_in_progress && (if s.args.lazy_decrements {
        s.phase.previous_pause
    } else {
        s.phase.current_pause
    }) != Some(Pause::InitialMark)
}

/// Whether mature sweeping goes on: marking ended in the pause that the
/// decrements belong to, or the pause is a full collection.
pub open spec fn sweeps_mature_objects(s: State) -> bool {
    (if s.args.lazy_decrements {
        s.phase.previous_pause
    } else {
        s.phase.current_pause
    }) == Some(Pause::FinalMark) || s.phase.current_pause == Some(Pause::Full)
}

/// A packet that starts.
pub open spec fn decs_begun(p: DecsState, s: State) -> (DecsState, State) {
    let s1 = if s.diag.death_diag {
        State {
            diag: crate::state::DiagView { gc_cycle: counted(s.diag.gc_cycle), ..s.diag },
            ..s
        }
    } else {
        s
    };
    let s2 = if s1.diag.rc_trace {
        gc_counted(s1)
    } else {
        s1
    };
    (
        DecsState {
            mark_dead_objects: marks_dead_objects(s),
            mature_sweeping_in_progress: sweeps_mature_objects(s),
            ..p
        },
        s2,
    )
}

/// After the decrements that the packet was given: its own, or those that it
/// shares.
pub open spec fn given_decs_processed(p: DecsState, s: State) -> (DecsState, State) {
    match p.decs {
        Some(decs) => decs_processed(DecsState { decs: None, ..p }, s, decs),
        None => match p.decs_arc {
            Some(decs) => decs_processed(DecsState { decs_arc: None, ..p }, s, decs),
            None => (p, s),
        },
    }
}

} // verus!
