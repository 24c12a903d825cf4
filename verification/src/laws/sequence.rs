//! What holds of steps in a row: many at once do what the same steps do one after the
//! other.

use crate::barrier::nodes_enqueued;
use crate::barrier::BarrierState;
use crate::decrements::dec_processed;
use crate::decrements::decs_begun;
use crate::decrements::decs_flushed;
use crate::decrements::decs_processed;
use crate::decrements::field_released;
use crate::decrements::fields_released;
use crate::decs::decs_done;
use crate::decs::decs_drained;
use crate::inc_work::given_processed;
use crate::inc_work::incs_begun;
use crate::inc_work::incs_done;
use crate::inc_work::incs_drained;
use crate::inc_work::lemma_round;
use crate::increments::child_scanned;
use crate::increments::children_scanned;
use crate::increments::slice_added;
use crate::increments::slices_added;
use crate::increments::slices_processed;
use crate::increments::slot_processed;
use crate::increments::slots_processed;
use crate::laws::barrier::as_list;
use crate::laws::deaths::given;
use crate::laws::increments::slots_of;
use crate::object::Field;
use crate::object::MemorySlice;
use crate::object::ObjectReference;
use crate::object::Slot;
use crate::packets::EDGE_KIND_NURSERY;
use crate::packets::EDGE_KIND_ROOT;
use crate::progress::bounded;
use crate::release::lemma_decs_processed;
use crate::state::DecsState;
use crate::state::IncsState;
use crate::state::State;
use vstd::prelude::*;

verus! {

// Increments.

/// The increments of two lists of slots are those of the first list and, after them, those
/// of the second; no slots do nothing.
pub proof fn slots_come_one_after_the_other(
    p: IncsState,
    s: State,
    kind: u8,
    a: Seq<Slot>,
    b: Seq<Slot>,
    depth: u32,
    record: bool,
)
    ensures
        ({
            let (p1, s1, first) = slots_processed(p, s, kind, a, depth, record);
            let (p2, s2, second) = slots_processed(p1, s1, kind, b, depth, record);
            slots_processed(p, s, kind, a + b, depth, record) == (p2, s2, first + second)
        }),
        slots_processed(p, s, kind, Seq::empty(), depth, record) == (
            p,
            s,
            Seq::<ObjectReference>::empty(),
        ),
    decreases b.len(),
{
    let (p1, s1, first) = slots_processed(p, s, kind, a, depth, record);
    let (p2, s2, second) = slots_processed(p1, s1, kind, b, depth, record);
    if b.len() == 0 {
        assert(a + b =~= a);
        assert(first + second =~= first);
    } else {
        assert((a + b).drop_last() =~= a + b.drop_last());
        slots_come_one_after_the_other(p, s, kind, a, b.drop_last(), depth, record);
        let before = slots_processed(p1, s1, kind, b.drop_last(), depth, record).2;
        let all = slots_processed(p, s, kind, a + b, depth, record).2;
        assert(all =~= first + second);
    }
}

/// The increments of one slot in a list are the increment of that slot.
pub proof fn one_slot_is_one_increment(
    p: IncsState,
    s: State,
    kind: u8,
    slot: Slot,
    depth: u32,
    record: bool,
)
    ensures
        ({
            let (q, t, object) = slot_processed(p, s, kind, slot, depth, record);
            slots_processed(p, s, kind, seq![slot], depth, record) == (q, t, as_list(object))
        }),
{
    assert(seq![slot].drop_last() =~= Seq::<Slot>::empty());
    assert(seq![slot].last() == slot);
    slots_come_one_after_the_other(
        p,
        s,
        kind,
        Seq::empty(),
        Seq::empty(),
        depth,
        record,
    );
    let (_, _, object) = slot_processed(p, s, kind, slot, depth, record);
    let all = slots_processed(p, s, kind, seq![slot], depth, record).2;
    assert(all =~= as_list(object));
}

/// The increments of slices are those of all their slots, in order.
pub proof fn slices_are_their_slots(
    p: IncsState,
    s: State,
    kind: u8,
    slices: Seq<MemorySlice>,
    depth: u32,
)
    ensures
        ({
            let (q, t, _) = slots_processed(p, s, kind, slots_of(slices), depth, false);
            slices_processed(p, s, kind, slices, depth) == (q, t)
        }),
    decreases slices.len(),
{
    if slices.len() > 0 {
        let before = slots_of(slices.drop_last());
        let last = slices.last().slots();
        slices_are_their_slots(p, s, kind, slices.drop_last(), depth);
        slots_come_one_after_the_other(p, s, kind, before, last, depth, false);
    } else {
        slots_come_one_after_the_other(p, s, kind, Seq::empty(), Seq::empty(), depth, false);
        assert(slots_of(slices) =~= Seq::<Slot>::empty());
    }
}

/// A packet processes all slots that it was given, and after them all slots of the slices
/// that it was given. Only for roots it says where their objects are.
pub proof fn packet_processes_all_it_was_given(p: IncsState, s: State, kind: u8)
    ensures
        ({
            let record = kind == EDGE_KIND_ROOT && p.root_kind is Some
                && p.root_kind->0.record_remset;
            let start = IncsState { incs: Seq::empty(), ..p };
            let (p1, s1, objects) = slots_processed(start, s, kind, p.incs, p.depth, record);
            let (p2, s2, _) = slots_processed(
                IncsState { inc_slices: Seq::empty(), ..p1 },
                s1,
                kind,
                slots_of(p.inc_slices),
                p.depth,
                false,
            );
            given_processed(p, s, kind) == (
                p2,
                s2,
                if kind == EDGE_KIND_ROOT {
                    objects
                } else {
                    Seq::empty()
                },
            )
        }),
{
    let record = kind == EDGE_KIND_ROOT && p.root_kind is Some && p.root_kind->0.record_remset;
    let start = IncsState { incs: Seq::empty(), ..p };
    let (p1, s1, _) = slots_processed(start, s, kind, p.incs, p.depth, record);
    slices_are_their_slots(
        IncsState { inc_slices: Seq::empty(), ..p1 },
        s1,
        kind,
        p.inc_slices,
        p.depth,
    );
}

/// While there are new increments, a packet takes all of them and processes them, the
/// slots one level deeper and after them the slots of the slices, and goes on with what
/// comes of that. Without new increments it is done.
pub proof fn packet_processes_all_it_finds(p: IncsState, s: State, depth: u32)
    requires
        bounded(s),
    ensures
        p.new_incs.len() == 0 && p.new_inc_slices.len() == 0 ==> incs_drained(p, s, depth) == (
            p,
            s,
        ),
        p.new_incs.len() > 0 || p.new_inc_slices.len() > 0 ==> ({
            let deeper = depth.wrapping_add(1);
            let start = IncsState {
                new_incs: Seq::empty(),
                new_inc_slices: Seq::empty(),
                new_incs_count: 0,
                ..p
            };
            let (p1, s1, _) = slots_processed(
                start,
                s,
                EDGE_KIND_NURSERY,
                p.new_incs,
                deeper,
                false,
            );
            let (p2, s2, _) = slots_processed(
                p1,
                s1,
                EDGE_KIND_NURSERY,
                slots_of(p.new_inc_slices),
                p.depth,
                false,
            );
            incs_drained(p, s, depth) == incs_drained(p2, s2, deeper)
        }),
{
    if p.new_incs.len() > 0 || p.new_inc_slices.len() > 0 {
        let deeper = depth.wrapping_add(1);
        lemma_round(p, s, deeper);
        let (p1, s1, _) = slots_processed(
            p.emptied(),
            s,
            EDGE_KIND_NURSERY,
            p.new_incs,
            deeper,
            false,
        );
        slices_are_their_slots(p1, s1, EDGE_KIND_NURSERY, p.new_inc_slices, p.depth);
        let (p2, s2) = crate::inc_work::round_processed(p, s, deeper);
        if !p2.pending() {
            assert(incs_drained(p2, s2, deeper) == (p2, s2));
        }
    }
}

/// A packet is done when it has processed what it was given, and after that everything
/// that it found, in the state that the hand-over of its roots leaves, which differs in
/// submitted work and kept roots alone. It ends by reporting the sizes of its copies.
pub proof fn packet_goes_on_until_nothing_is_left(
    p: IncsState,
    s: State,
    kind: u8,
    elapsed_millis: u128,
)
    ensures
        ({
            let (p1, s1) = incs_begun(p, s, s.phase.current_pause->0, elapsed_millis);
            let (p2, s2, roots) = given_processed(p1, s1, kind);
            let (q, t) = incs_done(p, s, kind, elapsed_millis);
            &&& exists|u: State|
                {
                    &&& u == (State { work: u.work, curr_roots: u.curr_roots, ..s2 })
                    &&& kind != EDGE_KIND_ROOT ==> u == s2
                    &&& q == (IncsState {
                        copied_sizes: Seq::empty(),
                        ..(#[trigger] incs_drained(p2, u, p.depth)).0
                    })
                    &&& t == (State {
                        survival: incs_drained(p2, u, p.depth).1.survival + incs_drained(
                            p2,
                            u,
                            p.depth,
                        ).0.copied_sizes,
                        ..incs_drained(p2, u, p.depth).1
                    })
                }
        }),
{
    let pause = s.phase.current_pause->0;
    let (p1, s1) = incs_begun(p, s, pause, elapsed_millis);
    let (p2, s2, roots) = given_processed(p1, s1, kind);
    let slots = if crate::inc_work::traces_roots(pause) {
        p.incs
    } else {
        Seq::empty()
    };
    let u = if roots.len() > 0 {
        crate::inc_work::roots_handed_over(s2, pause, p.root_kind, slots, roots)
    } else {
        s2
    };
    let (q, t) = incs_done(p, s, kind, elapsed_millis);
    let (p4, s4) = incs_drained(p2, u, p.depth);
    assert(q == (IncsState { copied_sizes: Seq::empty(), ..p4 }));
    assert(t == (State { survival: s4.survival + p4.copied_sizes, ..s4 }));
}

/// The scan of two lists of fields is that of the first and, after it, that of the second;
/// one field is looked at as such, and no fields do nothing.
pub proof fn fields_are_scanned_one_after_the_other(
    p: IncsState,
    s: State,
    o: ObjectReference,
    in_defrag: bool,
    a: Seq<Field>,
    b: Seq<Field>,
    field: Field,
)
    ensures
        ({
            let (p1, s1) = children_scanned(p, s, o, in_defrag, a);
            children_scanned(p, s, o, in_defrag, a + b) == children_scanned(
                p1,
                s1,
                o,
                in_defrag,
                b,
            )
        }),
        children_scanned(p, s, o, in_defrag, seq![field]) == child_scanned(
            p,
            s,
            o,
            in_defrag,
            field.slot,
        ),
        children_scanned(p, s, o, in_defrag, Seq::empty()) == (p, s),
    decreases b.len(),
{
    assert(seq![field].drop_last() =~= Seq::<Field>::empty());
    assert(children_scanned(p, s, o, in_defrag, Seq::<Field>::empty()) == (p, s));
    assert(seq![field].last() == field);
    let (p1, s1) = children_scanned(p, s, o, in_defrag, a);
    if b.len() == 0 {
        assert(a + b =~= a);
    } else {
        assert((a + b).drop_last() =~= a + b.drop_last());
        fields_are_scanned_one_after_the_other(p, s, o, in_defrag, a, b.drop_last(), field);
    }
}

/// Slices are queued one after the other.
pub proof fn slices_are_queued_one_after_the_other(
    p: IncsState,
    s: State,
    slices: Seq<MemorySlice>,
    slice: MemorySlice,
)
    ensures
        ({
            let (p1, s1) = slices_added(p, s, slices);
            slices_added(p, s, slices.push(slice)) == slice_added(p1, s1, slice)
        }),
        slices_added(p, s, Seq::empty()) == (p, s),
{
    assert(slices.push(slice).drop_last() =~= slices);
}

// Decrements.

/// The decrements of two lists are those of the first and, after them, those of the second;
/// one decrement in a list is that decrement, and none do nothing.
pub proof fn decrements_come_one_after_the_other(
    p: DecsState,
    s: State,
    a: Seq<ObjectReference>,
    b: Seq<ObjectReference>,
    o: ObjectReference,
)
    ensures
        ({
            let (p1, s1) = decs_processed(p, s, a);
            decs_processed(p, s, a + b) == decs_processed(p1, s1, b)
        }),
        decs_processed(p, s, seq![o]) == dec_processed(p, s, o),
        decs_processed(p, s, Seq::empty()) == (p, s),
    decreases b.len(),
{
    assert(seq![o].drop_last() =~= Seq::<ObjectReference>::empty());
    assert(decs_processed(p, s, Seq::<ObjectReference>::empty()) == (p, s));
    assert(seq![o].last() == o);
    if b.len() == 0 {
        assert(a + b =~= a);
    } else {
        assert((a + b).drop_last() =~= a + b.drop_last());
        decrements_come_one_after_the_other(p, s, a, b.drop_last(), o);
    }
}

/// While there are new decrements, a packet takes all of them and processes them, and goes
/// on with what comes of that. Without new decrements it is done.
pub proof fn packet_processes_all_new_decrements(p: DecsState, s: State)
    requires
        bounded(s),
    ensures
        p.new_decs.len() == 0 ==> decs_drained(p, s) == (p, s),
        p.new_decs.len() > 0 ==> ({
            let (p1, s1) = decs_processed(
                DecsState { new_decs: Seq::empty(), ..p },
                s,
                p.new_decs,
            );
            decs_drained(p, s) == decs_drained(p1, s1)
        }),
{
    if p.new_decs.len() > 0 {
        let p0 = DecsState { new_decs: Seq::empty(), ..p };
        lemma_decs_processed(p0, s, p.new_decs);
        let (p1, s1) = decs_processed(p0, s, p.new_decs);
        if p1.new_decs.len() == 0 {
            assert(decs_drained(p1, s1) == (p1, s1));
        }
    }
}

/// A packet of decrements is done when it has processed all that it was given, its own
/// decrements or else those that it shares, and after that everything that it found, and
/// has handed over what is left.
pub proof fn decrements_go_on_until_nothing_is_left(p: DecsState, s: State)
    ensures
        ({
            let (p1, s1) = decs_begun(p, s);
            let start = if p.decs is Some {
                DecsState { decs: None, ..p1 }
            } else {
                DecsState { decs_arc: None, ..p1 }
            };
            let (p2, s2) = decs_processed(start, s1, given(p));
            let (p3, s3) = decs_drained(p2, s2);
            decs_done(p, s) == decs_flushed(p3, s3)
        }),
{
    let (p1, s1) = decs_begun(p, s);
    assert(given(p1) == given(p));
    assert(p1.decs is None && p1.decs_arc is None ==> p1 == (DecsState { decs_arc: None, ..p1 }));
}

/// The fields of a dying object give up their references one after the other.
pub proof fn fields_are_released_one_after_the_other(
    p: DecsState,
    s: State,
    o: ObjectReference,
    a: Seq<Field>,
    b: Seq<Field>,
    field: Field,
)
    ensures
        ({
            let (p1, s1) = fields_released(p, s, o, a);
            fields_released(p, s, o, a + b) == fields_released(p1, s1, o, b)
        }),
        fields_released(p, s, o, seq![field]) == field_released(p, s, o, field),
        fields_released(p, s, o, Seq::empty()) == (p, s),
    decreases b.len(),
{
    assert(seq![field].drop_last() =~= Seq::<Field>::empty());
    assert(fields_released(p, s, o, Seq::<Field>::empty()) == (p, s));
    assert(seq![field].last() == field);
    if b.len() == 0 {
        assert(a + b =~= a);
    } else {
        assert((a + b).drop_last() =~= a + b.drop_last());
        fields_are_released_one_after_the_other(p, s, o, a, b.drop_last(), field);
    }
}

// Barriers.

/// The barrier of two lists of slots is that of the first and, after it, that of the
/// second; no slots do nothing.
pub proof fn writes_come_one_after_the_other(
    b: BarrierState,
    s: State,
    first: Seq<Slot>,
    second: Seq<Slot>,
)
    ensures
        ({
            let (b1, s1) = nodes_enqueued(b, s, first);
            nodes_enqueued(b, s, first + second) == nodes_enqueued(b1, s1, second)
        }),
        nodes_enqueued(b, s, Seq::empty()) == (b, s),
    decreases second.len(),
{
    if second.len() == 0 {
        assert(first + second =~= first);
    } else {
        assert((first + second).drop_last() =~= first + second.drop_last());
        writes_come_one_after_the_other(b, s, first, second.drop_last());
    }
}

} // verus!
