//! What holds of the write barrier.

use crate::barrier::barrier_flushed;
use crate::barrier::covers_region;
use crate::barrier::exchange_recorded;
use crate::barrier::keeps_snapshot;
use crate::barrier::node_enqueued;
use crate::barrier::nodes_enqueued;
use crate::barrier::old_value_recorded;
use crate::barrier::old_values_flushed;
use crate::barrier::region_is_logged;
use crate::barrier::region_recorded;
use crate::barrier::slots_flushed;
use crate::barrier::weak_refs_flushed;
use crate::barrier::write_recorded;
use crate::barrier::BarrierState;
use crate::logging::lemma_stored_bit;
use crate::logging::lemma_zero_byte;
use crate::object::MemorySlice;
use crate::object::ObjectReference;
use crate::object::Slot;
use crate::state::State;
use crate::state::SubmissionView;
use crate::state::WorkView;
use crate::state::LOGGED_VALUE;
use vstd::prelude::*;

verus! {

/// The slots in packets of written slots, in the order in which they were handed
/// over.
pub open spec fn slots_in_work(work: Seq<SubmissionView>) -> Seq<Slot>
    decreases work.len(),
{
    if work.len() == 0 {
        Seq::empty()
    } else {
        let before = slots_in_work(work.drop_last());
        match work.last().work {
            WorkView::MatureIncs(packet) => before + packet.incs,
            _ => before,
        }
    }
}

/// The objects in packets of decrements, in the order in which they were handed
/// over.
pub open spec fn decs_in_work(work: Seq<SubmissionView>) -> Seq<ObjectReference>
    decreases work.len(),
{
    if work.len() == 0 {
        Seq::empty()
    } else {
        let before = decs_in_work(work.drop_last());
        match work.last().work {
            WorkView::Decs(packet) => match packet.decs {
                Some(decs) => before + decs,
                None => match packet.decs_arc {
                    Some(decs) => before + decs,
                    None => before,
                },
            },
            _ => before,
        }
    }
}

/// The objects that were handed to marking, in order.
pub open spec fn snapshot_in_work(work: Seq<SubmissionView>) -> Seq<ObjectReference>
    decreases work.len(),
{
    if work.len() == 0 {
        Seq::empty()
    } else {
        let before = snapshot_in_work(work.drop_last());
        match work.last().work {
            WorkView::ModBufSatb(nodes) => before + nodes,
            _ => before,
        }
    }
}

/// The slots that a barrier has recorded, whether handed over or not.
pub open spec fn recorded_slots(b: BarrierState, s: State) -> Seq<Slot> {
    slots_in_work(s.work) + b.incs
}

/// The old values that a barrier has recorded, whether handed over or not.
pub open spec fn recorded_old_values(b: BarrierState, s: State) -> Seq<ObjectReference> {
    decs_in_work(s.work) + b.decs
}

/// A value as a list.
pub open spec fn as_list(o: Option<ObjectReference>) -> Seq<ObjectReference> {
    match o {
        Some(o) => seq![o],
        None => Seq::empty(),
    }
}

/// What one more submission adds.
pub proof fn lemma_submitted(work: Seq<SubmissionView>, w: SubmissionView)
    ensures
        slots_in_work(work.push(w)) == (match w.work {
            WorkView::MatureIncs(packet) => slots_in_work(work) + packet.incs,
            _ => slots_in_work(work),
        }),
        decs_in_work(work.push(w)) == (match w.work {
            WorkView::Decs(packet) => match packet.decs {
                Some(decs) => decs_in_work(work) + decs,
                None => match packet.decs_arc {
                    Some(decs) => decs_in_work(work) + decs,
                    None => decs_in_work(work),
                },
            },
            _ => decs_in_work(work),
        }),
        snapshot_in_work(work.push(w)) == (match w.work {
            WorkView::ModBufSatb(nodes) => snapshot_in_work(work) + nodes,
            _ => snapshot_in_work(work),
        }),
{
    assert(work.push(w).drop_last() =~= work);
}

/// What the flush of slots keeps.
proof fn lemma_slots_flushed(b: BarrierState, s: State)
    ensures
        ({
            let (c, t) = slots_flushed(b, s);
            &&& recorded_slots(c, t) == recorded_slots(b, s)
            &&& recorded_old_values(c, t) == recorded_old_values(b, s)
            &&& snapshot_in_work(t.work) == snapshot_in_work(s.work)
            &&& c.incs.len() == 0
            &&& c.decs == b.decs
            &&& c.refs == b.refs
            &&& t == (State { work: t.work, inc_buffer_size: t.inc_buffer_size, ..s })
        }),
{
    let (c, t) = slots_flushed(b, s);
    if b.incs.len() > 0 {
        lemma_submitted(s.work, t.work.last());
        assert(t.work =~= s.work.push(t.work.last()));
    }
    assert(recorded_slots(c, t) =~= recorded_slots(b, s));
}

/// What the flush of old values keeps.
proof fn lemma_old_values_flushed(b: BarrierState, s: State)
    ensures
        ({
            let (c, t) = old_values_flushed(b, s);
            &&& recorded_slots(c, t) == recorded_slots(b, s)
            &&& recorded_old_values(c, t) == recorded_old_values(b, s)
            &&& snapshot_in_work(t.work) == (if keeps_snapshot(s) {
                snapshot_in_work(s.work) + b.decs
            } else {
                snapshot_in_work(s.work)
            })
            &&& c.incs == b.incs
            &&& c.decs.len() == 0
            &&& c.refs == b.refs
            &&& t == (State { work: t.work, ..s })
        }),
{
    let (c, t) = old_values_flushed(b, s);
    if b.decs.len() > 0 {
        if keeps_snapshot(s) {
            let middle = t.work.drop_last();
            lemma_submitted(s.work, middle.last());
            lemma_submitted(middle, t.work.last());
            assert(middle =~= s.work.push(middle.last()));
            assert(t.work =~= middle.push(t.work.last()));
        } else {
            lemma_submitted(s.work, t.work.last());
            assert(t.work =~= s.work.push(t.work.last()));
        }
    } else {
        assert(snapshot_in_work(s.work) + b.decs =~= snapshot_in_work(s.work));
    }
    assert(recorded_old_values(c, t) =~= recorded_old_values(b, s));
}

/// A write that is recorded is recorded once: its slot, and the value that it
/// replaced where there was one, come behind what was recorded before. Nothing
/// that was recorded is lost.
pub proof fn write_is_recorded_once(
    b: BarrierState,
    s: State,
    slot: Slot,
    old_value: Option<ObjectReference>,
)
    ensures
        ({
            let (c, t) = write_recorded(b, s, slot, old_value);
            &&& recorded_slots(c, t) == recorded_slots(b, s).push(slot)
            &&& recorded_old_values(c, t) == recorded_old_values(b, s) + as_list(old_value)
            &&& c.refs == b.refs
            &&& t == (State { work: t.work, inc_buffer_size: t.inc_buffer_size, ..s })
        }),
{
    let (b1, s1) = old_value_recorded(b, s, old_value);
    match old_value {
        Some(o) => {
            let added = BarrierState { decs: b.decs.push(o), ..b };
            lemma_old_values_flushed(added, s);
            assert(recorded_old_values(added, s) =~= recorded_old_values(b, s) + as_list(
                old_value,
            ));
        },
        None => {
            assert(recorded_old_values(b, s) =~= recorded_old_values(b, s) + as_list(old_value));
        },
    }
    let added = BarrierState { incs: b1.incs.push(slot), ..b1 };
    lemma_slots_flushed(added, s1);
    assert(recorded_slots(added, s1) =~= recorded_slots(b1, s1).push(slot));
}

/// The barrier of a write either records the write once, with the value that the
/// slot holds, or does nothing. In the heap it records the write just where the
/// slot was not logged; outside the heap it always does.
pub proof fn write_barrier_records(b: BarrierState, s: State, slot: Slot)
    ensures
        ({
            let (c, t, recorded) = node_enqueued(b, s, slot);
            &&& recorded == (!s.args.in_heap(slot.address) || s.logging_state(slot.address)
                != LOGGED_VALUE)
            &&& recorded ==> {
                &&& recorded_slots(c, t) == recorded_slots(b, s).push(slot)
                &&& recorded_old_values(c, t) == recorded_old_values(b, s) + as_list(s.load(slot))
            }
            &&& !recorded ==> c == b && t == s
        }),
{
    if !s.args.in_heap(slot.address) {
        write_is_recorded_once(b, s, slot, s.load(slot));
    } else if s.logging_state(slot.address) != LOGGED_VALUE {
        write_is_recorded_once(
            b,
            s.with_logging_state(slot.address, LOGGED_VALUE),
            slot,
            s.load(slot),
        );
    }
}

/// The barrier changes memory, counts, marks, and all else that is not its own
/// record in no way. Outside the heap it does not touch unlog bits.
pub proof fn write_barrier_frame(b: BarrierState, s: State, slot: Slot)
    ensures
        ({
            let (c, t, _) = node_enqueued(b, s, slot);
            &&& t == (State {
                unlog: t.unlog,
                work: t.work,
                inc_buffer_size: t.inc_buffer_size,
                ..s
            })
            &&& !s.args.in_heap(slot.address) ==> t.unlog == s.unlog
        }),
{
    write_is_recorded_once(b, s, slot, s.load(slot));
    write_is_recorded_once(
        b,
        s.with_logging_state(slot.address, LOGGED_VALUE),
        slot,
        s.load(slot),
    );
}

/// The barrier logs a slot in the heap, and never makes a logged slot fire again.
pub proof fn barrier_logs(b: BarrierState, s: State, slot: Slot, other: usize)
    ensures
        ({
            let (_, t, _) = node_enqueued(b, s, slot);
            &&& s.args.in_heap(slot.address) ==> t.logging_state(slot.address) == LOGGED_VALUE
            &&& s.logging_state(other) == LOGGED_VALUE ==> t.logging_state(other) == LOGGED_VALUE
        }),
{
    let (_, t, _) = node_enqueued(b, s, slot);
    write_is_recorded_once(b, s, slot, s.load(slot));
    let logged = s.with_logging_state(slot.address, LOGGED_VALUE);
    write_is_recorded_once(b, logged, slot, s.load(slot));
    lemma_stored_bit(s, slot.address, LOGGED_VALUE, slot.address);
    lemma_stored_bit(s, slot.address, LOGGED_VALUE, other);
    if !s.args.in_heap(slot.address) || s.logging_state(slot.address) == LOGGED_VALUE {
        assert(t.logging_state(other) == s.logging_state(other));
        assert(t.logging_state(slot.address) == s.logging_state(slot.address));
    } else {
        assert(t.logging_state(other) == logged.logging_state(other));
        assert(t.logging_state(slot.address) == logged.logging_state(slot.address));
    }
}

/// A logged slot stays logged through any writes.
pub proof fn logged_slots_stay_logged(b: BarrierState, s: State, slots: Seq<Slot>, other: usize)
    ensures
        s.logging_state(other) == LOGGED_VALUE ==> nodes_enqueued(
            b,
            s,
            slots,
        ).1.logging_state(other) == LOGGED_VALUE,
        nodes_enqueued(b, s, slots).1.args == s.args,
    decreases slots.len(),
{
    if slots.len() > 0 {
        let (b1, s1) = nodes_enqueued(b, s, slots.drop_last());
        logged_slots_stay_logged(b, s, slots.drop_last(), other);
        barrier_logs(b1, s1, slots.last(), other);
        write_barrier_frame(b1, s1, slots.last());
    }
}

/// Only the first write to a slot in the heap fires: whatever is written after
/// it, a later write to the slot records nothing, and neither does an exchange.
pub proof fn only_the_first_write_fires(
    b: BarrierState,
    s: State,
    slot: Slot,
    between: Seq<Slot>,
    c: BarrierState,
    old_value: Option<ObjectReference>,
)
    requires
        s.args.in_heap(slot.address),
    ensures
        ({
            let (b1, s1, _) = node_enqueued(b, s, slot);
            let (_, s2) = nodes_enqueued(b1, s1, between);
            &&& node_enqueued(c, s2, slot) == (c, s2, false)
            &&& exchange_recorded(c, s2, slot, old_value) == (c, s2)
        }),
{
    let (b1, s1, _) = node_enqueued(b, s, slot);
    barrier_logs(b, s, slot, slot.address);
    write_barrier_frame(b, s, slot);
    logged_slots_stay_logged(b1, s1, between, slot.address);
}

/// An exchange is recorded as a write is, with the value that it replaced: once,
/// in the heap, where the slot was not logged. It logs the slot.
pub proof fn exchange_fires_once(
    b: BarrierState,
    s: State,
    slot: Slot,
    old_value: Option<ObjectReference>,
    c: BarrierState,
    later: Option<ObjectReference>,
)
    ensures
        ({
            let (b1, s1) = exchange_recorded(b, s, slot, old_value);
            let fires = s.args.in_heap(slot.address) && s.logging_state(slot.address)
                != LOGGED_VALUE;
            &&& fires ==> {
                &&& recorded_slots(b1, s1) == recorded_slots(b, s).push(slot)
                &&& recorded_old_values(b1, s1) == recorded_old_values(b, s) + as_list(old_value)
            }
            &&& !fires ==> b1 == b && s1 == s
            &&& exchange_recorded(c, s1, slot, later) == (c, s1)
        }),
{
    let logged = s.with_logging_state(slot.address, LOGGED_VALUE);
    write_is_recorded_once(b, logged, slot, old_value);
    lemma_stored_bit(s, slot.address, LOGGED_VALUE, slot.address);
    let (_, s1) = exchange_recorded(b, s, slot, old_value);
    if s.args.in_heap(slot.address) && s.logging_state(slot.address) != LOGGED_VALUE {
        assert(s1.logging_state(slot.address) == logged.logging_state(slot.address));
    }
}

/// A flush leaves nothing behind in the barrier, and loses nothing: what was
/// recorded has been handed over, in order. Where marking needs old values, it
/// gets the weak references that were read and the old values.
pub proof fn flush_hands_everything_over(b: BarrierState, s: State)
    ensures
        ({
            let (c, t) = barrier_flushed(b, s);
            &&& c == BarrierState::empty()
            &&& slots_in_work(t.work) == recorded_slots(b, s)
            &&& decs_in_work(t.work) == recorded_old_values(b, s)
            &&& snapshot_in_work(t.work) == snapshot_in_work(s.work) + b.refs + (
            if keeps_snapshot(s) {
                b.decs
            } else {
                Seq::empty()
            })
        }),
{
    let (b1, s1) = weak_refs_flushed(b, s);
    if b.refs.len() > 0 {
        lemma_submitted(s.work, s1.work.last());
        assert(s1.work =~= s.work.push(s1.work.last()));
    } else {
        assert(snapshot_in_work(s.work) + b.refs =~= snapshot_in_work(s.work));
    }
    let (b2, s2) = slots_flushed(b1, s1);
    lemma_slots_flushed(b1, s1);
    lemma_old_values_flushed(b2, s2);
    let (c, t) = barrier_flushed(b, s);
    assert(c.incs =~= Seq::<Slot>::empty());
    assert(c.decs =~= Seq::<ObjectReference>::empty());
    assert(c.refs =~= Seq::<ObjectReference>::empty());
    assert(slots_in_work(t.work) =~= recorded_slots(c, t));
    assert(decs_in_work(t.work) =~= recorded_old_values(c, t));
    let nothing = Seq::<ObjectReference>::empty();
    assert(snapshot_in_work(s.work) + b.refs + nothing =~= snapshot_in_work(s.work) + b.refs);
}

/// Writes to logged slots in the heap do nothing.
proof fn lemma_logged_writes(b: BarrierState, s: State, slots: Seq<Slot>)
    requires
        forall|i: int|
            0 <= i < slots.len() ==> s.args.in_heap((#[trigger] slots[i]).address)
                && s.logging_state(slots[i].address) == LOGGED_VALUE,
    ensures
        nodes_enqueued(b, s, slots) == (b, s),
    decreases slots.len(),
{
    if slots.len() > 0 {
        assert forall|i: int| 0 <= i < slots.drop_last().len() implies s.args.in_heap(
            (#[trigger] slots.drop_last()[i]).address,
        ) && s.logging_state(slots.drop_last()[i].address) == LOGGED_VALUE by {
            assert(slots.drop_last()[i] == slots[i]);
        }
        lemma_logged_writes(b, s, slots.drop_last());
    }
}

/// Skipping the copy barrier where all metadata is zero makes no difference for
/// a region in the heap: writing its slots one by one would record nothing.
pub proof fn quick_region_check_is_sound(b: BarrierState, s: State, dst: MemorySlice)
    requires
        s.args.wf(),
        dst.wf(),
        forall|i: int| 0 <= i < dst.len ==> s.args.in_heap((#[trigger] dst.slots()[i]).address),
    ensures
        region_recorded(b, s, dst) == nodes_enqueued(b, s, dst.slots()),
{
    if region_is_logged(s, dst) {
        let slots = dst.slots();
        assert forall|i: int| 0 <= i < slots.len() implies s.args.in_heap(
            (#[trigger] slots[i]).address,
        ) && s.logging_state(slots[i].address) == LOGGED_VALUE by {
            lemma_slot_covered(s, dst, i);
            let meta = s.args.meta_address(slots[i].address);
            assert(covers_region(s, dst, meta));
            assert(s.unlog_byte(meta) == 0);
            lemma_zero_byte(s, slots[i].address);
        }
        lemma_logged_writes(b, s, slots);
    }
}

/// The metadata byte of a slot of a region is among those that are checked.
pub proof fn lemma_slot_covered(s: State, dst: MemorySlice, i: int)
    requires
        s.args.wf(),
        dst.wf(),
        0 <= i < dst.len,
    ensures
        covers_region(s, dst, s.args.meta_address(dst.slots()[i].address)),
{
    let address = dst.slots()[i].address;
    let last = (dst.start + dst.bytes() - 1) as usize;
    assert(0 <= i * dst.slot_bytes && i * dst.slot_bytes + 1 <= dst.len * dst.slot_bytes)
        by (nonlinear_arith)
        requires
            0 <= i < dst.len,
            0 < dst.slot_bytes,
    ;
    assert(dst.start <= address <= last);
    if s.args.compressed_pointers {
        assert(dst.start / 32usize <= address / 32usize);
    } else {
        assert(dst.start / 64usize <= address / 64usize);
    }
}

} // verus!
