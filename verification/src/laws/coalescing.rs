//! What many writes to one slot come to.

use crate::barrier::node_enqueued;
use crate::barrier::BarrierState;
use crate::decrements::dec_processed;
use crate::increments::inc_processed;
use crate::increments::slot_processed;
use crate::increments::slot_read;
use crate::increments::slot_traced;
use crate::increments::target_traced;
use crate::laws::barrier::as_list;
use crate::laws::barrier::barrier_logs;
use crate::laws::barrier::recorded_old_values;
use crate::laws::barrier::recorded_slots;
use crate::laws::barrier::write_barrier_frame;
use crate::laws::barrier::write_barrier_records;
use crate::laws::decrements::decrement_lowers_one_count;
use crate::laws::increments::mature_object_is_counted_once;
use crate::object::ObjectReference;
use crate::object::Slot;
use crate::packets::EDGE_KIND_MATURE;
use crate::progress::bounded;
use crate::progress::lemma_slot_processed;
use crate::state::DecsState;
use crate::state::Forwarding;
use crate::state::IncsState;
use crate::state::State;
use crate::state::LOGGED_VALUE;
use vstd::prelude::*;

verus! {

/// After a write of `value` to a slot, with the barrier before it.
pub open spec fn written(b: BarrierState, s: State, slot: Slot, value: usize) -> (
    BarrierState,
    State,
) {
    let (c, t, _) = node_enqueued(b, s, slot);
    (c, t.with_word(slot.address, value))
}

/// After writes of `values` to a slot, one after the other.
pub open spec fn all_written(b: BarrierState, s: State, slot: Slot, values: Seq<usize>) -> (
    BarrierState,
    State,
)
    decreases values.len(),
{
    if values.len() == 0 {
        (b, s)
    } else {
        let (c, t) = all_written(b, s, slot, values.drop_last());
        written(c, t, slot, values.last())
    }
}

/// However often a slot in the heap is written, the slot is recorded once, and so
/// is the value that it held before the first write, and nothing in between.
pub proof fn writes_are_coalesced(b: BarrierState, s: State, slot: Slot, values: Seq<usize>)
    requires
        s.args.in_heap(slot.address),
        s.logging_state(slot.address) != LOGGED_VALUE,
        values.len() > 0,
    ensures
        ({
            let (c, t) = all_written(b, s, slot, values);
            &&& recorded_slots(c, t) == recorded_slots(b, s).push(slot)
            &&& recorded_old_values(c, t) == recorded_old_values(b, s) + as_list(s.load(slot))
            &&& t.word(slot.address) == values.last()
            &&& t.logging_state(slot.address) == LOGGED_VALUE
            &&& t == (State {
                words: t.words,
                unlog: t.unlog,
                work: t.work,
                inc_buffer_size: t.inc_buffer_size,
                ..s
            })
        }),
    decreases values.len(),
{
    let (c, t) = all_written(b, s, slot, values.drop_last());
    let (c1, t1, _) = node_enqueued(c, t, slot);
    if values.len() > 1 {
        writes_are_coalesced(b, s, slot, values.drop_last());
    }
    write_barrier_records(c, t, slot);
    write_barrier_frame(c, t, slot);
    barrier_logs(c, t, slot, slot.address);
    let t2 = t1.with_word(slot.address, values.last());
    assert(t2.logging_state(slot.address) == t1.logging_state(slot.address));
}

/// What many writes to a slot come to, when its increment and the decrement of
/// its old value have been processed: the object that it held before the first
/// write has lost a reference, the one that it holds now has gained one, and no
/// other count has changed. The objects are mature, and neither stuck nor moved.
pub proof fn writes_move_one_reference(
    b: BarrierState,
    s: State,
    slot: Slot,
    values: Seq<usize>,
    from: ObjectReference,
    to: ObjectReference,
    p: IncsState,
    d: DecsState,
    depth: u32,
    x: ObjectReference,
)
    requires
        bounded(s),
        s.args.in_heap(slot.address),
        s.logging_state(slot.address) != LOGGED_VALUE,
        !slot.type_tag,
        values.len() > 0,
        values.last() == to.address,
        to.address != 0,
        s.load(slot) == Some(from),
        from != to,
        s.has_rc(from),
        s.has_rc(to),
        !s.dead_or_stuck(from),
        !s.dead_or_stuck(to),
        s.forwarding_of(from) == Forwarding::Untouched,
        s.forwarding_of(to) == Forwarding::Untouched,
        !d.mature_sweeping_in_progress || s.is_marked(from),
    ensures
        ({
            let (_, s1) = all_written(b, s, slot, values);
            let (_, s2, new) = slot_processed(p, s1, EDGE_KIND_MATURE, slot, depth, false);
            let (_, s3) = dec_processed(d, s2, from);
            &&& new == Some(to)
            &&& s3.count(to) == s.count(to) + 1
            &&& s3.count(from) == s.count(from) - 1
            &&& x.address != from.address && x.address != to.address ==> s3.count(x) == s.count(x)
        }),
{
    writes_are_coalesced(b, s, slot, values);
    let (_, s1) = all_written(b, s, slot, values);
    assert(s1.counts == s.counts);
    assert forall|o: ObjectReference| #[trigger] s1.count(o) == s.count(o) by {}
    assert(bounded(s1));
    reveal(slot_processed);
    let r = slot_read(
        slot_traced(s1, EDGE_KIND_MATURE, slot, depth),
        EDGE_KIND_MATURE,
        slot,
    );
    assert(r.load(slot) == Some(to));
    let r2 = target_traced(r, EDGE_KIND_MATURE, slot, depth, to);
    assert forall|o: ObjectReference| #[trigger] r2.count(o) == s.count(o) by {
        assert(r2.counts == s.counts);
    }
    assert(bounded(r2));
    assert(r2.forwarding_of(to) == s.forwarding_of(to));
    mature_object_is_counted_once(p, r2, to, depth, x);
    mature_object_is_counted_once(p, r2, to, depth, from);
    let (_, s2, _) = slot_processed(p, s1, EDGE_KIND_MATURE, slot, depth, false);
    let (_, r3, _) = inc_processed(p, r2, to, depth);
    assert(s2.counts == r3.counts);
    assert(s2.count(to) == r3.count(to));
    assert(s2.count(from) == r3.count(from));
    assert(s2.count(x) == r3.count(x));
    assert(from.address != to.address) by {
        if from.address == to.address {
            assert(from == to);
        }
    }
    lemma_slot_processed(p, s1, EDGE_KIND_MATURE, slot, depth, false);
    assert(s2.forwarding_of(from) == s.forwarding_of(from));
    assert(s2.has_rc(from));
    assert(s2.is_marked(from) == s.is_marked(from));
    decrement_lowers_one_count(d, s2, from, to);
    decrement_lowers_one_count(d, s2, from, x);
}

} // verus!
