//! What holds of increments.

use crate::barrier::node_enqueued;
use crate::barrier::BarrierState;
use crate::inc_work::given_processed;
use crate::inc_work::incs_begun;
use crate::inc_work::incs_done;
use crate::inc_work::incs_drained;
use crate::inc_work::lemma_drained;
use crate::inc_work::lemma_given;
use crate::inc_work::roots_handed_over;
use crate::inc_work::traces_roots;
use crate::increments::child_scanned;
use crate::increments::children_scanned;
use crate::increments::inc_processed;
use crate::increments::incs_flushed;
use crate::increments::moved_or_kept;
use crate::increments::nursery_object_scanned;
use crate::increments::object_copied;
use crate::increments::rearmed;
use crate::increments::slice_added;
use crate::increments::slices_added;
use crate::increments::slot_added;
use crate::increments::slot_processed;
use crate::increments::slot_read;
use crate::increments::slot_traced;
use crate::increments::slots_covered;
use crate::increments::slots_processed;
use crate::increments::target_traced;
use crate::increments::words_copied;
use crate::increments::MAX_COPY_DEPTH;
use crate::logging::armed_kept;
use crate::object::Field;
use crate::object::MemorySlice;
use crate::object::ObjectKind;
use crate::object::ObjectReference;
use crate::object::Slot;
use crate::packets::EDGE_KIND_MATURE;
use crate::progress::bounded;
use crate::progress::lemma_children_scanned;
use crate::progress::lemma_inc_processed;
use crate::progress::lemma_kept_in_place;
use crate::progress::lemma_slices_processed;
use crate::progress::lemma_slot_processed;
use crate::progress::lemma_slot_read;
use crate::progress::lemma_slots_processed;
use crate::progress::lemma_wf_bounded;
use crate::state::Event;
use crate::state::Forwarding;
use crate::state::IncsState;
use crate::state::State;
use crate::state::SubmissionView;
use crate::state::WorkView;
use crate::state::UNLOGGED_VALUE;
use vstd::prelude::*;

verus! {

// Counts.

/// A packet of increments lowers no count, lifts none above the largest, leaves
/// stuck counts alone, disarms no slot, and leaves the configuration, the spaces
/// and the marks as they were. It ends with no increment left to process.
pub proof fn increments_only_raise_counts(
    p: IncsState,
    s: State,
    kind: u8,
    elapsed_millis: u128,
    o: ObjectReference,
)
    requires
        s.wf(),
    ensures
        ({
            let (q, t) = incs_done(p, s, kind, elapsed_millis);
            &&& s.count(o) <= t.count(o) <= s.args.max_ref_count
            &&& s.count(o) == s.args.max_ref_count ==> t.count(o) == s.args.max_ref_count
            &&& armed_kept(s, t)
            &&& t.args == s.args
            &&& t.phase == s.phase
            &&& t.marks == s.marks
            &&& (t.immix, t.los, t.immortal, t.other) == (s.immix, s.los, s.immortal, s.other)
            &&& (t.nursery, t.defrag) == (s.nursery, s.defrag)
            &&& !q.pending()
        }),
{
    let pause = s.phase.current_pause->0;
    let (p1, s1) = incs_begun(p, s, pause, elapsed_millis);
    lemma_wf_bounded(s);
    assert(s1.counts == s.counts);
    assert forall|x: ObjectReference| #[trigger] s1.count(x) == s.count(x) by {}
    assert forall|a: usize| #[trigger] s1.logging_state(a) == s.logging_state(a) by {}
    let (p2, s2, roots) = given_processed(p1, s1, kind);
    lemma_given(p1, s1, kind);
    let slots = if traces_roots(pause) {
        p.incs
    } else {
        Seq::empty()
    };
    let s3 = if roots.len() > 0 {
        roots_handed_over(s2, pause, p.root_kind, slots, roots)
    } else {
        s2
    };
    assert(s3.counts == s2.counts);
    assert forall|x: ObjectReference| #[trigger] s3.count(x) == s2.count(x) by {}
    assert forall|a: usize| #[trigger] s3.logging_state(a) == s2.logging_state(a) by {}
    let (q4, s4) = incs_drained(p2, s3, p.depth);
    lemma_drained(p2, s3, p.depth);
    let (q, t) = incs_done(p, s, kind, elapsed_millis);
    assert(t.count(o) == s4.count(o));
    assert(s3.count(o) <= s4.count(o));
    assert(s1.count(o) <= s2.count(o));
    assert forall|a: usize| s.logging_state(a) == UNLOGGED_VALUE implies #[trigger] t.logging_state(
        a,
    ) == UNLOGGED_VALUE by {
        assert(t.logging_state(a) == s4.logging_state(a));
        assert(s1.logging_state(a) == s.logging_state(a));
        assert(s2.logging_state(a) == UNLOGGED_VALUE);
        assert(s3.logging_state(a) == s2.logging_state(a));
    }
}

/// The increment of a mature object that has not moved raises its count by one,
/// unless it is stuck, and does nothing else but write to the log.
pub proof fn mature_object_is_counted_once(
    p: IncsState,
    s: State,
    o: ObjectReference,
    depth: u32,
    x: ObjectReference,
)
    requires
        bounded(s),
        s.has_rc(o),
        s.count(o) > 0,
        s.forwarding_of(o) == Forwarding::Untouched,
    ensures
        ({
            let (q, t, new) = inc_processed(p, s, o, depth);
            &&& new == o
            &&& q == p
            &&& t == (State { counts: t.counts, diag: t.diag, ..s })
            &&& t.count(o) == (if s.count(o) == s.args.max_ref_count {
                s.count(o) as int
            } else {
                s.count(o) + 1
            })
            &&& x.address != o.address ==> t.count(x) == s.count(x)
        }),
{
    reveal(inc_processed);
    assert(s.count(o) <= s.args.max_ref_count);
}

/// An object without a count is left alone, whatever refers to it.
pub proof fn uncounted_objects_are_left_alone(
    p: IncsState,
    s: State,
    o: ObjectReference,
    depth: u32,
)
    requires
        !s.has_rc(o),
    ensures
        inc_processed(p, s, o, depth) == (p, s, o),
{
    reveal(inc_processed);
}

// Evacuation.

/// An object that nobody has claimed moves only where nursery evacuation is
/// configured and goes on, and the object is small, in the nursery, not yet
/// counted, and not found too deep. It moves to where the copy allocator answers.
pub proof fn only_young_objects_move(p: IncsState, s: State, o: ObjectReference, depth: u32)
    requires
        s.forwarding_of(o) == Forwarding::Untouched,
    ensures
        ({
            let (_, t, new) = inc_processed(p, s, o, depth);
            &&& new != o ==> {
                &&& s.args.rc_nursery_evacuation
                &&& !p.no_evac
                &&& !(s.args.inc_max_copy_depth && depth > MAX_COPY_DEPTH)
                &&& !s.los.has(o.address)
                &&& s.has_rc(o)
                &&& s.in_nursery(o)
                &&& s.count(o) == 0
                &&& s.shape(o.address).size < s.args.max_young_evac_size
                &&& s.copies.len() > 0
                &&& s.copies.last() == Some(new)
            }
        }),
{
    reveal(inc_processed);
    reveal(moved_or_kept);
}

/// The words of an object are copied in order, one slot after the other, where
/// the object and its copy do not overlap.
proof fn lemma_words_copied(
    words: Map<usize, usize>,
    from: usize,
    to: usize,
    granule: usize,
    count: int,
    i: int,
)
    requires
        0 <= i < count,
        0 < granule,
        from + count * granule <= usize::MAX,
        to + count * granule <= usize::MAX,
        from + count * granule <= to || to + count * granule <= from,
    ensures
        ({
            let copied = words_copied(words, from, to, granule, count);
            let source = (from + i * granule) as usize;
            let target = (to + i * granule) as usize;
            &&& words.contains_key(source) ==> copied.contains_key(target) && copied[target]
                == words[source]
            &&& copied.contains_key(source) == words.contains_key(source)
            &&& words.contains_key(source) ==> copied[source] == words[source]
        }),
    decreases count,
{
    let before = words_copied(words, from, to, granule, count - 1);
    let copied = words_copied(words, from, to, granule, count);
    let source = (from + i * granule) as usize;
    let target = (to + i * granule) as usize;
    let last_source = (from + (count - 1) * granule) as usize;
    let last_target = (to + (count - 1) * granule) as usize;
    assert(0 <= i * granule && i * granule + granule <= count * granule) by (nonlinear_arith)
        requires
            0 <= i < count,
            0 < granule,
    ;
    assert((count - 1) * granule + granule == count * granule) by (nonlinear_arith);
    assert(0 <= (count - 1) * granule) by (nonlinear_arith)
        requires
            0 < count,
            0 < granule,
    ;
    assert(last_target != source);
    if i < count - 1 {
        lemma_words_copied(words, from, to, granule, count - 1, i);
        assert(i * granule + granule <= (count - 1) * granule) by (nonlinear_arith)
            requires
                i < count - 1,
                0 < granule,
        ;
        assert(last_target != target);
    } else {
        lemma_source_kept(words, from, to, granule, count - 1, last_source);
    }
}

/// What lies outside the copy stays as it is.
proof fn lemma_source_kept(
    words: Map<usize, usize>,
    from: usize,
    to: usize,
    granule: usize,
    count: int,
    address: usize,
)
    requires
        0 <= count,
        0 < granule,
        to + count * granule <= usize::MAX,
        address < to || to + count * granule <= address,
    ensures
        words_copied(words, from, to, granule, count).contains_key(address)
            == words.contains_key(address),
        words.contains_key(address) ==> words_copied(
            words,
            from,
            to,
            granule,
            count,
        )[address] == words[address],
    decreases count,
{
    if count > 0 {
        assert((count - 1) * granule + granule == count * granule) by (nonlinear_arith);
        assert(0 <= (count - 1) * granule) by (nonlinear_arith)
            requires
                0 < count,
                0 < granule,
        ;
        lemma_source_kept(words, from, to, granule, count - 1, address);
    }
}

/// A copy holds what the object held: every mapped slot that the object covers
/// is copied, where the two do not overlap. What lies outside the copy stays as
/// it is, and the object is known to have moved.
pub proof fn copy_holds_the_object(
    s: State,
    o: ObjectReference,
    new: ObjectReference,
    i: int,
    address: usize,
)
    requires
        0 <= i < slots_covered(s.shape(o.address).size, s.args.granule()),
        ({
            let bytes = slots_covered(s.shape(o.address).size, s.args.granule())
                * s.args.granule();
            &&& o.address + bytes <= usize::MAX
            &&& new.address + bytes <= usize::MAX
            &&& o.address + bytes <= new.address || new.address + bytes <= o.address
        }),
    ensures
        ({
            let t = object_copied(s, o, new);
            let granule = s.args.granule();
            let bytes = slots_covered(s.shape(o.address).size, granule) * granule;
            let source = (o.address + i * granule) as usize;
            let target = (new.address + i * granule) as usize;
            &&& s.mapped(source) ==> t.mapped(target) && t.word(target) == s.word(source)
            &&& address < new.address || new.address + bytes <= address ==> t.word(address)
                == s.word(address)
            &&& t.forwarding_of(o) == Forwarding::Forwarded(new)
            &&& t.counts == s.counts
        }),
{
    reveal(object_copied);
    let granule = s.args.granule();
    let count = slots_covered(s.shape(o.address).size, granule);
    lemma_words_copied(s.words, o.address, new.address, granule, count, i);
    if address < new.address || new.address + count * granule <= address {
        lemma_source_kept(s.words, o.address, new.address, granule, count, address);
    }
}

// Slots.

/// A slot whose increment was processed holds where its object is now.
pub proof fn slot_refers_to_its_object(
    p: IncsState,
    s: State,
    kind: u8,
    slot: Slot,
    depth: u32,
    add_root_to_remset: bool,
)
    requires
        bounded(s),
    ensures
        ({
            let (_, t, object) = slot_processed(p, s, kind, slot, depth, add_root_to_remset);
            &&& object is None <==> s.load(slot) is None
            &&& object matches Some(new) ==> t.word(slot.address) == new.address
        }),
{
    reveal(slot_processed);
    let s1 = slot_read(slot_traced(s, kind, slot, depth), kind, slot);
    match s1.load(slot) {
        None => {},
        Some(o) => {
            let s2 = target_traced(s1, kind, slot, depth, o);
            assert(bounded(s2)) by {
                assert(s2.counts == s.counts);
                assert forall|x: ObjectReference| #[trigger] s2.count(x) <= s2.args.max_ref_count by {
                    assert(s2.count(x) == s.count(x));
                }
            }
            lemma_kept_in_place(p, s2, o, depth);
        },
    }
}


/// A slot of a mature object in the heap is armed when its increment has been
/// processed: its next write fires.
pub proof fn processed_slot_fires_again(
    p: IncsState,
    s: State,
    slot: Slot,
    depth: u32,
    b: BarrierState,
)
    requires
        bounded(s),
        s.args.in_heap(slot.address),
    ensures
        ({
            let (_, t, _) = slot_processed(p, s, EDGE_KIND_MATURE, slot, depth, false);
            &&& t.logging_state(slot.address) == UNLOGGED_VALUE
            &&& node_enqueued(b, t, slot).2
        }),
{
    reveal(slot_processed);
    let traced = slot_traced(s, EDGE_KIND_MATURE, slot, depth);
    let s1 = slot_read(traced, EDGE_KIND_MATURE, slot);
    lemma_slot_read(traced, EDGE_KIND_MATURE, slot);
    let (_, t, _) = slot_processed(p, s, EDGE_KIND_MATURE, slot, depth, false);
    lemma_slot_processed(p, s, EDGE_KIND_MATURE, slot, depth, false);
    match s1.load(slot) {
        None => {},
        Some(o) => {
            let s2 = target_traced(s1, EDGE_KIND_MATURE, slot, depth, o);
            assert(bounded(s2)) by {
                assert(s2.counts == s.counts);
                assert forall|x: ObjectReference| #[trigger] s2.count(x) <= s2.args.max_ref_count by {
                    assert(s2.count(x) == s.count(x));
                }
            }
            assert(s2.logging_state(slot.address) == s1.logging_state(slot.address));
            let (_, s3, _) = inc_processed(p, s2, o, depth);
            lemma_inc_processed(p, s2, o, depth);
            assert(s3.logging_state(slot.address) == UNLOGGED_VALUE);
            assert(t.logging_state(slot.address) == s3.logging_state(slot.address));
        },
    }
}

/// When a packet of written slots has been processed, each of its slots in the
/// heap is armed.
pub proof fn processed_slots_are_armed(
    p: IncsState,
    s: State,
    slots: Seq<Slot>,
    depth: u32,
    i: int,
)
    requires
        bounded(s),
        0 <= i < slots.len(),
        s.args.in_heap(slots[i].address),
    ensures
        slots_processed(p, s, EDGE_KIND_MATURE, slots, depth, false).1.logging_state(
            slots[i].address,
        ) == UNLOGGED_VALUE,
    decreases slots.len(),
{
    let (p1, s1, _) = slots_processed(
        p,
        s,
        EDGE_KIND_MATURE,
        slots.drop_last(),
        depth,
        false,
    );
    lemma_slots_processed(p, s, EDGE_KIND_MATURE, slots.drop_last(), depth, false);
    if i < slots.len() - 1 {
        assert(slots.drop_last()[i] == slots[i]);
        processed_slots_are_armed(p, s, slots.drop_last(), depth, i);
        lemma_slot_processed(p1, s1, EDGE_KIND_MATURE, slots.last(), depth, false);
    } else {
        processed_slot_fires_again(p1, s1, slots.last(), depth, BarrierState::empty());
    }
}

/// When a packet of written slots is done, each of the slots that it was given
/// and that lie in the heap is armed.
pub proof fn packet_arms_its_slots(p: IncsState, s: State, elapsed_millis: u128, i: int)
    requires
        s.wf(),
        0 <= i < p.incs.len(),
        s.args.in_heap(p.incs[i].address),
    ensures
        incs_done(p, s, EDGE_KIND_MATURE, elapsed_millis).1.logging_state(p.incs[i].address)
            == UNLOGGED_VALUE,
{
    let a = p.incs[i].address;
    let pause = s.phase.current_pause->0;
    let (p1, s1) = incs_begun(p, s, pause, elapsed_millis);
    lemma_wf_bounded(s);
    assert(s1.counts == s.counts);
    assert forall|x: ObjectReference| #[trigger] s1.count(x) == s.count(x) by {}
    let begin = IncsState { incs: Seq::empty(), ..p1 };
    processed_slots_are_armed(begin, s1, p.incs, p.depth, i);
    lemma_slots_processed(begin, s1, EDGE_KIND_MATURE, p.incs, p.depth, false);
    let (q1, t1, _) = slots_processed(begin, s1, EDGE_KIND_MATURE, p.incs, p.depth, false);
    let middle = IncsState { inc_slices: Seq::empty(), ..q1 };
    lemma_slices_processed(middle, t1, EDGE_KIND_MATURE, p.inc_slices, p.depth);
    let (p2, s2, roots) = given_processed(p1, s1, EDGE_KIND_MATURE);
    assert(s2.logging_state(a) == UNLOGGED_VALUE);
    assert(roots.len() == 0);
    let (_, s4) = incs_drained(p2, s2, p.depth);
    lemma_drained(p2, s2, p.depth);
    assert(s4.logging_state(a) == UNLOGGED_VALUE);
    let (_, t) = incs_done(p, s, EDGE_KIND_MATURE, elapsed_millis);
    assert(t.logging_state(a) == s4.logging_state(a));
}

// Promotion.

/// The slots in packets of slots of promoted objects, in the order in which they
/// were handed over.
pub open spec fn queued_in_work(work: Seq<SubmissionView>) -> Seq<Slot>
    decreases work.len(),
{
    if work.len() == 0 {
        Seq::empty()
    } else {
        let before = queued_in_work(work.drop_last());
        match work.last().work {
            WorkView::NurseryIncs(packet) => before + packet.incs,
            _ => before,
        }
    }
}

/// The slices in those packets.
pub open spec fn slices_in_work(work: Seq<SubmissionView>) -> Seq<MemorySlice>
    decreases work.len(),
{
    if work.len() == 0 {
        Seq::empty()
    } else {
        let before = slices_in_work(work.drop_last());
        match work.last().work {
            WorkView::NurseryIncs(packet) => before + packet.inc_slices,
            _ => before,
        }
    }
}

/// The new increments of slots, whether handed over or not.
pub open spec fn queued_slots(p: IncsState, s: State) -> Seq<Slot> {
    queued_in_work(s.work) + p.new_incs
}

/// The new increments of slices, whether handed over or not.
pub open spec fn queued_slices(p: IncsState, s: State) -> Seq<MemorySlice> {
    slices_in_work(s.work) + p.new_inc_slices
}

/// The slots whose object is yet to be counted for the first time.
pub open spec fn young_slots(s: State, fields: Seq<Field>) -> Seq<Slot>
    decreases fields.len(),
{
    if fields.len() == 0 {
        Seq::empty()
    } else {
        let before = young_slots(s, fields.drop_last());
        match s.load(fields.last().slot) {
            Some(child) => if s.has_rc(child) && s.count(child) == 0 {
                before.push(fields.last().slot)
            } else {
                before
            },
            None => before,
        }
    }
}

/// How many slots refer to `x`.
pub open spec fn references(s: State, fields: Seq<Field>, x: ObjectReference) -> int
    decreases fields.len(),
{
    if fields.len() == 0 {
        0
    } else {
        references(s, fields.drop_last(), x) + if s.load(fields.last().slot) == Some(x) {
            1int
        } else {
            0int
        }
    }
}

/// A count after `n` increments.
pub open spec fn raised(count: u8, n: int, max: u8) -> int {
    if count + n <= max {
        count + n
    } else {
        max as int
    }
}

/// A flush loses no new increment.
proof fn lemma_flush_keeps(p: IncsState, s: State)
    ensures
        ({
            let (q, t) = incs_flushed(p, s);
            &&& queued_slots(q, t) == queued_slots(p, s)
            &&& queued_slices(q, t) == queued_slices(p, s)
            &&& t == (State { work: t.work, ..s })
        }),
{
    let (q, t) = incs_flushed(p, s);
    if p.pending() {
        assert(t.work.drop_last() =~= s.work);
    } else {
        assert(p.new_incs =~= Seq::<Slot>::empty());
        assert(p.new_inc_slices =~= Seq::<MemorySlice>::empty());
    }
    assert(queued_slots(q, t) =~= queued_slots(p, s));
    assert(queued_slices(q, t) =~= queued_slices(p, s));
}

/// A slot is queued once.
proof fn lemma_slot_queued(p: IncsState, s: State, slot: Slot)
    ensures
        ({
            let (q, t) = slot_added(p, s, slot);
            &&& queued_slots(q, t) == queued_slots(p, s).push(slot)
            &&& queued_slices(q, t) == queued_slices(p, s)
            &&& t == (State { work: t.work, ..s })
        }),
{
    let added = IncsState {
        new_incs: p.new_incs.push(slot),
        new_incs_count: (p.new_incs_count + 1) as u32,
        ..p
    };
    lemma_flush_keeps(added, s);
    assert(queued_slots(added, s) =~= queued_slots(p, s).push(slot));
}

/// A slice is queued once.
proof fn lemma_slice_queued(p: IncsState, s: State, slice: MemorySlice)
    ensures
        ({
            let (q, t) = slice_added(p, s, slice);
            &&& queued_slots(q, t) == queued_slots(p, s)
            &&& queued_slices(q, t) == queued_slices(p, s).push(slice)
            &&& t == (State { work: t.work, ..s })
        }),
{
    let (p1, s1) = if p.new_incs_count + slice.len >= s.args.buffer_size {
        incs_flushed(p, s)
    } else {
        (p, s)
    };
    lemma_flush_keeps(p, s);
    let added = IncsState {
        new_inc_slices: p1.new_inc_slices.push(slice),
        new_incs_count: (p1.new_incs_count + slice.len) as u32,
        ..p1
    };
    lemma_flush_keeps(added, s1);
    assert(queued_slices(added, s1) =~= queued_slices(p1, s1).push(slice));
}

/// Slices are queued once each, in order.
proof fn lemma_slices_queued(p: IncsState, s: State, slices: Seq<MemorySlice>)
    ensures
        ({
            let (q, t) = slices_added(p, s, slices);
            &&& queued_slots(q, t) == queued_slots(p, s)
            &&& queued_slices(q, t) == queued_slices(p, s) + slices
            &&& t == (State { work: t.work, ..s })
        }),
    decreases slices.len(),
{
    if slices.len() == 0 {
        assert(queued_slices(p, s) + slices =~= queued_slices(p, s));
    } else {
        let (p1, s1) = slices_added(p, s, slices.drop_last());
        lemma_slices_queued(p, s, slices.drop_last());
        lemma_slice_queued(p1, s1, slices.last());
        assert((queued_slices(p, s) + slices.drop_last()).push(slices.last())
            =~= queued_slices(p, s) + slices);
    }
}

/// A slot of a promoted object is either queued, or counted at once, or neither.
pub proof fn lemma_child(
    p: IncsState,
    s: State,
    o: ObjectReference,
    in_defrag: bool,
    slot: Slot,
    x: ObjectReference,
)
    requires
        bounded(s),
    ensures
        ({
            let (q, t) = child_scanned(p, s, o, in_defrag, slot);
            let young = s.load(slot) matches Some(child) && s.has_rc(child) && s.count(child) == 0;
            &&& queued_slots(q, t) == (if young {
                queued_slots(p, s).push(slot)
            } else {
                queued_slots(p, s)
            })
            &&& queued_slices(q, t) == queued_slices(p, s)
            &&& t.count(x) == (if s.load(slot) == Some(x) && s.has_rc(x) && s.count(x) > 0 {
                raised(s.count(x), 1, s.args.max_ref_count)
            } else {
                s.count(x) as int
            })
        }),
{
    reveal(child_scanned);
    assert(s.count(x) <= s.args.max_ref_count);
    match s.load(slot) {
        None => {},
        Some(child) => {
            let gc = s.diag.gc_count;
            let s1 = if s.diag.rc_trace && !s.tag_is_valid(child) {
                crate::referrers::corruption_reported(
                    s,
                    child,
                    Event::CorruptChild {
                        gc,
                        number: s.diag.corrupt_count,
                        child: child.address,
                        tag: s.tag_word(child.address, 0),
                        slot: slot.address,
                        parent: o.address,
                    },
                )
            } else {
                s
            };
            let s2 = s1.traced(
                child,
                Event::IncPromo {
                    gc,
                    object: child.address,
                    parent: o.address,
                    slot: slot.address,
                },
            );
            lemma_slot_queued(p, s2, slot);
            if x.address == child.address {
                assert(x == child);
            }
        },
    }
}

/// The references of a promoted object are each accounted for once. Slots whose
/// object is yet to be counted are queued, in order, and no others. Objects that
/// are counted already are incremented as often as a slot refers to them, until
/// they stick. No other count changes.
pub proof fn references_are_accounted_for(
    p: IncsState,
    s: State,
    o: ObjectReference,
    in_defrag: bool,
    fields: Seq<Field>,
    x: ObjectReference,
)
    requires
        bounded(s),
    ensures
        ({
            let (q, t) = children_scanned(p, s, o, in_defrag, fields);
            &&& queued_slots(q, t) == queued_slots(p, s) + young_slots(s, fields)
            &&& queued_slices(q, t) == queued_slices(p, s)
            &&& t.count(x) == (if s.has_rc(x) && s.count(x) > 0 {
                raised(s.count(x), references(s, fields, x), s.args.max_ref_count)
            } else {
                s.count(x) as int
            })
            &&& references(s, fields, x) >= 0
        }),
    decreases fields.len(),
{
    assert(s.count(x) <= s.args.max_ref_count);
    if fields.len() == 0 {
        assert(queued_slots(p, s) + young_slots(s, fields) =~= queued_slots(p, s));
    } else {
        let (p1, s1) = children_scanned(p, s, o, in_defrag, fields.drop_last());
        let slot = fields.last().slot;
        references_are_accounted_for(p, s, o, in_defrag, fields.drop_last(), x);
        lemma_children_scanned(p, s, o, in_defrag, fields.drop_last());
        lemma_child(p1, s1, o, in_defrag, slot, x);
        assert(s1.load(slot) == s.load(slot));
        if let Some(child) = s.load(slot) {
            references_are_accounted_for(p, s, o, in_defrag, fields.drop_last(), child);
        }
        let before = young_slots(s, fields.drop_last());
        assert((queued_slots(p, s) + before).push(slot) =~= queued_slots(p, s) + before.push(
            slot,
        ));
    }
}

/// The slots of slices, in order.
pub open spec fn slots_of(slices: Seq<MemorySlice>) -> Seq<Slot>
    decreases slices.len(),
{
    if slices.len() == 0 {
        Seq::empty()
    } else {
        slots_of(slices.drop_last()) + slices.last().slots()
    }
}

/// The slices that an array is cut into have the slots of the array: each once,
/// in order.
pub proof fn slices_cover_the_array(data: MemorySlice, size: int)
    requires
        data.wf(),
        0 < size <= usize::MAX,
    ensures
        slots_of(data.chunks(size)) == data.slots(),
{
    let n = data.chunks(size).len() as int;
    lemma_slices_cover(data, size, n);
    assert(data.chunks(size).take(n) =~= data.chunks(size));
    assert(n * size >= data.len) by (nonlinear_arith)
        requires
            n == (data.len + size - 1) / size,
            0 < size,
    ;
    assert(data.slots().take(data.len as int) =~= data.slots());
}

/// The first slices of an array have its first slots.
proof fn lemma_slices_cover(data: MemorySlice, size: int, n: int)
    requires
        data.wf(),
        0 < size <= usize::MAX,
        0 <= n <= data.chunks(size).len(),
    ensures
        slots_of(data.chunks(size).take(n)) == data.slots().take(
            if n * size < data.len {
                n * size
            } else {
                data.len as int
            },
        ),
    decreases n,
{
    let chunks = data.chunks(size);
    let slots = data.slots();
    if n == 0 {
        assert(slots_of(chunks.take(0)) =~= slots.take(0));
    } else {
        lemma_slices_cover(data, size, n - 1);
        let from = (n - 1) * size;
        assert(from + size == n * size) by (nonlinear_arith)
            requires
                from == (n - 1) * size,
        ;
        assert(0 <= from < data.len) by (nonlinear_arith)
            requires
                from == (n - 1) * size,
                1 <= n <= (data.len + size - 1) / size,
                0 < size,
        ;
        let chunk = chunks[n - 1];
        let count = if data.len - from < size {
            data.len - from
        } else {
            size
        };
        assert(from * data.slot_bytes <= data.len * data.slot_bytes) by (nonlinear_arith)
            requires
                0 <= from < data.len,
                0 < data.slot_bytes,
        ;
        assert(0 <= from * data.slot_bytes) by (nonlinear_arith)
            requires
                0 <= from,
                0 < data.slot_bytes,
        ;
        assert(chunk.start == data.start + from * data.slot_bytes);
        assert(chunk.len == count);
        assert(chunks.take(n).drop_last() =~= chunks.take(n - 1));
        assert(chunks.take(n).last() == chunk);
        assert forall|i: int| 0 <= i < count implies #[trigger] chunk.slots()[i] == slots[from + i] by {
            assert((from + i) * data.slot_bytes == from * data.slot_bytes + i * data.slot_bytes)
                by (nonlinear_arith);
        }
        assert(slots.take(from) + chunk.slots() =~= slots.take(from + count));
    }
}

/// The references of a promoted object are each accounted for once: those of a
/// large array are queued in slices that cover it, and those of other objects one
/// by one, where their object is yet to be counted. An array of values has none.
pub proof fn promotion_accounts_for_references(
    p: IncsState,
    s: State,
    o: ObjectReference,
    los: bool,
    in_place: bool,
    size: usize,
)
    requires
        bounded(s),
        s.objects.contains_key(o.address) ==> s.objects[o.address].wf_at(o.address),
    ensures
        ({
            let (q, t) = nursery_object_scanned(p, s, o, los, in_place, size);
            let shape = s.shape(o.address);
            match shape.kind {
                ObjectKind::ValArray => q == p && t.counts == s.counts && t.work == s.work,
                ObjectKind::ObjArray(data) => if data.len > 1024 {
                    &&& queued_slots(q, t) == queued_slots(p, s)
                    &&& queued_slices(q, t) == queued_slices(p, s) + data.chunks(
                        s.args.buffer_size as int,
                    )
                    &&& slots_of(data.chunks(s.args.buffer_size as int)) == data.slots()
                    &&& t.counts == s.counts
                } else {
                    &&& queued_slots(q, t) == queued_slots(p, s) + young_slots(s, shape.fields)
                    &&& queued_slices(q, t) == queued_slices(p, s)
                },
                ObjectKind::Plain => {
                    &&& queued_slots(q, t) == queued_slots(p, s) + young_slots(s, shape.fields)
                    &&& queued_slices(q, t) == queued_slices(p, s)
                },
            }
        }),
{
    reveal(nursery_object_scanned);
    reveal(rearmed);
    let s1 = rearmed(s, o, los, in_place, size);
    assert(s1.counts == s.counts);
    assert forall|x: ObjectReference| #[trigger] s1.count(x) == s.count(x) by {}
    let shape = s.shape(o.address);
    let in_defrag = !los && s.in_defrag_block(o.address);
    match shape.kind {
        ObjectKind::ValArray => {},
        ObjectKind::ObjArray(data) => {
            if data.len > 1024 {
                assert(s.objects.contains_key(o.address));
                lemma_slices_queued(p, s1, data.chunks(s.args.buffer_size as int));
                slices_cover_the_array(data, s.args.buffer_size as int);
            } else {
                references_are_accounted_for(p, s1, o, in_defrag, shape.fields, o);
                lemma_young_slots_read(s, s1, shape.fields);
            }
        },
        ObjectKind::Plain => {
            references_are_accounted_for(p, s1, o, in_defrag, shape.fields, o);
            lemma_young_slots_read(s, s1, shape.fields);
        },
    }
}

/// Which slots are queued depends on memory, counts and spaces alone.
proof fn lemma_young_slots_read(s: State, t: State, fields: Seq<Field>)
    requires
        t == (State { unlog: t.unlog, ..s }),
    ensures
        young_slots(t, fields) == young_slots(s, fields),
    decreases fields.len(),
{
    if fields.len() > 0 {
        lemma_young_slots_read(s, t, fields.drop_last());
        let slot = fields.last().slot;
        assert(t.load(slot) == s.load(slot));
    }
}

} // verus!
