//! What the collector asks of its surroundings stays asked.

use crate::inc_work::given_processed;
use crate::inc_work::incs_begun;
use crate::inc_work::incs_done;
use crate::inc_work::incs_drained;
use crate::inc_work::lemma_given;
use crate::inc_work::lemma_round;
use crate::inc_work::remembers_roots;
use crate::inc_work::roots_handed_over;
use crate::inc_work::round_processed;
use crate::inc_work::traces_roots;
use crate::increments::answer_taken;
use crate::increments::child_scanned;
use crate::increments::children_scanned;
use crate::increments::claim_dropped;
use crate::increments::claim_settled;
use crate::increments::copy_answer;
use crate::increments::forwarded_to;
use crate::increments::inc_processed;
use crate::increments::inc_traced;
use crate::increments::moved_or_kept;
use crate::increments::nursery_object_scanned;
use crate::increments::object_copied;
use crate::increments::promoted;
use crate::increments::rearmed;
use crate::increments::slices_added;
use crate::increments::slices_processed;
use crate::increments::slot_processed;
use crate::increments::slot_read;
use crate::increments::slot_traced;
use crate::increments::slots_processed;
use crate::increments::target_traced;
use crate::laws::evacuation::references_into_emptied_blocks_are_remembered;
use crate::object::Field;
use crate::object::MemorySlice;
use crate::object::ObjectKind;
use crate::object::ObjectReference;
use crate::object::Slot;
use crate::packets::EDGE_KIND_NURSERY;
use crate::packets::EDGE_KIND_ROOT;
use crate::progress::bounded;
use crate::progress::lemma_slots_processed;
use crate::progress::lemma_wf_bounded;
use crate::progress::remaining;
use crate::state::Effect;
use crate::state::Event;
use crate::state::Forwarding;
use crate::state::IncsState;
use crate::state::State;
use crate::stats::increment_counted;
use crate::stats::promotion_noted;
use vstd::prelude::*;

verus! {

/// What was asked for before still is, in the same order.
pub open spec fn requests_kept(s: State, t: State) -> bool {
    &&& s.effects.len() <= t.effects.len()
    &&& forall|i: int| 0 <= i < s.effects.len() ==> #[trigger] t.effects[i] == s.effects[i]
}

/// A field that is looked at withdraws nothing.
pub proof fn lemma_child(p: IncsState, s: State, o: ObjectReference, in_defrag: bool, slot: Slot)
    ensures
        requests_kept(s, child_scanned(p, s, o, in_defrag, slot).1),
{
    reveal(child_scanned);
}

/// A scan of fields withdraws nothing.
pub proof fn lemma_children(
    p: IncsState,
    s: State,
    o: ObjectReference,
    in_defrag: bool,
    fields: Seq<Field>,
)
    ensures
        requests_kept(s, children_scanned(p, s, o, in_defrag, fields).1),
    decreases fields.len(),
{
    if fields.len() > 0 {
        lemma_children(p, s, o, in_defrag, fields.drop_last());
        let (p1, s1) = children_scanned(p, s, o, in_defrag, fields.drop_last());
        lemma_child(p1, s1, o, in_defrag, fields.last().slot);
    }
}

/// Slices that are queued ask for nothing.
pub proof fn lemma_slices_added(p: IncsState, s: State, slices: Seq<MemorySlice>)
    ensures
        slices_added(p, s, slices).1.effects == s.effects,
    decreases slices.len(),
{
    if slices.len() > 0 {
        lemma_slices_added(p, s, slices.drop_last());
    }
}

proof fn lemma_promoted(
    p: IncsState,
    s: State,
    o: ObjectReference,
    copied: bool,
    los: bool,
    depth: u32,
)
    ensures
        requests_kept(s, promoted(p, s, o, copied, los, depth).1),
{
    reveal(promoted);
    reveal(nursery_object_scanned);
    reveal(rearmed);
    let size = s.shape(o.address).size;
    let s1 = promotion_noted(s, o, copied, los, depth);
    let s2 = if los {
        s1
    } else {
        let told = if !copied && s1.in_nursery(o) {
            s1.with_effect(Effect::InPlacePromoted { block: s1.args.block_of(o.address) })
        } else {
            s1
        };
        told.with_effect(Effect::PromoteWithSize { object: o, size })
    };
    let p2 = if !los && copied {
        IncsState { copied_sizes: p.copied_sizes.push(size), ..p }
    } else {
        p
    };
    let s3 = rearmed(s2, o, los, !copied, size);
    assert(requests_kept(s, s3));
    let shape = s2.shape(o.address);
    let in_defrag = !los && s2.in_defrag_block(o.address);
    lemma_children(p2, s3, o, in_defrag, shape.fields);
    if let ObjectKind::ObjArray(data) = shape.kind {
        lemma_slices_added(p2, s3, data.chunks(s2.args.buffer_size as int));
    }
}

proof fn lemma_increment(p: IncsState, s: State, o: ObjectReference, depth: u32)
    ensures
        requests_kept(s, inc_processed(p, s, o, depth).1),
{
    reveal(inc_processed);
    reveal(moved_or_kept);
    reveal(object_copied);
    let los = s.los.has(o.address);
    let found = claim_settled(s, o);
    let settled = increment_counted(found, forwarded_to(found, o));
    lemma_promoted(p, inc_traced(settled, o), o, false, los, depth);
    let noted = increment_counted(s, o);
    lemma_promoted(p, inc_traced(noted, o), o, false, los, depth);
    let claimed = noted.with_forwarding(o, Forwarding::BeingForwarded(None));
    lemma_promoted(p, claim_dropped(claimed, o), o, false, los, depth);
    let answered = answer_taken(claimed);
    let full = answered.with_event(Event::ToSpaceOverflow);
    lemma_promoted(p, claim_dropped(full, o), o, false, los, depth);
    if let Some(new) = copy_answer(claimed) {
        let copied = inc_traced(object_copied(answered, o, new), new);
        lemma_promoted(p, copied, new, true, false, depth);
    }
}

proof fn lemma_slot(
    p: IncsState,
    s: State,
    kind: u8,
    slot: Slot,
    depth: u32,
    add_root_to_remset: bool,
)
    ensures
        requests_kept(s, slot_processed(p, s, kind, slot, depth, add_root_to_remset).1),
{
    reveal(slot_processed);
    let s1 = slot_read(slot_traced(s, kind, slot, depth), kind, slot);
    if let Some(o) = s1.load(slot) {
        lemma_increment(p, target_traced(s1, kind, slot, depth, o), o, depth);
    }
}

proof fn lemma_slots(
    p: IncsState,
    s: State,
    kind: u8,
    slots: Seq<Slot>,
    depth: u32,
    add_root_to_remset: bool,
)
    ensures
        requests_kept(s, slots_processed(p, s, kind, slots, depth, add_root_to_remset).1),
    decreases slots.len(),
{
    if slots.len() > 0 {
        lemma_slots(p, s, kind, slots.drop_last(), depth, add_root_to_remset);
        let (p1, s1, _) = slots_processed(
            p,
            s,
            kind,
            slots.drop_last(),
            depth,
            add_root_to_remset,
        );
        lemma_slot(p1, s1, kind, slots.last(), depth, add_root_to_remset);
    }
}

proof fn lemma_slices(
    p: IncsState,
    s: State,
    kind: u8,
    slices: Seq<MemorySlice>,
    depth: u32,
)
    ensures
        requests_kept(s, slices_processed(p, s, kind, slices, depth).1),
    decreases slices.len(),
{
    if slices.len() > 0 {
        lemma_slices(p, s, kind, slices.drop_last(), depth);
        let (p1, s1) = slices_processed(p, s, kind, slices.drop_last(), depth);
        lemma_slots(p1, s1, kind, slices.last().slots(), depth, false);
    }
}

proof fn lemma_given_kept(p: IncsState, s: State, kind: u8)
    ensures
        requests_kept(s, given_processed(p, s, kind).1),
{
    let begin = IncsState { incs: Seq::empty(), ..p };
    let record = remembers_roots(p, kind);
    lemma_slots(begin, s, kind, p.incs, p.depth, record);
    let (p1, s1, _) = slots_processed(begin, s, kind, p.incs, p.depth, record);
    let middle = IncsState { inc_slices: Seq::empty(), ..p1 };
    lemma_slices(middle, s1, kind, p.inc_slices, p.depth);
}

proof fn lemma_drained(p: IncsState, s: State, depth: u32)
    requires
        bounded(s),
    ensures
        requests_kept(s, incs_drained(p, s, depth).1),
    decreases remaining(s),
{
    if p.pending() {
        let deeper = depth.wrapping_add(1);
        lemma_round(p, s, deeper);
        lemma_slots(p.emptied(), s, EDGE_KIND_NURSERY, p.new_incs, deeper, false);
        let (p1, s1, _) = slots_processed(
            p.emptied(),
            s,
            EDGE_KIND_NURSERY,
            p.new_incs,
            deeper,
            false,
        );
        lemma_slices(p1, s1, EDGE_KIND_NURSERY, p.new_inc_slices, p.depth);
        let (p2, s2) = round_processed(p, s, deeper);
        assert(requests_kept(s, s2));
        if p2.pending() {
            lemma_drained(p2, s2, deeper);
            let (q, t) = incs_drained(p2, s2, deeper);
            assert(incs_drained(p, s, depth) == (q, t));
        }
    }
}

/// What a packet does after the increments that it was given withdraws nothing.
proof fn lemma_rest(p: IncsState, s: State, kind: u8, elapsed_millis: u128)
    requires
        s.wf(),
    ensures
        ({
            let (p1, s1) = incs_begun(p, s, s.phase.current_pause->0, elapsed_millis);
            let (_, s2, _) = given_processed(p1, s1, kind);
            &&& s1.effects == s.effects
            &&& bounded(s1)
            &&& requests_kept(s2, incs_done(p, s, kind, elapsed_millis).1)
        }),
{
    lemma_wf_bounded(s);
    let pause = s.phase.current_pause->0;
    let (p1, s1) = incs_begun(p, s, pause, elapsed_millis);
    assert forall|o: ObjectReference| #[trigger] s1.count(o) == s.count(o) by {}
    lemma_given(p1, s1, kind);
    let (p2, s2, roots) = given_processed(p1, s1, kind);
    let slots = if traces_roots(pause) {
        p.incs
    } else {
        Seq::empty()
    };
    let s3 = if roots.len() > 0 {
        roots_handed_over(s2, pause, p.root_kind, slots, roots)
    } else {
        s2
    };
    assert forall|o: ObjectReference| #[trigger] s3.count(o) == s2.count(o) by {}
    lemma_drained(p2, s3, p.depth);
}

/// A packet of increments withdraws nothing that was asked for before.
pub proof fn packet_keeps_requests(p: IncsState, s: State, kind: u8, elapsed_millis: u128)
    requires
        s.wf(),
    ensures
        requests_kept(s, incs_done(p, s, kind, elapsed_millis).1),
{
    lemma_rest(p, s, kind, elapsed_millis);
    let (p1, s1) = incs_begun(p, s, s.phase.current_pause->0, elapsed_millis);
    lemma_given_kept(p1, s1, kind);
}

/// Where the object of the slot at `i` is, once the slots of a packet up to it
/// were processed.
pub open spec fn slot_target(
    p: IncsState,
    s: State,
    kind: u8,
    slots: Seq<Slot>,
    depth: u32,
    record: bool,
    i: int,
) -> Option<ObjectReference> {
    let (p1, s1, _) = slots_processed(p, s, kind, slots.take(i), depth, record);
    slot_processed(p1, s1, kind, slots[i], depth, record).2
}

/// Whether a reference from `slot` to `o` was asked to be remembered.
pub open spec fn is_remembered(s: State, slot: Slot, o: ObjectReference) -> bool {
    exists|j: int|
        0 <= j < s.effects.len() && #[trigger] s.effects[j] == (Effect::RemsetRecord {
            slot,
            object: o,
        })
}

/// What is remembered stays remembered.
pub proof fn lemma_remembered_stays(s: State, t: State, slot: Slot, o: ObjectReference)
    requires
        requests_kept(s, t),
        is_remembered(s, slot, o),
    ensures
        is_remembered(t, slot, o),
{
    let j = choose|j: int|
        0 <= j < s.effects.len() && #[trigger] s.effects[j] == (Effect::RemsetRecord {
            slot,
            object: o,
        });
    assert(t.effects[j] == s.effects[j]);
}

proof fn lemma_slots_remembered(
    p: IncsState,
    s: State,
    kind: u8,
    slots: Seq<Slot>,
    depth: u32,
    i: int,
)
    requires
        bounded(s),
        p.remembers(s),
        kind != EDGE_KIND_ROOT || (p.root_kind is Some && p.root_kind->0.record_remset),
        0 <= i < slots.len(),
        !s.in_defrag(slots[i].address),
    ensures
        ({
            let record = remembers_roots(p, kind);
            slot_target(p, s, kind, slots, depth, record, i) matches Some(new) ==> (s.in_defrag(
                new.address,
            ) ==> is_remembered(
                slots_processed(p, s, kind, slots, depth, record).1,
                slots[i],
                new,
            ))
        }),
    decreases slots.len(),
{
    let record = remembers_roots(p, kind);
    let before = slots.drop_last();
    let (p1, s1, _) = slots_processed(p, s, kind, before, depth, record);
    lemma_slots_processed(p, s, kind, before, depth, record);
    let (q, t, _) = slots_processed(p, s, kind, slots, depth, record);
    assert(slots.take(i) =~= before.take(i));
    if let Some(new) = slot_target(p, s, kind, slots, depth, record, i) {
        if s.in_defrag(new.address) {
            if i < before.len() {
                lemma_slots_remembered(p, s, kind, before, depth, i);
                lemma_slot(p1, s1, kind, slots.last(), depth, record);
                lemma_remembered_stays(s1, t, slots[i], new);
            } else {
                assert(slots.take(i) =~= before);
                references_into_emptied_blocks_are_remembered(p1, s1, kind, slots[i], depth);
                let j = t.effects.len() - 1;
                assert(t.effects[j] == t.effects.last());
            }
        }
    }
}

/// A packet remembers its references into blocks that are being emptied, while
/// marking goes on or ends, from slots that lie outside: those of roots where
/// their kind asks for it, and those of all other slots that it was given.
pub proof fn packet_remembers_references(
    p: IncsState,
    s: State,
    kind: u8,
    elapsed_millis: u128,
    i: int,
)
    requires
        s.wf(),
        0 <= i < p.incs.len(),
        kind != EDGE_KIND_ROOT || (p.root_kind is Some && p.root_kind->0.record_remset),
        incs_begun(p, s, s.phase.current_pause->0, elapsed_millis).0.remembers(s),
        !s.in_defrag(p.incs[i].address),
    ensures
        ({
            let (p1, s1) = incs_begun(p, s, s.phase.current_pause->0, elapsed_millis);
            let start = IncsState { incs: Seq::empty(), ..p1 };
            let record = remembers_roots(p1, kind);
            slot_target(start, s1, kind, p.incs, p.depth, record, i) matches Some(new) ==> (
            s.in_defrag(new.address) ==> is_remembered(
                incs_done(p, s, kind, elapsed_millis).1,
                p.incs[i],
                new,
            ))
        }),
{
    lemma_rest(p, s, kind, elapsed_millis);
    let (p1, s1) = incs_begun(p, s, s.phase.current_pause->0, elapsed_millis);
    let start = IncsState { incs: Seq::empty(), ..p1 };
    let record = remembers_roots(p1, kind);
    lemma_slots_remembered(start, s1, kind, p.incs, p.depth, i);
    let (q, t, _) = slots_processed(start, s1, kind, p.incs, p.depth, record);
    let middle = IncsState { inc_slices: Seq::empty(), ..q };
    lemma_slices(middle, t, kind, p1.inc_slices, p1.depth);
    let s2 = given_processed(p1, s1, kind).1;
    if let Some(new) = slot_target(start, s1, kind, p.incs, p.depth, record, i) {
        if s.in_defrag(new.address) {
            assert(s1.in_defrag(new.address));
            lemma_remembered_stays(t, s2, p.incs[i], new);
            lemma_remembered_stays(
                s2,
                incs_done(p, s, kind, elapsed_millis).1,
                p.incs[i],
                new,
            );
        }
    }
}

} // verus!
