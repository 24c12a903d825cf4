//! What holds of roots: where they are handed to.

use crate::inc_work::given_processed;
use crate::inc_work::incs_begun;
use crate::inc_work::incs_done;
use crate::inc_work::incs_drained;
use crate::inc_work::lemma_given;
use crate::inc_work::lemma_round;
use crate::inc_work::remembers_roots;
use crate::inc_work::roots_found;
use crate::inc_work::roots_handed_over;
use crate::inc_work::round_processed;
use crate::inc_work::traces_roots;
use crate::increments::answer_taken;
use crate::increments::child_scanned;
use crate::increments::children_scanned;
use crate::increments::claim_dropped;
use crate::increments::claim_settled;
use crate::increments::copy_answer;
use crate::increments::forwarded_to;
use crate::increments::inc_processed;
use crate::increments::inc_traced;
use crate::increments::moved_or_kept;
use crate::increments::nursery_object_scanned;
use crate::increments::object_copied;
use crate::increments::promoted;
use crate::increments::rearmed;
use crate::increments::slices_added;
use crate::increments::slices_processed;
use crate::increments::slot_processed;
use crate::increments::slot_read;
use crate::increments::slot_traced;
use crate::increments::slots_processed;
use crate::increments::target_traced;
use crate::laws::barrier::as_list;
use crate::laws::increments::slot_refers_to_its_object;
use crate::object::Field;
use crate::object::MemorySlice;
use crate::object::ObjectKind;
use crate::object::ObjectReference;
use crate::object::Slot;
use crate::packets::EDGE_KIND_NURSERY;
use crate::packets::EDGE_KIND_ROOT;
use crate::progress::bounded;
use crate::progress::lemma_kept_in_place;
use crate::progress::lemma_slots_processed;
use crate::progress::lemma_wf_bounded;
use crate::progress::remaining;
use crate::roots::roots_counted;
use crate::roots::RootEdgesState;
use crate::state::Destination;
use crate::state::Effect;
use crate::state::Event;
use crate::state::Forwarding;
use crate::state::IncsState;
use crate::state::Pause;
use crate::state::State;
use crate::state::SubmissionView;
use crate::state::WorkBucketStage;
use crate::state::WorkView;
use crate::stats::increment_counted;
use crate::stats::promotion_noted;
use vstd::prelude::*;

verus! {

// What increments hand over on the way.

/// Whether work is a packet of new increments that goes to a worker as it should:
/// one level below a new packet, with nothing found yet.
pub open spec fn is_new_increments(w: SubmissionView) -> bool {
    &&& w.to == Destination::Worker(WorkBucketStage::Unconstrained)
    &&& w.work matches WorkView::NurseryIncs(packet) && packet.depth == 2
        && packet.new_incs.len() == 0 && packet.new_inc_slices.len() == 0
        && packet.new_incs_count == 0 && packet.root_kind is None && !packet.no_evac
        && packet.copied_sizes.len() == 0
}

/// The work from before is still there, and new work is new increments.
pub open spec fn only_increments_added(s: State, t: State) -> bool {
    &&& s.work.len() <= t.work.len()
    &&& forall|i: int| 0 <= i < s.work.len() ==> #[trigger] t.work[i] == s.work[i]
    &&& forall|i: int|
        s.work.len() <= i < t.work.len() ==> is_new_increments(#[trigger] t.work[i])
}

proof fn lemma_added_trans(s: State, t: State, u: State)
    requires
        only_increments_added(s, t),
        only_increments_added(t, u),
    ensures
        only_increments_added(s, u),
{
    assert forall|i: int| 0 <= i < s.work.len() implies #[trigger] u.work[i] == s.work[i] by {
        assert(t.work[i] == s.work[i]);
    }
    assert forall|i: int| s.work.len() <= i < u.work.len() implies is_new_increments(
        #[trigger] u.work[i],
    ) by {
        if i < t.work.len() {
            assert(u.work[i] == t.work[i]);
        }
    }
}

proof fn lemma_child(p: IncsState, s: State, o: ObjectReference, in_defrag: bool, slot: Slot)
    ensures
        only_increments_added(s, child_scanned(p, s, o, in_defrag, slot).1),
{
    reveal(child_scanned);
}

proof fn lemma_children(
    p: IncsState,
    s: State,
    o: ObjectReference,
    in_defrag: bool,
    fields: Seq<Field>,
)
    ensures
        only_increments_added(s, children_scanned(p, s, o, in_defrag, fields).1),
    decreases fields.len(),
{
    if fields.len() > 0 {
        lemma_children(p, s, o, in_defrag, fields.drop_last());
        let (p1, s1) = children_scanned(p, s, o, in_defrag, fields.drop_last());
        lemma_child(p1, s1, o, in_defrag, fields.last().slot);
        lemma_added_trans(s, s1, children_scanned(p, s, o, in_defrag, fields).1);
    }
}

proof fn lemma_slices_added(p: IncsState, s: State, slices: Seq<MemorySlice>)
    ensures
        only_increments_added(s, slices_added(p, s, slices).1),
    decreases slices.len(),
{
    if slices.len() > 0 {
        lemma_slices_added(p, s, slices.drop_last());
        lemma_added_trans(
            s,
            slices_added(p, s, slices.drop_last()).1,
            slices_added(p, s, slices).1,
        );
    }
}

proof fn lemma_promoted(
    p: IncsState,
    s: State,
    o: ObjectReference,
    copied: bool,
    los: bool,
    depth: u32,
)
    ensures
        only_increments_added(s, promoted(p, s, o, copied, los, depth).1),
{
    reveal(promoted);
    reveal(nursery_object_scanned);
    reveal(rearmed);
    let size = s.shape(o.address).size;
    let s1 = promotion_noted(s, o, copied, los, depth);
    let s2 = if los {
        s1
    } else {
        let told = if !copied && s1.in_nursery(o) {
            s1.with_effect(Effect::InPlacePromoted { block: s1.args.block_of(o.address) })
        } else {
            s1
        };
        told.with_effect(Effect::PromoteWithSize { object: o, size })
    };
    let p2 = if !los && copied {
        IncsState { copied_sizes: p.copied_sizes.push(size), ..p }
    } else {
        p
    };
    let s3 = rearmed(s2, o, los, !copied, size);
    assert(s3.work == s.work);
    let shape = s2.shape(o.address);
    let in_defrag = !los && s2.in_defrag_block(o.address);
    lemma_children(p2, s3, o, in_defrag, shape.fields);
    if let ObjectKind::ObjArray(data) = shape.kind {
        lemma_slices_added(p2, s3, data.chunks(s2.args.buffer_size as int));
    }
}

proof fn lemma_increment(p: IncsState, s: State, o: ObjectReference, depth: u32)
    ensures
        only_increments_added(s, inc_processed(p, s, o, depth).1),
{
    reveal(inc_processed);
    reveal(moved_or_kept);
    reveal(object_copied);
    let los = s.los.has(o.address);
    let found = claim_settled(s, o);
    let settled = increment_counted(found, forwarded_to(found, o));
    lemma_promoted(p, inc_traced(settled, o), o, false, los, depth);
    let noted = increment_counted(s, o);
    lemma_promoted(p, inc_traced(noted, o), o, false, los, depth);
    let claimed = noted.with_forwarding(o, Forwarding::BeingForwarded(None));
    lemma_promoted(p, claim_dropped(claimed, o), o, false, los, depth);
    let answered = answer_taken(claimed);
    let full = answered.with_event(Event::ToSpaceOverflow);
    lemma_promoted(p, claim_dropped(full, o), o, false, los, depth);
    if let Some(new) = copy_answer(claimed) {
        let copied = inc_traced(object_copied(answered, o, new), new);
        lemma_promoted(p, copied, new, true, false, depth);
    }
}

proof fn lemma_slot(
    p: IncsState,
    s: State,
    kind: u8,
    slot: Slot,
    depth: u32,
    record: bool,
)
    ensures
        only_increments_added(s, slot_processed(p, s, kind, slot, depth, record).1),
{
    reveal(slot_processed);
    let s1 = slot_read(slot_traced(s, kind, slot, depth), kind, slot);
    if let Some(o) = s1.load(slot) {
        lemma_increment(p, target_traced(s1, kind, slot, depth, o), o, depth);
    }
}

proof fn lemma_slots(
    p: IncsState,
    s: State,
    kind: u8,
    slots: Seq<Slot>,
    depth: u32,
    record: bool,
)
    ensures
        only_increments_added(s, slots_processed(p, s, kind, slots, depth, record).1),
    decreases slots.len(),
{
    if slots.len() > 0 {
        lemma_slots(p, s, kind, slots.drop_last(), depth, record);
        let (p1, s1, _) = slots_processed(p, s, kind, slots.drop_last(), depth, record);
        lemma_slot(p1, s1, kind, slots.last(), depth, record);
        lemma_added_trans(s, s1, slots_processed(p, s, kind, slots, depth, record).1);
    }
}

proof fn lemma_slices(
    p: IncsState,
    s: State,
    kind: u8,
    slices: Seq<MemorySlice>,
    depth: u32,
)
    ensures
        only_increments_added(s, slices_processed(p, s, kind, slices, depth).1),
    decreases slices.len(),
{
    if slices.len() > 0 {
        lemma_slices(p, s, kind, slices.drop_last(), depth);
        let (p1, s1) = slices_processed(p, s, kind, slices.drop_last(), depth);
        lemma_slots(p1, s1, kind, slices.last().slots(), depth, false);
        lemma_added_trans(s, s1, slices_processed(p, s, kind, slices, depth).1);
    }
}

proof fn lemma_given_adds(p: IncsState, s: State, kind: u8)
    ensures
        only_increments_added(s, given_processed(p, s, kind).1),
{
    let begin = IncsState { incs: Seq::empty(), ..p };
    let record = remembers_roots(p, kind);
    lemma_slots(begin, s, kind, p.incs, p.depth, record);
    let (p1, s1, _) = slots_processed(begin, s, kind, p.incs, p.depth, record);
    let middle = IncsState { inc_slices: Seq::empty(), ..p1 };
    lemma_slices(middle, s1, kind, p.inc_slices, p.depth);
    lemma_added_trans(s, s1, given_processed(p, s, kind).1);
}

proof fn lemma_drained_adds(p: IncsState, s: State, depth: u32)
    requires
        bounded(s),
    ensures
        only_increments_added(s, incs_drained(p, s, depth).1),
    decreases remaining(s),
{
    if p.pending() {
        let deeper = depth.wrapping_add(1);
        lemma_round(p, s, deeper);
        lemma_slots(p.emptied(), s, EDGE_KIND_NURSERY, p.new_incs, deeper, false);
        let (p1, s1, _) = slots_processed(
            p.emptied(),
            s,
            EDGE_KIND_NURSERY,
            p.new_incs,
            deeper,
            false,
        );
        lemma_slices(p1, s1, EDGE_KIND_NURSERY, p.new_inc_slices, p.depth);
        let (p2, s2) = round_processed(p, s, deeper);
        lemma_added_trans(s, s1, s2);
        if p2.pending() {
            lemma_drained_adds(p2, s2, deeper);
            assert(incs_drained(p, s, depth) == incs_drained(p2, s2, deeper));
            lemma_added_trans(s, s2, incs_drained(p2, s2, deeper).1);
        }
    }
}

// Where roots go.

/// The work that is no packet of new increments, in order.
pub open spec fn handed_over(work: Seq<SubmissionView>) -> Seq<SubmissionView>
    decreases work.len(),
{
    if work.len() == 0 {
        Seq::empty()
    } else {
        let before = handed_over(work.drop_last());
        if work.last().work is NurseryIncs {
            before
        } else {
            before.push(work.last())
        }
    }
}

proof fn lemma_nothing_handed_over(s: State, t: State, n: int)
    requires
        only_increments_added(s, t),
        s.work.len() <= n <= t.work.len(),
    ensures
        handed_over(t.work.take(n)) == handed_over(s.work),
    decreases n,
{
    if n == s.work.len() {
        assert(t.work.take(n) =~= s.work);
    } else {
        lemma_nothing_handed_over(s, t, n - 1);
        assert(t.work.take(n).drop_last() =~= t.work.take(n - 1));
        assert(is_new_increments(t.work[n - 1]));
        assert(t.work.take(n).last() == t.work[n - 1]);
    }
}

proof fn lemma_none_handed_over(s: State, t: State)
    requires
        only_increments_added(s, t),
    ensures
        handed_over(t.work) == handed_over(s.work),
{
    let n = t.work.len() as int;
    lemma_nothing_handed_over(s, t, n);
    assert(t.work.take(n) =~= t.work);
}

/// Whether any of the slots refers to an object.
pub open spec fn any_object(s: State, slots: Seq<Slot>) -> bool {
    exists|i: int| 0 <= i < slots.len() && s.word((#[trigger] slots[i]).address) != 0
}

/// Slots that refer to no object lead to none, and processing them changes neither
/// memory nor counts. A slot that refers to one leads to one.
proof fn lemma_any_found(
    p: IncsState,
    s: State,
    kind: u8,
    slots: Seq<Slot>,
    depth: u32,
    record: bool,
)
    requires
        bounded(s),
    ensures
        ({
            let (_, t, found) = slots_processed(p, s, kind, slots, depth, record);
            &&& found.len() > 0 <==> any_object(s, slots)
            &&& !any_object(s, slots) ==> t.words == s.words
            &&& bounded(t)
        }),
    decreases slots.len(),
{
    lemma_slots_processed(p, s, kind, slots, depth, record);
    if slots.len() > 0 {
        let before = slots.drop_last();
        lemma_any_found(p, s, kind, before, depth, record);
        let (p1, s1, found) = slots_processed(p, s, kind, before, depth, record);
        let slot = slots.last();
        if any_object(s, before) {
            let i = choose|i: int| 0 <= i < before.len() && s.word((#[trigger] before[i]).address) != 0;
            assert(slots[i] == before[i]);
            assert(any_object(s, slots));
        } else {
            assert(s1.word(slot.address) == s.word(slot.address));
            slot_refers_to_its_object(p1, s1, kind, slot, depth, record);
            assert(slots[slots.len() - 1] == slot);
            if s.word(slot.address) == 0 {
                assert(!any_object(s, slots)) by {
                    if any_object(s, slots) {
                        let i = choose|i: int|
                            0 <= i < slots.len() && s.word((#[trigger] slots[i]).address) != 0;
                        if i < before.len() {
                            assert(before[i] == slots[i]);
                        }
                    }
                }
                reveal(slot_processed);
            } else {
                assert(any_object(s, slots));
            }
        }
    }
}

/// Whether the pause traces from the roots.
pub open spec fn pause_traces(s: State) -> bool {
    s.phase.current_pause == Some(Pause::FinalMark) || s.phase.current_pause == Some(Pause::Full)
}

/// What becomes of the roots of a packet, once it is done, where at least one of its
/// slots refers to an object. In a pause that traces, exactly one piece of work traces
/// from all slots that the packet was given, whether its roots have a kind or none, and
/// none does where they are weak. In the pause that starts marking, marking gets the
/// objects, unless their kind is not marked. Outside a pause that traces, the objects
/// are kept for the next pause, unless their kind is not decremented. Where no slot
/// refers to an object, nothing is handed over. Apart from that, a packet hands over
/// new increments alone.
pub proof fn roots_are_handed_over(p: IncsState, s: State, elapsed_millis: u128)
    requires
        s.wf(),
        s.phase.current_pause is Some,
        any_object(s, p.incs) && !pause_traces(s) ==> p.root_kind is Some,
    ensures
        ({
            let (_, t) = incs_done(p, s, EDGE_KIND_ROOT, elapsed_millis);
            let pause = s.phase.current_pause->0;
            let found = any_object(s, p.incs);
            let roots = roots_found(p, s, EDGE_KIND_ROOT, elapsed_millis);
            let marked = found && s.phase.cm_enabled && pause == Pause::InitialMark
                && !p.root_kind->0.skip_mark_and_decs;
            let weak = p.root_kind is Some && p.root_kind->0.weak;
            let traced = found && pause_traces(s) && !weak;
            let kept = found && !pause_traces(s) && !p.root_kind->0.skip_decs;
            let marking = SubmissionView {
                to: Destination::Postponed,
                work: WorkView::ConcurrentTrace(roots),
            };
            let tracing = SubmissionView {
                to: Destination::Worker(WorkBucketStage::Closure),
                work: WorkView::ProcessEdges {
                    slots: p.incs,
                    full: pause == Pause::Full,
                    root_kind: p.root_kind,
                },
            };
            &&& roots.len() > 0 <==> found
            &&& handed_over(t.work) == handed_over(s.work) + (if marked {
                seq![marking]
            } else {
                Seq::empty()
            }) + (if traced {
                seq![tracing]
            } else {
                Seq::empty()
            })
            &&& t.curr_roots == (if kept {
                s.curr_roots.push(roots)
            } else {
                s.curr_roots
            })
        }),
{
    lemma_wf_bounded(s);
    let kind = EDGE_KIND_ROOT;
    let pause = s.phase.current_pause->0;
    let (p1, s1) = incs_begun(p, s, pause, elapsed_millis);
    assert forall|o: ObjectReference| #[trigger] s1.count(o) == s.count(o) by {}
    let begin = IncsState { incs: Seq::empty(), ..p1 };
    lemma_any_found(begin, s1, kind, p1.incs, p1.depth, remembers_roots(p1, kind));
    assert(any_object(s1, p1.incs) == any_object(s, p.incs)) by {
        assert forall|a: usize| #[trigger] s1.word(a) == s.word(a) by {}
    }
    let (p2, s2, roots) = given_processed(p1, s1, kind);
    lemma_given(p1, s1, kind);
    lemma_given_adds(p1, s1, kind);
    lemma_none_handed_over(s1, s2);
    let slots = if traces_roots(pause) {
        p.incs
    } else {
        Seq::empty()
    };
    let s3 = if roots.len() > 0 {
        roots_handed_over(s2, pause, p.root_kind, slots, roots)
    } else {
        s2
    };
    if s3.work.len() > s2.work.len() {
        assert(s3.work.drop_last() =~= s2.work);
    }
    assert(p.incs.len() > 0 || !any_object(s, p.incs));
    assert forall|o: ObjectReference| #[trigger] s3.count(o) == s2.count(o) by {}
    lemma_drained_adds(p2, s3, p.depth);
    crate::inc_work::lemma_drained(p2, s3, p.depth);
    let (_, s4) = incs_drained(p2, s3, p.depth);
    lemma_none_handed_over(s3, s4);
    let (_, t) = incs_done(p, s, kind, elapsed_millis);
    assert(t.work == s4.work);
    let nothing = Seq::<SubmissionView>::empty();
    assert(handed_over(s.work) + nothing + nothing =~= handed_over(s.work));
    let h = handed_over(s.work);
    assert(handed_over(t.work) =~= handed_over(s3.work));
    if s3.work.len() > s2.work.len() {
        let w = s3.work.last();
        assert(handed_over(s3.work) == h.push(w));
        assert(h.push(w) =~= h + seq![w] + nothing);
        assert(h.push(w) =~= h + nothing + seq![w]);
    }
}

/// A packet whose slots are no roots hands over new increments alone.
pub proof fn other_slots_are_not_handed_over(
    p: IncsState,
    s: State,
    kind: u8,
    elapsed_millis: u128,
)
    requires
        s.wf(),
        kind != EDGE_KIND_ROOT,
    ensures
        ({
            let (_, t) = incs_done(p, s, kind, elapsed_millis);
            &&& only_increments_added(s, t)
            &&& handed_over(t.work) == handed_over(s.work)
            &&& t.curr_roots == s.curr_roots
            &&& t.sanity_roots == s.sanity_roots
        }),
{
    lemma_wf_bounded(s);
    let (p1, s1) = incs_begun(p, s, s.phase.current_pause->0, elapsed_millis);
    assert forall|o: ObjectReference| #[trigger] s1.count(o) == s.count(o) by {}
    lemma_given(p1, s1, kind);
    lemma_given_adds(p1, s1, kind);
    let (p2, s2, _) = given_processed(p1, s1, kind);
    lemma_drained_adds(p2, s2, p.depth);
    crate::inc_work::lemma_drained(p2, s2, p.depth);
    let (_, s4) = incs_drained(p2, s2, p.depth);
    lemma_added_trans(s1, s2, s4);
    let (_, t) = incs_done(p, s, kind, elapsed_millis);
    assert(only_increments_added(s, t));
    lemma_none_handed_over(s, t);
}

// Which objects.

/// The objects that slots refer to, in order.
pub open spec fn loaded(s: State, slots: Seq<Slot>) -> Seq<ObjectReference>
    decreases slots.len(),
{
    if slots.len() == 0 {
        Seq::empty()
    } else {
        loaded(s, slots.drop_last()) + as_list(s.load(slots.last()))
    }
}

/// Nobody has claimed any object.
pub open spec fn nobody_moved(s: State) -> bool {
    forall|o: ObjectReference| #[trigger] s.forwarding_of(o) == Forwarding::Untouched
}

proof fn lemma_loaded(
    p: IncsState,
    s: State,
    kind: u8,
    slots: Seq<Slot>,
    depth: u32,
    record: bool,
)
    requires
        bounded(s),
        p.no_evac,
        nobody_moved(s),
    ensures
        ({
            let (q, t, found) = slots_processed(p, s, kind, slots, depth, record);
            &&& found == loaded(s, slots)
            &&& t.words == s.words
            &&& q.no_evac
            &&& nobody_moved(t)
            &&& bounded(t)
        }),
    decreases slots.len(),
{
    if slots.len() > 0 {
        let before = slots.drop_last();
        lemma_loaded(p, s, kind, before, depth, record);
        let (p1, s1, _) = slots_processed(p, s, kind, before, depth, record);
        let slot = slots.last();
        let (q, t, found) = slot_processed(p1, s1, kind, slot, depth, record);
        crate::laws::evacuation::lemma_slot(p1, s1, kind, slot, depth, record);
        slot_refers_to_its_object(p1, s1, kind, slot, depth, record);
        assert(s1.load(slot) == s.load(slot));
        assert forall|o: ObjectReference| #[trigger] t.forwarding_of(o)
            == Forwarding::Untouched by {
            assert(s1.forwarding_of(o) == Forwarding::Untouched);
        }
        reveal(slot_processed);
        let s2 = slot_read(slot_traced(s1, kind, slot, depth), kind, slot);
        if let Some(o) = s2.load(slot) {
            let s3 = target_traced(s2, kind, slot, depth, o);
            assert forall|x: ObjectReference| #[trigger] s3.count(x) == s1.count(x) by {}
            lemma_kept_in_place(p1, s3, o, depth);
        }
        assert(t.words == s.words);
        assert(slots_processed(p, s, kind, slots, depth, record).2 =~= loaded(s, slots));
    }
}

/// Where evacuation has stopped and no object moved, the roots that a packet hands
/// over are the objects that its slots refer to, each slot once, in order.
pub proof fn roots_are_the_objects_of_the_slots(p: IncsState, s: State, elapsed_millis: u128)
    requires
        s.wf(),
        s.no_evac,
        nobody_moved(s),
    ensures
        roots_found(p, s, EDGE_KIND_ROOT, elapsed_millis) == loaded(s, p.incs),
{
    lemma_wf_bounded(s);
    let kind = EDGE_KIND_ROOT;
    let (p1, s1) = incs_begun(p, s, s.phase.current_pause->0, elapsed_millis);
    assert forall|o: ObjectReference| #[trigger] s1.count(o) == s.count(o) by {}
    assert forall|o: ObjectReference| #[trigger] s1.forwarding_of(o)
        == Forwarding::Untouched by {
        assert(s.forwarding_of(o) == Forwarding::Untouched);
    }
    let begin = IncsState { incs: Seq::empty(), ..p1 };
    lemma_loaded(begin, s1, kind, p1.incs, p1.depth, remembers_roots(p1, kind));
    lemma_loaded_read(s, s1, p.incs);
}

proof fn lemma_loaded_read(s: State, t: State, slots: Seq<Slot>)
    requires
        t.words == s.words,
    ensures
        loaded(t, slots) == loaded(s, slots),
    decreases slots.len(),
{
    if slots.len() > 0 {
        lemma_loaded_read(s, t, slots.drop_last());
        assert(t.load(slots.last()) == s.load(slots.last()));
    }
}

/// The objects that slots lead to, as they are found: a further slot that refers to an
/// object adds where that object is, which is what the slot holds afterwards, behind the
/// objects of the slots before; one that refers to none adds nothing.
pub proof fn further_slot_adds_its_object(
    p: IncsState,
    s: State,
    kind: u8,
    slots: Seq<Slot>,
    depth: u32,
    record: bool,
)
    requires
        bounded(s),
        slots.len() > 0,
    ensures
        ({
            let (_, s1, before) = slots_processed(p, s, kind, slots.drop_last(), depth, record);
            let (_, t, found) = slots_processed(p, s, kind, slots, depth, record);
            if s1.word(slots.last().address) == 0 {
                found == before
            } else {
                &&& found.len() == before.len() + 1
                &&& found.drop_last() == before
                &&& found.last().address == t.word(slots.last().address)
            }
        }),
{
    lemma_slots_processed(p, s, kind, slots.drop_last(), depth, record);
    let (p1, s1, before) = slots_processed(p, s, kind, slots.drop_last(), depth, record);
    slot_refers_to_its_object(p1, s1, kind, slots.last(), depth, record);
    let (_, t, found) = slots_processed(p, s, kind, slots, depth, record);
    if s1.word(slots.last().address) != 0 {
        assert(found.drop_last() =~= before);
    }
}

/// A set of root slots is counted by a packet with these slots and their kind, and is
/// empty afterwards. The slots are kept for a sanity collection where one is configured
/// and has not begun, unless the roots are weak. An empty set does nothing.
pub proof fn root_slots_are_counted(r: RootEdgesState, s: State, elapsed_millis: u128)
    requires
        s.wf(),
    ensures
        ({
            let (q, t) = roots_counted(r, s, elapsed_millis);
            let weak = r.root_kind is Some && r.root_kind->0.weak;
            let keeps = s.args.sanity && r.roots && !s.phase.in_sanity && !weak;
            &&& r.slots.len() == 0 ==> (q, t) == (r, s)
            &&& r.slots.len() > 0 ==> {
                &&& q.slots.len() == 0
                &&& (q.roots, q.root_kind) == (r.roots, r.root_kind)
                &&& t.sanity_roots == (if keeps {
                    s.sanity_roots.push(r.slots)
                } else {
                    s.sanity_roots
                })
                &&& exists|p: IncsState, u: State|
                    {
                        &&& (p.incs, p.root_kind, p.depth) == (r.slots, r.root_kind, 1u32)
                        &&& p.inc_slices.len() == 0
                        &&& p.new_incs.len() == 0
                        &&& p.new_inc_slices.len() == 0
                        &&& !p.no_evac
                        &&& p.copied_sizes.len() == 0
                        &&& u == (State { sanity_roots: u.sanity_roots, ..s })
                        &&& t == (#[trigger] incs_done(p, u, EDGE_KIND_ROOT, elapsed_millis)).1
                    }
            }
        }),
{
    if r.slots.len() > 0 {
        let p = r.packet();
        let u = crate::roots::roots_cached(r, s);
        lemma_wf_bounded(u);
        let (p1, s1) = incs_begun(p, u, u.phase.current_pause->0, elapsed_millis);
        assert forall|o: ObjectReference| #[trigger] s1.count(o) == u.count(o) by {}
        lemma_given(p1, s1, EDGE_KIND_ROOT);
        let (p2, s2, roots) = given_processed(p1, s1, EDGE_KIND_ROOT);
        let slots = if traces_roots(u.phase.current_pause->0) {
            p.incs
        } else {
            Seq::empty()
        };
        let s3 = if roots.len() > 0 {
            roots_handed_over(s2, u.phase.current_pause->0, p.root_kind, slots, roots)
        } else {
            s2
        };
        assert forall|o: ObjectReference| #[trigger] s3.count(o) == s2.count(o) by {}
        crate::inc_work::lemma_drained(p2, s3, p.depth);
        assert(roots_counted(r, s, elapsed_millis).1 == incs_done(
            p,
            u,
            EDGE_KIND_ROOT,
            elapsed_millis,
        ).1);
    }
}

/// A set of root slots is handed over once it is counted, as the packet of its slots is:
/// in a pause that traces, exactly one piece of work traces from all its slots, unless
/// the roots are weak.
pub proof fn counted_roots_are_traced(r: RootEdgesState, s: State, elapsed_millis: u128)
    requires
        s.wf(),
        pause_traces(s),
        any_object(s, r.slots),
    ensures
        ({
            let (_, t) = roots_counted(r, s, elapsed_millis);
            let weak = r.root_kind is Some && r.root_kind->0.weak;
            let tracing = SubmissionView {
                to: Destination::Worker(WorkBucketStage::Closure),
                work: WorkView::ProcessEdges {
                    slots: r.slots,
                    full: s.phase.current_pause == Some(Pause::Full),
                    root_kind: r.root_kind,
                },
            };
            handed_over(t.work) == (if weak {
                handed_over(s.work)
            } else {
                handed_over(s.work).push(tracing)
            })
        }),
{
    let p = r.packet();
    let u = crate::roots::roots_cached(r, s);
    assert(any_object(u, p.incs)) by {
        let i = choose|i: int| 0 <= i < r.slots.len() && s.word((#[trigger] r.slots[i]).address) != 0;
        assert(u.word(p.incs[i].address) == s.word(r.slots[i].address));
    }
    roots_are_handed_over(p, u, elapsed_millis);
    let (_, t) = roots_counted(r, s, elapsed_millis);
    let h = handed_over(s.work);
    let nothing = Seq::<SubmissionView>::empty();
    assert(h + nothing + nothing =~= h);
    let weak = r.root_kind is Some && r.root_kind->0.weak;
    if !weak {
        assert(handed_over(t.work) =~= h.push(handed_over(t.work).last()));
    }
}

} // verus!
