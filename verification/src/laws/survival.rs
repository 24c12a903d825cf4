//! What holds of the sizes that are reported: each copy is reported once.

use crate::inc_work::given_processed;
use crate::inc_work::incs_begun;
use crate::inc_work::incs_done;
use crate::inc_work::incs_drained;
use crate::inc_work::lemma_round;
use crate::inc_work::remembers_roots;
use crate::inc_work::roots_handed_over;
use crate::inc_work::round_processed;
use crate::inc_work::traces_roots;
use crate::increments::answer_taken;
use crate::increments::claim_dropped;
use crate::increments::claim_settled;
use crate::increments::copy_answer;
use crate::increments::forwarded_to;
use crate::increments::inc_processed;
use crate::increments::inc_traced;
use crate::increments::moved_or_kept;
use crate::increments::object_copied;
use crate::increments::promoted;
use crate::increments::slices_processed;
use crate::increments::slot_processed;
use crate::increments::slot_read;
use crate::increments::slot_traced;
use crate::increments::slots_processed;
use crate::increments::target_traced;
use crate::laws::counting::promotion_asks_for_the_lines;
use crate::object::MemorySlice;
use crate::object::ObjectReference;
use crate::object::Slot;
use crate::packets::EDGE_KIND_NURSERY;
use crate::progress::bounded;
use crate::progress::lemma_wf_bounded;
use crate::progress::remaining;
use crate::state::Event;
use crate::state::Forwarding;
use crate::state::IncsState;
use crate::state::State;
use crate::stats::increment_counted;
use vstd::prelude::*;

verus! {

/// How many of the answers are places.
pub open spec fn places(answers: Seq<Option<ObjectReference>>) -> nat
    decreases answers.len(),
{
    if answers.len() == 0 {
        0
    } else {
        places(answers.drop_last()) + if answers.last() is Some {
            1nat
        } else {
            0nat
        }
    }
}

/// As many sizes came to the packet, behind those from before, as places were used.
pub open spec fn sizes_kept(p: IncsState, s: State, q: IncsState, t: State) -> bool {
    &&& q.copied_sizes.len() + places(t.copies) == p.copied_sizes.len() + places(s.copies)
    &&& p.copied_sizes.len() <= q.copied_sizes.len()
    &&& forall|i: int|
        0 <= i < p.copied_sizes.len() ==> #[trigger] q.copied_sizes[i] == p.copied_sizes[i]
    &&& t.survival == s.survival
}

proof fn lemma_promoted(
    p: IncsState,
    s: State,
    o: ObjectReference,
    copied: bool,
    los: bool,
    depth: u32,
)
    requires
        bounded(s),
    ensures
        ({
            let (q, t) = promoted(p, s, o, copied, los, depth);
            &&& t.copies == s.copies
            &&& t.survival == s.survival
            &&& q.copied_sizes == (if copied && !los {
                p.copied_sizes.push(s.shape(o.address).size)
            } else {
                p.copied_sizes
            })
        }),
{
    crate::progress::lemma_promoted(p, s, o, copied, los, depth);
    promotion_asks_for_the_lines(p, s, o, copied, los, depth);
}

proof fn lemma_increment(p: IncsState, s: State, o: ObjectReference, depth: u32)
    requires
        bounded(s),
    ensures
        ({
            let (q, t, _) = inc_processed(p, s, o, depth);
            sizes_kept(p, s, q, t)
        }),
{
    reveal(inc_processed);
    reveal(moved_or_kept);
    let los = s.los.has(o.address);
    let found = claim_settled(s, o);
    crate::progress::lemma_settled_advances(p, s, o);
    let settled = increment_counted(found, forwarded_to(found, o));
    crate::progress::lemma_increment_counted(p, found, forwarded_to(found, o));
    crate::progress::lemma_inc_traced(settled, o);
    crate::progress::lemma_inc_traced(settled, forwarded_to(found, o));
    lemma_promoted(p, inc_traced(settled, o), o, false, los, depth);
    let noted = increment_counted(s, o);
    crate::progress::lemma_increment_counted(p, s, o);
    crate::progress::lemma_inc_traced(noted, o);
    lemma_promoted(p, inc_traced(noted, o), o, false, los, depth);
    let claimed = noted.with_forwarding(o, Forwarding::BeingForwarded(None));
    assert forall|x: ObjectReference| #[trigger] claimed.count(x) == s.count(x) by {}
    crate::progress::lemma_inc_traced(claimed, o);
    let kept = claim_dropped(claimed, o);
    crate::progress::lemma_forwarding_bounded(inc_traced(claimed, o), kept);
    lemma_promoted(p, kept, o, false, los, depth);
    let answered = answer_taken(claimed);
    let full = answered.with_event(Event::ToSpaceOverflow);
    assert forall|x: ObjectReference| #[trigger] full.count(x) == s.count(x) by {}
    crate::progress::lemma_inc_traced(full, o);
    let left = claim_dropped(full, o);
    crate::progress::lemma_forwarding_bounded(inc_traced(full, o), left);
    lemma_promoted(p, left, o, false, los, depth);
    if let Some(new) = copy_answer(claimed) {
        let c = object_copied(answered, o, new);
        assert(bounded(c) && c.copies == answered.copies && c.survival == s.survival) by {
            reveal(object_copied);
            assert forall|x: ObjectReference| #[trigger] c.count(x) == s.count(x) by {}
            assert(c.objects.dom() =~= if s.objects.contains_key(o.address) {
                s.objects.dom().insert(new.address)
            } else {
                s.objects.dom()
            });
        }
        crate::progress::lemma_inc_traced(c, new);
        lemma_promoted(p, inc_traced(c, new), new, true, false, depth);
    }
}

proof fn lemma_slot(
    p: IncsState,
    s: State,
    kind: u8,
    slot: Slot,
    depth: u32,
    record: bool,
)
    requires
        bounded(s),
    ensures
        ({
            let (q, t, _) = slot_processed(p, s, kind, slot, depth, record);
            &&& sizes_kept(p, s, q, t)
            &&& bounded(t)
        }),
{
    reveal(slot_processed);
    crate::progress::lemma_slot_processed(p, s, kind, slot, depth, record);
    let s1 = slot_read(slot_traced(s, kind, slot, depth), kind, slot);
    if let Some(o) = s1.load(slot) {
        let s2 = target_traced(s1, kind, slot, depth, o);
        assert forall|x: ObjectReference| #[trigger] s2.count(x) == s.count(x) by {}
        lemma_increment(p, s2, o, depth);
    }
}

proof fn lemma_slots(
    p: IncsState,
    s: State,
    kind: u8,
    slots: Seq<Slot>,
    depth: u32,
    record: bool,
)
    requires
        bounded(s),
    ensures
        ({
            let (q, t, _) = slots_processed(p, s, kind, slots, depth, record);
            &&& sizes_kept(p, s, q, t)
            &&& bounded(t)
        }),
    decreases slots.len(),
{
    if slots.len() > 0 {
        lemma_slots(p, s, kind, slots.drop_last(), depth, record);
        let (p1, s1, _) = slots_processed(p, s, kind, slots.drop_last(), depth, record);
        lemma_slot(p1, s1, kind, slots.last(), depth, record);
    }
}

proof fn lemma_slices(
    p: IncsState,
    s: State,
    kind: u8,
    slices: Seq<MemorySlice>,
    depth: u32,
)
    requires
        bounded(s),
    ensures
        ({
            let (q, t) = slices_processed(p, s, kind, slices, depth);
            &&& sizes_kept(p, s, q, t)
            &&& bounded(t)
        }),
    decreases slices.len(),
{
    if slices.len() > 0 {
        lemma_slices(p, s, kind, slices.drop_last(), depth);
        let (p1, s1) = slices_processed(p, s, kind, slices.drop_last(), depth);
        lemma_slots(p1, s1, kind, slices.last().slots(), depth, false);
    }
}

proof fn lemma_drained(p: IncsState, s: State, depth: u32)
    requires
        bounded(s),
    ensures
        ({
            let (q, t) = incs_drained(p, s, depth);
            sizes_kept(p, s, q, t)
        }),
    decreases remaining(s),
{
    if p.pending() {
        let deeper = depth.wrapping_add(1);
        lemma_round(p, s, deeper);
        lemma_slots(p.emptied(), s, EDGE_KIND_NURSERY, p.new_incs, deeper, false);
        let (p1, s1, _) = slots_processed(
            p.emptied(),
            s,
            EDGE_KIND_NURSERY,
            p.new_incs,
            deeper,
            false,
        );
        lemma_slices(p1, s1, EDGE_KIND_NURSERY, p.new_inc_slices, p.depth);
        let (p2, s2) = round_processed(p, s, deeper);
        assert(sizes_kept(p, s, p2, s2));
        if p2.pending() {
            lemma_drained(p2, s2, deeper);
            assert(incs_drained(p, s, depth) == incs_drained(p2, s2, deeper));
        }
    }
}

/// A packet reports the size of every copy once: behind the sizes that were reported
/// before come those that the packet had, and after them one for each place of the copy
/// allocator that was used. The packet keeps none.
pub proof fn every_copy_is_reported(p: IncsState, s: State, kind: u8, elapsed_millis: u128, i: int)
    requires
        s.wf(),
    ensures
        ({
            let (q, t) = incs_done(p, s, kind, elapsed_millis);
            let n = s.survival.len() as int;
            let m = p.copied_sizes.len() as int;
            &&& q.copied_sizes.len() == 0
            &&& t.survival.len() + places(t.copies) == n + m + places(s.copies)
            &&& 0 <= i < n ==> t.survival[i] == s.survival[i]
            &&& n <= i < n + m ==> t.survival[i] == p.copied_sizes[i - n]
        }),
{
    lemma_wf_bounded(s);
    let pause = s.phase.current_pause->0;
    let (p1, s1) = incs_begun(p, s, pause, elapsed_millis);
    assert forall|o: ObjectReference| #[trigger] s1.count(o) == s.count(o) by {}
    let begin = IncsState { incs: Seq::empty(), ..p1 };
    let record = remembers_roots(p1, kind);
    lemma_slots(begin, s1, kind, p1.incs, p1.depth, record);
    let (q1, t1, _) = slots_processed(begin, s1, kind, p1.incs, p1.depth, record);
    let middle = IncsState { inc_slices: Seq::empty(), ..q1 };
    lemma_slices(middle, t1, kind, p1.inc_slices, p1.depth);
    let (p2, s2, roots) = given_processed(p1, s1, kind);
    let slots = if traces_roots(pause) {
        p.incs
    } else {
        Seq::empty()
    };
    let s3 = if roots.len() > 0 {
        roots_handed_over(s2, pause, p.root_kind, slots, roots)
    } else {
        s2
    };
    assert forall|o: ObjectReference| #[trigger] s3.count(o) == s2.count(o) by {}
    lemma_drained(p2, s3, p.depth);
    let (p4, s4) = incs_drained(p2, s3, p.depth);
    let (_, t) = incs_done(p, s, kind, elapsed_millis);
    let n = s.survival.len() as int;
    if n <= i < n + p.copied_sizes.len() {
        let k = i - n;
        assert(q1.copied_sizes[k] == begin.copied_sizes[k]);
        assert(p2.copied_sizes[k] == q1.copied_sizes[k]);
        assert(p4.copied_sizes[k] == p2.copied_sizes[k]);
    }
}

} // verus!
