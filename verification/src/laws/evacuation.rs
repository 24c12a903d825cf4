//! What holds of nursery evacuation, and of the references that are remembered for
//! the evacuation of mature objects.

use crate::inc_work::evacuation_stopped;
use crate::inc_work::given_processed;
use crate::inc_work::incs_begun;
use crate::inc_work::incs_done;
use crate::inc_work::incs_drained;
use crate::inc_work::lemma_round;
use crate::inc_work::remembers_roots;
use crate::inc_work::roots_handed_over;
use crate::inc_work::round_processed;
use crate::inc_work::traces_roots;
use crate::increments::claim_settled;
use crate::increments::forwarded_to;
use crate::increments::inc_processed;
use crate::increments::inc_traced;
use crate::increments::moved_or_kept;
use crate::increments::slices_processed;
use crate::increments::slot_processed;
use crate::increments::slot_read;
use crate::increments::slot_traced;
use crate::increments::slots_processed;
use crate::increments::stays;
use crate::increments::target_traced;
use crate::object::MemorySlice;
use crate::object::ObjectReference;
use crate::object::Slot;
use crate::packets::EDGE_KIND_NURSERY;
use crate::packets::EDGE_KIND_ROOT;
use crate::progress::bounded;
use crate::progress::lemma_forwarding_bounded;
use crate::progress::lemma_inc_processed;
use crate::progress::lemma_inc_traced;
use crate::progress::lemma_increment_counted;
use crate::progress::lemma_incremented_in_place;
use crate::progress::lemma_promoted;
use crate::progress::lemma_settled_advances;
use crate::progress::lemma_slot_processed;
use crate::progress::lemma_wf_bounded;
use crate::progress::remaining;
use crate::state::Effect;
use crate::state::Forwarding;
use crate::state::IncsState;
use crate::state::State;
use crate::stats::increment_counted;
use vstd::prelude::*;

verus! {

// Nursery evacuation that has stopped.

/// No object was moved: the copy allocator was not asked, no object was laid
/// out, and what nobody had claimed is where it was.
pub open spec fn nothing_moved(s: State, t: State) -> bool {
    &&& t.copies == s.copies
    &&& t.objects == s.objects
    &&& t.no_evac == s.no_evac
    &&& forall|o: ObjectReference|
        s.forwarding_of(o) == Forwarding::Untouched ==> #[trigger] t.forwarding_of(o)
            == Forwarding::Untouched
}

proof fn lemma_unmoved(s: State, t: State)
    requires
        t.copies == s.copies,
        t.objects == s.objects,
        t.no_evac == s.no_evac,
        t.forwarding == s.forwarding,
    ensures
        nothing_moved(s, t),
{
    assert forall|o: ObjectReference| #[trigger] t.forwarding_of(o) == s.forwarding_of(o) by {}
}

proof fn lemma_unmoved_trans(a: State, b: State, c: State)
    requires
        nothing_moved(a, b),
        nothing_moved(b, c),
    ensures
        nothing_moved(a, c),
{
    assert forall|o: ObjectReference|
        a.forwarding_of(o) == Forwarding::Untouched implies #[trigger] c.forwarding_of(o)
        == Forwarding::Untouched by {
        assert(b.forwarding_of(o) == Forwarding::Untouched);
    }
}

/// The claim of another worker that was waited for.
proof fn lemma_settled(s: State, o: ObjectReference)
    ensures
        nothing_moved(s, claim_settled(s, o)),
        s.forwarding_of(o) == Forwarding::Untouched ==> forwarded_to(claim_settled(s, o), o) == o,
{
    let t = claim_settled(s, o);
    assert forall|x: ObjectReference|
        s.forwarding_of(x) == Forwarding::Untouched implies #[trigger] t.forwarding_of(x)
        == Forwarding::Untouched by {
        if x.address == o.address {
            assert(x == o);
        }
    }
}

proof fn lemma_claim(p: IncsState, s: State, o: ObjectReference, los: bool, depth: u32)
    requires
        bounded(s),
        p.no_evac,
    ensures
        ({
            let (q, t, new) = moved_or_kept(p, s, o, los, depth);
            &&& q.no_evac
            &&& nothing_moved(s, t)
            &&& s.forwarding_of(o) == Forwarding::Untouched ==> new == o
        }),
{
    reveal(moved_or_kept);
    let (q, t, new) = moved_or_kept(p, s, o, los, depth);
    if s.forwarding_of(o) != Forwarding::Untouched {
        let settled = claim_settled(s, o);
        lemma_settled_advances(p, s, o);
        lemma_settled(s, o);
        lemma_inc_traced(settled, new);
        lemma_unmoved(settled, t);
        lemma_unmoved_trans(s, settled, t);
    } else {
        let claimed = s.with_forwarding(o, Forwarding::BeingForwarded(None));
        lemma_forwarding_bounded(s, claimed);
        let counted = inc_traced(claimed, o);
        lemma_inc_traced(claimed, o);
        let kept = counted.with_forwarding(o, Forwarding::Untouched);
        lemma_forwarding_bounded(counted, kept);
        assert forall|x: ObjectReference|
            s.forwarding_of(x) == Forwarding::Untouched implies #[trigger] kept.forwarding_of(x)
            == Forwarding::Untouched by {
            if x.address != o.address {
                assert(kept.forwarding_of(x) == s.forwarding_of(x));
            }
        }
        lemma_promoted(p, kept, o, false, los, depth);
        lemma_unmoved(kept, t);
        lemma_unmoved_trans(s, kept, t);
    }
}

/// Where nursery evacuation has stopped, the increment of an object moves
/// nothing.
pub proof fn lemma_increment(p: IncsState, s: State, o: ObjectReference, depth: u32)
    requires
        bounded(s),
        p.no_evac,
    ensures
        ({
            let (q, t, new) = inc_processed(p, s, o, depth);
            &&& q.no_evac
            &&& nothing_moved(s, t)
            &&& s.forwarding_of(o) == Forwarding::Untouched ==> new == o
        }),
{
    reveal(inc_processed);
    let (q, t, _) = inc_processed(p, s, o, depth);
    let los = s.los.has(o.address);
    if !s.is_managed(o) || !s.has_rc(o) {
        lemma_unmoved(s, s);
    } else if s.args.rc_nursery_evacuation && !los && s.forwarding_of(o) != Forwarding::Untouched {
        let found = claim_settled(s, o);
        let new = forwarded_to(found, o);
        lemma_settled_advances(p, s, o);
        lemma_settled(s, o);
        let settled = increment_counted(found, new);
        lemma_increment_counted(p, found, new);
        lemma_incremented_in_place(p, settled, o, los, depth);
        lemma_inc_traced(settled, new);
        lemma_in_place(p, settled, o, los, depth);
        lemma_unmoved(found, t);
        lemma_unmoved_trans(s, found, t);
    } else {
        let noted = increment_counted(s, o);
        lemma_increment_counted(p, s, o);
        lemma_unmoved(s, noted);
        if !s.args.rc_nursery_evacuation || stays(s, o, los) {
            lemma_incremented_in_place(p, noted, o, los, depth);
            lemma_in_place(p, noted, o, los, depth);
            lemma_unmoved(noted, t);
        } else {
            assert(noted.forwarding_of(o) == s.forwarding_of(o));
            lemma_claim(p, noted, o, los, depth);
        }
        lemma_unmoved_trans(s, noted, t);
    }
}

/// An increment in place leaves it open whether the packet evacuates.
proof fn lemma_in_place(p: IncsState, s: State, o: ObjectReference, los: bool, depth: u32)
    requires
        bounded(s),
    ensures
        crate::increments::incremented_in_place(p, s, o, los, depth).0.no_evac == p.no_evac,
{
    lemma_inc_traced(s, o);
    lemma_promoted(p, inc_traced(s, o), o, false, los, depth);
}

/// Where nursery evacuation has stopped, the increment of a slot moves nothing:
/// an object that nobody has claimed is where the slot says.
pub proof fn stopped_evacuation_moves_nothing(
    p: IncsState,
    s: State,
    kind: u8,
    slot: Slot,
    depth: u32,
    add_root_to_remset: bool,
)
    requires
        s.wf(),
        p.no_evac,
    ensures
        ({
            let (q, t, found) = slot_processed(p, s, kind, slot, depth, add_root_to_remset);
            &&& q.no_evac
            &&& nothing_moved(s, t)
            &&& s.load(slot) matches Some(o) ==> (s.forwarding_of(o) == Forwarding::Untouched
                ==> found == Some(o))
        }),
{
    lemma_wf_bounded(s);
    lemma_slot(p, s, kind, slot, depth, add_root_to_remset);
}

/// The increment of a slot moves nothing, once evacuation has stopped.
pub proof fn lemma_slot(
    p: IncsState,
    s: State,
    kind: u8,
    slot: Slot,
    depth: u32,
    add_root_to_remset: bool,
)
    requires
        bounded(s),
        p.no_evac,
    ensures
        ({
            let (q, t, found) = slot_processed(p, s, kind, slot, depth, add_root_to_remset);
            &&& q.no_evac
            &&& nothing_moved(s, t)
            &&& bounded(t)
            &&& s.load(slot) matches Some(o) ==> (s.forwarding_of(o) == Forwarding::Untouched
                ==> found == Some(o))
        }),
{
    reveal(slot_processed);
    lemma_slot_processed(p, s, kind, slot, depth, add_root_to_remset);
    let (q, t, _) = slot_processed(p, s, kind, slot, depth, add_root_to_remset);
    let s1 = slot_read(slot_traced(s, kind, slot, depth), kind, slot);
    lemma_unmoved(s, s1);
    assert(s1.load(slot) == s.load(slot));
    match s1.load(slot) {
        None => {},
        Some(o) => {
            let s2 = target_traced(s1, kind, slot, depth, o);
            assert forall|x: ObjectReference| #[trigger] s2.count(x) == s.count(x) by {}
            lemma_unmoved(s1, s2);
            lemma_unmoved_trans(s, s1, s2);
            assert(s2.forwarding_of(o) == s.forwarding_of(o));
            lemma_increment(p, s2, o, depth);
            let (p3, s3, new) = inc_processed(p, s2, o, depth);
            lemma_unmoved_trans(s, s2, s3);
            lemma_unmoved(s3, t);
            lemma_unmoved_trans(s, s3, t);
        },
    }
}

proof fn lemma_slots(
    p: IncsState,
    s: State,
    kind: u8,
    slots: Seq<Slot>,
    depth: u32,
    add_root_to_remset: bool,
)
    requires
        bounded(s),
        p.no_evac,
    ensures
        ({
            let (q, t, _) = slots_processed(p, s, kind, slots, depth, add_root_to_remset);
            &&& q.no_evac
            &&& nothing_moved(s, t)
            &&& bounded(t)
        }),
    decreases slots.len(),
{
    if slots.len() == 0 {
        lemma_unmoved(s, s);
    } else {
        lemma_slots(p, s, kind, slots.drop_last(), depth, add_root_to_remset);
        let (p1, s1, _) = slots_processed(
            p,
            s,
            kind,
            slots.drop_last(),
            depth,
            add_root_to_remset,
        );
        lemma_slot(p1, s1, kind, slots.last(), depth, add_root_to_remset);
        let (_, t, _) = slots_processed(p, s, kind, slots, depth, add_root_to_remset);
        lemma_unmoved_trans(s, s1, t);
    }
}

proof fn lemma_slices(
    p: IncsState,
    s: State,
    kind: u8,
    slices: Seq<MemorySlice>,
    depth: u32,
)
    requires
        bounded(s),
        p.no_evac,
    ensures
        ({
            let (q, t) = slices_processed(p, s, kind, slices, depth);
            &&& q.no_evac
            &&& nothing_moved(s, t)
            &&& bounded(t)
        }),
    decreases slices.len(),
{
    if slices.len() == 0 {
        lemma_unmoved(s, s);
    } else {
        lemma_slices(p, s, kind, slices.drop_last(), depth);
        let (p1, s1) = slices_processed(p, s, kind, slices.drop_last(), depth);
        lemma_slots(p1, s1, kind, slices.last().slots(), depth, false);
        lemma_unmoved_trans(s, s1, slices_processed(p, s, kind, slices, depth).1);
    }
}

proof fn lemma_given_stopped(p: IncsState, s: State, kind: u8)
    requires
        bounded(s),
        p.no_evac,
    ensures
        ({
            let (q, t, _) = given_processed(p, s, kind);
            &&& q.no_evac
            &&& nothing_moved(s, t)
            &&& bounded(t)
        }),
{
    let begin = IncsState { incs: Seq::empty(), ..p };
    let record = remembers_roots(p, kind);
    lemma_slots(begin, s, kind, p.incs, p.depth, record);
    let (p1, s1, _) = slots_processed(begin, s, kind, p.incs, p.depth, record);
    let middle = IncsState { inc_slices: Seq::empty(), ..p1 };
    lemma_slices(middle, s1, kind, p.inc_slices, p.depth);
    lemma_unmoved_trans(s, s1, given_processed(p, s, kind).1);
}

proof fn lemma_round_stopped(p: IncsState, s: State, depth: u32)
    requires
        bounded(s),
        p.no_evac,
    ensures
        ({
            let (q, t) = round_processed(p, s, depth);
            &&& q.no_evac
            &&& nothing_moved(s, t)
            &&& bounded(t)
        }),
{
    lemma_slots(p.emptied(), s, EDGE_KIND_NURSERY, p.new_incs, depth, false);
    let (p1, s1, _) = slots_processed(
        p.emptied(),
        s,
        EDGE_KIND_NURSERY,
        p.new_incs,
        depth,
        false,
    );
    lemma_slices(p1, s1, EDGE_KIND_NURSERY, p.new_inc_slices, p.depth);
    lemma_unmoved_trans(s, s1, round_processed(p, s, depth).1);
}

proof fn lemma_drained_stopped(p: IncsState, s: State, depth: u32)
    requires
        bounded(s),
        p.no_evac,
    ensures
        ({
            let (q, t) = incs_drained(p, s, depth);
            &&& q.no_evac
            &&& nothing_moved(s, t)
        }),
    decreases remaining(s),
{
    if p.pending() {
        let deeper = depth.wrapping_add(1);
        lemma_round(p, s, deeper);
        lemma_round_stopped(p, s, deeper);
        let (p1, s1) = round_processed(p, s, deeper);
        if p1.pending() {
            lemma_drained_stopped(p1, s1, deeper);
            let (q, t) = incs_drained(p1, s1, deeper);
            assert(incs_drained(p, s, depth) == (q, t));
            lemma_unmoved_trans(s, s1, t);
        }
    } else {
        lemma_unmoved(s, s);
    }
}

/// Once nursery evacuation has stopped, or where it stops because the heap is too
/// full or the pause too long, a packet moves nothing: it takes no answer of the
/// copy allocator, and an object that nobody had claimed stays where it is.
/// Evacuation has stopped afterwards, for the packet and for the collector; it
/// does not start again.
pub proof fn packet_moves_nothing_once_evacuation_stopped(
    p: IncsState,
    s: State,
    kind: u8,
    elapsed_millis: u128,
)
    requires
        s.wf(),
        evacuation_stopped(s, elapsed_millis),
    ensures
        ({
            let (q, t) = incs_done(p, s, kind, elapsed_millis);
            &&& q.no_evac
            &&& t.no_evac
            &&& nothing_moved(State { no_evac: true, ..s }, t)
        }),
{
    lemma_wf_bounded(s);
    let pause = s.phase.current_pause->0;
    let (p1, s1) = incs_begun(p, s, pause, elapsed_millis);
    let stopped = State { no_evac: true, ..s };
    assert forall|o: ObjectReference| #[trigger] s1.count(o) == s.count(o) by {}
    lemma_unmoved(stopped, s1);
    lemma_given_stopped(p1, s1, kind);
    let (p2, s2, roots) = given_processed(p1, s1, kind);
    lemma_unmoved_trans(stopped, s1, s2);
    let slots = if traces_roots(pause) {
        p.incs
    } else {
        Seq::empty()
    };
    let s3 = if roots.len() > 0 {
        roots_handed_over(s2, pause, p.root_kind, slots, roots)
    } else {
        s2
    };
    assert forall|o: ObjectReference| #[trigger] s3.count(o) == s2.count(o) by {}
    lemma_unmoved(s2, s3);
    lemma_unmoved_trans(stopped, s2, s3);
    lemma_drained_stopped(p2, s3, p.depth);
    let (p4, s4) = incs_drained(p2, s3, p.depth);
    lemma_unmoved_trans(stopped, s3, s4);
    let (_, t) = incs_done(p, s, kind, elapsed_millis);
    lemma_unmoved(s4, t);
    lemma_unmoved_trans(stopped, s4, t);
}

// Remembered references.

/// A reference into a block that is being emptied is remembered while marking
/// goes on or ends, where its slot lies outside: that of a root where the kind of
/// the root asks for it, and that of every other slot.
pub proof fn references_into_emptied_blocks_are_remembered(
    p: IncsState,
    s: State,
    kind: u8,
    slot: Slot,
    depth: u32,
)
    requires
        bounded(s),
    ensures
        ({
            let record = remembers_roots(p, kind);
            let (_, t, found) = slot_processed(p, s, kind, slot, depth, record);
            found matches Some(new) ==> {
                (kind != EDGE_KIND_ROOT || (p.root_kind is Some && p.root_kind->0.record_remset))
                    && p.remembers(s) && !s.in_defrag(slot.address) && s.in_defrag(new.address)
                    ==> t.effects.len() > 0 && t.effects.last() == (Effect::RemsetRecord {
                    slot,
                    object: new,
                })
            }
        }),
{
    reveal(slot_processed);
    let record = remembers_roots(p, kind);
    let s1 = slot_read(slot_traced(s, kind, slot, depth), kind, slot);
    if let Some(o) = s1.load(slot) {
        let s2 = target_traced(s1, kind, slot, depth, o);
        assert forall|x: ObjectReference| #[trigger] s2.count(x) == s.count(x) by {}
        lemma_inc_processed(p, s2, o, depth);
    }
}

/// Whether roots are considered for remembering makes no difference to slots that
/// are no roots.
pub proof fn only_roots_need_asking(
    p: IncsState,
    s: State,
    kind: u8,
    slot: Slot,
    depth: u32,
)
    requires
        kind != EDGE_KIND_ROOT,
    ensures
        slot_processed(p, s, kind, slot, depth, true) == slot_processed(
            p,
            s,
            kind,
            slot,
            depth,
            false,
        ),
{
    reveal(slot_processed);
}

} // verus!
