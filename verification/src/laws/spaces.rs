//! Objects outside the counted spaces are left alone.
//!
//! Each lemma says so of one step: it keeps the counts of objects that have none,
//! and what the next step needs for that.

use crate::inc_work::given_processed;
use crate::inc_work::incs_begun;
use crate::inc_work::incs_done;
use crate::inc_work::incs_drained;
use crate::inc_work::lemma_given;
use crate::inc_work::lemma_round;
use crate::inc_work::remembers_roots;
use crate::inc_work::roots_handed_over;
use crate::inc_work::round_processed;
use crate::inc_work::traces_roots;
use crate::increments::answer_taken;
use crate::increments::child_scanned;
use crate::increments::children_scanned;
use crate::increments::claim_settled;
use crate::increments::copy_answer;
use crate::increments::forwarded_to;
use crate::increments::inc_processed;
use crate::increments::inc_traced;
use crate::increments::incremented_in_place;
use crate::increments::moved_or_kept;
use crate::increments::nursery_object_scanned;
use crate::increments::object_copied;
use crate::increments::promoted;
use crate::increments::rearmed;
use crate::increments::slice_added;
use crate::increments::slices_added;
use crate::increments::slices_processed;
use crate::increments::slot_added;
use crate::increments::slot_processed;
use crate::increments::slot_read;
use crate::increments::slot_traced;
use crate::increments::slots_processed;
use crate::increments::target_traced;
use crate::object::Field;
use crate::object::MemorySlice;
use crate::object::ObjectKind;
use crate::object::ObjectReference;
use crate::object::Slot;
use crate::packets::EDGE_KIND_NURSERY;
use crate::progress::bounded;
use crate::progress::lemma_wf_bounded;
use crate::progress::remaining;
use crate::referrers::corruption_reported;
use crate::state::Event;
use crate::state::Forwarding;
use crate::state::IncsState;
use crate::state::State;
use crate::stats::increment_counted;
use vstd::prelude::*;

verus! {

/// The counts of objects that have none stay what they were.
pub open spec fn outside_kept(s: State, t: State) -> bool {
    forall|x: ObjectReference| !s.has_rc(x) ==> #[trigger] t.count(x) == s.count(x)
}

/// Objects that have a count move, and are copied, to places where they have one.
pub open spec fn moves_inside(s: State) -> bool {
    &&& forall|o: ObjectReference|
        s.has_rc(o) ==> match #[trigger] s.forwarding_of(o) {
            Forwarding::Forwarded(new) => s.has_rc(new),
            Forwarding::BeingForwarded(Some(new)) => s.has_rc(new),
            _ => true,
        }
    &&& forall|i: int|
        0 <= i < s.copies.len() ==> ((#[trigger] s.copies[i]) matches Some(new) ==> s.has_rc(new))
}

/// The spaces, and with them what has a count, are the same.
spec fn same_spaces(s: State, t: State) -> bool {
    t.immix == s.immix && t.los == s.los && t.immortal == s.immortal && t.other == s.other
}

/// What each step keeps.
spec fn stays_inside(s: State, t: State) -> bool {
    &&& same_spaces(s, t)
    &&& outside_kept(s, t)
    &&& moves_inside(t)
}

proof fn lemma_trans(s0: State, s1: State, s2: State)
    requires
        stays_inside(s0, s1),
        stays_inside(s1, s2),
    ensures
        stays_inside(s0, s2),
{
    assert forall|x: ObjectReference| !s0.has_rc(x) implies #[trigger] s2.count(x) == s0.count(
        x,
    ) by {
        assert(!s1.has_rc(x));
        assert(s1.count(x) == s0.count(x));
    }
}

/// A step that touches none of the counts, the spaces, the moves of objects and
/// the answers of the copy allocator.
proof fn lemma_unrelated(s: State, t: State)
    requires
        moves_inside(s),
        same_spaces(s, t),
        t.counts == s.counts,
        t.forwarding == s.forwarding,
        t.copies == s.copies,
    ensures
        stays_inside(s, t),
{
    assert forall|x: ObjectReference| #[trigger] t.count(x) == s.count(x) by {}
    assert forall|o: ObjectReference|
        t.has_rc(o) implies match #[trigger] t.forwarding_of(o) {
        Forwarding::Forwarded(new) => t.has_rc(new),
        Forwarding::BeingForwarded(Some(new)) => t.has_rc(new),
        _ => true,
    } by {
        assert(s.forwarding_of(o) == t.forwarding_of(o));
        assert(s.has_rc(o));
    }
    assert forall|i: int| 0 <= i < t.copies.len() implies ((#[trigger] t.copies[i]) matches Some(
        new,
    ) ==> t.has_rc(new)) by {
        assert(s.copies[i] == t.copies[i]);
    }
}

/// A count that changes is that of an object that has one.
proof fn lemma_counted(s: State, t: State, o: ObjectReference)
    requires
        moves_inside(s),
        t == (State { counts: t.counts, diag: t.diag, ..s }),
        s.has_rc(o),
        forall|x: ObjectReference|
            x.address != o.address ==> #[trigger] t.count(x) == s.count(x),
    ensures
        stays_inside(s, t),
{
    lemma_unrelated(s, State { counts: s.counts, ..t });
    let u = State { counts: s.counts, ..t };
    assert forall|x: ObjectReference| !s.has_rc(x) implies #[trigger] t.count(x) == s.count(x) by {
        if x.address == o.address {
            assert(x == o);
        }
    }
    assert forall|x: ObjectReference|
        t.has_rc(x) implies match #[trigger] t.forwarding_of(x) {
        Forwarding::Forwarded(new) => t.has_rc(new),
        Forwarding::BeingForwarded(Some(new)) => t.has_rc(new),
        _ => true,
    } by {
        assert(u.forwarding_of(x) == t.forwarding_of(x));
        assert(u.has_rc(x));
    }
}

proof fn lemma_incremented(s: State, o: ObjectReference)
    requires
        moves_inside(s),
        s.has_rc(o),
    ensures
        stays_inside(s, inc_traced(s, o)),
        stays_inside(s, s.incremented(o)),
{
    let t = inc_traced(s, o);
    assert forall|x: ObjectReference|
        x.address != o.address implies #[trigger] t.count(x) == s.count(x) by {}
    lemma_counted(s, t, o);
    let u = s.incremented(o);
    assert forall|x: ObjectReference|
        x.address != o.address implies #[trigger] u.count(x) == s.count(x) by {}
    lemma_counted(s, u, o);
}

proof fn lemma_slot_added(p: IncsState, s: State, slot: Slot)
    requires
        moves_inside(s),
    ensures
        stays_inside(s, slot_added(p, s, slot).1),
{
    let (q, t) = slot_added(p, s, slot);
    lemma_unrelated(s, t);
}

proof fn lemma_slices_added(p: IncsState, s: State, slices: Seq<MemorySlice>)
    requires
        moves_inside(s),
    ensures
        stays_inside(s, slices_added(p, s, slices).1),
    decreases slices.len(),
{
    if slices.len() == 0 {
        lemma_unrelated(s, s);
    } else {
        let (p1, s1) = slices_added(p, s, slices.drop_last());
        lemma_slices_added(p, s, slices.drop_last());
        let (q, t) = slice_added(p1, s1, slices.last());
        lemma_unrelated(s1, t);
        lemma_trans(s, s1, t);
    }
}

proof fn lemma_child_scanned(
    p: IncsState,
    s: State,
    o: ObjectReference,
    in_defrag: bool,
    slot: Slot,
)
    requires
        moves_inside(s),
    ensures
        stays_inside(s, child_scanned(p, s, o, in_defrag, slot).1),
{
    reveal(child_scanned);
    let (q, t) = child_scanned(p, s, o, in_defrag, slot);
    match s.load(slot) {
        None => {
            lemma_unrelated(s, s);
        },
        Some(child) => {
            let (gc, object, parent, at) = (
                s.diag.gc_count,
                child.address,
                o.address,
                slot.address,
            );
            let s1 = if s.diag.rc_trace && !s.tag_is_valid(child) {
                corruption_reported(
                    s,
                    child,
                    Event::CorruptChild {
                        gc,
                        number: s.diag.corrupt_count,
                        child: object,
                        tag: s.tag_word(object, 0),
                        slot: at,
                        parent,
                    },
                )
            } else {
                s
            };
            let rc = s1.count(child);
            if !s1.has_rc(child) {
                lemma_unrelated(s, t);
            } else if rc == 0 {
                let s2 = s1.traced(child, Event::IncPromo { gc, object, parent, slot: at });
                lemma_unrelated(s, s2);
                lemma_slot_added(p, s2, slot);
                lemma_trans(s, s2, t);
            } else {
                let s2 = s1.traced(
                    child,
                    Event::IncPromoDirect { gc, object, parent, slot: at, rc },
                );
                lemma_unrelated(s, s2);
                lemma_unrelated(s, s1);
                lemma_incremented(s2, child);
                lemma_trans(s, s2, s2.incremented(child));
                let s3 = if rc != s1.args.max_ref_count {
                    s2.incremented(child)
                } else {
                    s1
                };
                lemma_unrelated(s3, t);
                lemma_trans(s, s3, t);
            }
        },
    }
}

proof fn lemma_children_scanned(
    p: IncsState,
    s: State,
    o: ObjectReference,
    in_defrag: bool,
    fields: Seq<Field>,
)
    requires
        moves_inside(s),
    ensures
        stays_inside(s, children_scanned(p, s, o, in_defrag, fields).1),
    decreases fields.len(),
{
    if fields.len() == 0 {
        lemma_unrelated(s, s);
    } else {
        let (p1, s1) = children_scanned(p, s, o, in_defrag, fields.drop_last());
        lemma_children_scanned(p, s, o, in_defrag, fields.drop_last());
        lemma_child_scanned(p1, s1, o, in_defrag, fields.last().slot);
        let (q, t) = children_scanned(p, s, o, in_defrag, fields);
        lemma_trans(s, s1, t);
    }
}

proof fn lemma_promoted(
    p: IncsState,
    s: State,
    o: ObjectReference,
    copied: bool,
    los: bool,
    depth: u32,
)
    requires
        moves_inside(s),
    ensures
        stays_inside(s, promoted(p, s, o, copied, los, depth).1),
{
    reveal(promoted);
    reveal(nursery_object_scanned);
    reveal(rearmed);
    let (q, t) = promoted(p, s, o, copied, los, depth);
    let size = s.shape(o.address).size;
    let s1 = crate::stats::promotion_noted(s, o, copied, los, depth);
    let s2 = if los {
        s1
    } else {
        let told = if !copied && s1.in_nursery(o) {
            s1.with_effect(
                crate::state::Effect::InPlacePromoted { block: s1.args.block_of(o.address) },
            )
        } else {
            s1
        };
        told.with_effect(crate::state::Effect::PromoteWithSize { object: o, size })
    };
    let p2 = if !los && copied {
        IncsState { copied_sizes: p.copied_sizes.push(size), ..p }
    } else {
        p
    };
    let s3 = rearmed(s2, o, los, !copied, size);
    lemma_unrelated(s, s3);
    let shape = s2.shape(o.address);
    let in_defrag = !los && s2.in_defrag_block(o.address);
    lemma_children_scanned(p2, s3, o, in_defrag, shape.fields);
    match shape.kind {
        ObjectKind::ValArray => {},
        ObjectKind::ObjArray(data) => {
            lemma_slices_added(p2, s3, data.chunks(s2.args.buffer_size as int));
            lemma_trans(s, s3, t);
        },
        ObjectKind::Plain => {
            lemma_trans(s, s3, t);
        },
    }
}

proof fn lemma_incremented_in_place(
    p: IncsState,
    s: State,
    o: ObjectReference,
    los: bool,
    depth: u32,
)
    requires
        moves_inside(s),
        s.has_rc(o),
    ensures
        stays_inside(s, incremented_in_place(p, s, o, los, depth).1),
{
    lemma_incremented(s, o);
    if s.count(o) == 0 {
        let s1 = inc_traced(s, o);
        lemma_promoted(p, s1, o, false, los, depth);
        let (q, t) = incremented_in_place(p, s, o, los, depth);
        lemma_trans(s, s1, t);
    }
}

/// A change of what is known of the move of one object.
proof fn lemma_forwarding(s: State, o: ObjectReference, f: Forwarding)
    requires
        moves_inside(s),
        match f {
            Forwarding::Forwarded(new) => s.has_rc(new),
            Forwarding::BeingForwarded(Some(new)) => s.has_rc(new),
            _ => true,
        },
    ensures
        stays_inside(s, s.with_forwarding(o, f)),
{
    let t = s.with_forwarding(o, f);
    assert forall|x: ObjectReference| #[trigger] t.count(x) == s.count(x) by {}
    assert forall|x: ObjectReference|
        t.has_rc(x) implies match #[trigger] t.forwarding_of(x) {
        Forwarding::Forwarded(new) => t.has_rc(new),
        Forwarding::BeingForwarded(Some(new)) => t.has_rc(new),
        _ => true,
    } by {
        assert(s.has_rc(x));
        if x.address != o.address {
            assert(t.forwarding_of(x) == s.forwarding_of(x));
        } else {
            assert(t.forwarding_of(x) == f);
        }
    }
}

/// A space is made of its ranges: an address lies in it just where one of them starts at or
/// before the address and ends behind it. The objects that are counted are those of the
/// Immix and of the large object space.
pub proof fn spaces_are_their_ranges(s: State, o: ObjectReference, i: int)
    ensures
        0 <= i < s.immix.ranges.len() && s.immix.ranges[i].start <= o.address
            < s.immix.ranges[i].end ==> s.immix.has(o.address),
        0 <= i < s.los.ranges.len() && s.los.ranges[i].start <= o.address < s.los.ranges[i].end
            ==> s.los.has(o.address),
        (forall|j: int|
            0 <= j < s.immix.ranges.len() ==> o.address < (#[trigger] s.immix.ranges[j]).start
                || s.immix.ranges[j].end <= o.address) ==> !s.immix.has(o.address),
        (forall|j: int|
            0 <= j < s.los.ranges.len() ==> o.address < (#[trigger] s.los.ranges[j]).start
                || s.los.ranges[j].end <= o.address) ==> !s.los.has(o.address),
        s.has_rc(o) == (s.immix.has(o.address) || s.los.has(o.address)),
{
}

proof fn lemma_claim_settled(s: State, o: ObjectReference)
    requires
        moves_inside(s),
        s.has_rc(o),
    ensures
        stays_inside(s, claim_settled(s, o)),
        s.has_rc(forwarded_to(claim_settled(s, o), o)),
{
    lemma_unrelated(s, s);
    match s.forwarding_of(o) {
        Forwarding::BeingForwarded(Some(new)) => {
            lemma_forwarding(s, o, Forwarding::Forwarded(new));
        },
        Forwarding::BeingForwarded(None) => {
            lemma_forwarding(s, o, Forwarding::Untouched);
        },
        _ => {},
    }
}

proof fn lemma_answer_taken(s: State)
    requires
        moves_inside(s),
    ensures
        stays_inside(s, answer_taken(s)),
        copy_answer(s) matches Some(new) ==> s.has_rc(new),
{
    let t = answer_taken(s);
    if s.copies.len() > 0 {
        assert(s.copies[s.copies.len() - 1] == s.copies.last());
        lemma_unrelated(s, State { copies: s.copies, ..t });
        assert forall|i: int| 0 <= i < t.copies.len() implies ((
        #[trigger] t.copies[i]) matches Some(new) ==> t.has_rc(new)) by {
            assert(s.copies[i] == t.copies[i]);
        }
        let u = State { copies: s.copies, ..t };
        assert forall|x: ObjectReference|
            t.has_rc(x) implies match #[trigger] t.forwarding_of(x) {
            Forwarding::Forwarded(new) => t.has_rc(new),
            Forwarding::BeingForwarded(Some(new)) => t.has_rc(new),
            _ => true,
        } by {
            assert(u.forwarding_of(x) == t.forwarding_of(x));
            assert(u.has_rc(x));
        }
        assert forall|x: ObjectReference| #[trigger] t.count(x) == s.count(x) by {}
    } else {
        lemma_unrelated(s, s);
    }
}

proof fn lemma_object_copied(s: State, o: ObjectReference, new: ObjectReference)
    requires
        moves_inside(s),
        s.has_rc(new),
    ensures
        stays_inside(s, object_copied(s, o, new)),
{
    reveal(object_copied);
    let t = object_copied(s, o, new);
    lemma_forwarding(s, o, Forwarding::Forwarded(new));
    let f = s.with_forwarding(o, Forwarding::Forwarded(new));
    assert(t == (State { words: t.words, objects: t.objects, ..f }));
    assert forall|x: ObjectReference| #[trigger] t.count(x) == f.count(x) by {}
    assert forall|x: ObjectReference|
        t.has_rc(x) implies match #[trigger] t.forwarding_of(x) {
        Forwarding::Forwarded(new) => t.has_rc(new),
        Forwarding::BeingForwarded(Some(new)) => t.has_rc(new),
        _ => true,
    } by {
        assert(f.forwarding_of(x) == t.forwarding_of(x));
        assert(f.has_rc(x));
    }
    assert forall|i: int| 0 <= i < t.copies.len() implies ((#[trigger] t.copies[i]) matches Some(
        new,
    ) ==> t.has_rc(new)) by {
        assert(s.copies[i] == t.copies[i]);
    }
}

proof fn lemma_moved_or_kept(
    p: IncsState,
    s: State,
    o: ObjectReference,
    los: bool,
    depth: u32,
)
    requires
        moves_inside(s),
        s.has_rc(o),
    ensures
        ({
            let (q, t, new) = moved_or_kept(p, s, o, los, depth);
            &&& stays_inside(s, t)
            &&& s.has_rc(new)
        }),
{
    reveal(moved_or_kept);
    let (q, t, _) = moved_or_kept(p, s, o, los, depth);
    let untouched = Forwarding::Untouched;
    if s.forwarding_of(o) != untouched {
        let settled = claim_settled(s, o);
        lemma_claim_settled(s, o);
        lemma_incremented(settled, forwarded_to(settled, o));
        lemma_trans(s, settled, t);
    } else {
        let claimed = s.with_forwarding(o, Forwarding::BeingForwarded(None));
        lemma_forwarding(s, o, Forwarding::BeingForwarded(None));
        let too_deep = s.args.inc_max_copy_depth && depth > crate::increments::MAX_COPY_DEPTH;
        if s.count(o) == 0 && !p.no_evac && !too_deep {
            let answered = answer_taken(claimed);
            lemma_answer_taken(claimed);
            lemma_trans(s, claimed, answered);
            match copy_answer(claimed) {
                Some(new) => {
                    let c = object_copied(answered, o, new);
                    lemma_object_copied(answered, o, new);
                    lemma_trans(s, answered, c);
                    lemma_incremented(c, new);
                    lemma_trans(s, c, inc_traced(c, new));
                    lemma_promoted(p, inc_traced(c, new), new, true, false, depth);
                    lemma_trans(s, inc_traced(c, new), t);
                },
                None => {
                    let logged = answered.with_event(Event::ToSpaceOverflow);
                    lemma_unrelated(answered, logged);
                    lemma_trans(s, answered, logged);
                    let counted = inc_traced(logged, o);
                    lemma_incremented(logged, o);
                    lemma_trans(s, logged, counted);
                    let kept = counted.with_forwarding(o, untouched);
                    lemma_forwarding(counted, o, untouched);
                    lemma_trans(s, counted, kept);
                    let (p1, s1) = promoted(p, kept, o, false, los, depth);
                    lemma_promoted(p, kept, o, false, los, depth);
                    lemma_trans(s, kept, s1);
                    lemma_unrelated(s1, t);
                    lemma_trans(s, s1, t);
                },
            }
        } else {
            let counted = inc_traced(claimed, o);
            lemma_incremented(claimed, o);
            lemma_trans(s, claimed, counted);
            let kept = counted.with_forwarding(o, untouched);
            lemma_forwarding(counted, o, untouched);
            lemma_trans(s, counted, kept);
            assert(claimed.count(o) == s.count(o));
            if s.count(o) == 0 {
                lemma_promoted(p, kept, o, false, los, depth);
                lemma_trans(s, kept, t);
            }
        }
    }
}

proof fn lemma_inc_processed(p: IncsState, s: State, o: ObjectReference, depth: u32)
    requires
        moves_inside(s),
    ensures
        ({
            let (q, t, new) = inc_processed(p, s, o, depth);
            &&& stays_inside(s, t)
            &&& s.has_rc(o) ==> s.has_rc(new)
        }),
{
    reveal(inc_processed);
    let (q, t, _) = inc_processed(p, s, o, depth);
    let los = s.los.has(o.address);
    if !s.is_managed(o) || !s.has_rc(o) {
        lemma_unrelated(s, s);
    } else if s.args.rc_nursery_evacuation && !los && s.forwarding_of(o)
        != Forwarding::Untouched {
        let found = claim_settled(s, o);
        let new = forwarded_to(found, o);
        lemma_claim_settled(s, o);
        let settled = increment_counted(found, new);
        lemma_unrelated(found, settled);
        lemma_trans(s, found, settled);
        if new == o {
            lemma_incremented_in_place(p, settled, o, los, depth);
        } else {
            lemma_incremented(settled, new);
        }
        lemma_trans(s, settled, t);
    } else {
        let noted = increment_counted(s, o);
        lemma_unrelated(s, noted);
        if !s.args.rc_nursery_evacuation || crate::increments::stays(s, o, los) {
            lemma_incremented_in_place(p, noted, o, los, depth);
        } else {
            lemma_moved_or_kept(p, noted, o, los, depth);
        }
        lemma_trans(s, noted, t);
    }
}

/// The increment of a slot leaves the counts of objects that have none alone, as
/// long as objects that have a count move to places where they have one.
pub proof fn slot_leaves_uncounted_objects_alone(
    p: IncsState,
    s: State,
    kind: u8,
    slot: Slot,
    depth: u32,
    add_root_to_remset: bool,
)
    requires
        moves_inside(s),
    ensures
        ({
            let (_, t, _) = slot_processed(p, s, kind, slot, depth, add_root_to_remset);
            &&& outside_kept(s, t)
            &&& moves_inside(t)
        }),
{
    lemma_slot_processed(p, s, kind, slot, depth, add_root_to_remset);
}

proof fn lemma_slot_processed(
    p: IncsState,
    s: State,
    kind: u8,
    slot: Slot,
    depth: u32,
    add_root_to_remset: bool,
)
    requires
        moves_inside(s),
    ensures
        ({
            let (q, t, _) = slot_processed(p, s, kind, slot, depth, add_root_to_remset);
            stays_inside(s, t)
        }),
{
    reveal(slot_processed);
    let (q, t, _) = slot_processed(p, s, kind, slot, depth, add_root_to_remset);
    let s1 = slot_read(slot_traced(s, kind, slot, depth), kind, slot);
    lemma_unrelated(s, s1);
    assert(s1.load(slot) == s.load(slot));
    match s1.load(slot) {
        None => {},
        Some(o) => {
            let s2 = target_traced(s1, kind, slot, depth, o);
            lemma_unrelated(s, s2);
            let (p3, s3, new) = inc_processed(p, s2, o, depth);
            lemma_inc_processed(p, s2, o, depth);
            lemma_trans(s, s2, s3);
            let s4 = if slot.type_tag && s3.has_rc(new) {
                s3.with_stuck(new)
            } else {
                s3
            };
            if slot.type_tag && s3.has_rc(new) {
                assert forall|x: ObjectReference|
                    x.address != new.address implies #[trigger] s4.count(x) == s3.count(x) by {}
                lemma_counted(s3, s4, new);
            } else {
                lemma_unrelated(s3, s4);
            }
            lemma_trans(s, s3, s4);
            lemma_unrelated(s4, t);
            lemma_trans(s, s4, t);
        },
    }
}

proof fn lemma_slots(
    p: IncsState,
    s: State,
    kind: u8,
    slots: Seq<Slot>,
    depth: u32,
    add_root_to_remset: bool,
)
    requires
        moves_inside(s),
    ensures
        ({
            let (q, t, _) = slots_processed(p, s, kind, slots, depth, add_root_to_remset);
            stays_inside(s, t)
        }),
    decreases slots.len(),
{
    if slots.len() == 0 {
        lemma_unrelated(s, s);
    } else {
        let (p1, s1, _) = slots_processed(
            p,
            s,
            kind,
            slots.drop_last(),
            depth,
            add_root_to_remset,
        );
        lemma_slots(p, s, kind, slots.drop_last(), depth, add_root_to_remset);
        lemma_slot_processed(p1, s1, kind, slots.last(), depth, add_root_to_remset);
        let (q, t, _) = slots_processed(p, s, kind, slots, depth, add_root_to_remset);
        lemma_trans(s, s1, t);
    }
}

proof fn lemma_slices(p: IncsState, s: State, kind: u8, slices: Seq<MemorySlice>, depth: u32)
    requires
        moves_inside(s),
    ensures
        ({
            let (q, t) = slices_processed(p, s, kind, slices, depth);
            stays_inside(s, t)
        }),
    decreases slices.len(),
{
    if slices.len() == 0 {
        lemma_unrelated(s, s);
    } else {
        let (p1, s1) = slices_processed(p, s, kind, slices.drop_last(), depth);
        lemma_slices(p, s, kind, slices.drop_last(), depth);
        lemma_slots(p1, s1, kind, slices.last().slots(), depth, false);
        let (q, t) = slices_processed(p, s, kind, slices, depth);
        lemma_trans(s, s1, t);
    }
}

proof fn lemma_drained(p: IncsState, s: State, depth: u32)
    requires
        bounded(s),
        moves_inside(s),
    ensures
        ({
            let (q, t) = incs_drained(p, s, depth);
            stays_inside(s, t)
        }),
    decreases remaining(s),
{
    lemma_unrelated(s, s);
    if p.pending() {
        let deeper = depth.wrapping_add(1);
        let empty = p.emptied();
        lemma_unrelated(s, s);
        let (p1, s1, _) = slots_processed(
            empty,
            s,
            EDGE_KIND_NURSERY,
            p.new_incs,
            deeper,
            false,
        );
        lemma_slots(empty, s, EDGE_KIND_NURSERY, p.new_incs, deeper, false);
        lemma_slices(p1, s1, EDGE_KIND_NURSERY, p.new_inc_slices, p.depth);
        let (p2, s2) = round_processed(p, s, deeper);
        lemma_trans(s, s1, s2);
        lemma_round(p, s, deeper);
        if p2.pending() {
            lemma_drained(p2, s2, deeper);
            let (q, t) = incs_drained(p2, s2, deeper);
            assert(incs_drained(p, s, depth) == (q, t));
            lemma_trans(s, s2, t);
        }
    }
}

/// The increments that the packet was given.
proof fn lemma_given_inside(p: IncsState, s: State, kind: u8)
    requires
        moves_inside(s),
        bounded(s),
    ensures
        stays_inside(s, given_processed(p, s, kind).1),
        bounded(given_processed(p, s, kind).1),
{
    let begin = IncsState { incs: Seq::empty(), ..p };
    let record = remembers_roots(p, kind);
    lemma_slots(begin, s, kind, p.incs, p.depth, record);
    let (q, t, _) = slots_processed(begin, s, kind, p.incs, p.depth, record);
    let middle = IncsState { inc_slices: Seq::empty(), ..q };
    lemma_slices(middle, t, kind, p.inc_slices, p.depth);
    lemma_given(p, s, kind);
    lemma_trans(s, t, given_processed(p, s, kind).1);
}

/// A step that changes neither counts nor where objects move.
proof fn lemma_beside(s: State, t: State)
    requires
        moves_inside(s),
        bounded(s),
        t == (State {
            no_evac: t.no_evac,
            work: t.work,
            curr_roots: t.curr_roots,
            diag: t.diag,
            survival: t.survival,
            ..s
        }),
    ensures
        stays_inside(s, t),
        bounded(t),
{
    assert forall|o: ObjectReference| #[trigger] t.count(o) == s.count(o) by {}
    lemma_unrelated(s, t);
}

/// A packet of increments leaves the counts of objects that have none alone, as
/// long as objects that have a count move to places where they have one.
pub proof fn packet_leaves_uncounted_objects_alone(
    p: IncsState,
    s: State,
    kind: u8,
    elapsed_millis: u128,
    x: ObjectReference,
)
    requires
        s.wf(),
        moves_inside(s),
        !s.has_rc(x),
    ensures
        incs_done(p, s, kind, elapsed_millis).1.count(x) == s.count(x),
{
    lemma_wf_bounded(s);
    let pause = s.phase.current_pause->0;
    let (p1, s1) = incs_begun(p, s, pause, elapsed_millis);
    lemma_beside(s, s1);
    lemma_given_inside(p1, s1, kind);
    let (p2, s2, roots) = given_processed(p1, s1, kind);
    let slots = if traces_roots(pause) {
        p.incs
    } else {
        Seq::empty()
    };
    let s3 = if roots.len() > 0 {
        roots_handed_over(s2, pause, p.root_kind, slots, roots)
    } else {
        s2
    };
    lemma_beside(s2, s3);
    lemma_drained(p2, s3, p.depth);
    let (p4, s4) = incs_drained(p2, s3, p.depth);
    let (_, t) = incs_done(p, s, kind, elapsed_millis);
    assert(t.count(x) == s4.count(x));
    assert(!s1.has_rc(x) && !s2.has_rc(x) && !s3.has_rc(x));
    assert(s4.count(x) == s3.count(x));
    assert(s3.count(x) == s2.count(x));
    assert(s2.count(x) == s1.count(x));
}

} // verus!
