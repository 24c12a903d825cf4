//! The diagnostics only observe: they change nothing but themselves.
//!
//! Each lemma says so of one step: from two states that differ in their diagnostics
//! alone it leads to the same packet, and to two states that differ in their
//! diagnostics alone.

use crate::decrements::dec_added;
use crate::decrements::dec_processed;
use crate::decrements::decs_begun;
use crate::decrements::decs_flushed;
use crate::decrements::decs_processed;
use crate::decrements::field_released;
use crate::decrements::fields_released;
use crate::decrements::given_decs_processed;
use crate::decrements::lowered_or_died;
use crate::decrements::mark_object_added;
use crate::decrements::object_died;
use crate::decs::decs_done;
use crate::decs::decs_drained;
use crate::inc_work::given_processed;
use crate::inc_work::incs_begun;
use crate::inc_work::incs_done;
use crate::inc_work::incs_drained;
use crate::inc_work::lemma_given;
use crate::inc_work::lemma_round;
use crate::inc_work::round_processed;
use crate::increments::child_scanned;
use crate::increments::children_scanned;
use crate::increments::inc_processed;
use crate::increments::inc_traced;
use crate::increments::incremented_in_place;
use crate::increments::moved_or_kept;
use crate::increments::nursery_object_scanned;
use crate::increments::object_copied;
use crate::increments::promoted;
use crate::increments::rearmed;
use crate::increments::slices_added;
use crate::increments::slices_processed;
use crate::increments::slot_added;
use crate::increments::slot_processed;
use crate::increments::slots_processed;
use crate::object::Field;
use crate::object::MemorySlice;
use crate::object::ObjectReference;
use crate::object::Slot;
use crate::progress::bounded;
use crate::progress::lemma_wf_bounded;
use crate::progress::remaining;
use crate::referrers::corruption_reported;
use crate::referrers::death_noted;
use crate::referrers::same_but_diag;
use crate::release::held;
use crate::release::lemma_death_noted;
use crate::release::lemma_decs_processed;
use crate::state::DecsState;
use crate::state::Event;
use crate::state::IncsState;
use crate::state::Pause;
use crate::state::State;
use vstd::prelude::*;

verus! {

proof fn lemma_slot_added(p: IncsState, a: State, b: State, slot: Slot)
    requires
        same_but_diag(a, b),
    ensures
        slot_added(p, a, slot).0 == slot_added(p, b, slot).0,
        same_but_diag(slot_added(p, a, slot).1, slot_added(p, b, slot).1),
{
}

proof fn lemma_slices_added(p: IncsState, a: State, b: State, slices: Seq<MemorySlice>)
    requires
        same_but_diag(a, b),
    ensures
        slices_added(p, a, slices).0 == slices_added(p, b, slices).0,
        same_but_diag(slices_added(p, a, slices).1, slices_added(p, b, slices).1),
    decreases slices.len(),
{
    if slices.len() > 0 {
        lemma_slices_added(p, a, b, slices.drop_last());
    }
}

proof fn lemma_rearmed(
    a: State,
    b: State,
    o: ObjectReference,
    los: bool,
    in_place: bool,
    size: usize,
)
    requires
        same_but_diag(a, b),
    ensures
        same_but_diag(rearmed(a, o, los, in_place, size), rearmed(b, o, los, in_place, size)),
{
    reveal(rearmed);
    assert forall|lo: int, hi: int| #[trigger]
        a.with_unlogged(lo, hi).unlog == b.with_unlogged(lo, hi).unlog by {
        assert(a.with_unlogged(lo, hi).unlog =~= b.with_unlogged(lo, hi).unlog);
    }
    assert forall|lo: int, hi: int| #[trigger] a.with_unlogged(lo, hi) == (State {
        unlog: b.with_unlogged(lo, hi).unlog,
        ..a
    }) by {}
}

/// A look at a child up to its count.
spec fn child_checked(s: State, o: ObjectReference, slot: Slot, child: ObjectReference) -> State {
    if s.diag.rc_trace && !s.tag_is_valid(child) {
        corruption_reported(
            s,
            child,
            Event::CorruptChild {
                gc: s.diag.gc_count,
                number: s.diag.corrupt_count,
                child: child.address,
                tag: s.tag_word(child.address, 0),
                slot: slot.address,
                parent: o.address,
            },
        )
    } else {
        s
    }
}

/// A look at a child from its count.
spec fn child_counted(
    p: IncsState,
    s: State,
    gc: usize,
    o: ObjectReference,
    in_defrag: bool,
    slot: Slot,
    child: ObjectReference,
) -> (IncsState, State) {
    let (object, parent, at) = (child.address, o.address, slot.address);
    let rc = s.count(child);
    if !s.has_rc(child) {
        (p, s.traced(child, Event::IncPromoSkip { gc, object, parent, slot: at }))
    } else if rc == 0 {
        slot_added(
            p,
            s.traced(child, Event::IncPromo { gc, object, parent, slot: at }),
            slot,
        )
    } else {
        let s2 = if rc != s.args.max_ref_count {
            s.traced(
                child,
                Event::IncPromoDirect { gc, object, parent, slot: at, rc },
            ).incremented(child)
        } else {
            s
        };
        (p, crate::increments::reference_recorded(p, s2, in_defrag, slot, child))
    }
}

proof fn lemma_child_counted(
    p: IncsState,
    a: State,
    b: State,
    gc_a: usize,
    gc_b: usize,
    o: ObjectReference,
    in_defrag: bool,
    slot: Slot,
    child: ObjectReference,
)
    requires
        same_but_diag(a, b),
    ensures
        child_counted(p, a, gc_a, o, in_defrag, slot, child).0 == child_counted(
            p,
            b,
            gc_b,
            o,
            in_defrag,
            slot,
            child,
        ).0,
        same_but_diag(
            child_counted(p, a, gc_a, o, in_defrag, slot, child).1,
            child_counted(p, b, gc_b, o, in_defrag, slot, child).1,
        ),
{
    assert(a.count(child) == b.count(child));
    if a.has_rc(child) && a.count(child) == 0 {
        let (object, parent, at) = (child.address, o.address, slot.address);
        let ta = a.traced(child, Event::IncPromo { gc: gc_a, object, parent, slot: at });
        let tb = b.traced(child, Event::IncPromo { gc: gc_b, object, parent, slot: at });
        assert(same_but_diag(ta, tb));
        lemma_slot_added(p, ta, tb, slot);
    }
}

proof fn lemma_child_scanned(
    p: IncsState,
    a: State,
    b: State,
    o: ObjectReference,
    in_defrag: bool,
    slot: Slot,
)
    requires
        same_but_diag(a, b),
    ensures
        child_scanned(p, a, o, in_defrag, slot).0 == child_scanned(p, b, o, in_defrag, slot).0,
        same_but_diag(
            child_scanned(p, a, o, in_defrag, slot).1,
            child_scanned(p, b, o, in_defrag, slot).1,
        ),
{
    reveal(child_scanned);
    assert(a.load(slot) == b.load(slot));
    if let Some(child) = a.load(slot) {
        let a1 = child_checked(a, o, slot, child);
        let b1 = child_checked(b, o, slot, child);
        assert(same_but_diag(a1, b1));
        let gc_a = a.diag.gc_count;
        let gc_b = b.diag.gc_count;
        lemma_child_counted(p, a1, b1, gc_a, gc_b, o, in_defrag, slot, child);
        assert(child_scanned(p, a, o, in_defrag, slot) == child_counted(
            p,
            a1,
            gc_a,
            o,
            in_defrag,
            slot,
            child,
        ));
        assert(child_scanned(p, b, o, in_defrag, slot) == child_counted(
            p,
            b1,
            gc_b,
            o,
            in_defrag,
            slot,
            child,
        ));
    }
}

proof fn lemma_children_scanned(
    p: IncsState,
    a: State,
    b: State,
    o: ObjectReference,
    in_defrag: bool,
    fields: Seq<Field>,
)
    requires
        same_but_diag(a, b),
    ensures
        children_scanned(p, a, o, in_defrag, fields).0 == children_scanned(
            p,
            b,
            o,
            in_defrag,
            fields,
        ).0,
        same_but_diag(
            children_scanned(p, a, o, in_defrag, fields).1,
            children_scanned(p, b, o, in_defrag, fields).1,
        ),
    decreases fields.len(),
{
    if fields.len() > 0 {
        lemma_children_scanned(p, a, b, o, in_defrag, fields.drop_last());
        lemma_child_scanned(
            children_scanned(p, a, o, in_defrag, fields.drop_last()).0,
            children_scanned(p, a, o, in_defrag, fields.drop_last()).1,
            children_scanned(p, b, o, in_defrag, fields.drop_last()).1,
            o,
            in_defrag,
            fields.last().slot,
        );
    }
}

proof fn lemma_nursery_object_scanned(
    p: IncsState,
    a: State,
    b: State,
    o: ObjectReference,
    los: bool,
    in_place: bool,
    size: usize,
)
    requires
        same_but_diag(a, b),
    ensures
        nursery_object_scanned(p, a, o, los, in_place, size).0 == nursery_object_scanned(
            p,
            b,
            o,
            los,
            in_place,
            size,
        ).0,
        same_but_diag(
            nursery_object_scanned(p, a, o, los, in_place, size).1,
            nursery_object_scanned(p, b, o, los, in_place, size).1,
        ),
{
    reveal(nursery_object_scanned);
    lemma_rearmed(a, b, o, los, in_place, size);
    let a1 = rearmed(a, o, los, in_place, size);
    let b1 = rearmed(b, o, los, in_place, size);
    assert(a.shape(o.address) == b.shape(o.address));
    let shape = a.shape(o.address);
    let in_defrag = !los && a.in_defrag_block(o.address);
    lemma_children_scanned(p, a1, b1, o, in_defrag, shape.fields);
    match shape.kind {
        crate::object::ObjectKind::ObjArray(data) => {
            lemma_slices_added(p, a1, b1, data.chunks(a.args.buffer_size as int));
        },
        _ => {},
    }
}

proof fn lemma_promoted(
    p: IncsState,
    a: State,
    b: State,
    o: ObjectReference,
    copied: bool,
    los: bool,
    depth: u32,
)
    requires
        same_but_diag(a, b),
    ensures
        promoted(p, a, o, copied, los, depth).0 == promoted(p, b, o, copied, los, depth).0,
        same_but_diag(
            promoted(p, a, o, copied, los, depth).1,
            promoted(p, b, o, copied, los, depth).1,
        ),
{
    reveal(promoted);
    let size = a.shape(o.address).size;
    assert(a.shape(o.address) == b.shape(o.address));
    let a2 = before_scan(a, o, copied, los, depth);
    let b2 = before_scan(b, o, copied, los, depth);
    assert(same_but_diag(a2, b2));
    let p2 = if !los && copied {
        IncsState { copied_sizes: p.copied_sizes.push(size), ..p }
    } else {
        p
    };
    lemma_nursery_object_scanned(p2, a2, b2, o, los, !copied, size);
}

/// A promotion up to the scan of the object.
spec fn before_scan(s: State, o: ObjectReference, copied: bool, los: bool, depth: u32) -> State {
    let s1 = crate::stats::promotion_noted(s, o, copied, los, depth);
    if los {
        s1
    } else {
        let told = if !copied && s1.in_nursery(o) {
            s1.with_effect(
                crate::state::Effect::InPlacePromoted { block: s1.args.block_of(o.address) },
            )
        } else {
            s1
        };
        told.with_effect(
            crate::state::Effect::PromoteWithSize {
                object: o,
                size: s.shape(o.address).size,
            },
        )
    }
}

proof fn lemma_inc_traced(a: State, b: State, o: ObjectReference)
    requires
        same_but_diag(a, b),
    ensures
        same_but_diag(inc_traced(a, o), inc_traced(b, o)),
{
    assert(a.count(o) == b.count(o));
}

proof fn lemma_incremented_in_place(
    p: IncsState,
    a: State,
    b: State,
    o: ObjectReference,
    los: bool,
    depth: u32,
)
    requires
        same_but_diag(a, b),
    ensures
        incremented_in_place(p, a, o, los, depth).0 == incremented_in_place(
            p,
            b,
            o,
            los,
            depth,
        ).0,
        same_but_diag(
            incremented_in_place(p, a, o, los, depth).1,
            incremented_in_place(p, b, o, los, depth).1,
        ),
{
    assert(a.count(o) == b.count(o));
    lemma_inc_traced(a, b, o);
    lemma_promoted(p, inc_traced(a, o), inc_traced(b, o), o, false, los, depth);
}

proof fn lemma_moved_or_kept(
    p: IncsState,
    a: State,
    b: State,
    o: ObjectReference,
    los: bool,
    depth: u32,
)
    requires
        same_but_diag(a, b),
    ensures
        moved_or_kept(p, a, o, los, depth).0 == moved_or_kept(p, b, o, los, depth).0,
        same_but_diag(
            moved_or_kept(p, a, o, los, depth).1,
            moved_or_kept(p, b, o, los, depth).1,
        ),
        moved_or_kept(p, a, o, los, depth).2 == moved_or_kept(p, b, o, los, depth).2,
{
    reveal(moved_or_kept);
    reveal(object_copied);
    assert(a.count(o) == b.count(o));
    assert(a.forwarding_of(o) == b.forwarding_of(o));
    let untouched = crate::state::Forwarding::Untouched;
    if a.forwarding_of(o) != untouched {
        let sa = crate::increments::claim_settled(a, o);
        let sb = crate::increments::claim_settled(b, o);
        assert(same_but_diag(sa, sb));
        assert(sa.forwarding_of(o) == sb.forwarding_of(o));
        lemma_inc_traced(sa, sb, crate::increments::forwarded_to(sa, o));
    } else {
        let claim = crate::state::Forwarding::BeingForwarded(None);
        let ca = a.with_forwarding(o, claim);
        let cb = b.with_forwarding(o, claim);
        let ta = crate::increments::answer_taken(ca);
        let tb = crate::increments::answer_taken(cb);
        let la = ta.with_event(Event::ToSpaceOverflow);
        let lb = tb.with_event(Event::ToSpaceOverflow);
        lemma_inc_traced(ca, cb, o);
        lemma_inc_traced(la, lb, o);
        assert(ca.count(o) == a.count(o) && cb.count(o) == b.count(o));
        lemma_promoted(
            p,
            inc_traced(ca, o).with_forwarding(o, untouched),
            inc_traced(cb, o).with_forwarding(o, untouched),
            o,
            false,
            los,
            depth,
        );
        lemma_promoted(
            p,
            inc_traced(la, o).with_forwarding(o, untouched),
            inc_traced(lb, o).with_forwarding(o, untouched),
            o,
            false,
            los,
            depth,
        );
        if let Some(new) = crate::increments::copy_answer(ca) {
            let oa = object_copied(ta, o, new);
            let ob = object_copied(tb, o, new);
            assert(ta.shape(o.address) == tb.shape(o.address));
            assert(same_but_diag(oa, ob));
            lemma_inc_traced(oa, ob, new);
            lemma_promoted(p, inc_traced(oa, new), inc_traced(ob, new), new, true, false, depth);
        }
    }
}

proof fn lemma_inc_processed(p: IncsState, a: State, b: State, o: ObjectReference, depth: u32)
    requires
        same_but_diag(a, b),
    ensures
        inc_processed(p, a, o, depth).0 == inc_processed(p, b, o, depth).0,
        same_but_diag(inc_processed(p, a, o, depth).1, inc_processed(p, b, o, depth).1),
        inc_processed(p, a, o, depth).2 == inc_processed(p, b, o, depth).2,
{
    reveal(inc_processed);
    let los = a.los.has(o.address);
    assert(a.count(o) == b.count(o));
    assert(a.forwarding_of(o) == b.forwarding_of(o));
    assert(a.shape(o.address) == b.shape(o.address));
    let sa = crate::increments::claim_settled(a, o);
    let sb = crate::increments::claim_settled(b, o);
    assert(same_but_diag(sa, sb));
    assert(sa.forwarding_of(o) == sb.forwarding_of(o));
    let new = crate::increments::forwarded_to(sa, o);
    let na = crate::stats::increment_counted(sa, new);
    let nb = crate::stats::increment_counted(sb, new);
    lemma_inc_traced(na, nb, new);
    lemma_incremented_in_place(p, na, nb, o, los, depth);
    let ia = crate::stats::increment_counted(a, o);
    let ib = crate::stats::increment_counted(b, o);
    lemma_incremented_in_place(p, ia, ib, o, los, depth);
    lemma_moved_or_kept(p, ia, ib, o, los, depth);
}

/// The increment of a slot from where its object was counted.
spec fn after_count(
    p: IncsState,
    s: State,
    kind: u8,
    slot: Slot,
    add_root_to_remset: bool,
    o: ObjectReference,
    new: ObjectReference,
) -> State {
    let s4 = if slot.type_tag && s.has_rc(new) {
        s.with_stuck(new)
    } else {
        s
    };
    let s5 = if kind != crate::packets::EDGE_KIND_ROOT || add_root_to_remset {
        crate::increments::reference_recorded(p, s4, s4.in_defrag(slot.address), slot, new)
    } else {
        s4
    };
    if new != o {
        s5.with_word(slot.address, new.address)
    } else {
        s5
    }
}

proof fn lemma_after_count(
    p: IncsState,
    a: State,
    b: State,
    kind: u8,
    slot: Slot,
    add_root_to_remset: bool,
    o: ObjectReference,
    new: ObjectReference,
)
    requires
        same_but_diag(a, b),
    ensures
        same_but_diag(
            after_count(p, a, kind, slot, add_root_to_remset, o, new),
            after_count(p, b, kind, slot, add_root_to_remset, o, new),
        ),
{
    assert(a.count(new) == b.count(new));
}

proof fn lemma_slot_read(a: State, b: State, kind: u8, slot: Slot, depth: u32)
    requires
        same_but_diag(a, b),
    ensures
        ({
            let a1 = crate::increments::slot_read(
                crate::increments::slot_traced(a, kind, slot, depth),
                kind,
                slot,
            );
            let b1 = crate::increments::slot_read(
                crate::increments::slot_traced(b, kind, slot, depth),
                kind,
                slot,
            );
            &&& same_but_diag(a1, b1)
            &&& a1.load(slot) == b1.load(slot)
        }),
{
}

proof fn lemma_target_traced(
    a: State,
    b: State,
    kind: u8,
    slot: Slot,
    depth: u32,
    o: ObjectReference,
)
    requires
        same_but_diag(a, b),
    ensures
        same_but_diag(
            crate::increments::target_traced(a, kind, slot, depth, o),
            crate::increments::target_traced(b, kind, slot, depth, o),
        ),
{
}

proof fn lemma_slot_processed(
    p: IncsState,
    a: State,
    b: State,
    kind: u8,
    slot: Slot,
    depth: u32,
    add_root_to_remset: bool,
)
    requires
        same_but_diag(a, b),
    ensures
        slot_processed(p, a, kind, slot, depth, add_root_to_remset).0 == slot_processed(
            p,
            b,
            kind,
            slot,
            depth,
            add_root_to_remset,
        ).0,
        same_but_diag(
            slot_processed(p, a, kind, slot, depth, add_root_to_remset).1,
            slot_processed(p, b, kind, slot, depth, add_root_to_remset).1,
        ),
        slot_processed(p, a, kind, slot, depth, add_root_to_remset).2 == slot_processed(
            p,
            b,
            kind,
            slot,
            depth,
            add_root_to_remset,
        ).2,
{
    reveal(slot_processed);
    lemma_slot_read(a, b, kind, slot, depth);
    let a1 = crate::increments::slot_read(
        crate::increments::slot_traced(a, kind, slot, depth),
        kind,
        slot,
    );
    let b1 = crate::increments::slot_read(
        crate::increments::slot_traced(b, kind, slot, depth),
        kind,
        slot,
    );
    let (pa, ta, ra) = slot_processed(p, a, kind, slot, depth, add_root_to_remset);
    let (pb, tb, rb) = slot_processed(p, b, kind, slot, depth, add_root_to_remset);
    match a1.load(slot) {
        None => {
            assert(b1.load(slot) is None);
        },
        Some(o) => {
            assert(b1.load(slot) == Some(o));
            let a2 = crate::increments::target_traced(a1, kind, slot, depth, o);
            let b2 = crate::increments::target_traced(b1, kind, slot, depth, o);
            lemma_target_traced(a1, b1, kind, slot, depth, o);
            lemma_inc_processed(p, a2, b2, o, depth);
            let (p3, a3, new) = inc_processed(p, a2, o, depth);
            let (q3, b3, new_b) = inc_processed(p, b2, o, depth);
            assert(q3 == p3 && new_b == new);
            lemma_after_count(p3, a3, b3, kind, slot, add_root_to_remset, o, new);
            assert(ta == after_count(p3, a3, kind, slot, add_root_to_remset, o, new));
            assert(tb == after_count(p3, b3, kind, slot, add_root_to_remset, o, new));
        },
    }
}

proof fn lemma_slots_processed(
    p: IncsState,
    a: State,
    b: State,
    kind: u8,
    slots: Seq<Slot>,
    depth: u32,
    add_root_to_remset: bool,
)
    requires
        same_but_diag(a, b),
    ensures
        slots_processed(p, a, kind, slots, depth, add_root_to_remset).0 == slots_processed(
            p,
            b,
            kind,
            slots,
            depth,
            add_root_to_remset,
        ).0,
        same_but_diag(
            slots_processed(p, a, kind, slots, depth, add_root_to_remset).1,
            slots_processed(p, b, kind, slots, depth, add_root_to_remset).1,
        ),
        slots_processed(p, a, kind, slots, depth, add_root_to_remset).2 == slots_processed(
            p,
            b,
            kind,
            slots,
            depth,
            add_root_to_remset,
        ).2,
    decreases slots.len(),
{
    if slots.len() > 0 {
        lemma_slots_processed(p, a, b, kind, slots.drop_last(), depth, add_root_to_remset);
        let (p1, a1, _) = slots_processed(
            p,
            a,
            kind,
            slots.drop_last(),
            depth,
            add_root_to_remset,
        );
        let (_, b1, _) = slots_processed(
            p,
            b,
            kind,
            slots.drop_last(),
            depth,
            add_root_to_remset,
        );
        lemma_slot_processed(p1, a1, b1, kind, slots.last(), depth, add_root_to_remset);
    }
}

proof fn lemma_slices_processed(
    p: IncsState,
    a: State,
    b: State,
    kind: u8,
    slices: Seq<MemorySlice>,
    depth: u32,
)
    requires
        same_but_diag(a, b),
    ensures
        slices_processed(p, a, kind, slices, depth).0 == slices_processed(
            p,
            b,
            kind,
            slices,
            depth,
        ).0,
        same_but_diag(
            slices_processed(p, a, kind, slices, depth).1,
            slices_processed(p, b, kind, slices, depth).1,
        ),
    decreases slices.len(),
{
    if slices.len() > 0 {
        lemma_slices_processed(p, a, b, kind, slices.drop_last(), depth);
        let (p1, a1) = slices_processed(p, a, kind, slices.drop_last(), depth);
        let (_, b1) = slices_processed(p, b, kind, slices.drop_last(), depth);
        lemma_slots_processed(p1, a1, b1, kind, slices.last().slots(), depth, false);
    }
}

proof fn lemma_round_processed(p: IncsState, a: State, b: State, depth: u32)
    requires
        same_but_diag(a, b),
    ensures
        round_processed(p, a, depth).0 == round_processed(p, b, depth).0,
        same_but_diag(round_processed(p, a, depth).1, round_processed(p, b, depth).1),
{
    let kind = crate::packets::EDGE_KIND_NURSERY;
    lemma_slots_processed(p.emptied(), a, b, kind, p.new_incs, depth, false);
    let (p1, a1, _) = slots_processed(p.emptied(), a, kind, p.new_incs, depth, false);
    let (_, b1, _) = slots_processed(p.emptied(), b, kind, p.new_incs, depth, false);
    lemma_slices_processed(p1, a1, b1, kind, p.new_inc_slices, p.depth);
}

proof fn lemma_same_bounded(a: State, b: State)
    requires
        same_but_diag(a, b),
        bounded(a),
    ensures
        bounded(b),
{
    assert forall|o: ObjectReference| #[trigger] b.count(o) <= b.args.max_ref_count by {
        assert(b.count(o) == a.count(o));
    }
}

proof fn lemma_incs_drained(p: IncsState, a: State, b: State, depth: u32)
    requires
        same_but_diag(a, b),
        bounded(a),
    ensures
        incs_drained(p, a, depth).0 == incs_drained(p, b, depth).0,
        same_but_diag(incs_drained(p, a, depth).1, incs_drained(p, b, depth).1),
    decreases remaining(a),
{
    lemma_same_bounded(a, b);
    let deeper = depth.wrapping_add(1);
    if p.pending() {
        lemma_round(p, a, deeper);
        lemma_round_processed(p, a, b, deeper);
        let (p1, a1) = round_processed(p, a, deeper);
        let (q1, b1) = round_processed(p, b, deeper);
        assert(q1 == p1);
        if p1.pending() {
            lemma_incs_drained(p1, a1, b1, deeper);
            lemma_same_bounded(a1, b1);
            assert(incs_drained(p, a, depth) == incs_drained(p1, a1, deeper));
            assert(incs_drained(p, b, depth) == incs_drained(p1, b1, deeper));
        } else {
            assert(incs_drained(p, a, depth) == (p1, a1));
            assert(incs_drained(p, b, depth) == (p1, b1));
        }
    } else {
        assert(incs_drained(p, a, depth) == (p, a));
        assert(incs_drained(p, b, depth) == (p, b));
    }
}

/// A packet up to the roots that it found.
proof fn lemma_given_observed(p: IncsState, a: State, b: State, kind: u8)
    requires
        same_but_diag(a, b),
    ensures
        given_processed(p, a, kind).0 == given_processed(p, b, kind).0,
        same_but_diag(given_processed(p, a, kind).1, given_processed(p, b, kind).1),
        given_processed(p, a, kind).2 == given_processed(p, b, kind).2,
{
    let begin = IncsState { incs: Seq::empty(), ..p };
    let record = crate::inc_work::remembers_roots(p, kind);
    lemma_slots_processed(begin, a, b, kind, p.incs, p.depth, record);
    let (q, a1, _) = slots_processed(begin, a, kind, p.incs, p.depth, record);
    let (_, b1, _) = slots_processed(begin, b, kind, p.incs, p.depth, record);
    let middle = IncsState { inc_slices: Seq::empty(), ..q };
    lemma_slices_processed(middle, a1, b1, kind, p.inc_slices, p.depth);
}

/// What a packet does with the roots that it found.
spec fn roots_passed_on(
    p: IncsState,
    s: State,
    pause: Pause,
    roots: Seq<ObjectReference>,
) -> State {
    let slots = if crate::inc_work::traces_roots(pause) {
        p.incs
    } else {
        Seq::empty()
    };
    if roots.len() > 0 {
        crate::inc_work::roots_handed_over(s, pause, p.root_kind, slots, roots)
    } else {
        s
    }
}

proof fn lemma_roots_passed_on(
    p: IncsState,
    a: State,
    b: State,
    pause: Pause,
    roots: Seq<ObjectReference>,
)
    requires
        same_but_diag(a, b),
        bounded(a),
    ensures
        same_but_diag(roots_passed_on(p, a, pause, roots), roots_passed_on(p, b, pause, roots)),
        bounded(roots_passed_on(p, a, pause, roots)),
{
    let t = roots_passed_on(p, a, pause, roots);
    assert forall|o: ObjectReference| #[trigger] t.count(o) <= t.args.max_ref_count by {
        assert(t.count(o) == a.count(o));
    }
}

/// A packet of increments that starts.
proof fn lemma_incs_begun(p: IncsState, a: State, b: State, pause: Pause, elapsed_millis: u128)
    requires
        same_but_diag(a, b),
        bounded(a),
    ensures
        incs_begun(p, a, pause, elapsed_millis).0 == incs_begun(p, b, pause, elapsed_millis).0,
        same_but_diag(
            incs_begun(p, a, pause, elapsed_millis).1,
            incs_begun(p, b, pause, elapsed_millis).1,
        ),
        bounded(incs_begun(p, a, pause, elapsed_millis).1),
{
    let t = incs_begun(p, a, pause, elapsed_millis).1;
    assert forall|o: ObjectReference| #[trigger] t.count(o) <= t.args.max_ref_count by {
        assert(t.count(o) == a.count(o));
    }
}

/// The diagnostics only observe increments: two collectors that differ in their
/// diagnostics alone do the same with a packet, and differ in their diagnostics
/// alone after it.
#[verifier::rlimit(40)]
pub proof fn diagnostics_only_observe_increments(
    p: IncsState,
    a: State,
    b: State,
    kind: u8,
    elapsed_millis: u128,
)
    requires
        same_but_diag(a, b),
        a.wf(),
    ensures
        incs_done(p, a, kind, elapsed_millis).0 == incs_done(p, b, kind, elapsed_millis).0,
        same_but_diag(
            incs_done(p, a, kind, elapsed_millis).1,
            incs_done(p, b, kind, elapsed_millis).1,
        ),
{
    let pause = a.phase.current_pause->0;
    lemma_wf_bounded(a);
    lemma_incs_begun(p, a, b, pause, elapsed_millis);
    let (p1, a1) = incs_begun(p, a, pause, elapsed_millis);
    let (_, b1) = incs_begun(p, b, pause, elapsed_millis);
    lemma_given_observed(p1, a1, b1, kind);
    lemma_given(p1, a1, kind);
    let (p2, a2, roots) = given_processed(p1, a1, kind);
    let (_, b2, _) = given_processed(p1, b1, kind);
    lemma_roots_passed_on(p, a2, b2, pause, roots);
    let a3 = roots_passed_on(p, a2, pause, roots);
    let b3 = roots_passed_on(p, b2, pause, roots);
    lemma_incs_drained(p2, a3, b3, p.depth);
}

proof fn lemma_flushed(p: DecsState, a: State, b: State)
    requires
        same_but_diag(a, b),
    ensures
        decs_flushed(p, a).0 == decs_flushed(p, b).0,
        same_but_diag(decs_flushed(p, a).1, decs_flushed(p, b).1),
{
}

proof fn lemma_queued(p: DecsState, a: State, b: State, x: ObjectReference)
    requires
        same_but_diag(a, b),
    ensures
        dec_added(p, a, x).0 == dec_added(p, b, x).0,
        same_but_diag(dec_added(p, a, x).1, dec_added(p, b, x).1),
        mark_object_added(p, a, x).0 == mark_object_added(p, b, x).0,
        same_but_diag(mark_object_added(p, a, x).1, mark_object_added(p, b, x).1),
{
    lemma_flushed(DecsState { new_decs: p.new_decs.push(x), ..p }, a, b);
    lemma_flushed(DecsState { mark_objects: p.mark_objects.push(x), ..p }, a, b);
}

/// What a slot of a dying object does to the object that it refers to, up to
/// marking.
spec fn reference_released(
    p: DecsState,
    s: State,
    parent: ObjectReference,
    field: Field,
    x: ObjectReference,
) -> (DecsState, State) {
    if field.out_of_heap {
        (p, crate::decrements::dead_reference_recorded(p, s, field.slot, x))
    } else if s.has_rc(x) && !s.dead_or_stuck(x) {
        dec_added(
            p,
            s.traced(
                x,
                Event::RecDec {
                    gc: s.diag.gc_count,
                    object: x.address,
                    parent: parent.address,
                    slot: field.slot.address,
                    rc: s.count(x),
                },
            ),
            x,
        )
    } else {
        (p, s)
    }
}

proof fn lemma_reference_released(
    p: DecsState,
    a: State,
    b: State,
    parent: ObjectReference,
    field: Field,
    x: ObjectReference,
)
    requires
        same_but_diag(a, b),
    ensures
        reference_released(p, a, parent, field, x).0 == reference_released(
            p,
            b,
            parent,
            field,
            x,
        ).0,
        same_but_diag(
            reference_released(p, a, parent, field, x).1,
            reference_released(p, b, parent, field, x).1,
        ),
{
    assert(a.count(x) == b.count(x));
    let ta = a.traced(
        x,
        Event::RecDec {
            gc: a.diag.gc_count,
            object: x.address,
            parent: parent.address,
            slot: field.slot.address,
            rc: a.count(x),
        },
    );
    let tb = b.traced(
        x,
        Event::RecDec {
            gc: b.diag.gc_count,
            object: x.address,
            parent: parent.address,
            slot: field.slot.address,
            rc: b.count(x),
        },
    );
    assert(same_but_diag(ta, tb));
    lemma_queued(p, ta, tb, x);
}

proof fn lemma_field_released(
    p: DecsState,
    a: State,
    b: State,
    parent: ObjectReference,
    field: Field,
)
    requires
        same_but_diag(a, b),
    ensures
        field_released(p, a, parent, field).0 == field_released(p, b, parent, field).0,
        same_but_diag(
            field_released(p, a, parent, field).1,
            field_released(p, b, parent, field).1,
        ),
{
    reveal(field_released);
    assert(a.load(field.slot) == b.load(field.slot));
    if let Some(x) = a.load(field.slot) {
        lemma_reference_released(p, a, b, parent, field, x);
        let (p1, a1) = reference_released(p, a, parent, field, x);
        let (q1, b1) = reference_released(p, b, parent, field, x);
        assert(q1 == p1);
        lemma_queued(p1, a1, b1, x);
        assert(a.is_marked(x) == b.is_marked(x) && a.has_rc(x) == b.has_rc(x));
        if p.mark_dead_objects && a.has_rc(x) && !a.is_marked(x) {
            assert(field_released(p, a, parent, field) == mark_object_added(p1, a1, x));
            assert(field_released(p, b, parent, field) == mark_object_added(p1, b1, x));
        } else {
            assert(field_released(p, a, parent, field) == (p1, a1));
            assert(field_released(p, b, parent, field) == (p1, b1));
        }
    }
}

proof fn lemma_fields_released(
    p: DecsState,
    a: State,
    b: State,
    parent: ObjectReference,
    fields: Seq<Field>,
)
    requires
        same_but_diag(a, b),
    ensures
        fields_released(p, a, parent, fields).0 == fields_released(p, b, parent, fields).0,
        same_but_diag(
            fields_released(p, a, parent, fields).1,
            fields_released(p, b, parent, fields).1,
        ),
    decreases fields.len(),
{
    if fields.len() > 0 {
        lemma_fields_released(p, a, b, parent, fields.drop_last());
        let (p1, a1) = fields_released(p, a, parent, fields.drop_last());
        let (_, b1) = fields_released(p, b, parent, fields.drop_last());
        lemma_field_released(p1, a1, b1, parent, fields.last());
    }
}

proof fn lemma_object_died(p: DecsState, a: State, b: State, o: ObjectReference)
    requires
        same_but_diag(a, b),
    ensures
        object_died(p, a, o).0 == object_died(p, b, o).0,
        same_but_diag(object_died(p, a, o).1, object_died(p, b, o).1),
{
    reveal(object_died);
    lemma_death_noted(a, o);
    lemma_death_noted(b, o);
    let a1 = death_noted(a, o);
    let b1 = death_noted(b, o);
    let a2 = if p.mark_dead_objects {
        a1.with_mark(o)
    } else {
        a1
    };
    let b2 = if p.mark_dead_objects {
        b1.with_mark(o)
    } else {
        b1
    };
    assert(same_but_diag(a2, b2));
    assert(a2.shape(o.address) == b2.shape(o.address));
    lemma_fields_released(p, a2, b2, o, a2.shape(o.address).fields);
}

proof fn lemma_dec_processed(p: DecsState, a: State, b: State, o: ObjectReference)
    requires
        same_but_diag(a, b),
    ensures
        dec_processed(p, a, o).0 == dec_processed(p, b, o).0,
        same_but_diag(dec_processed(p, a, o).1, dec_processed(p, b, o).1),
{
    reveal(dec_processed);
    reveal(lowered_or_died);
    assert(a.count(o) == b.count(o));
    assert(a.forwarding_of(o) == b.forwarding_of(o));
    let x = crate::decrements::dec_target(a, o);
    assert(a.count(x) == b.count(x));
    lemma_object_died(p, a, b, x);
}

proof fn lemma_decs_agree(p: DecsState, a: State, b: State, decs: Seq<ObjectReference>)
    requires
        same_but_diag(a, b),
    ensures
        decs_processed(p, a, decs).0 == decs_processed(p, b, decs).0,
        same_but_diag(decs_processed(p, a, decs).1, decs_processed(p, b, decs).1),
    decreases decs.len(),
{
    if decs.len() > 0 {
        lemma_decs_agree(p, a, b, decs.drop_last());
        let (p1, a1) = decs_processed(p, a, decs.drop_last());
        let (_, b1) = decs_processed(p, b, decs.drop_last());
        lemma_dec_processed(p1, a1, b1, decs.last());
    }
}

proof fn lemma_decs_drained_agree(p: DecsState, a: State, b: State)
    requires
        same_but_diag(a, b),
        bounded(a),
    ensures
        decs_drained(p, a).0 == decs_drained(p, b).0,
        same_but_diag(decs_drained(p, a).1, decs_drained(p, b).1),
    decreases held(a).len(),
{
    lemma_same_bounded(a, b);
    if p.new_decs.len() > 0 {
        let p0 = DecsState { new_decs: Seq::empty(), ..p };
        lemma_decs_processed(p0, a, p.new_decs);
        lemma_decs_agree(p0, a, b, p.new_decs);
        let (p1, a1) = decs_processed(p0, a, p.new_decs);
        let (q1, b1) = decs_processed(p0, b, p.new_decs);
        assert(q1 == p1);
        if p1.new_decs.len() > 0 {
            lemma_decs_drained_agree(p1, a1, b1);
            lemma_same_bounded(a1, b1);
            assert(decs_drained(p, a) == decs_drained(p1, a1));
            assert(decs_drained(p, b) == decs_drained(p1, b1));
        } else {
            assert(decs_drained(p, a) == (p1, a1));
            assert(decs_drained(p, b) == (p1, b1));
        }
    } else {
        assert(decs_drained(p, a) == (p, a));
        assert(decs_drained(p, b) == (p, b));
    }
}

/// The diagnostics only observe decrements: two collectors that differ in their
/// diagnostics alone do the same with a packet, and differ in their diagnostics
/// alone after it.
pub proof fn diagnostics_only_observe_decrements(p: DecsState, a: State, b: State)
    requires
        same_but_diag(a, b),
        a.wf(),
    ensures
        decs_done(p, a).0 == decs_done(p, b).0,
        same_but_diag(decs_done(p, a).1, decs_done(p, b).1),
{
    let (p1, a1) = decs_begun(p, a);
    let (_, b1) = decs_begun(p, b);
    lemma_wf_bounded(a);
    assert(same_but_diag(a, a1));
    lemma_same_bounded(a, a1);
    assert(same_but_diag(a1, b1));
    match p.decs {
        Some(decs) => {
            let start = DecsState { decs: None, ..p1 };
            lemma_decs_agree(start, a1, b1, decs);
            lemma_decs_processed(start, a1, decs);
        },
        None => {
            if let Some(decs) = p.decs_arc {
                let start = DecsState { decs_arc: None, ..p1 };
                lemma_decs_agree(start, a1, b1, decs);
                lemma_decs_processed(start, a1, decs);
            }
        },
    }
    let (p2, a2) = given_decs_processed(p1, a1);
    let (q2, b2) = given_decs_processed(p1, b1);
    assert(q2 == p2);
    assert(same_but_diag(a2, b2));
    lemma_decs_drained_agree(p2, a2, b2);
    let (p3, a3) = decs_drained(p2, a2);
    let (q3, b3) = decs_drained(p2, b2);
    lemma_flushed(p3, a3, b3);
    assert(decs_done(p, a) == decs_flushed(p3, a3));
    assert(decs_done(p, b) == decs_flushed(p3, b3));
}

} // verus!
