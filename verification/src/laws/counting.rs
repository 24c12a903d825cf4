//! What holds of increments, from a single one to a packet.

use crate::inc_work::given_processed;
use crate::inc_work::incs_begun;
use crate::inc_work::incs_done;
use crate::inc_work::incs_drained;
use crate::inc_work::remembers_roots;
use crate::inc_work::roots_handed_over;
use crate::inc_work::traces_roots;
use crate::increments::child_scanned;
use crate::increments::children_scanned;
use crate::increments::inc_processed;
use crate::increments::nursery_object_scanned;
use crate::increments::promoted;
use crate::increments::rearmed;
use crate::increments::slices_processed;
use crate::increments::slot_processed;
use crate::increments::slot_read;
use crate::increments::slot_traced;
use crate::increments::slots_processed;
use crate::increments::target_traced;
use crate::laws::deaths::is_block_of;
use crate::laws::increments::mature_object_is_counted_once;
use crate::laws::increments::raised;
use crate::laws::increments::slots_of;
use crate::laws::requests::requests_kept;
use crate::object::Field;
use crate::object::MemorySlice;
use crate::object::ObjectKind;
use crate::object::ObjectReference;
use crate::object::Slot;
use crate::packets::EDGE_KIND_MATURE;
use crate::progress::bounded;
use crate::progress::lemma_children_scanned;
use crate::progress::lemma_wf_bounded;
use crate::state::Effect;
use crate::state::Event;
use crate::state::Forwarding;
use crate::state::IncsState;
use crate::state::State;
use crate::stats::promotion_noted;
use vstd::prelude::*;

verus! {

// Counts.

/// The object of the slot is counted already, and has not moved; or there is none.
pub open spec fn refers_to_mature(s: State, slot: Slot) -> bool {
    s.load(slot) matches Some(o) ==> {
        &&& s.has_rc(o)
        &&& s.count(o) > 0
        &&& s.forwarding_of(o) == Forwarding::Untouched
        &&& !slot.type_tag
    }
}

/// How many of the slots refer to `x`.
pub open spec fn referring(s: State, slots: Seq<Slot>, x: ObjectReference) -> nat
    decreases slots.len(),
{
    if slots.len() == 0 {
        0
    } else {
        referring(s, slots.drop_last(), x) + if s.load(slots.last()) == Some(x) {
            1nat
        } else {
            0nat
        }
    }
}

/// What the increments of slots to mature objects leave alone.
pub open spec fn counted_only(p: IncsState, s: State, q: IncsState, t: State) -> bool {
    &&& q == p
    &&& t == State {
        unlog: t.unlog,
        counts: t.counts,
        effects: t.effects,
        diag: t.diag,
        ..s
    }
    &&& forall|o: ObjectReference| #[trigger] t.count(o) >= s.count(o)
}

proof fn lemma_mature_slot(
    p: IncsState,
    s: State,
    kind: u8,
    slot: Slot,
    depth: u32,
    record: bool,
    x: ObjectReference,
)
    requires
        bounded(s),
        refers_to_mature(s, slot),
    ensures
        ({
            let (q, t, _) = slot_processed(p, s, kind, slot, depth, record);
            &&& counted_only(p, s, q, t)
            &&& bounded(t)
            &&& t.count(x) == (if s.load(slot) == Some(x) {
                raised(s.count(x), 1, s.args.max_ref_count)
            } else {
                s.count(x) as int
            })
        }),
{
    reveal(slot_processed);
    crate::progress::lemma_slot_processed(p, s, kind, slot, depth, record);
    let (q, t, _) = slot_processed(p, s, kind, slot, depth, record);
    let s1 = slot_read(slot_traced(s, kind, slot, depth), kind, slot);
    assert(s1.load(slot) == s.load(slot));
    assert forall|o: ObjectReference| #[trigger] s1.count(o) == s.count(o) by {}
    assert(s.count(x) <= s.args.max_ref_count);
    if let Some(o) = s.load(slot) {
        let s2 = target_traced(s1, kind, slot, depth, o);
        assert forall|y: ObjectReference| #[trigger] s2.count(y) == s.count(y) by {}
        assert(s2.forwarding_of(o) == s.forwarding_of(o));
        mature_object_is_counted_once(p, s2, o, depth, x);
        let (_, s3, _) = inc_processed(p, s2, o, depth);
        assert(t.counts == s3.counts);
        assert(t.count(x) == s3.count(x));
        if x.address == o.address {
            assert(x == o);
        }
    } else {
        assert(t.count(x) == s.count(x));
    }
}

proof fn lemma_mature_slots(
    p: IncsState,
    s: State,
    kind: u8,
    slots: Seq<Slot>,
    depth: u32,
    record: bool,
    x: ObjectReference,
)
    requires
        bounded(s),
        forall|i: int| 0 <= i < slots.len() ==> refers_to_mature(s, #[trigger] slots[i]),
    ensures
        ({
            let (q, t, _) = slots_processed(p, s, kind, slots, depth, record);
            &&& counted_only(p, s, q, t)
            &&& bounded(t)
            &&& t.count(x) == raised(
                s.count(x),
                referring(s, slots, x) as int,
                s.args.max_ref_count,
            )
        }),
    decreases slots.len(),
{
    assert(s.count(x) <= s.args.max_ref_count);
    if slots.len() > 0 {
        let before = slots.drop_last();
        assert forall|i: int| 0 <= i < before.len() implies refers_to_mature(
            s,
            #[trigger] before[i],
        ) by {
            assert(before[i] == slots[i]);
        }
        lemma_mature_slots(p, s, kind, before, depth, record, x);
        let (p1, s1, _) = slots_processed(p, s, kind, before, depth, record);
        let slot = slots.last();
        assert(refers_to_mature(s, slots[slots.len() - 1]));
        assert(s1.load(slot) == s.load(slot));
        if let Some(o) = s.load(slot) {
            assert(s1.count(o) >= s.count(o));
            assert(s1.forwarding_of(o) == s.forwarding_of(o));
        }
        assert(refers_to_mature(s1, slot));
        lemma_mature_slot(p1, s1, kind, slot, depth, record, x);
        let (q, t, _) = slots_processed(p, s, kind, slots, depth, record);
        assert forall|o: ObjectReference| #[trigger] t.count(o) >= s.count(o) by {
            assert(s1.count(o) >= s.count(o));
        }
    }
}

proof fn lemma_mature_slices(
    p: IncsState,
    s: State,
    kind: u8,
    slices: Seq<MemorySlice>,
    depth: u32,
    x: ObjectReference,
)
    requires
        bounded(s),
        forall|i: int|
            0 <= i < slots_of(slices).len() ==> refers_to_mature(
                s,
                #[trigger] slots_of(slices)[i],
            ),
    ensures
        ({
            let (q, t) = slices_processed(p, s, kind, slices, depth);
            &&& counted_only(p, s, q, t)
            &&& bounded(t)
            &&& t.count(x) == raised(
                s.count(x),
                referring(s, slots_of(slices), x) as int,
                s.args.max_ref_count,
            )
        }),
    decreases slices.len(),
{
    assert(s.count(x) <= s.args.max_ref_count);
    if slices.len() > 0 {
        let before = slots_of(slices.drop_last());
        let last = slices.last().slots();
        let all = slots_of(slices);
        assert(all == before + last);
        assert forall|i: int| 0 <= i < before.len() implies refers_to_mature(
            s,
            #[trigger] before[i],
        ) by {
            assert(all[i] == before[i]);
        }
        lemma_mature_slices(p, s, kind, slices.drop_last(), depth, x);
        let (p1, s1) = slices_processed(p, s, kind, slices.drop_last(), depth);
        assert forall|i: int| 0 <= i < last.len() implies refers_to_mature(
            s1,
            #[trigger] last[i],
        ) by {
            assert(all[before.len() + i] == last[i]);
            assert(refers_to_mature(s, all[before.len() + i]));
            assert(s1.load(last[i]) == s.load(last[i]));
            if let Some(o) = s.load(last[i]) {
                assert(s1.count(o) >= s.count(o));
                assert(s1.forwarding_of(o) == s.forwarding_of(o));
            }
        }
        lemma_mature_slots(p1, s1, kind, last, depth, false, x);
        lemma_referring_sum(s, before, last, x);
        lemma_referring_read(s, s1, last, x);
        let (q, t) = slices_processed(p, s, kind, slices, depth);
        assert forall|o: ObjectReference| #[trigger] t.count(o) >= s.count(o) by {
            assert(s1.count(o) >= s.count(o));
        }
    }
}

proof fn lemma_referring_sum(s: State, a: Seq<Slot>, b: Seq<Slot>, x: ObjectReference)
    ensures
        referring(s, a + b, x) == referring(s, a, x) + referring(s, b, x),
    decreases b.len(),
{
    if b.len() == 0 {
        assert(a + b =~= a);
    } else {
        assert((a + b).drop_last() =~= a + b.drop_last());
        lemma_referring_sum(s, a, b.drop_last(), x);
    }
}

proof fn lemma_referring_read(s: State, t: State, slots: Seq<Slot>, x: ObjectReference)
    requires
        t.words == s.words,
    ensures
        referring(t, slots, x) == referring(s, slots, x),
    decreases slots.len(),
{
    if slots.len() > 0 {
        lemma_referring_read(s, t, slots.drop_last(), x);
        assert(t.load(slots.last()) == s.load(slots.last()));
    }
}

/// A packet counts every reference that it was given: where its slots and the slots of
/// its slices refer to mature objects, each of which has not moved, the count of every
/// object goes up by the number of slots that refer to it, until it sticks. The packet
/// starts with no new increments, and has none to hand over.
pub proof fn packet_counts_every_slot(
    p: IncsState,
    s: State,
    kind: u8,
    elapsed_millis: u128,
    x: ObjectReference,
)
    requires
        s.wf(),
        !p.pending(),
        forall|i: int| 0 <= i < p.incs.len() ==> refers_to_mature(s, #[trigger] p.incs[i]),
        forall|i: int|
            0 <= i < slots_of(p.inc_slices).len() ==> refers_to_mature(
                s,
                #[trigger] slots_of(p.inc_slices)[i],
            ),
    ensures
        ({
            let (_, t) = incs_done(p, s, kind, elapsed_millis);
            let n = referring(s, p.incs, x) + referring(s, slots_of(p.inc_slices), x);
            &&& t.count(x) == raised(s.count(x), n as int, s.args.max_ref_count)
            &&& t.words == s.words
            &&& t.forwarding == s.forwarding
            &&& t.copies == s.copies
        }),
{
    lemma_wf_bounded(s);
    let pause = s.phase.current_pause->0;
    let (p1, s1) = incs_begun(p, s, pause, elapsed_millis);
    lemma_same_slots(s, s1, p.incs);
    lemma_same_slots(s, s1, slots_of(p.inc_slices));
    assert forall|o: ObjectReference| #[trigger] s1.count(o) == s.count(o) by {}
    lemma_mature_given(p1, s1, kind, x);
    lemma_referring_read(s, s1, p.incs, x);
    lemma_referring_read(s, s1, slots_of(p.inc_slices), x);
    let (p2, s2, roots) = given_processed(p1, s1, kind);
    let root_slots = if traces_roots(pause) {
        p.incs
    } else {
        Seq::empty()
    };
    let s3 = if roots.len() > 0 {
        roots_handed_over(s2, pause, p.root_kind, root_slots, roots)
    } else {
        s2
    };
    assert forall|o: ObjectReference| #[trigger] s3.count(o) == s2.count(o) by {}
    assert(incs_drained(p2, s3, p.depth) == (p2, s3));
    let (_, t) = incs_done(p, s, kind, elapsed_millis);
    assert(t.count(x) == s3.count(x));
}

proof fn lemma_same_slots(s: State, t: State, slots: Seq<Slot>)
    requires
        t == (State {
            unlog: t.unlog,
            counts: t.counts,
            effects: t.effects,
            no_evac: t.no_evac,
            diag: t.diag,
            ..s
        }),
        forall|o: ObjectReference| #[trigger] t.count(o) >= s.count(o),
        forall|i: int| 0 <= i < slots.len() ==> refers_to_mature(s, #[trigger] slots[i]),
    ensures
        forall|i: int| 0 <= i < slots.len() ==> refers_to_mature(t, #[trigger] slots[i]),
{
    assert forall|i: int| 0 <= i < slots.len() implies refers_to_mature(t, #[trigger] slots[i]) by {
        assert(refers_to_mature(s, slots[i]));
        assert(t.load(slots[i]) == s.load(slots[i]));
        if let Some(o) = s.load(slots[i]) {
            assert(t.count(o) >= s.count(o));
            assert(t.forwarding_of(o) == s.forwarding_of(o));
        }
    }
}

proof fn lemma_mature_given(p: IncsState, s: State, kind: u8, x: ObjectReference)
    requires
        bounded(s),
        !p.pending(),
        forall|i: int| 0 <= i < p.incs.len() ==> refers_to_mature(s, #[trigger] p.incs[i]),
        forall|i: int|
            0 <= i < slots_of(p.inc_slices).len() ==> refers_to_mature(
                s,
                #[trigger] slots_of(p.inc_slices)[i],
            ),
    ensures
        ({
            let (q, t, _) = given_processed(p, s, kind);
            let n = referring(s, p.incs, x) + referring(s, slots_of(p.inc_slices), x);
            &&& !q.pending()
            &&& bounded(t)
            &&& t == (State {
                unlog: t.unlog,
                counts: t.counts,
                effects: t.effects,
                diag: t.diag,
                ..s
            })
            &&& t.count(x) == raised(s.count(x), n as int, s.args.max_ref_count)
        }),
{
    let begin = IncsState { incs: Seq::empty(), ..p };
    let record = remembers_roots(p, kind);
    assert(s.count(x) <= s.args.max_ref_count);
    lemma_mature_slots(begin, s, kind, p.incs, p.depth, record, x);
    let (q1, t1, _) = slots_processed(begin, s, kind, p.incs, p.depth, record);
    let middle = IncsState { inc_slices: Seq::empty(), ..q1 };
    let slots = slots_of(p.inc_slices);
    lemma_same_slots(s, t1, slots);
    lemma_mature_slices(middle, t1, kind, p.inc_slices, p.depth, x);
    lemma_referring_read(s, t1, slots, x);
}

/// The object of a type tag gets stuck, where it has a count, wherever it ends up.
pub proof fn type_tag_makes_its_object_stick(
    p: IncsState,
    s: State,
    kind: u8,
    slot: Slot,
    depth: u32,
    record: bool,
)
    requires
        bounded(s),
        slot.type_tag,
    ensures
        ({
            let (_, t, found) = slot_processed(p, s, kind, slot, depth, record);
            found matches Some(new) ==> (t.has_rc(new) ==> t.count(new) == s.args.max_ref_count)
        }),
{
    reveal(slot_processed);
    crate::progress::lemma_slot_processed(p, s, kind, slot, depth, record);
}

/// A slot that refers to no object is left as it is: nothing is counted, asked for, moved
/// or queued.
pub proof fn empty_slot_does_nothing(
    p: IncsState,
    s: State,
    kind: u8,
    slot: Slot,
    depth: u32,
    record: bool,
)
    requires
        s.word(slot.address) == 0,
    ensures
        ({
            let (q, t, found) = slot_processed(p, s, kind, slot, depth, record);
            &&& q == p
            &&& found is None
            &&& t == (State { unlog: t.unlog, diag: t.diag, ..s })
            &&& kind != EDGE_KIND_MATURE ==> t.unlog == s.unlog
        }),
{
    reveal(slot_processed);
}

/// An object that moved, or that another worker has claimed, is counted where it ends up,
/// and everybody knows where that is. An object that the other worker leaves in place is
/// counted there. The object lies in the Immix space, and nursery evacuation is
/// configured.
pub proof fn claimed_object_is_counted_where_it_ends_up(
    p: IncsState,
    s: State,
    o: ObjectReference,
    depth: u32,
)
    requires
        s.wf(),
        s.args.rc_nursery_evacuation,
        s.immix.has(o.address),
        !s.los.has(o.address),
        s.forwarding_of(o) != Forwarding::Untouched,
    ensures
        ({
            let (q, t, new) = inc_processed(p, s, o, depth);
            let at = match s.forwarding_of(o) {
                Forwarding::Forwarded(copy) => copy,
                Forwarding::BeingForwarded(Some(copy)) => copy,
                _ => o,
            };
            &&& new == at
            &&& t.count(at) > s.count(at) || t.count(at) == s.args.max_ref_count
            &&& at != o ==> {
                &&& t.forwarding_of(o) == Forwarding::Forwarded(at)
                &&& t.count(at) == raised(s.count(at), 1, s.args.max_ref_count)
                &&& q == p
                &&& t == (State {
                    counts: t.counts,
                    forwarding: t.forwarding,
                    diag: t.diag,
                    ..s
                })
            }
            &&& at == o && s.count(o) > 0 ==> {
                &&& t.count(o) == raised(s.count(o), 1, s.args.max_ref_count)
                &&& q == p
                &&& t == (State {
                    counts: t.counts,
                    forwarding: t.forwarding,
                    diag: t.diag,
                    ..s
                })
            }
            &&& s.forwarding_of(o) == Forwarding::BeingForwarded(None) ==> t.forwarding_of(o)
                == Forwarding::Untouched
            &&& t.copies == s.copies
            &&& t.words == s.words
        }),
{
    reveal(inc_processed);
    lemma_wf_bounded(s);
    let found = crate::increments::claim_settled(s, o);
    let at = crate::increments::forwarded_to(found, o);
    let settled = crate::stats::increment_counted(found, at);
    crate::progress::lemma_settled_advances(p, s, o);
    crate::progress::lemma_increment_counted(p, found, at);
    crate::progress::lemma_inc_traced(settled, at);
    crate::progress::lemma_incremented_in_place(p, settled, o, false, depth);
    assert(settled.count(at) == s.count(at));
    assert(settled.count(at) <= s.args.max_ref_count);
    let (q, t, new) = inc_processed(p, s, o, depth);
    if at == o {
        let counted = crate::increments::inc_traced(settled, o);
        crate::progress::lemma_promoted(p, counted, o, false, false, depth);
        assert(counted.count(o) <= t.count(o));
        assert(t.count(o) <= t.args.max_ref_count);
    }
}

// Promotion.

/// What a promotion asks for, behind what was asked before. An object that is not large
/// has its lines marked, with its size; before that its block is told, where the object
/// survived in place in the nursery. All other requests are references to remember. A
/// copy that is not large is reported with its size, and nothing else is.
pub proof fn promotion_asks_for_the_lines(
    p: IncsState,
    s: State,
    o: ObjectReference,
    copied: bool,
    los: bool,
    depth: u32,
)
    requires
        s.args.wf(),
    ensures
        ({
            let (q, t) = promoted(p, s, o, copied, los, depth);
            let n = s.effects.len() as int;
            let size = s.shape(o.address).size;
            let block = (o.address - o.address % s.args.block_bytes) as usize;
            let told = !los && !copied && s.nursery.contains(block);
            let first = if los {
                n
            } else if told {
                n + 2
            } else {
                n + 1
            };
            &&& requests_kept(s, t)
            &&& t.effects.len() >= first
            &&& told ==> t.effects[n] == (Effect::InPlacePromoted { block }) && is_block_of(
                s,
                block,
                o.address,
            )
            &&& !los ==> t.effects[first - 1] == (Effect::PromoteWithSize { object: o, size })
            &&& forall|i: int|
                first <= i < t.effects.len() ==> (#[trigger] t.effects[i]) is RemsetRecord
            &&& q.copied_sizes == (if copied && !los {
                p.copied_sizes.push(size)
            } else {
                p.copied_sizes
            })
        }),
{
    reveal(promoted);
    reveal(nursery_object_scanned);
    reveal(rearmed);
    let size = s.shape(o.address).size;
    let s1 = promotion_noted(s, o, copied, los, depth);
    let s2 = if los {
        s1
    } else {
        let told = if !copied && s1.in_nursery(o) {
            s1.with_effect(Effect::InPlacePromoted { block: s1.args.block_of(o.address) })
        } else {
            s1
        };
        told.with_effect(Effect::PromoteWithSize { object: o, size })
    };
    let p2 = if !los && copied {
        IncsState { copied_sizes: p.copied_sizes.push(size), ..p }
    } else {
        p
    };
    let s3 = rearmed(s2, o, los, !copied, size);
    assert(s3.effects == s2.effects);
    let shape = s2.shape(o.address);
    let in_defrag = !los && s2.in_defrag_block(o.address);
    crate::laws::requests::lemma_children(p2, s3, o, in_defrag, shape.fields);
    lemma_only_remembers(p2, s3, o, in_defrag, shape.fields);
    if let ObjectKind::ObjArray(data) = shape.kind {
        crate::laws::requests::lemma_slices_added(
            p2,
            s3,
            data.chunks(s2.args.buffer_size as int),
        );
        lemma_slices_keep_sizes(p2, s3, data.chunks(s2.args.buffer_size as int));
    }
    crate::laws::deaths::lemma_block(s, o.address);
    let (q, t) = promoted(p, s, o, copied, los, depth);
    assert forall|i: int| 0 <= i < s3.effects.len() implies #[trigger] t.effects[i]
        == s3.effects[i] by {}
    assert forall|i: int| 0 <= i < s.effects.len() implies #[trigger] t.effects[i]
        == s.effects[i] by {
        assert(s3.effects[i] == s.effects[i]);
    }
}

proof fn lemma_slices_keep_sizes(p: IncsState, s: State, slices: Seq<MemorySlice>)
    ensures
        crate::increments::slices_added(p, s, slices).0.copied_sizes == p.copied_sizes,
    decreases slices.len(),
{
    if slices.len() > 0 {
        lemma_slices_keep_sizes(p, s, slices.drop_last());
    }
}

/// A scan of fields asks for nothing but references to remember.
proof fn lemma_only_remembers(
    p: IncsState,
    s: State,
    o: ObjectReference,
    in_defrag: bool,
    fields: Seq<Field>,
)
    ensures
        ({
            let (q, t) = children_scanned(p, s, o, in_defrag, fields);
            &&& forall|i: int|
                s.effects.len() <= i < t.effects.len() ==> (
                #[trigger] t.effects[i]) is RemsetRecord
            &&& q.copied_sizes == p.copied_sizes
        }),
    decreases fields.len(),
{
    if fields.len() > 0 {
        lemma_only_remembers(p, s, o, in_defrag, fields.drop_last());
        crate::laws::requests::lemma_children(p, s, o, in_defrag, fields.drop_last());
        reveal(child_scanned);
    }
}

/// The references of a promoted object that lead into blocks that are being emptied are
/// remembered, while marking goes on or ends: each one to an object that is counted
/// already, where the promoted object lies outside such blocks. Those to objects that are
/// yet to be counted are remembered when they are.
pub proof fn promoted_references_are_remembered(
    p: IncsState,
    s: State,
    o: ObjectReference,
    in_defrag: bool,
    fields: Seq<Field>,
    i: int,
)
    requires
        bounded(s),
        p.remembers(s),
        !in_defrag,
        0 <= i < fields.len(),
    ensures
        ({
            let (_, t) = children_scanned(p, s, o, in_defrag, fields);
            s.load(fields[i].slot) matches Some(child) ==> (s.has_rc(child) && s.count(child) > 0
                && s.in_defrag(child.address) ==> crate::laws::requests::is_remembered(
                t,
                fields[i].slot,
                child,
            ))
        }),
    decreases fields.len(),
{
    let before = fields.drop_last();
    let (p1, s1) = children_scanned(p, s, o, in_defrag, before);
    let (q, t) = children_scanned(p, s, o, in_defrag, fields);
    lemma_children_scanned(p, s, o, in_defrag, before);
    crate::laws::requests::lemma_child(p1, s1, o, in_defrag, fields.last().slot);
    if let Some(child) = s.load(fields[i].slot) {
        if s.has_rc(child) && s.count(child) > 0 && s.in_defrag(child.address) {
            if i < before.len() {
                assert(before[i] == fields[i]);
                promoted_references_are_remembered(p, s, o, in_defrag, before, i);
                crate::laws::requests::lemma_remembered_stays(s1, t, fields[i].slot, child);
            } else {
                assert(s1.load(fields[i].slot) == s.load(fields[i].slot));
                assert(s1.count(child) >= s.count(child));
                reveal(child_scanned);
                let j = t.effects.len() - 1;
                assert(t.effects[j] == (Effect::RemsetRecord {
                    slot: fields[i].slot,
                    object: child,
                }));
            }
        }
    }
}

// The phase.

/// A packet takes note of the pause and of marking, and stops evacuating just where it
/// had stopped before, for the packet or for the collector, or the heap is too full, or
/// the pause has lasted for as long as is allowed. The collector hears of it.
pub proof fn packet_follows_the_limits(p: IncsState, s: State, elapsed_millis: u128)
    requires
        s.phase.current_pause is Some,
    ensures
        ({
            let (q, t) = incs_begun(p, s, s.phase.current_pause->0, elapsed_millis);
            let full = s.phase.used_pages - s.phase.collection_reserved_pages
                > s.phase.total_pages;
            let late = s.args.max_pause_millis matches Some(limit) && elapsed_millis >= limit;
            &&& q == (IncsState {
                pause: s.phase.current_pause->0,
                in_cm: s.phase.cm_in_progress,
                no_evac: p.no_evac || s.no_evac || full || late,
                ..p
            })
            &&& t.no_evac == (s.no_evac || full || late)
            &&& t == (State { no_evac: t.no_evac, diag: t.diag, ..s })
            &&& t.diag.log == (if !s.no_evac && (full || late) {
                s.diag.log.push(
                    Event::EvacuationStopped { over_space: full, over_time: late },
                )
            } else {
                s.diag.log
            })
        }),
{
}

/// A packet that is done has followed the pause: it knows the pause and whether marking
/// goes on.
pub proof fn packet_knows_the_pause(p: IncsState, s: State, kind: u8, elapsed_millis: u128)
    requires
        s.wf(),
        s.phase.current_pause is Some,
    ensures
        ({
            let (q, t) = incs_done(p, s, kind, elapsed_millis);
            &&& Some(q.pause) == s.phase.current_pause
            &&& q.in_cm == s.phase.cm_in_progress
            &&& q.incs.len() == 0
            &&& q.inc_slices.len() == 0
            &&& q.copied_sizes.len() == 0
            &&& q.root_kind == p.root_kind
            &&& q.depth == p.depth
        }),
{
    lemma_wf_bounded(s);
    let pause = s.phase.current_pause->0;
    let (p1, s1) = incs_begun(p, s, pause, elapsed_millis);
    assert forall|o: ObjectReference| #[trigger] s1.count(o) == s.count(o) by {}
    crate::inc_work::lemma_given(p1, s1, kind);
    let (p2, s2, roots) = given_processed(p1, s1, kind);
    let root_slots = if traces_roots(pause) {
        p.incs
    } else {
        Seq::empty()
    };
    let s3 = if roots.len() > 0 {
        roots_handed_over(s2, pause, p.root_kind, root_slots, roots)
    } else {
        s2
    };
    assert forall|o: ObjectReference| #[trigger] s3.count(o) == s2.count(o) by {}
    crate::inc_work::lemma_drained(p2, s3, p.depth);
}

} // verus!
