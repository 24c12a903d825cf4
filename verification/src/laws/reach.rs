//! How far increments reach: whatever a newly counted object refers to is counted, or
//! handed over to be.
//!
//! The laws are about packets that move nothing: evacuation has stopped, and no object
//! has moved.

use crate::inc_work::given_processed;
use crate::inc_work::incs_begun;
use crate::inc_work::incs_done;
use crate::inc_work::incs_drained;
use crate::inc_work::lemma_round;
use crate::inc_work::remembers_roots;
use crate::inc_work::roots_handed_over;
use crate::inc_work::round_processed;
use crate::inc_work::traces_roots;
use crate::increments::answer_taken;
use crate::increments::claim_dropped;
use crate::increments::inc_processed;
use crate::increments::inc_traced;
use crate::increments::moved_or_kept;
use crate::increments::nursery_object_scanned;
use crate::increments::object_copied;
use crate::increments::promoted;
use crate::increments::rearmed;
use crate::increments::slices_processed;
use crate::increments::slot_processed;
use crate::increments::slot_read;
use crate::increments::slot_traced;
use crate::increments::slots_processed;
use crate::increments::target_traced;
use crate::laws::copying::lemma_evacuated;
use crate::laws::copying::moves;
use crate::laws::increments::promotion_accounts_for_references;
use crate::laws::increments::queued_in_work;
use crate::laws::increments::queued_slices;
use crate::laws::increments::queued_slots;
use crate::laws::increments::references_are_accounted_for;
use crate::laws::increments::slices_in_work;
use crate::laws::increments::slots_of;
use crate::laws::increments::young_slots;
use crate::laws::roots::nobody_moved;
use crate::object::Field;
use crate::object::MemorySlice;
use crate::object::ObjectKind;
use crate::object::ObjectReference;
use crate::object::Slot;
use crate::packets::EDGE_KIND_NURSERY;
use crate::progress::bounded;
use crate::progress::lemma_kept_in_place;
use crate::progress::lemma_wf_bounded;
use crate::progress::remaining;
use crate::state::Effect;
use crate::state::Forwarding;
use crate::state::IncsState;
use crate::state::State;
use crate::state::SubmissionView;
use crate::stats::increment_counted;
use crate::stats::promotion_noted;
use vstd::prelude::*;

verus! {

/// The slots through which an object refers to others: the elements of an array of
/// references with more than 1024 of them, the fields of other objects, and none for an
/// array of values.
pub open spec fn reference_slots(s: State, o: ObjectReference) -> Seq<Slot> {
    let shape = s.shape(o.address);
    match shape.kind {
        ObjectKind::ValArray => Seq::empty(),
        ObjectKind::ObjArray(data) => if data.len > 1024 {
            Seq::new(
                data.len as nat,
                |i: int|
                    Slot {
                        address: (data.start + i * data.slot_bytes) as usize,
                        type_tag: false,
                    },
            )
        } else {
            shape.fields.map_values(|f: Field| f.slot)
        },
        ObjectKind::Plain => shape.fields.map_values(|f: Field| f.slot),
    }
}

/// Whether a slot is a new increment, handed over or not.
pub open spec fn is_queued(p: IncsState, s: State, slot: Slot) -> bool {
    queued_slots(p, s).contains(slot) || slots_of(queued_slices(p, s)).contains(slot)
}

/// Whether nothing is left to count through the slot: it refers to no object, or to one
/// that has no count, or to one that is counted.
pub open spec fn is_counted(s: State, slot: Slot) -> bool {
    s.load(slot) matches Some(child) ==> (s.has_rc(child) ==> s.count(child) > 0)
}

/// What has been counted since `s0` refers to what is counted, or through slots that are
/// yet to be processed.
pub open spec fn reaches(s0: State, p: IncsState, s: State, rest: Seq<Slot>) -> bool {
    forall|o: ObjectReference, i: int|
        s0.count(o) == 0 && s.count(o) > 0 && 0 <= i < reference_slots(s0, o).len() ==> {
            let slot = #[trigger] reference_slots(s0, o)[i];
            is_counted(s, slot) || is_queued(p, s, slot) || rest.contains(slot)
        }
}

/// What holds between two steps: nothing moves, and memory and objects are those of `s0`.
pub open spec fn still(s0: State, p: IncsState, s: State) -> bool {
    &&& bounded(s)
    &&& p.no_evac
    &&& nobody_moved(s)
    &&& s.words == s0.words
    &&& s.objects == s0.objects
    &&& (s.immix, s.los, s.immortal, s.other, s.args) == (s0.immix, s0.los, s0.immortal, s0.other,
        s0.args)
    &&& forall|a: usize| #[trigger] s0.objects.contains_key(a) ==> s0.objects[a].wf_at(a)
}

proof fn lemma_slots_of_sum(a: Seq<MemorySlice>, b: Seq<MemorySlice>)
    ensures
        slots_of(a + b) == slots_of(a) + slots_of(b),
    decreases b.len(),
{
    if b.len() == 0 {
        assert(a + b =~= a);
        assert(slots_of(a) + slots_of(b) =~= slots_of(a));
    } else {
        assert((a + b).drop_last() =~= a + b.drop_last());
        lemma_slots_of_sum(a, b.drop_last());
        assert(slots_of(a) + slots_of(b) =~= slots_of(a) + slots_of(b.drop_last())
            + b.last().slots());
    }
}

proof fn lemma_in_sum(a: Seq<Slot>, b: Seq<Slot>, slot: Slot)
    ensures
        (a + b).contains(slot) == (a.contains(slot) || b.contains(slot)),
{
    if a.contains(slot) {
        let i = choose|i: int| 0 <= i < a.len() && a[i] == slot;
        assert((a + b)[i] == slot);
    }
    if b.contains(slot) {
        let i = choose|i: int| 0 <= i < b.len() && b[i] == slot;
        assert((a + b)[a.len() + i] == slot);
    }
    if (a + b).contains(slot) {
        let i = choose|i: int| 0 <= i < (a + b).len() && (a + b)[i] == slot;
        if i < a.len() {
            assert(a[i] == slot);
        } else {
            assert(b[i - a.len()] == slot);
        }
    }
}

/// A slot of an object that is yet to be counted is among the young ones.
proof fn lemma_young(s: State, fields: Seq<Field>, i: int)
    requires
        0 <= i < fields.len(),
        !is_counted(s, fields[i].slot),
    ensures
        young_slots(s, fields).contains(fields[i].slot),
    decreases fields.len(),
{
    let list = young_slots(s, fields);
    if i == fields.len() - 1 {
        assert(list[list.len() - 1] == fields[i].slot);
    } else {
        let before = fields.drop_last();
        assert(before[i] == fields[i]);
        lemma_young(s, before, i);
        let k = choose|k: int|
            0 <= k < young_slots(s, before).len() && young_slots(s, before)[k] == fields[i].slot;
        assert(list[k] == fields[i].slot);
    }
}

/// A promotion settles every reference of the object: what it refers to is
/// counted, or the slot is queued. It counts no object for the first time, and takes
/// nothing out of the queue.
pub proof fn promotion_reaches_every_reference(
    p: IncsState,
    s: State,
    o: ObjectReference,
    copied: bool,
    los: bool,
    depth: u32,
    i: int,
    slot: Slot,
    x: ObjectReference,
)
    requires
        bounded(s),
        s.objects.contains_key(o.address) ==> s.objects[o.address].wf_at(o.address),
    ensures
        ({
            let (q, t) = promoted(p, s, o, copied, los, depth);
            &&& 0 <= i < reference_slots(s, o).len() ==> {
                ||| is_counted(t, reference_slots(s, o)[i])
                ||| is_queued(q, t, reference_slots(s, o)[i])
            }
            &&& is_queued(p, s, slot) ==> is_queued(q, t, slot)
            &&& s.count(x) == 0 ==> t.count(x) == 0
        }),
{
    reveal(promoted);
    let size = s.shape(o.address).size;
    let s1 = promotion_noted(s, o, copied, los, depth);
    let s2 = if los {
        s1
    } else {
        let told = if !copied && s1.in_nursery(o) {
            s1.with_effect(Effect::InPlacePromoted { block: s1.args.block_of(o.address) })
        } else {
            s1
        };
        told.with_effect(Effect::PromoteWithSize { object: o, size })
    };
    let p2 = if !los && copied {
        IncsState { copied_sizes: p.copied_sizes.push(size), ..p }
    } else {
        p
    };
    assert forall|y: ObjectReference| #[trigger] s2.count(y) == s.count(y) by {}
    assert(s2.shape(o.address) == s.shape(o.address));
    promotion_accounts_for_references(p2, s2, o, los, !copied, size);
    let (q, t) = promoted(p, s, o, copied, los, depth);
    crate::progress::lemma_promoted(p, s, o, copied, los, depth);
    assert(queued_slots(p2, s2) == queued_slots(p, s));
    assert(queued_slices(p2, s2) == queued_slices(p, s));
    let shape = s.shape(o.address);
    let young = young_slots(s2, shape.fields);
    let chunks = match shape.kind {
        ObjectKind::ObjArray(data) => data.chunks(s.args.buffer_size as int),
        _ => Seq::empty(),
    };
    lemma_in_sum(queued_slots(p, s), young, slot);
    lemma_slots_of_sum(queued_slices(p, s), chunks);
    lemma_in_sum(slots_of(queued_slices(p, s)), slots_of(chunks), slot);
    if 0 <= i < reference_slots(s, o).len() {
        let at = reference_slots(s, o)[i];
        lemma_in_sum(queued_slots(p, s), young, at);
        lemma_in_sum(slots_of(queued_slices(p, s)), slots_of(chunks), at);
        let large = shape.kind matches ObjectKind::ObjArray(data) && data.len > 1024;
        if large {
            let data = shape.kind->ObjArray_0;
            assert(reference_slots(s, o) =~= data.slots());
            assert(data.slots()[i] == at);
        } else {
            assert(shape.fields[i].slot == at);
            if !is_counted(s2, at) {
                lemma_young(s2, shape.fields, i);
            } else {
                assert(s2.load(at) == t.load(at));
                if let Some(child) = s.load(at) {
                    assert(s.count(child) <= t.count(child));
                }
            }
        }
    }
    lemma_no_first_count(p2, s2, o, los, !copied, size, x);
}

/// The scan of a promoted object counts no object for the first time.
proof fn lemma_no_first_count(
    p: IncsState,
    s: State,
    o: ObjectReference,
    los: bool,
    in_place: bool,
    size: usize,
    x: ObjectReference,
)
    requires
        bounded(s),
    ensures
        s.count(x) == 0 ==> nursery_object_scanned(p, s, o, los, in_place, size).1.count(x) == 0,
{
    reveal(nursery_object_scanned);
    reveal(rearmed);
    let s1 = rearmed(s, o, los, in_place, size);
    assert forall|y: ObjectReference| #[trigger] s1.count(y) == s.count(y) by {}
    let shape = s.shape(o.address);
    let in_defrag = !los && s.in_defrag_block(o.address);
    references_are_accounted_for(p, s1, o, in_defrag, shape.fields, x);
    if let ObjectKind::ObjArray(data) = shape.kind {
        lemma_slices_keep_counts(p, s1, data.chunks(s.args.buffer_size as int));
        let t = crate::increments::slices_added(
            p,
            s1,
            data.chunks(s.args.buffer_size as int),
        ).1;
        assert(t.count(x) == s1.count(x));
    }
}

proof fn lemma_slices_keep_counts(p: IncsState, s: State, slices: Seq<MemorySlice>)
    ensures
        crate::increments::slices_added(p, s, slices).1.counts == s.counts,
    decreases slices.len(),
{
    if slices.len() > 0 {
        lemma_slices_keep_counts(p, s, slices.drop_last());
    }
}

proof fn lemma_increment(
    s0: State,
    p: IncsState,
    s: State,
    o: ObjectReference,
    depth: u32,
    i: int,
    slot: Slot,
    x: ObjectReference,
)
    requires
        still(s0, p, s),
    ensures
        ({
            let (q, t, new) = inc_processed(p, s, o, depth);
            &&& new == o
            &&& still(s0, q, t)
            &&& is_queued(p, s, slot) ==> is_queued(q, t, slot)
            &&& s.has_rc(o) ==> t.count(o) > 0
            &&& s.count(x) == 0 && x.address != o.address ==> t.count(x) == 0
            &&& s.has_rc(o) && s.count(o) == 0 && 0 <= i < reference_slots(s0, o).len() ==> {
                ||| is_counted(t, reference_slots(s0, o)[i])
                ||| is_queued(q, t, reference_slots(s0, o)[i])
            }
            &&& !s.has_rc(o) ==> t.count(o) == s.count(o)
        }),
{
    let (q, t, new) = inc_processed(p, s, o, depth);
    assert(s.forwarding_of(o) == Forwarding::Untouched);
    crate::laws::evacuation::lemma_increment(p, s, o, depth);
    crate::progress::lemma_inc_processed(p, s, o, depth);
    lemma_kept_in_place(p, s, o, depth);
    assert(nobody_moved(t)) by {
        assert forall|y: ObjectReference| #[trigger] t.forwarding_of(y)
            == Forwarding::Untouched by {
            assert(s.forwarding_of(y) == Forwarding::Untouched);
        }
    }
    assert(still(s0, q, t));
    assert(reference_slots(s, o) == reference_slots(s0, o));
    reveal(inc_processed);
    reveal(moved_or_kept);
    if s.is_managed(o) && s.has_rc(o) {
        let los = s.los.has(o.address);
        let noted = increment_counted(s, o);
        assert forall|y: ObjectReference| #[trigger] noted.count(y) == s.count(y) by {}
        assert(noted.forwarding_of(o) == s.forwarding_of(o));
        let claimed = noted.with_forwarding(o, Forwarding::BeingForwarded(None));
        assert forall|y: ObjectReference| #[trigger] claimed.count(y) == s.count(y) by {}
        let stays = !s.args.rc_nursery_evacuation || crate::increments::stays(s, o, los);
        let counted = if stays {
            inc_traced(noted, o)
        } else {
            claim_dropped(claimed, o)
        };
        crate::progress::lemma_inc_traced(noted, o);
        crate::progress::lemma_inc_traced(claimed, o);
        crate::progress::lemma_forwarding_bounded(inc_traced(claimed, o), claim_dropped(claimed, o));
        assert(counted.work == s.work);
        assert(queued_slots(p, counted) == queued_slots(p, s));
        assert(queued_slices(p, counted) == queued_slices(p, s));
        if x.address != o.address {
            assert(counted.count(x) == s.count(x));
        }
        assert(counted.count(o) > 0);
        if s.count(o) == 0 {
            assert(reference_slots(counted, o) == reference_slots(s0, o));
            assert((q, t) == promoted(p, counted, o, false, los, depth));
            promotion_reaches_every_reference(p, counted, o, false, los, depth, i, slot, x);
            crate::progress::lemma_promoted(p, counted, o, false, los, depth);
            assert(counted.count(o) <= t.count(o));
        } else {
            assert((q, t) == (p, counted));
        }
    }
}

/// Whatever a copy refers to, through any of its slots, is counted or queued when the
/// object has moved. The object qualifies, and the copy allocator has room.
pub proof fn copy_reaches_every_reference(
    p: IncsState,
    s: State,
    o: ObjectReference,
    depth: u32,
    i: int,
)
    requires
        s.wf(),
        moves(p, s, o, depth),
        s.copies.len() > 0,
        s.copies.last() is Some,
    ensures
        ({
            let (q, t, new) = inc_processed(p, s, o, depth);
            0 <= i < reference_slots(t, new).len() ==> {
                ||| is_counted(t, reference_slots(t, new)[i])
                ||| is_queued(q, t, reference_slots(t, new)[i])
            }
        }),
{
    let new = s.copies.last()->0;
    lemma_evacuated(p, s, o, depth);
    let noted = increment_counted(s, o);
    let claimed = noted.with_forwarding(o, Forwarding::BeingForwarded(None));
    let c = object_copied(answer_taken(claimed), o, new);
    let counted = inc_traced(c, new);
    crate::progress::lemma_inc_traced(c, new);
    assert(s.copies[s.copies.len() - 1] == s.copies.last());
    assert(c.objects.contains_key(new.address) ==> c.objects[new.address].wf_at(new.address)) by {
        reveal(object_copied);
        if s.objects.contains_key(o.address) {
            assert(s.objects[o.address].wf_at(o.address));
            crate::evacuate::lemma_relocated_fits(
                s.objects[o.address],
                o.address,
                new.address,
            );
        } else if s.objects.contains_key(new.address) {
            assert(s.objects[new.address].wf_at(new.address));
        }
    }
    let (q, t, _) = inc_processed(p, s, o, depth);
    assert(t.objects == counted.objects);
    assert(t.shape(new.address) == counted.shape(new.address));
    assert(reference_slots(counted, new) == reference_slots(t, new));
    promotion_reaches_every_reference(
        p,
        counted,
        new,
        true,
        false,
        depth,
        i,
        Slot { address: 0, type_tag: false },
        new,
    );
}

/// The increment of a slot settles the slot, and what its object refers to is counted or
/// queued.
proof fn lemma_slot(
    s0: State,
    p: IncsState,
    s: State,
    kind: u8,
    slot: Slot,
    depth: u32,
    record: bool,
    rest: Seq<Slot>,
)
    requires
        still(s0, p, s),
        reaches(s0, p, s, seq![slot] + rest),
    ensures
        ({
            let (q, t, _) = slot_processed(p, s, kind, slot, depth, record);
            &&& still(s0, q, t)
            &&& reaches(s0, q, t, rest)
            &&& is_counted(t, slot)
            &&& forall|x: ObjectReference| s.count(x) <= #[trigger] t.count(x)
        }),
{
    reveal(slot_processed);
    let (q, t, _) = slot_processed(p, s, kind, slot, depth, record);
    crate::progress::lemma_slot_processed(p, s, kind, slot, depth, record);
    let s1 = slot_read(slot_traced(s, kind, slot, depth), kind, slot);
    assert forall|y: ObjectReference| #[trigger] s1.count(y) == s.count(y) by {}
    assert(s1.load(slot) == s.load(slot));
    let todo = seq![slot] + rest;
    match s1.load(slot) {
        None => {
            assert(nobody_moved(t)) by {
                assert forall|y: ObjectReference| #[trigger] t.forwarding_of(y)
                    == Forwarding::Untouched by {
                    assert(s.forwarding_of(y) == Forwarding::Untouched);
                }
            }
            assert forall|o: ObjectReference, i: int|
                s0.count(o) == 0 && t.count(o) > 0 && 0 <= i < reference_slots(s0, o).len() implies {
                let at = #[trigger] reference_slots(s0, o)[i];
                is_counted(t, at) || is_queued(q, t, at) || rest.contains(at)
            } by {
                let at = reference_slots(s0, o)[i];
                assert(s.count(o) > 0);
                lemma_in_sum(seq![slot], rest, at);
                assert(s.load(at) == t.load(at));
                if is_counted(s, at) {
                    if let Some(child) = s.load(at) {
                        assert(s.count(child) <= t.count(child));
                    }
                } else if is_queued(p, s, at) {
                    assert(is_queued(q, t, at));
                } else {
                    assert(todo.contains(at));
                }
            }
        },
        Some(child) => {
            let s2 = target_traced(s1, kind, slot, depth, child);
            assert forall|y: ObjectReference| #[trigger] s2.count(y) == s.count(y) by {}
            assert(nobody_moved(s2)) by {
                assert forall|y: ObjectReference| #[trigger] s2.forwarding_of(y)
                    == Forwarding::Untouched by {
                    assert(s.forwarding_of(y) == Forwarding::Untouched);
                }
            }
            assert(still(s0, p, s2));
            assert(s2.work == s.work);
            lemma_increment(s0, p, s2, child, depth, 0, slot, child);
            let (p3, s3, new) = inc_processed(p, s2, child, depth);
            assert(new == child);
            assert(t.work == s3.work && q == p3);
            assert(nobody_moved(t)) by {
                assert forall|y: ObjectReference| #[trigger] t.forwarding_of(y)
                    == Forwarding::Untouched by {
                    assert(s3.forwarding_of(y) == Forwarding::Untouched);
                }
            }
            assert(t.words == s3.words);
            assert forall|y: ObjectReference| y.address != child.address implies #[trigger] t.count(
                y,
            ) == s3.count(y) by {}
            assert forall|o: ObjectReference, i: int|
                s0.count(o) == 0 && t.count(o) > 0 && 0 <= i < reference_slots(s0, o).len() implies {
                let at = #[trigger] reference_slots(s0, o)[i];
                is_counted(t, at) || is_queued(q, t, at) || rest.contains(at)
            } by {
                let at = reference_slots(s0, o)[i];
                lemma_increment(s0, p, s2, child, depth, i, at, o);
                lemma_in_sum(seq![slot], rest, at);
                assert(s.load(at) == t.load(at));
                assert(s3.load(at) == t.load(at));
                assert(queued_slots(q, t) == queued_slots(p3, s3));
                assert(queued_slices(q, t) == queued_slices(p3, s3));
                assert(queued_slots(p, s2) == queued_slots(p, s));
                assert(queued_slices(p, s2) == queued_slices(p, s));
                if let Some(c) = t.load(at) {
                    assert(s.count(c) <= t.count(c));
                    assert(s3.count(c) <= t.count(c)) by {
                        if c.address == child.address {
                            assert(c == child);
                            assert(s3.count(c) <= s3.args.max_ref_count);
                        }
                    }
                }
                if s.count(o) > 0 {
                    assert(is_counted(s, at) || is_queued(p, s, at) || todo.contains(at));
                } else {
                    if o.address == child.address {
                        assert(o == child);
                        assert(s.has_rc(o));
                    } else {
                        assert(t.count(o) == s3.count(o));
                    }
                }
            }
            if s.has_rc(child) {
                assert(s3.count(child) > 0);
                assert(t.count(child) > 0);
            }
            assert(t.load(slot) == Some(child));
        },
    }
}

proof fn lemma_slots(
    s0: State,
    p: IncsState,
    s: State,
    kind: u8,
    slots: Seq<Slot>,
    depth: u32,
    record: bool,
    rest: Seq<Slot>,
)
    requires
        still(s0, p, s),
        reaches(s0, p, s, slots + rest),
    ensures
        ({
            let (q, t, _) = slots_processed(p, s, kind, slots, depth, record);
            &&& still(s0, q, t)
            &&& reaches(s0, q, t, rest)
            &&& forall|i: int| 0 <= i < slots.len() ==> is_counted(t, #[trigger] slots[i])
            &&& forall|x: ObjectReference| s.count(x) <= #[trigger] t.count(x)
        }),
    decreases slots.len(),
{
    if slots.len() == 0 {
        assert(slots + rest =~= rest);
    } else {
        let before = slots.drop_last();
        let slot = slots.last();
        assert(slots + rest =~= before + (seq![slot] + rest));
        lemma_slots(s0, p, s, kind, before, depth, record, seq![slot] + rest);
        let (p1, s1, _) = slots_processed(p, s, kind, before, depth, record);
        lemma_slot(s0, p1, s1, kind, slot, depth, record, rest);
        let (q, t, _) = slots_processed(p, s, kind, slots, depth, record);
        assert forall|x: ObjectReference| s.count(x) <= #[trigger] t.count(x) by {
            assert(s1.count(x) <= t.count(x));
        }
        assert forall|i: int| 0 <= i < slots.len() implies is_counted(t, #[trigger] slots[i]) by {
            if i < before.len() {
                assert(before[i] == slots[i]);
                assert(is_counted(s1, before[i]));
                assert(s1.load(slots[i]) == t.load(slots[i]));
                if let Some(child) = t.load(slots[i]) {
                    assert(s1.count(child) <= t.count(child));
                }
            }
        }
    }
}

proof fn lemma_slices(
    s0: State,
    p: IncsState,
    s: State,
    kind: u8,
    slices: Seq<MemorySlice>,
    depth: u32,
    rest: Seq<Slot>,
)
    requires
        still(s0, p, s),
        reaches(s0, p, s, slots_of(slices) + rest),
    ensures
        ({
            let (q, t) = slices_processed(p, s, kind, slices, depth);
            &&& still(s0, q, t)
            &&& reaches(s0, q, t, rest)
            &&& forall|i: int|
                0 <= i < slots_of(slices).len() ==> is_counted(t, #[trigger] slots_of(slices)[i])
            &&& forall|x: ObjectReference| s.count(x) <= #[trigger] t.count(x)
        }),
    decreases slices.len(),
{
    if slices.len() == 0 {
        assert(slots_of(slices) + rest =~= rest);
    } else {
        let before = slots_of(slices.drop_last());
        let last = slices.last().slots();
        let all = slots_of(slices);
        assert(all + rest =~= before + (last + rest));
        lemma_slices(s0, p, s, kind, slices.drop_last(), depth, last + rest);
        let (p1, s1) = slices_processed(p, s, kind, slices.drop_last(), depth);
        lemma_slots(s0, p1, s1, kind, last, depth, false, rest);
        let (q, t) = slices_processed(p, s, kind, slices, depth);
        assert forall|x: ObjectReference| s.count(x) <= #[trigger] t.count(x) by {
            assert(s1.count(x) <= t.count(x));
        }
        assert forall|i: int| 0 <= i < all.len() implies is_counted(t, #[trigger] all[i]) by {
            if i < before.len() {
                assert(before[i] == all[i]);
                assert(is_counted(s1, before[i]));
                assert(s1.load(all[i]) == t.load(all[i]));
                if let Some(child) = t.load(all[i]) {
                    assert(s1.count(child) <= t.count(child));
                }
            } else {
                assert(last[i - before.len()] == all[i]);
            }
        }
    }
}

proof fn lemma_round_reaches(s0: State, p: IncsState, s: State, depth: u32)
    requires
        still(s0, p, s),
        reaches(s0, p, s, Seq::empty()),
    ensures
        ({
            let (q, t) = round_processed(p, s, depth);
            &&& still(s0, q, t)
            &&& reaches(s0, q, t, Seq::empty())
            &&& forall|x: ObjectReference| s.count(x) <= #[trigger] t.count(x)
        }),
{
    let empty = p.emptied();
    let slots = p.new_incs;
    let more = slots_of(p.new_inc_slices);
    let none = Seq::<Slot>::empty();
    assert(still(s0, empty, s));
    assert(reaches(s0, empty, s, slots + more)) by {
        assert forall|o: ObjectReference, i: int|
            s0.count(o) == 0 && s.count(o) > 0 && 0 <= i < reference_slots(s0, o).len() implies {
            let at = #[trigger] reference_slots(s0, o)[i];
            is_counted(s, at) || is_queued(empty, s, at) || (slots + more).contains(at)
        } by {
            let at = reference_slots(s0, o)[i];
            assert(is_counted(s, at) || is_queued(p, s, at) || none.contains(at));
            lemma_in_sum(slots, more, at);
            lemma_in_sum(queued_in_work(s.work), p.new_incs, at);
            lemma_in_sum(queued_in_work(s.work), Seq::<Slot>::empty(), at);
            lemma_slots_of_sum(slices_in_work(s.work), p.new_inc_slices);
            lemma_slots_of_sum(slices_in_work(s.work), Seq::<MemorySlice>::empty());
            lemma_in_sum(slots_of(slices_in_work(s.work)), more, at);
            lemma_in_sum(
                slots_of(slices_in_work(s.work)),
                slots_of(Seq::<MemorySlice>::empty()),
                at,
            );
        }
    }
    lemma_slots(s0, empty, s, EDGE_KIND_NURSERY, slots, depth, false, more);
    let (p1, s1, _) = slots_processed(empty, s, EDGE_KIND_NURSERY, slots, depth, false);
    assert(more + none =~= more);
    lemma_slices(s0, p1, s1, EDGE_KIND_NURSERY, p.new_inc_slices, p.depth, none);
    let (q, t) = round_processed(p, s, depth);
    assert forall|x: ObjectReference| s.count(x) <= #[trigger] t.count(x) by {
        assert(s1.count(x) <= t.count(x));
    }
}

proof fn lemma_drained_reaches(s0: State, p: IncsState, s: State, depth: u32)
    requires
        still(s0, p, s),
        reaches(s0, p, s, Seq::empty()),
    ensures
        ({
            let (q, t) = incs_drained(p, s, depth);
            &&& still(s0, q, t)
            &&& reaches(s0, q, t, Seq::empty())
            &&& forall|x: ObjectReference| s.count(x) <= #[trigger] t.count(x)
        }),
    decreases remaining(s),
{
    if p.pending() {
        let deeper = depth.wrapping_add(1);
        lemma_round(p, s, deeper);
        lemma_round_reaches(s0, p, s, deeper);
        let (p1, s1) = round_processed(p, s, deeper);
        if p1.pending() {
            lemma_drained_reaches(s0, p1, s1, deeper);
            assert(incs_drained(p, s, depth) == incs_drained(p1, s1, deeper));
            let t = incs_drained(p1, s1, deeper).1;
            assert forall|x: ObjectReference| s.count(x) <= #[trigger] t.count(x) by {
                assert(s1.count(x) <= t.count(x));
            }
        }
    }
}

/// Work that is no packet of new increments queues nothing.
proof fn lemma_other_work(work: Seq<SubmissionView>, w: SubmissionView)
    requires
        !(w.work is NurseryIncs),
    ensures
        queued_in_work(work.push(w)) == queued_in_work(work),
        slices_in_work(work.push(w)) == slices_in_work(work),
{
    assert(work.push(w).drop_last() =~= work);
}

proof fn lemma_given_reaches(p: IncsState, s: State, kind: u8)
    requires
        still(s, p, s),
    ensures
        ({
            let (q, t, _) = given_processed(p, s, kind);
            &&& still(s, q, t)
            &&& reaches(s, q, t, Seq::empty())
            &&& forall|i: int| 0 <= i < p.incs.len() ==> is_counted(t, #[trigger] p.incs[i])
            &&& forall|i: int|
                0 <= i < slots_of(p.inc_slices).len() ==> is_counted(
                    t,
                    #[trigger] slots_of(p.inc_slices)[i],
                )
        }),
{
    let begin = IncsState { incs: Seq::empty(), ..p };
    let record = remembers_roots(p, kind);
    let more = slots_of(p.inc_slices);
    let none = Seq::<Slot>::empty();
    lemma_slots(s, begin, s, kind, p.incs, p.depth, record, more);
    let (p1, s1, _) = slots_processed(begin, s, kind, p.incs, p.depth, record);
    let middle = IncsState { inc_slices: Seq::empty(), ..p1 };
    assert(more + none =~= more);
    assert(reaches(s, middle, s1, more + none)) by {
        assert forall|o: ObjectReference, i: int|
            s.count(o) == 0 && s1.count(o) > 0 && 0 <= i < reference_slots(s, o).len() implies {
            let at = #[trigger] reference_slots(s, o)[i];
            is_counted(s1, at) || is_queued(middle, s1, at) || (more + none).contains(at)
        } by {
            let at = reference_slots(s, o)[i];
            assert(is_queued(p1, s1, at) == is_queued(middle, s1, at));
        }
    }
    lemma_slices(s, middle, s1, kind, p.inc_slices, p.depth, none);
    let (q, t, _) = given_processed(p, s, kind);
    assert forall|i: int| 0 <= i < p.incs.len() implies is_counted(t, #[trigger] p.incs[i]) by {
        let slot = p.incs[i];
        assert(is_counted(s1, slot));
        assert(s1.load(slot) == t.load(slot));
        if let Some(child) = t.load(slot) {
            assert(s1.count(child) <= t.count(child));
        }
    }
}

/// A packet that moves nothing reaches everything. When it is done, every object that a
/// slot refers to that the packet was given is counted, and so is whatever a newly
/// counted object refers to, through any of its slots, unless the slot was handed over as
/// a new increment. Objects without a count are left out.
pub proof fn packet_reaches_every_reference(
    p: IncsState,
    s: State,
    kind: u8,
    elapsed_millis: u128,
    o: ObjectReference,
    i: int,
    j: int,
)
    requires
        s.wf(),
        s.no_evac,
        nobody_moved(s),
    ensures
        ({
            let (_, t) = incs_done(p, s, kind, elapsed_millis);
            &&& 0 <= j < p.incs.len() ==> is_counted(t, p.incs[j])
            &&& 0 <= j < slots_of(p.inc_slices).len() ==> is_counted(t, slots_of(p.inc_slices)[j])
            &&& s.count(o) == 0 && t.count(o) > 0 && 0 <= i < reference_slots(s, o).len() ==> {
                let slot = reference_slots(s, o)[i];
                ||| is_counted(t, slot)
                ||| queued_in_work(t.work).contains(slot)
                ||| slots_of(slices_in_work(t.work)).contains(slot)
            }
            &&& t.words == s.words
        }),
{
    lemma_wf_bounded(s);
    let pause = s.phase.current_pause->0;
    let (p1, s1) = incs_begun(p, s, pause, elapsed_millis);
    assert forall|x: ObjectReference| #[trigger] s1.count(x) == s.count(x) by {}
    assert forall|x: ObjectReference| #[trigger] s1.forwarding_of(x)
        == Forwarding::Untouched by {
        assert(s.forwarding_of(x) == Forwarding::Untouched);
    }
    assert(still(s1, p1, s1));
    lemma_given_reaches(p1, s1, kind);
    let (p2, s2, roots) = given_processed(p1, s1, kind);
    let slots = if traces_roots(pause) {
        p.incs
    } else {
        Seq::empty()
    };
    let s3 = if roots.len() > 0 {
        roots_handed_over(s2, pause, p.root_kind, slots, roots)
    } else {
        s2
    };
    if s3.work.len() > s2.work.len() {
        assert(s3.work.drop_last() =~= s2.work);
    }
    lemma_handed_over_reaches(s1, p2, s2, s3);
    lemma_drained_reaches(s1, p2, s3, p.depth);
    crate::inc_work::lemma_drained(p2, s3, p.depth);
    let (p4, s4) = incs_drained(p2, s3, p.depth);
    let (_, t) = incs_done(p, s, kind, elapsed_millis);
    assert(t.words == s.words);
    assert forall|slot: Slot| is_counted(s3, slot) implies #[trigger] is_counted(t, slot) by {
        assert(s3.load(slot) == t.load(slot));
        if let Some(child) = t.load(slot) {
            assert(s3.count(child) <= s4.count(child));
            assert(t.count(child) == s4.count(child));
        }
    }
    if 0 <= j < p.incs.len() {
        assert(is_counted(s2, p1.incs[j]));
        lemma_still_counted(s2, s3, p.incs[j]);
    }
    if 0 <= j < slots_of(p.inc_slices).len() {
        assert(is_counted(s2, slots_of(p1.inc_slices)[j]));
        lemma_still_counted(s2, s3, slots_of(p.inc_slices)[j]);
    }
    if s.count(o) == 0 && t.count(o) > 0 && 0 <= i < reference_slots(s, o).len() {
        let slot = reference_slots(s, o)[i];
        assert(t.count(o) == s4.count(o));
        assert(s1.shape(o.address) == s.shape(o.address));
        assert(reference_slots(s1, o) == reference_slots(s, o));
        assert(reference_slots(s1, o)[i] == slot);
        assert(is_counted(s4, slot) || is_queued(p4, s4, slot));
        lemma_in_sum(queued_in_work(s4.work), p4.new_incs, slot);
        lemma_slots_of_sum(slices_in_work(s4.work), p4.new_inc_slices);
        lemma_in_sum(
            slots_of(slices_in_work(s4.work)),
            slots_of(p4.new_inc_slices),
            slot,
        );
        lemma_still_counted(s4, t, slot);
    }
}

proof fn lemma_still_counted(s: State, t: State, slot: Slot)
    requires
        t.words == s.words,
        t.counts == s.counts,
        (t.immix, t.los) == (s.immix, s.los),
    ensures
        is_counted(s, slot) == is_counted(t, slot),
{
    assert(s.load(slot) == t.load(slot));
    if let Some(child) = s.load(slot) {
        assert(s.count(child) == t.count(child));
    }
}

proof fn lemma_handed_over_reaches(s0: State, p: IncsState, s: State, t: State)
    requires
        still(s0, p, s),
        reaches(s0, p, s, Seq::empty()),
        t == (State { work: t.work, curr_roots: t.curr_roots, ..s }),
        t.work == s.work || (t.work.len() > 0 && t.work.drop_last() == s.work && !(
        t.work.last().work is NurseryIncs)),
    ensures
        still(s0, p, t),
        reaches(s0, p, t, Seq::empty()),
{
    assert forall|x: ObjectReference| #[trigger] t.count(x) == s.count(x) by {}
    assert forall|x: ObjectReference| #[trigger] t.forwarding_of(x)
        == Forwarding::Untouched by {
        assert(s.forwarding_of(x) == Forwarding::Untouched);
    }
    if t.work != s.work {
        lemma_other_work(s.work, t.work.last());
        assert(t.work =~= s.work.push(t.work.last()));
    }
    assert forall|o: ObjectReference, i: int|
        s0.count(o) == 0 && t.count(o) > 0 && 0 <= i < reference_slots(s0, o).len() implies {
        let at = #[trigger] reference_slots(s0, o)[i];
        is_counted(t, at) || is_queued(p, t, at) || Seq::<Slot>::empty().contains(at)
    } by {
        let at = reference_slots(s0, o)[i];
        assert(s.count(o) > 0);
        lemma_still_counted(s, t, at);
    }
}

} // verus!
