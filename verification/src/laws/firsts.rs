//! What holds of the increment of a single object and of a single slot.

use crate::increments::answer_taken;
use crate::increments::child_scanned;
use crate::increments::children_scanned;
use crate::increments::claim_dropped;
use crate::increments::claim_settled;
use crate::increments::inc_processed;
use crate::increments::inc_traced;
use crate::increments::incs_flushed;
use crate::increments::moved_or_kept;
use crate::increments::nursery_object_scanned;
use crate::increments::promoted;
use crate::increments::rearmed;
use crate::increments::slice_added;
use crate::increments::slices_added;
use crate::increments::slot_added;
use crate::increments::slot_processed;
use crate::increments::slot_read;
use crate::increments::slot_traced;
use crate::increments::target_traced;
use crate::laws::counting::promotion_asks_for_the_lines;
use crate::laws::increments::lemma_child;
use crate::laws::increments::queued_slices;
use crate::laws::increments::queued_slots;
use crate::laws::increments::raised;
use crate::laws::reach::is_counted;
use crate::laws::reach::is_queued;
use crate::laws::reach::promotion_reaches_every_reference;
use crate::laws::reach::reference_slots;
use crate::object::MemorySlice;
use crate::object::ObjectKind;
use crate::object::ObjectReference;
use crate::object::Slot;
use crate::packets::EDGE_KIND_MATURE;
use crate::packets::EDGE_KIND_ROOT;
use crate::progress::bounded;
use crate::progress::lemma_wf_bounded;
use crate::state::Effect;
use crate::state::Event;
use crate::state::Forwarding;
use crate::state::IncsState;
use crate::state::Pause;
use crate::state::State;
use crate::state::UNLOGGED_VALUE;
use crate::stats::increment_counted;
use crate::stats::promotion_noted;
use vstd::prelude::*;

verus! {

// Objects.

/// What the first increment of an object that stays comes to: a promotion in place, from a
/// state in which the object is counted.
pub proof fn lemma_first(p: IncsState, s: State, o: ObjectReference, depth: u32) -> (u: State)
    requires
        s.wf(),
        s.has_rc(o),
        s.count(o) == 0,
        !(s.copies.len() > 0 && s.copies.last() == Some(o)),
        inc_processed(p, s, o, depth).2 == o,
    ensures
        bounded(u),
        u.count(o) == 1,
        u == (State {
            counts: u.counts,
            forwarding: u.forwarding,
            copies: u.copies,
            diag: u.diag,
            ..s
        }),
        forall|x: ObjectReference| x.address != o.address ==> #[trigger] u.count(x) == s.count(x),
        forall|x: ObjectReference|
            s.forwarding_of(x) == Forwarding::Untouched ==> #[trigger] u.forwarding_of(x)
                == Forwarding::Untouched,
        ({
            let (q, t, _) = inc_processed(p, s, o, depth);
            let (p1, s1) = promoted(p, u, o, false, s.los.has(o.address), depth);
            &&& q == (IncsState { no_evac: q.no_evac, ..p1 })
            &&& t == (State { no_evac: t.no_evac, ..s1 })
        }),
{
    reveal(inc_processed);
    reveal(moved_or_kept);
    lemma_wf_bounded(s);
    let los = s.los.has(o.address);
    let found = claim_settled(s, o);
    let settled = increment_counted(found, o);
    crate::progress::lemma_settled_advances(p, s, o);
    crate::progress::lemma_increment_counted(p, found, o);
    crate::progress::lemma_inc_traced(settled, o);
    let noted = increment_counted(s, o);
    crate::progress::lemma_increment_counted(p, s, o);
    crate::progress::lemma_inc_traced(noted, o);
    assert(noted.count(o) == s.count(o));
    assert(noted.forwarding_of(o) == s.forwarding_of(o));
    let claimed = noted.with_forwarding(o, Forwarding::BeingForwarded(None));
    assert forall|x: ObjectReference| #[trigger] claimed.count(x) == s.count(x) by {}
    crate::progress::lemma_inc_traced(claimed, o);
    crate::progress::lemma_forwarding_bounded(inc_traced(claimed, o), claim_dropped(claimed, o));
    let full = answer_taken(claimed).with_event(Event::ToSpaceOverflow);
    assert forall|x: ObjectReference| #[trigger] full.count(x) == s.count(x) by {}
    crate::progress::lemma_inc_traced(full, o);
    crate::progress::lemma_forwarding_bounded(inc_traced(full, o), claim_dropped(full, o));
    let too_deep = s.args.inc_max_copy_depth && depth > crate::increments::MAX_COPY_DEPTH;
    let u = if s.args.rc_nursery_evacuation && !los && s.forwarding_of(o)
        != Forwarding::Untouched {
        inc_traced(settled, o)
    } else if !s.args.rc_nursery_evacuation || crate::increments::stays(s, o, los) {
        inc_traced(noted, o)
    } else if !p.no_evac && !too_deep {
        claim_dropped(full, o)
    } else {
        claim_dropped(claimed, o)
    };
    assert(settled.count(o) == s.count(o));
    assert forall|x: ObjectReference| x.address != o.address implies #[trigger] u.count(x)
        == s.count(x) by {
        assert(settled.count(x) == s.count(x));
        assert(noted.count(x) == s.count(x));
        assert(claimed.count(x) == s.count(x));
        assert(full.count(x) == s.count(x));
    }
    assert forall|x: ObjectReference|
        s.forwarding_of(x) == Forwarding::Untouched implies #[trigger] u.forwarding_of(x)
        == Forwarding::Untouched by {
        if x.address == o.address {
            assert(x == o);
        }
    }
    u
}

/// The first increment of an object that stays promotes it, whatever it is: it is counted,
/// its lines are asked to be marked with its size, where it is not large, and before that
/// its block is told, where it lies in the nursery; and whatever it refers to, through any
/// of its slots, is counted or queued. No size of a copy is reported. The copy allocator does
/// not answer with the place where the object is.
pub proof fn first_increment_promotes(
    p: IncsState,
    s: State,
    o: ObjectReference,
    depth: u32,
    i: int,
)
    requires
        s.wf(),
        s.has_rc(o),
        s.count(o) == 0,
        !(s.copies.len() > 0 && s.copies.last() == Some(o)),
        inc_processed(p, s, o, depth).2 == o,
    ensures
        ({
            let (q, t, _) = inc_processed(p, s, o, depth);
            let los = s.los.has(o.address);
            let n = s.effects.len() as int;
            let size = s.shape(o.address).size;
            let block = (o.address - o.address % s.args.block_bytes) as usize;
            let told = !los && s.nursery.contains(block);
            &&& t.count(o) > 0
            &&& q.copied_sizes == p.copied_sizes
            &&& t.words == s.words
            &&& t.objects == s.objects
            &&& s.forwarding_of(o) == Forwarding::Untouched ==> t.forwarding_of(o)
                == Forwarding::Untouched
            &&& told ==> t.effects.len() > n + 1 && t.effects[n] == (Effect::InPlacePromoted {
                block,
            }) && t.effects[n + 1] == (Effect::PromoteWithSize { object: o, size })
            &&& !los && !told ==> t.effects.len() > n && t.effects[n] == (
            Effect::PromoteWithSize { object: o, size })
            &&& 0 <= i < reference_slots(s, o).len() ==> {
                ||| is_counted(t, reference_slots(s, o)[i])
                ||| is_queued(q, t, reference_slots(s, o)[i])
            }
        }),
{
    let u = lemma_first(p, s, o, depth);
    let los = s.los.has(o.address);
    let (q, t, _) = inc_processed(p, s, o, depth);
    let (p1, s1) = promoted(p, u, o, false, los, depth);
    promotion_asks_for_the_lines(p, u, o, false, los, depth);
    crate::progress::lemma_promoted(p, u, o, false, los, depth);
    assert(u.count(o) <= s1.count(o));
    assert(t.count(o) == s1.count(o));
    assert(t.forwarding_of(o) == u.forwarding_of(o));
    assert(reference_slots(u, o) == reference_slots(s, o)) by {
        assert(u.shape(o.address) == s.shape(o.address));
    }
    promotion_reaches_every_reference(
        p,
        u,
        o,
        false,
        los,
        depth,
        i,
        Slot { address: 0, type_tag: false },
        o,
    );
    if 0 <= i < reference_slots(s, o).len() {
        let at = reference_slots(s, o)[i];
        assert(queued_slots(q, t) == queued_slots(p1, s1));
        assert(queued_slices(q, t) == queued_slices(p1, s1));
        assert(t.load(at) == s1.load(at));
        if let Some(child) = t.load(at) {
            assert(t.count(child) == s1.count(child));
        }
    }
}

/// A promotion ends with the scan of the object, with its size, as a large one or not, and
/// as one that stayed in place or a copy; before that it changes requests and diagnostics
/// alone, and the sizes of copies that the packet has.
pub proof fn promotion_scans_the_object(
    p: IncsState,
    s: State,
    o: ObjectReference,
    copied: bool,
    in_place: bool,
    los: bool,
    depth: u32,
)
    requires
        in_place == !copied,
    ensures
        exists|u: State, p1: IncsState|
            {
                &&& u == (State { effects: u.effects, diag: u.diag, ..s })
                &&& p1 == (IncsState { copied_sizes: p1.copied_sizes, ..p })
                &&& promoted(p, s, o, copied, los, depth) == #[trigger] nursery_object_scanned(
                    p1,
                    u,
                    o,
                    los,
                    in_place,
                    s.shape(o.address).size,
                )
            },
{
    reveal(promoted);
    let size = s.shape(o.address).size;
    let s1 = promotion_noted(s, o, copied, los, depth);
    let u = if los {
        s1
    } else {
        let told = if !copied && s1.in_nursery(o) {
            s1.with_effect(Effect::InPlacePromoted { block: s1.args.block_of(o.address) })
        } else {
            s1
        };
        told.with_effect(Effect::PromoteWithSize { object: o, size })
    };
    let p1 = if !los && copied {
        IncsState { copied_sizes: p.copied_sizes.push(size), ..p }
    } else {
        p
    };
    assert(promoted(p, s, o, copied, los, depth) == nursery_object_scanned(
        p1,
        u,
        o,
        los,
        in_place,
        size,
    ));
}

/// The scan of a promoted object looks at all its fields, once the slots are armed, and
/// knows whether the object lies in a block that is being emptied, which a large one does
/// not. An array with more than 1024 references is queued in slices instead, each but the
/// last as long as a buffer. An array of values is not scanned.
pub proof fn promoted_object_is_scanned(
    p: IncsState,
    s: State,
    o: ObjectReference,
    los: bool,
    in_place: bool,
    size: usize,
    i: int,
)
    requires
        s.args.wf(),
    ensures
        ({
            let shape = s.shape(o.address);
            let u = rearmed(s, o, los, in_place, size);
            let done = nursery_object_scanned(p, s, o, los, in_place, size);
            let in_defrag = !los && s.defrag.contains(
                (o.address - o.address % s.args.block_bytes) as usize,
            );
            let large = shape.kind matches ObjectKind::ObjArray(data) && data.len > 1024;
            let n = s.args.buffer_size as int;
            &&& u == (State { unlog: u.unlog, ..s })
            &&& shape.kind is ValArray ==> done == (p, u)
            &&& !(shape.kind is ValArray) && !large ==> done == children_scanned(
                p,
                u,
                o,
                in_defrag,
                shape.fields,
            )
            &&& large ==> {
                let data = shape.kind->ObjArray_0;
                let slices = data.chunks(n);
                &&& done == slices_added(p, u, slices)
                &&& 0 <= i < slices.len() - 1 ==> slices[i].len == n
                &&& 0 <= i < slices.len() ==> slices[i].len <= n
            }
        }),
{
    reveal(nursery_object_scanned);
    reveal(rearmed);
    let shape = s.shape(o.address);
    let n = s.args.buffer_size as int;
    if let ObjectKind::ObjArray(data) = shape.kind {
        let slices = data.chunks(n);
        if 0 <= i < slices.len() {
            assert(i * n >= 0 && (i + 1) * n == i * n + n && i * n < data.len) by (nonlinear_arith)
                requires
                    0 <= i < (data.len + n - 1) / n,
                    n > 0,
            ;
            if i < slices.len() - 1 {
                assert((i + 1) * n < data.len) by (nonlinear_arith)
                    requires
                        0 <= i + 1 < (data.len + n - 1) / n,
                        n > 0,
                ;
            }
        }
    }
}

/// A large object, or any object where nursery evacuation is not configured, is counted
/// where it is, whatever is known of its moving: its count goes up by one, and no other
/// count changes where it was counted before.
pub proof fn immovable_object_is_counted_in_place(
    p: IncsState,
    s: State,
    o: ObjectReference,
    depth: u32,
    x: ObjectReference,
)
    requires
        s.wf(),
        s.has_rc(o),
        s.los.has(o.address) || !s.args.rc_nursery_evacuation,
    ensures
        ({
            let (q, t, new) = inc_processed(p, s, o, depth);
            &&& new == o
            &&& t.forwarding == s.forwarding
            &&& t.copies == s.copies
            &&& t.count(o) > 0
            &&& s.count(o) > 0 ==> {
                &&& q == p
                &&& t.count(o) == raised(s.count(o), 1, s.args.max_ref_count)
                &&& x.address != o.address ==> t.count(x) == s.count(x)
                &&& t == (State { counts: t.counts, diag: t.diag, ..s })
            }
        }),
{
    reveal(inc_processed);
    lemma_wf_bounded(s);
    let noted = increment_counted(s, o);
    crate::progress::lemma_increment_counted(p, s, o);
    assert(noted.count(o) == s.count(o));
    assert(s.count(o) <= s.args.max_ref_count);
    crate::progress::lemma_inc_traced(noted, o);
    crate::progress::lemma_incremented_in_place(p, noted, o, s.los.has(o.address), depth);
    let counted = inc_traced(noted, o);
    crate::progress::lemma_promoted(p, counted, o, false, s.los.has(o.address), depth);
    let (q, t, new) = inc_processed(p, s, o, depth);
    assert(counted.count(o) <= t.count(o));
    if x.address != o.address {
        assert(counted.count(x) == noted.count(x));
        assert(noted.count(x) == s.count(x));
    }
}

// Slots.

/// Whether a reference from `slot` to `o` is to be remembered: mature evacuation is
/// configured, marking goes on or ends, and the reference leads from outside into a block
/// of the Immix space that is being emptied.
pub open spec fn is_to_be_remembered(p: IncsState, s: State, slot: Slot, o: ObjectReference) -> bool {
    &&& s.args.rc_mature_evacuation
    &&& p.in_cm || p.pause == Pause::FinalMark
    &&& s.immix.has(o.address)
    &&& s.defrag.contains((o.address - o.address % s.args.block_bytes) as usize)
    &&& !(s.immix.has(slot.address) && s.defrag.contains(
        (slot.address - slot.address % s.args.block_bytes) as usize,
    ))
}

/// The increment of a slot that refers to a mature object which has not moved: the object
/// is counted; the reference is asked to be remembered just where it is to be and the slot
/// is no root, or that was asked for, and nothing else is asked for; and just the unlog bit
/// of a written slot in the heap is set. Memory stays as it is, and nothing is queued or
/// handed over.
pub proof fn slot_of_mature_object(
    p: IncsState,
    s: State,
    kind: u8,
    slot: Slot,
    depth: u32,
    record: bool,
    o: ObjectReference,
)
    requires
        bounded(s),
        s.load(slot) == Some(o),
        s.has_rc(o),
        s.count(o) > 0,
        s.forwarding_of(o) == Forwarding::Untouched,
    ensures
        ({
            let (q, t, found) = slot_processed(p, s, kind, slot, depth, record);
            let asks = kind != EDGE_KIND_ROOT || record;
            let armed = kind == EDGE_KIND_MATURE && s.args.heap_start <= slot.address
                < s.args.heap_end;
            &&& q == p
            &&& found == Some(o)
            &&& t.count(o) == (if slot.type_tag {
                s.args.max_ref_count as int
            } else {
                raised(s.count(o), 1, s.args.max_ref_count)
            })
            &&& t.effects == (if asks && is_to_be_remembered(p, s, slot, o) {
                s.effects.push(Effect::RemsetRecord { slot, object: o })
            } else {
                s.effects
            })
            &&& !armed ==> t.unlog == s.unlog
            &&& armed ==> t.unlog == s.with_logging_state(slot.address, UNLOGGED_VALUE).unlog
            &&& t == (State {
                unlog: t.unlog,
                counts: t.counts,
                effects: t.effects,
                diag: t.diag,
                ..s
            })
        }),
{
    reveal(slot_processed);
    let s1 = slot_read(slot_traced(s, kind, slot, depth), kind, slot);
    lemma_slot_read(s, kind, slot, depth);
    let s2 = target_traced(s1, kind, slot, depth, o);
    assert(s2 == (State { diag: s2.diag, ..s1 }));
    assert forall|y: ObjectReference| #[trigger] s2.count(y) == s.count(y) by {}
    assert(s2.forwarding_of(o) == s.forwarding_of(o));
    crate::laws::increments::mature_object_is_counted_once(p, s2, o, depth, o);
    assert(s.count(o) <= s.args.max_ref_count);
    let (_, s3, _) = inc_processed(p, s2, o, depth);
    assert(s3 == (State { counts: s3.counts, diag: s3.diag, unlog: s1.unlog, ..s }));
    let s4 = if slot.type_tag && s3.has_rc(o) {
        s3.with_stuck(o)
    } else {
        s3
    };
    assert(s4 == (State { counts: s4.counts, ..s3 }));
    assert(s4.count(o) == (if slot.type_tag {
        s.args.max_ref_count as int
    } else {
        raised(s.count(o), 1, s.args.max_ref_count)
    }));
    let (q, t, found) = slot_processed(p, s, kind, slot, depth, record);
    assert(t == (State { effects: t.effects, ..s4 }));
    assert(t.count(o) == s4.count(o));
}

/// What reading a slot does to unlog bits.
proof fn lemma_slot_read(s: State, kind: u8, slot: Slot, depth: u32)
    ensures
        ({
            let t = slot_read(slot_traced(s, kind, slot, depth), kind, slot);
            &&& t == (State { unlog: t.unlog, diag: t.diag, ..s })
            &&& t.load(slot) == s.load(slot)
            &&& t.unlog == (if kind == EDGE_KIND_MATURE && s.args.heap_start <= slot.address
                < s.args.heap_end {
                s.with_logging_state(slot.address, UNLOGGED_VALUE).unlog
            } else {
                s.unlog
            })
        }),
{
    let traced = slot_traced(s, kind, slot, depth);
    assert(traced == (State { diag: traced.diag, ..s }));
    assert(traced.unlog_byte(s.args.meta_address(slot.address)) == s.unlog_byte(
        s.args.meta_address(slot.address),
    ));
}

/// The increment of a slot is that of its object, in the state in which the slot is armed,
/// where it was written and lies in the heap. Beyond that the object of a type tag gets
/// stuck, where it has a count; the reference is asked to be remembered, where it is to be
/// and the slot is no root, or that was asked for; and the slot follows its object.
pub proof fn slot_does_what_its_object_does(
    p: IncsState,
    s: State,
    kind: u8,
    slot: Slot,
    depth: u32,
    record: bool,
    o: ObjectReference,
)
    requires
        s.load(slot) == Some(o),
    ensures
        exists|u: State|
            {
                let armed = kind == EDGE_KIND_MATURE && s.args.heap_start <= slot.address
                    < s.args.heap_end;
                let (q, t, new) = #[trigger] inc_processed(p, u, o, depth);
                let stuck = slot.type_tag && (t.immix.has(new.address) || t.los.has(new.address));
                let asks = kind != EDGE_KIND_ROOT || record;
                &&& u == (State {
                    unlog: (if armed {
                        s.with_logging_state(slot.address, UNLOGGED_VALUE).unlog
                    } else {
                        s.unlog
                    }),
                    diag: u.diag,
                    ..s
                })
                &&& slot_processed(p, s, kind, slot, depth, record) == (
                    q,
                    State {
                        counts: (if stuck && t.count(new) != t.args.max_ref_count {
                            t.counts.insert(new.address, t.args.max_ref_count)
                        } else {
                            t.counts
                        }),
                        effects: (if asks && is_to_be_remembered(q, t, slot, new) {
                            t.effects.push(Effect::RemsetRecord { slot, object: new })
                        } else {
                            t.effects
                        }),
                        words: (if new != o {
                            t.words.insert(slot.address, new.address)
                        } else {
                            t.words
                        }),
                        ..t
                    },
                    Some(new),
                )
            },
{
    reveal(slot_processed);
    let s1 = slot_read(slot_traced(s, kind, slot, depth), kind, slot);
    lemma_slot_read(s, kind, slot, depth);
    let u = target_traced(s1, kind, slot, depth, o);
    assert(u == (State { diag: u.diag, ..s1 }));
    let (q, t, new) = inc_processed(p, u, o, depth);
    let s4 = if slot.type_tag && t.has_rc(new) {
        t.with_stuck(new)
    } else {
        t
    };
    assert(s4.in_defrag(slot.address) == t.in_defrag(slot.address));
    assert(s4.in_defrag(new.address) == t.in_defrag(new.address));
}

// Children.

/// A field of a promoted object. A reference to a counted object counts once, unless it is
/// stuck, and is asked to be remembered where it is to be; one to an object that is yet to
/// be counted is queued; others are left alone. Nothing else changes but the log.
pub proof fn field_of_promoted_object(
    p: IncsState,
    s: State,
    o: ObjectReference,
    in_defrag: bool,
    slot: Slot,
    x: ObjectReference,
)
    requires
        bounded(s),
    ensures
        ({
            let (q, t) = child_scanned(p, s, o, in_defrag, slot);
            let child = s.load(slot)->0;
            let counted = s.load(slot) is Some && s.has_rc(child);
            let young = counted && s.count(child) == 0;
            let mature = counted && s.count(child) > 0;
            let remembers = s.args.rc_mature_evacuation && (p.in_cm || p.pause
                == Pause::FinalMark) && !in_defrag && s.immix.has(child.address)
                && s.defrag.contains(
                (child.address - child.address % s.args.block_bytes) as usize,
            );
            &&& queued_slots(q, t) == (if young {
                queued_slots(p, s).push(slot)
            } else {
                queued_slots(p, s)
            })
            &&& queued_slices(q, t) == queued_slices(p, s)
            &&& t.count(x) == (if mature && x == child {
                raised(s.count(x), 1, s.args.max_ref_count)
            } else {
                s.count(x) as int
            })
            &&& t.effects == (if mature && remembers {
                s.effects.push(Effect::RemsetRecord { slot, object: child })
            } else {
                s.effects
            })
            &&& !young ==> q == p && t.work == s.work
            &&& t == (State {
                counts: t.counts,
                effects: t.effects,
                work: t.work,
                diag: t.diag,
                ..s
            })
        }),
{
    lemma_child(p, s, o, in_defrag, slot, x);
    reveal(child_scanned);
}

// New increments.

/// A new increment stays with the packet as long as the packet's buffer is not full; once
/// it is, all new increments are handed over and none stay.
pub proof fn full_packet_hands_over(p: IncsState, s: State, slot: Slot)
    requires
        s.args.wf(),
        p.new_incs_count < s.args.buffer_size,
    ensures
        ({
            let (q, t) = slot_added(p, s, slot);
            &&& p.new_incs_count + 1 < s.args.buffer_size ==> {
                &&& t == s
                &&& q.new_incs == p.new_incs.push(slot)
                &&& q.new_inc_slices == p.new_inc_slices
                &&& q.new_incs_count == p.new_incs_count + 1
            }
            &&& p.new_incs_count + 1 == s.args.buffer_size ==> {
                &&& q.new_incs.len() == 0
                &&& q.new_inc_slices.len() == 0
                &&& q.new_incs_count == 0
                &&& t.work.len() == s.work.len() + 1
            }
        }),
{
}

/// A slice stays with the packet as long as it does not fill the packet's buffer. Where it
/// would, what was there is handed over first; where it fills a buffer alone, it is handed
/// over too. The buffer is not full afterwards.
pub proof fn slices_fill_the_buffer(p: IncsState, s: State, slice: MemorySlice)
    requires
        s.args.wf(),
        p.new_incs_count < s.args.buffer_size,
        slice.len <= s.args.buffer_size,
    ensures
        ({
            let (q, t) = slice_added(p, s, slice);
            let fits = p.new_incs_count + slice.len < s.args.buffer_size;
            let alone = slice.len == s.args.buffer_size;
            &&& q.new_incs_count < s.args.buffer_size
            &&& fits ==> {
                &&& t == s
                &&& q.new_incs == p.new_incs
                &&& q.new_inc_slices == p.new_inc_slices.push(slice)
                &&& q.new_incs_count == p.new_incs_count + slice.len
            }
            &&& !fits && !alone ==> {
                &&& q.new_incs.len() == 0
                &&& q.new_inc_slices == seq![slice]
                &&& q.new_incs_count == slice.len
                &&& p.new_incs.len() > 0 || p.new_inc_slices.len() > 0 ==> t.work.len()
                    == s.work.len() + 1
            }
            &&& alone ==> {
                &&& q.new_incs.len() == 0
                &&& q.new_inc_slices.len() == 0
                &&& q.new_incs_count == 0
            }
        }),
{
    let (q, t) = slice_added(p, s, slice);
    let fits = p.new_incs_count + slice.len < s.args.buffer_size;
    if !fits {
        let (p1, s1) = incs_flushed(p, s);
        assert(p1.new_inc_slices.push(slice) =~= seq![slice]);
    }
}

} // verus!
