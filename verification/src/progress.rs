//! How far increments change the collector, and why a packet of them comes to
//! an end.

use crate::args::align_down;
use crate::args::align_up;
use crate::increments::child_scanned;
use crate::increments::children_scanned;
use crate::increments::claim_settled;
use crate::increments::forwarded_to;
use crate::increments::inc_processed;
use crate::increments::inc_traced;
use crate::increments::incremented_in_place;
use crate::increments::moved_or_kept;
use crate::increments::nursery_object_scanned;
use crate::increments::object_copied;
use crate::increments::promoted;
use crate::increments::rearmed;
use crate::increments::slice_added;
use crate::increments::slices_added;
use crate::increments::slices_processed;
use crate::increments::slot_added;
use crate::increments::slot_processed;
use crate::increments::slot_read;
use crate::increments::slot_traced;
use crate::increments::slots_processed;
use crate::increments::target_traced;
use crate::increments::words_copied;
use crate::logging::armed_kept;
use crate::logging::lemma_filled_bytes;
use crate::logging::lemma_stored_bit;
use crate::object::Field;
use crate::object::MemorySlice;
use crate::object::ObjectReference;
use crate::object::Slot;
use crate::referrers::corruption_reported;
use crate::state::IncsState;
use crate::state::State;
use crate::state::UNLOGGED_VALUE;
use crate::stats::increment_counted;
use crate::table::lookup;
use vstd::prelude::*;

verus! {

/// No count is above the largest count, and there are finitely many objects.
pub open spec fn bounded(s: State) -> bool {
    &&& s.args.wf()
    &&& s.objects.dom().finite()
    &&& forall|o: ObjectReference| #[trigger] s.count(o) <= s.args.max_ref_count
}

/// No count went down.
pub open spec fn counts_grew(s: State, t: State) -> bool {
    forall|o: ObjectReference| s.count(o) <= #[trigger] t.count(o)
}

/// Nothing changed but unlog bits, counts, and what leaves the collector; no
/// count went down, and no slot was disarmed.
pub open spec fn quiet(s: State, t: State) -> bool {
    &&& t == State {
        unlog: t.unlog,
        counts: t.counts,
        effects: t.effects,
        work: t.work,
        diag: t.diag,
        ..s
    }
    &&& counts_grew(s, t)
    &&& armed_kept(s, t)
    &&& bounded(t)
}

/// The addresses of the objects that have not been counted.
pub open spec fn uncounted(s: State) -> Set<usize> {
    s.objects.dom().filter(|a: usize| lookup(s.counts, a, 0) == 0)
}

/// How many promotions are left: each takes an object that has not been counted,
/// or an answer of the copy allocator.
pub open spec fn remaining(s: State) -> nat {
    uncounted(s).len() + s.copies.len()
}

/// What increments keep: the configuration, the spaces, the marks, and what the
/// packet was given. Counts do not go down, and no slot is disarmed.
pub open spec fn framed(p: IncsState, s: State, q: IncsState, t: State) -> bool {
    &&& t == State {
        words: t.words,
        unlog: t.unlog,
        objects: t.objects,
        counts: t.counts,
        forwarding: t.forwarding,
        copies: t.copies,
        no_evac: t.no_evac,
        effects: t.effects,
        work: t.work,
        diag: t.diag,
        ..s
    }
    &&& q == IncsState {
        new_incs: q.new_incs,
        new_inc_slices: q.new_inc_slices,
        new_incs_count: q.new_incs_count,
        no_evac: q.no_evac,
        copied_sizes: q.copied_sizes,
        ..p
    }
    &&& counts_grew(s, t)
    &&& armed_kept(s, t)
    &&& bounded(t)
}

/// What increments do: beyond what they keep, new increments come from
/// promotions only.
pub open spec fn advanced(p: IncsState, s: State, q: IncsState, t: State) -> bool {
    &&& framed(p, s, q, t)
    &&& remaining(t) <= remaining(s)
    &&& remaining(t) < remaining(s) || (q.pending() ==> p.pending())
}

/// A state of the collector is bounded.
pub proof fn lemma_wf_bounded(s: State)
    requires
        s.wf(),
    ensures
        bounded(s),
{
    assert forall|o: ObjectReference| #[trigger] s.count(o) <= s.args.max_ref_count by {
        if s.counts.contains_key(o.address) {
        }
    }
}

/// Steps in a row.
pub proof fn lemma_quiet_trans(a: State, b: State, c: State)
    requires
        quiet(a, b),
        quiet(b, c),
    ensures
        quiet(a, c),
{
    assert forall|o: ObjectReference| a.count(o) <= #[trigger] c.count(o) by {
        assert(b.count(o) <= c.count(o));
    }
}

/// Steps in a row.
pub proof fn lemma_advanced_trans(
    p0: IncsState,
    s0: State,
    p1: IncsState,
    s1: State,
    p2: IncsState,
    s2: State,
)
    requires
        advanced(p0, s0, p1, s1),
        advanced(p1, s1, p2, s2),
    ensures
        advanced(p0, s0, p2, s2),
{
    assert forall|o: ObjectReference| s0.count(o) <= #[trigger] s2.count(o) by {
        assert(s1.count(o) <= s2.count(o));
    }
}

/// Where counts only went up, no object became uncounted; where an uncounted
/// object was counted, there is one fewer.
proof fn lemma_uncounted_shrinks(s: State, t: State)
    requires
        s.objects.dom().finite(),
        t.objects.dom() == s.objects.dom(),
        counts_grew(s, t),
    ensures
        uncounted(t).finite(),
        uncounted(t).subset_of(uncounted(s)),
        uncounted(t).len() <= uncounted(s).len(),
        forall|a: usize|
            #![trigger uncounted(s).contains(a)]
            uncounted(s).contains(a) && !uncounted(t).contains(a) ==> uncounted(t).len()
                < uncounted(s).len(),
{
    assert forall|a: usize| uncounted(t).contains(a) implies uncounted(s).contains(a) by {
        let o = ObjectReference { address: a };
        assert(s.count(o) <= t.count(o));
    }
    vstd::set_lib::lemma_len_subset(uncounted(t), uncounted(s));
    assert forall|a: usize|
        #![trigger uncounted(s).contains(a)]
        uncounted(s).contains(a) && !uncounted(t).contains(a) implies uncounted(t).len()
        < uncounted(s).len() by {
        assert(uncounted(t).subset_of(uncounted(s).remove(a)));
        vstd::set_lib::lemma_len_subset(uncounted(t), uncounted(s).remove(a));
    }
}

/// Tracing is quiet.
proof fn lemma_same_but_diag_quiet(s: State, t: State)
    requires
        bounded(s),
        t == (State { diag: t.diag, ..s }),
    ensures
        quiet(s, t),
        forall|o: ObjectReference| #[trigger] t.count(o) == s.count(o),
{
    assert(t.counts == s.counts);
    assert forall|o: ObjectReference| #[trigger] t.count(o) == s.count(o) by {}
}

/// An increment is quiet, and counts the object.
pub proof fn lemma_inc_traced(s: State, o: ObjectReference)
    requires
        bounded(s),
    ensures
        quiet(s, inc_traced(s, o)),
        inc_traced(s, o).count(o) > 0,
        s.count(o) < s.args.max_ref_count ==> inc_traced(s, o).count(o) == s.count(o) + 1,
        s.count(o) == s.args.max_ref_count ==> inc_traced(s, o).count(o) == s.count(o),
        forall|x: ObjectReference|
            x.address != o.address ==> #[trigger] inc_traced(s, o).count(x) == s.count(x),
{
    let t = inc_traced(s, o);
    assert(s.count(o) <= s.args.max_ref_count);
    assert forall|x: ObjectReference|
        x.address != o.address implies #[trigger] t.count(x) == s.count(x) by {}
    assert forall|x: ObjectReference| s.count(x) <= #[trigger] t.count(x) by {
        if x.address == o.address {
            assert(x == o);
        }
    }
    assert forall|x: ObjectReference| #[trigger] t.count(x) <= t.args.max_ref_count by {
        if x.address == o.address {
            assert(x == o);
        } else {
            assert(t.count(x) == s.count(x));
        }
    }
}


/// Two values of a packet that differ in what it found at most.
pub open spec fn same_packet(p: IncsState, q: IncsState) -> bool {
    q == IncsState {
        new_incs: q.new_incs,
        new_inc_slices: q.new_inc_slices,
        new_incs_count: q.new_incs_count,
        ..p
    }
}

/// Queueing a slot is quiet, and changes no count.
proof fn lemma_slot_added(p: IncsState, s: State, slot: Slot)
    requires
        bounded(s),
    ensures
        quiet(s, slot_added(p, s, slot).1),
        same_packet(p, slot_added(p, s, slot).0),
{
    let t = slot_added(p, s, slot).1;
    assert(t.counts == s.counts);
    assert forall|o: ObjectReference| #[trigger] t.count(o) == s.count(o) by {}
}

/// Queueing slices is quiet.
proof fn lemma_slices_added(p: IncsState, s: State, slices: Seq<MemorySlice>)
    requires
        bounded(s),
    ensures
        quiet(s, slices_added(p, s, slices).1),
        same_packet(p, slices_added(p, s, slices).0),
    decreases slices.len(),
{
    if slices.len() > 0 {
        lemma_slices_added(p, s, slices.drop_last());
        let (p1, s1) = slices_added(p, s, slices.drop_last());
        let t = slice_added(p1, s1, slices.last()).1;
        assert(t.counts == s1.counts);
        assert forall|o: ObjectReference| #[trigger] t.count(o) == s1.count(o) by {}
        lemma_quiet_trans(s, s1, t);
    }
}

/// Re-arming is quiet.
proof fn lemma_rearmed(s: State, o: ObjectReference, los: bool, in_place: bool, size: usize)
    requires
        bounded(s),
    ensures
        quiet(s, rearmed(s, o, los, in_place, size)),
{
    reveal(rearmed);
    let t = rearmed(s, o, los, in_place, size);
    assert(t.counts == s.counts);
    assert forall|x: ObjectReference| #[trigger] t.count(x) == s.count(x) by {}
    let span = s.args.unlog_span() as int;
    let has_slots = !(s.shape(o.address).kind is ValArray);
    let start = s.args.meta_address(o.address) as int;
    let end = s.args.meta_address(align_up(o.address + size, span) as usize) as int;
    let first = s.args.meta_address(
        align_down(o.address + s.args.header_bytes(), span * 4) as usize,
    ) as int;
    let last = s.args.meta_address(align_up(o.address + size, span * 4) as usize) as int;
    assert forall|a: usize| s.logging_state(a) == UNLOGGED_VALUE implies #[trigger] t.logging_state(
        a,
    ) == UNLOGGED_VALUE by {
        if los {
            lemma_filled_bytes(s, start, end, a);
            lemma_stored_bit(s.with_unlogged(start, end), o.address, UNLOGGED_VALUE, a);
            lemma_stored_bit(s, o.address, UNLOGGED_VALUE, a);
        } else {
            lemma_filled_bytes(s, first, last, a);
        }
    }
}

/// Reading a slot disarms none, and arms a slot of a mature object in the heap.
pub proof fn lemma_slot_read(s: State, kind: u8, slot: Slot)
    ensures
        armed_kept(s, slot_read(s, kind, slot)),
        kind == crate::packets::EDGE_KIND_MATURE && s.args.in_heap(slot.address) ==> slot_read(
            s,
            kind,
            slot,
        ).logging_state(slot.address) == UNLOGGED_VALUE,
{
    let t = slot_read(s, kind, slot);
    assert forall|a: usize| s.logging_state(a) == UNLOGGED_VALUE implies #[trigger] t.logging_state(
        a,
    ) == UNLOGGED_VALUE by {
        lemma_stored_bit(s, slot.address, UNLOGGED_VALUE, a);
    }
    lemma_stored_bit(s, slot.address, UNLOGGED_VALUE, slot.address);
}

/// A step that changes no unlog bit disarms none.
proof fn lemma_armed_kept(s: State, t: State)
    requires
        t.unlog == s.unlog,
        t.args == s.args,
    ensures
        armed_kept(s, t),
        armed_kept(t, s),
{
    assert forall|a: usize| #[trigger] t.logging_state(a) == s.logging_state(a) by {}
    assert forall|a: usize| #[trigger] s.logging_state(a) == t.logging_state(a) by {}
}

/// Steps in a row.
proof fn lemma_armed_trans(a: State, b: State, c: State)
    requires
        armed_kept(a, b),
        armed_kept(b, c),
    ensures
        armed_kept(a, c),
{
    assert forall|x: usize| a.logging_state(x) == UNLOGGED_VALUE implies #[trigger] c.logging_state(
        x,
    ) == UNLOGGED_VALUE by {
        assert(b.logging_state(x) == UNLOGGED_VALUE);
    }
}

/// An increment without a trace is quiet.
proof fn lemma_incremented(s: State, o: ObjectReference)
    requires
        bounded(s),
    ensures
        quiet(s, s.incremented(o)),
{
    let t = s.incremented(o);
    assert(s.count(o) <= s.args.max_ref_count);
    assert forall|x: ObjectReference|
        s.count(x) <= #[trigger] t.count(x) && t.count(x) <= t.args.max_ref_count by {
        assert(s.count(x) <= s.args.max_ref_count);
        if x.address == o.address {
            assert(x == o);
        }
    }
}

/// Looking at a child is quiet.
proof fn lemma_child_scanned(
    p: IncsState,
    s: State,
    o: ObjectReference,
    in_defrag: bool,
    slot: Slot,
)
    requires
        bounded(s),
    ensures
        quiet(s, child_scanned(p, s, o, in_defrag, slot).1),
        same_packet(p, child_scanned(p, s, o, in_defrag, slot).0),
{
    reveal(child_scanned);
    let (q, t) = child_scanned(p, s, o, in_defrag, slot);
    match s.load(slot) {
        None => {
            lemma_same_but_diag_quiet(s, s);
        },
        Some(child) => {
            let gc = s.diag.gc_count;
            let s1 = if s.diag.rc_trace && !s.tag_is_valid(child) {
                corruption_reported(
                    s,
                    child,
                    crate::state::Event::CorruptChild {
                        gc,
                        number: s.diag.corrupt_count,
                        child: child.address,
                        tag: s.tag_word(child.address, 0),
                        slot: slot.address,
                        parent: o.address,
                    },
                )
            } else {
                s
            };
            lemma_same_but_diag_quiet(s, s1);
            let rc = s1.count(child);
            if !s1.has_rc(child) {
                lemma_same_but_diag_quiet(s, t);
            } else if rc == 0 {
                let s2 = s1.traced(
                    child,
                    crate::state::Event::IncPromo {
                        gc,
                        object: child.address,
                        parent: o.address,
                        slot: slot.address,
                    },
                );
                lemma_same_but_diag_quiet(s, s2);
                lemma_slot_added(p, s2, slot);
                lemma_quiet_trans(s, s2, t);
            } else {
                let traced = s1.traced(
                    child,
                    crate::state::Event::IncPromoDirect {
                        gc,
                        object: child.address,
                        parent: o.address,
                        slot: slot.address,
                        rc,
                    },
                );
                let s2 = if rc != s1.args.max_ref_count {
                    traced.incremented(child)
                } else {
                    s1
                };
                lemma_same_but_diag_quiet(s, traced);
                lemma_incremented(traced, child);
                lemma_quiet_trans(s, traced, traced.incremented(child));
                assert(quiet(s, s2));
                assert(t.counts == s2.counts);
                assert forall|x: ObjectReference| #[trigger] t.count(x) == s2.count(x) by {}
                lemma_quiet_trans(s, s2, t);
            }
        },
    }
}

/// Looking at children is quiet; without any there are no new increments.
pub proof fn lemma_children_scanned(
    p: IncsState,
    s: State,
    o: ObjectReference,
    in_defrag: bool,
    fields: Seq<Field>,
)
    requires
        bounded(s),
    ensures
        quiet(s, children_scanned(p, s, o, in_defrag, fields).1),
        same_packet(p, children_scanned(p, s, o, in_defrag, fields).0),
    decreases fields.len(),
{
    if fields.len() > 0 {
        lemma_children_scanned(p, s, o, in_defrag, fields.drop_last());
        let (p1, s1) = children_scanned(p, s, o, in_defrag, fields.drop_last());
        lemma_child_scanned(p1, s1, o, in_defrag, fields.last().slot);
        lemma_quiet_trans(
            s,
            s1,
            child_scanned(p1, s1, o, in_defrag, fields.last().slot).1,
        );
    }
}

/// Scanning a promoted object is quiet; one that was never laid out starts no
/// new increments.
proof fn lemma_nursery_object_scanned(
    p: IncsState,
    s: State,
    o: ObjectReference,
    los: bool,
    in_place: bool,
    size: usize,
)
    requires
        bounded(s),
    ensures
        quiet(s, nursery_object_scanned(p, s, o, los, in_place, size).1),
        same_packet(p, nursery_object_scanned(p, s, o, los, in_place, size).0),
        !s.objects.contains_key(o.address) ==> nursery_object_scanned(
            p,
            s,
            o,
            los,
            in_place,
            size,
        ).0 == p,
{
    reveal(nursery_object_scanned);
    let (q, t) = nursery_object_scanned(p, s, o, los, in_place, size);
    let s1 = rearmed(s, o, los, in_place, size);
    lemma_rearmed(s, o, los, in_place, size);
    let shape = s.shape(o.address);
    let in_defrag = !los && s.in_defrag_block(o.address);
    match shape.kind {
        crate::object::ObjectKind::ValArray => {},
        crate::object::ObjectKind::ObjArray(data) => {
            if data.len > crate::increments::LARGE_ARRAY_LEN {
                lemma_slices_added(p, s1, data.chunks(s.args.buffer_size as int));
                lemma_quiet_trans(s, s1, t);
            } else {
                lemma_children_scanned(p, s1, o, in_defrag, shape.fields);
                lemma_quiet_trans(s, s1, t);
            }
        },
        crate::object::ObjectKind::Plain => {
            lemma_children_scanned(p, s1, o, in_defrag, shape.fields);
            lemma_quiet_trans(s, s1, t);
        },
    }
}

/// A promotion is quiet; that of an object that was never laid out starts no
/// new increments.
pub proof fn lemma_promoted(
    p: IncsState,
    s: State,
    o: ObjectReference,
    copied: bool,
    los: bool,
    depth: u32,
)
    requires
        bounded(s),
    ensures
        quiet(s, promoted(p, s, o, copied, los, depth).1),
        ({
            let q = promoted(p, s, o, copied, los, depth).0;
            &&& same_packet(IncsState { copied_sizes: q.copied_sizes, ..p }, q)
            &&& !s.objects.contains_key(o.address) ==> q.pending() == p.pending()
        }),
{
    reveal(promoted);
    let (q, t) = promoted(p, s, o, copied, los, depth);
    let size = s.shape(o.address).size;
    let s1 = crate::stats::promotion_noted(s, o, copied, los, depth);
    let s2 = if los {
        s1
    } else {
        let told = if !copied && s1.in_nursery(o) {
            s1.with_effect(
                crate::state::Effect::InPlacePromoted { block: s1.args.block_of(o.address) },
            )
        } else {
            s1
        };
        told.with_effect(crate::state::Effect::PromoteWithSize { object: o, size })
    };
    let p2 = if !los && copied {
        IncsState { copied_sizes: p.copied_sizes.push(size), ..p }
    } else {
        p
    };
    assert(s2.counts == s.counts);
    assert forall|x: ObjectReference| #[trigger] s2.count(x) == s.count(x) by {}
    assert(quiet(s, s2));
    lemma_nursery_object_scanned(p2, s2, o, los, !copied, size);
    lemma_quiet_trans(s, s2, t);
}


/// A step that starts no new increments advances.
proof fn lemma_idle_advances(p: IncsState, s: State, q: IncsState, t: State)
    requires
        bounded(s),
        framed(p, s, q, t),
        t.objects == s.objects,
        t.copies.len() <= s.copies.len(),
        q.pending() ==> p.pending(),
    ensures
        advanced(p, s, q, t),
{
    lemma_uncounted_shrinks(s, t);
}

/// A promotion advances.
proof fn lemma_promotion_advances(
    p: IncsState,
    s: State,
    q: IncsState,
    t: State,
    o: ObjectReference,
)
    requires
        bounded(s),
        framed(p, s, q, t),
        t.objects == s.objects,
        t.copies.len() <= s.copies.len(),
        s.count(o) == 0,
        t.count(o) > 0,
        !s.objects.contains_key(o.address) ==> q.pending() == p.pending(),
    ensures
        advanced(p, s, q, t),
{
    lemma_uncounted_shrinks(s, t);
    if s.objects.contains_key(o.address) {
        assert(uncounted(s).contains(o.address));
        assert(!uncounted(t).contains(o.address));
    }
}

/// The increment of an object that stays advances.
pub proof fn lemma_incremented_in_place(
    p: IncsState,
    s: State,
    o: ObjectReference,
    los: bool,
    depth: u32,
)
    requires
        bounded(s),
    ensures
        ({
            let (q, t) = incremented_in_place(p, s, o, los, depth);
            &&& advanced(p, s, q, t)
            &&& quiet(s, t)
        }),
{
    let (q, t) = incremented_in_place(p, s, o, los, depth);
    let s1 = inc_traced(s, o);
    lemma_inc_traced(s, o);
    if s.count(o) == 0 {
        lemma_promoted(p, s1, o, false, los, depth);
        lemma_quiet_trans(s, s1, t);
        assert(s1.count(o) <= t.count(o));
        lemma_promotion_advances(p, s, q, t, o);
    } else {
        lemma_idle_advances(p, s, q, t);
    }
}

/// A change of forwarding alone.
pub proof fn lemma_forwarding_bounded(s: State, t: State)
    requires
        bounded(s),
        t == (State { forwarding: t.forwarding, ..s }),
    ensures
        bounded(t),
        forall|x: ObjectReference| #[trigger] t.count(x) == s.count(x),
{
    assert(t.counts == s.counts);
    assert forall|x: ObjectReference| #[trigger] t.count(x) == s.count(x) by {}
}

/// Counts that grew from states whose counts agree.
proof fn lemma_grew_from(a: State, b: State, c: State)
    requires
        forall|x: ObjectReference| #[trigger] b.count(x) == a.count(x),
        counts_grew(b, c),
    ensures
        counts_grew(a, c),
{
    assert forall|x: ObjectReference| a.count(x) <= #[trigger] c.count(x) by {
        assert(b.count(x) <= c.count(x));
    }
}

/// The increment of an object that another worker has claimed advances.
pub proof fn lemma_settled_advances(p: IncsState, s: State, o: ObjectReference)
    requires
        bounded(s),
    ensures
        ({
            let settled = claim_settled(s, o);
            let t = inc_traced(settled, forwarded_to(settled, o));
            &&& bounded(settled)
            &&& forall|x: ObjectReference| #[trigger] settled.count(x) == s.count(x)
            &&& settled == (State { forwarding: settled.forwarding, ..s })
            &&& advanced(p, s, p, t)
        }),
{
    let settled = claim_settled(s, o);
    let new = forwarded_to(settled, o);
    let t = inc_traced(settled, new);
    lemma_forwarding_bounded(s, settled);
    lemma_inc_traced(settled, new);
    lemma_grew_from(s, settled, t);
    lemma_idle_advances(p, s, p, t);
}

/// Counting an increment for the statistics advances.
pub proof fn lemma_increment_counted(p: IncsState, s: State, o: ObjectReference)
    requires
        bounded(s),
    ensures
        ({
            let t = increment_counted(s, o);
            &&& bounded(t)
            &&& advanced(p, s, p, t)
        }),
{
    let t = increment_counted(s, o);
    lemma_same_but_diag_quiet(s, t);
    lemma_idle_advances(p, s, p, t);
}

/// An increment advances.
proof fn lemma_inc_advances(p: IncsState, s: State, o: ObjectReference)
    requires
        bounded(s),
    ensures
        advanced(p, s, p, inc_traced(s, o)),
{
    lemma_inc_traced(s, o);
    lemma_idle_advances(p, s, p, inc_traced(s, o));
}

/// The copy of an object advances: it takes an answer of the copy allocator.
proof fn lemma_copy_advances(
    p: IncsState,
    s: State,
    o: ObjectReference,
    depth: u32,
    new: ObjectReference,
)
    requires
        bounded(s),
        s.copies.len() > 0,
    ensures
        ({
            let claimed = s.with_forwarding(
                o,
                crate::state::Forwarding::BeingForwarded(None),
            );
            let copied = inc_traced(
                object_copied(crate::increments::answer_taken(claimed), o, new),
                new,
            );
            let (q, t) = promoted(p, copied, new, true, false, depth);
            advanced(p, s, q, t)
        }),
{
    reveal(object_copied);
    let claimed = s.with_forwarding(o, crate::state::Forwarding::BeingForwarded(None));
    let answered = crate::increments::answer_taken(claimed);
    let c = object_copied(answered, o, new);
    let copied = inc_traced(c, new);
    let (q, t) = promoted(p, copied, new, true, false, depth);
    assert(c.counts == s.counts);
    assert forall|x: ObjectReference| #[trigger] c.count(x) == s.count(x) by {}
    assert(c.objects.dom() =~= if s.objects.contains_key(o.address) {
        s.objects.dom().insert(new.address)
    } else {
        s.objects.dom()
    });
    assert(bounded(c));
    lemma_inc_traced(c, new);
    lemma_promoted(p, copied, new, true, false, depth);
    lemma_quiet_trans(c, copied, t);
    lemma_grew_from(s, c, t);
    assert(copied.count(new) <= t.count(new));
    assert forall|a: usize| uncounted(t).contains(a) implies uncounted(s).contains(a) by {
        let x = ObjectReference { address: a };
        assert(s.count(x) <= t.count(x));
        assert(t.count(x) == 0);
        assert(a != new.address) by {
            if a == new.address {
                assert(x == new);
            }
        }
    }
    vstd::set_lib::lemma_len_subset(uncounted(t), uncounted(s));
}

/// The attempt to move an object advances.
proof fn lemma_moved_or_kept(
    p: IncsState,
    s: State,
    o: ObjectReference,
    los: bool,
    depth: u32,
)
    requires
        bounded(s),
    ensures
        ({
            let (q, t, _) = moved_or_kept(p, s, o, los, depth);
            advanced(p, s, q, t)
        }),
{
    reveal(moved_or_kept);
    let (q, t, _) = moved_or_kept(p, s, o, los, depth);
    if s.forwarding_of(o) != crate::state::Forwarding::Untouched {
        lemma_settled_advances(p, s, o);
    } else {
        let claimed = s.with_forwarding(o, crate::state::Forwarding::BeingForwarded(None));
        lemma_forwarding_bounded(s, claimed);
        let too_deep = s.args.inc_max_copy_depth && depth > crate::increments::MAX_COPY_DEPTH;
        if s.count(o) == 0 && !p.no_evac && !too_deep {
            match crate::increments::copy_answer(claimed) {
                Some(new) => {
                    lemma_copy_advances(p, s, o, depth, new);
                },
                None => {
                    let answered = crate::increments::answer_taken(claimed).with_event(
                        crate::state::Event::ToSpaceOverflow,
                    );
                    let counted = inc_traced(answered, o);
                    let kept = counted.with_forwarding(
                        o,
                        crate::state::Forwarding::Untouched,
                    );
                    assert forall|x: ObjectReference| #[trigger]
                        answered.count(x) == s.count(x) by {}
                    lemma_inc_traced(answered, o);
                    lemma_forwarding_bounded(counted, kept);
                    let (p1, s1) = promoted(p, kept, o, false, los, depth);
                    lemma_promoted(p, kept, o, false, los, depth);
                    lemma_grew_from(counted, kept, s1);
                    assert forall|x: ObjectReference| s.count(x) <= #[trigger] t.count(x) by {
                        assert(t.count(x) == s1.count(x));
                        assert(counted.count(x) <= s1.count(x));
                        assert(answered.count(x) <= counted.count(x));
                    }
                    assert forall|x: ObjectReference| #[trigger]
                        t.count(x) <= t.args.max_ref_count by {
                        assert(t.count(x) == s1.count(x));
                    }
                    assert(t.count(o) == s1.count(o));
                    assert(kept.count(o) <= s1.count(o));
                    lemma_armed_kept(s, kept);
                    lemma_armed_kept(s1, t);
                    lemma_armed_trans(s, kept, s1);
                    lemma_armed_trans(s, s1, t);
                    lemma_promotion_advances(p, s, q, t, o);
                },
            }
        } else {
            let counted = inc_traced(claimed, o);
            let kept = counted.with_forwarding(o, crate::state::Forwarding::Untouched);
            lemma_inc_traced(claimed, o);
            lemma_forwarding_bounded(counted, kept);
            lemma_grew_from(s, claimed, counted);
            assert(counts_grew(s, kept)) by {
                assert forall|x: ObjectReference| s.count(x) <= #[trigger] kept.count(x) by {
                    assert(kept.count(x) == counted.count(x));
                }
            }
            assert(claimed.count(o) == s.count(o));
            if s.count(o) == 0 {
                lemma_promoted(p, kept, o, false, los, depth);
                assert forall|x: ObjectReference| s.count(x) <= #[trigger] t.count(x) by {
                    assert(kept.count(x) <= t.count(x));
                }
                assert(kept.count(o) <= t.count(o));
                lemma_promotion_advances(p, s, q, t, o);
            } else {
                lemma_idle_advances(p, s, q, t);
            }
        }
    }
}

/// The increment of an object advances.
pub proof fn lemma_inc_processed(p: IncsState, s: State, o: ObjectReference, depth: u32)
    requires
        bounded(s),
    ensures
        ({
            let (q, t, _) = inc_processed(p, s, o, depth);
            advanced(p, s, q, t)
        }),
{
    reveal(inc_processed);
    let (q, t, _) = inc_processed(p, s, o, depth);
    let los = s.los.has(o.address);
    if !s.is_managed(o) || !s.has_rc(o) {
        lemma_idle_advances(p, s, p, s);
    } else if s.args.rc_nursery_evacuation && !los && s.forwarding_of(o)
        != crate::state::Forwarding::Untouched {
        let found = claim_settled(s, o);
        let new = forwarded_to(found, o);
        let settled = increment_counted(found, new);
        lemma_settled_advances(p, s, o);
        lemma_idle_advances(p, s, p, found);
        lemma_increment_counted(p, found, new);
        lemma_advanced_trans(p, s, p, found, p, settled);
        if new == o {
            lemma_incremented_in_place(p, settled, o, los, depth);
        } else {
            lemma_inc_advances(p, settled, new);
        }
        lemma_advanced_trans(p, s, p, settled, q, t);
    } else {
        let noted = increment_counted(s, o);
        lemma_increment_counted(p, s, o);
        if !s.args.rc_nursery_evacuation || crate::increments::stays(s, o, los) {
            lemma_incremented_in_place(p, noted, o, los, depth);
        } else {
            lemma_moved_or_kept(p, noted, o, los, depth);
        }
        lemma_advanced_trans(p, s, p, noted, q, t);
    }
}

/// The increment of a slot advances.
#[verifier::rlimit(40)]
pub proof fn lemma_slot_processed(
    p: IncsState,
    s: State,
    kind: u8,
    slot: Slot,
    depth: u32,
    add_root_to_remset: bool,
)
    requires
        bounded(s),
    ensures
        ({
            let (q, t, _) = slot_processed(p, s, kind, slot, depth, add_root_to_remset);
            advanced(p, s, q, t)
        }),
{
    reveal(slot_processed);
    let (q, t, _) = slot_processed(p, s, kind, slot, depth, add_root_to_remset);
    let s1 = slot_read(slot_traced(s, kind, slot, depth), kind, slot);
    lemma_armed_kept(s, slot_traced(s, kind, slot, depth));
    lemma_slot_read(slot_traced(s, kind, slot, depth), kind, slot);
    lemma_armed_trans(s, slot_traced(s, kind, slot, depth), s1);
    assert(s1.counts == s.counts);
    assert forall|x: ObjectReference| #[trigger] s1.count(x) == s.count(x) by {}
    match s1.load(slot) {
        None => {
            lemma_idle_advances(p, s, q, t);
        },
        Some(o) => {
            let s2 = target_traced(s1, kind, slot, depth, o);
            assert(s2.counts == s.counts);
            assert forall|x: ObjectReference| #[trigger] s2.count(x) == s.count(x) by {}
            lemma_armed_kept(s1, s2);
            lemma_armed_trans(s, s1, s2);
            assert(framed(p, s, p, s2));
            lemma_idle_advances(p, s, p, s2);
            let (p3, s3, new) = inc_processed(p, s2, o, depth);
            lemma_inc_processed(p, s2, o, depth);
            lemma_advanced_trans(p, s, p, s2, p3, s3);
            let s4 = if slot.type_tag && s3.has_rc(new) {
                s3.with_stuck(new)
            } else {
                s3
            };
            assert forall|x: ObjectReference|
                s3.count(x) <= #[trigger] t.count(x) && t.count(x) <= t.args.max_ref_count by {
                assert(t.counts == s4.counts);
                assert(s3.count(x) <= s3.args.max_ref_count);
                if x.address == new.address {
                    assert(x == new);
                }
            }
            lemma_idle_advances(p3, s3, q, t);
            lemma_advanced_trans(p, s, p3, s3, q, t);
        },
    }
}

/// The increments of slots advance.
pub proof fn lemma_slots_processed(
    p: IncsState,
    s: State,
    kind: u8,
    slots: Seq<Slot>,
    depth: u32,
    add_root_to_remset: bool,
)
    requires
        bounded(s),
    ensures
        ({
            let (q, t, _) = slots_processed(p, s, kind, slots, depth, add_root_to_remset);
            advanced(p, s, q, t)
        }),
    decreases slots.len(),
{
    if slots.len() == 0 {
        lemma_idle_advances(p, s, p, s);
    } else {
        let (p1, s1, _) = slots_processed(
            p,
            s,
            kind,
            slots.drop_last(),
            depth,
            add_root_to_remset,
        );
        lemma_slots_processed(p, s, kind, slots.drop_last(), depth, add_root_to_remset);
        lemma_slot_processed(p1, s1, kind, slots.last(), depth, add_root_to_remset);
        let (q, t, _) = slots_processed(p, s, kind, slots, depth, add_root_to_remset);
        lemma_advanced_trans(p, s, p1, s1, q, t);
    }
}

/// The increments of slices advance.
pub proof fn lemma_slices_processed(
    p: IncsState,
    s: State,
    kind: u8,
    slices: Seq<MemorySlice>,
    depth: u32,
)
    requires
        bounded(s),
    ensures
        ({
            let (q, t) = slices_processed(p, s, kind, slices, depth);
            advanced(p, s, q, t)
        }),
    decreases slices.len(),
{
    if slices.len() == 0 {
        lemma_idle_advances(p, s, p, s);
    } else {
        let (p1, s1) = slices_processed(p, s, kind, slices.drop_last(), depth);
        lemma_slices_processed(p, s, kind, slices.drop_last(), depth);
        lemma_slots_processed(p1, s1, kind, slices.last().slots(), depth, false);
        let (q, t) = slices_processed(p, s, kind, slices, depth);
        lemma_advanced_trans(p, s, p1, s1, q, t);
    }
}


/// A copy of an object onto itself changes nothing.
proof fn lemma_copied_onto_itself(
    words: Map<usize, usize>,
    at: usize,
    granule: usize,
    count: int,
)
    ensures
        words_copied(words, at, at, granule, count) == words,
    decreases count,
{
    if count > 0 {
        lemma_copied_onto_itself(words, at, granule, count - 1);
        assert(words_copied(words, at, at, granule, count) =~= words);
    }
}

/// The attempt to move an object that stays leaves memory as it is.
proof fn lemma_claim_kept_in_place(
    p: IncsState,
    s: State,
    o: ObjectReference,
    los: bool,
    depth: u32,
)
    requires
        bounded(s),
    ensures
        ({
            let (_, t, new) = moved_or_kept(p, s, o, los, depth);
            new == o ==> t.words == s.words
        }),
{
    reveal(moved_or_kept);
    if s.forwarding_of(o) != crate::state::Forwarding::Untouched {
        lemma_settled_advances(p, s, o);
    } else {
        let claimed = s.with_forwarding(o, crate::state::Forwarding::BeingForwarded(None));
        lemma_forwarding_bounded(s, claimed);
        lemma_inc_traced(claimed, o);
        let counted = inc_traced(claimed, o);
        let kept = counted.with_forwarding(o, crate::state::Forwarding::Untouched);
        lemma_forwarding_bounded(counted, kept);
        lemma_promoted(p, kept, o, false, los, depth);
        let answered = crate::increments::answer_taken(claimed);
        assert forall|x: ObjectReference| #[trigger] answered.count(x) == s.count(x) by {}
        let logged = answered.with_event(crate::state::Event::ToSpaceOverflow);
        assert forall|x: ObjectReference| #[trigger] logged.count(x) == s.count(x) by {}
        lemma_inc_traced(logged, o);
        let declined = inc_traced(logged, o);
        let left = declined.with_forwarding(o, crate::state::Forwarding::Untouched);
        lemma_forwarding_bounded(declined, left);
        lemma_promoted(p, left, o, false, los, depth);
        lemma_copied_in_place(p, answered, o, depth);
    }
}

/// The copy of an object to where it is leaves memory as it is.
proof fn lemma_copied_in_place(p: IncsState, s: State, o: ObjectReference, depth: u32)
    requires
        bounded(s),
    ensures
        crate::increments::evacuated(p, s, o, o, depth).1.words == s.words,
{
    reveal(object_copied);
    let c = object_copied(s, o, o);
    lemma_copied_onto_itself(
        s.words,
        o.address,
        s.args.granule(),
        crate::increments::slots_covered(s.shape(o.address).size, s.args.granule()),
    );
    assert(c.objects.dom() =~= if s.objects.contains_key(o.address) {
        s.objects.dom().insert(o.address)
    } else {
        s.objects.dom()
    });
    assert forall|x: ObjectReference| #[trigger] c.count(x) == s.count(x) by {}
    lemma_inc_traced(c, o);
    lemma_promoted(p, inc_traced(c, o), o, true, false, depth);
}

/// The increment of an object that stays leaves memory as it is.
pub proof fn lemma_kept_in_place(p: IncsState, s: State, o: ObjectReference, depth: u32)
    requires
        bounded(s),
    ensures
        ({
            let (_, t, new) = inc_processed(p, s, o, depth);
            new == o ==> t.words == s.words
        }),
{
    reveal(inc_processed);
    let los = s.los.has(o.address);
    let found = claim_settled(s, o);
    let new = forwarded_to(found, o);
    lemma_settled_advances(p, s, o);
    lemma_increment_counted(p, found, new);
    lemma_incremented_in_place(p, increment_counted(found, new), o, los, depth);
    let noted = increment_counted(s, o);
    lemma_increment_counted(p, s, o);
    lemma_incremented_in_place(p, noted, o, los, depth);
    lemma_claim_kept_in_place(p, noted, o, los, depth);
}

} // verus!
