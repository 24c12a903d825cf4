//! What holds of the slots of promoted objects: their next write is recorded.

use crate::args::Args;
use crate::barrier::node_enqueued;
use crate::barrier::BarrierState;
use crate::increments::answer_taken;
use crate::increments::claim_settled;
use crate::increments::forwarded_to;
use crate::increments::inc_processed;
use crate::increments::inc_traced;
use crate::increments::moved_or_kept;
use crate::increments::nursery_object_scanned;
use crate::increments::promoted;
use crate::increments::rearmed;
use crate::logging::lemma_filled_bytes;
use crate::logging::lemma_stored_bit;
use crate::logging::share_unlog_bit;
use crate::object::Field;
use crate::object::MemorySlice;
use crate::object::ObjectKind;
use crate::object::ObjectReference;
use crate::object::Slot;
use crate::progress::lemma_wf_bounded;
use crate::state::Effect;
use crate::state::Event;
use crate::state::Forwarding;
use crate::state::IncsState;
use crate::state::State;
use crate::state::LOGGED_VALUE;
use crate::state::UNLOGGED_VALUE;
use crate::stats::increment_counted;
use crate::stats::promotion_noted;
use vstd::prelude::*;

verus! {

/// Every slot has an unlog bit of its own: two addresses share one just where they
/// lie in the same slot.
pub proof fn each_slot_has_its_own_bit(args: Args, a: usize, b: usize)
    requires
        args.wf(),
    ensures
        share_unlog_bit(args, a, b) <==> (if args.compressed_pointers {
            a / 4 == b / 4
        } else {
            a / 8 == b / 8
        }),
{
    if args.compressed_pointers {
        assert(a as int / 32 <= usize::MAX / 32 && b as int / 32 <= usize::MAX / 32);
        assert(args.meta_address(a) == args.unlog_base + a / 32);
        assert(args.meta_address(b) == args.unlog_base + b / 32);
        assert(a % 32 / 4 < 8 && b % 32 / 4 < 8);
        assert(args.unlog_bit(a) == a % 32 / 4);
        assert(args.unlog_bit(b) == b % 32 / 4);
        assert(a / 4 == a / 32 * 8 + a % 32 / 4);
        assert(b / 4 == b / 32 * 8 + b % 32 / 4);
    } else {
        assert(a as int / 64 <= usize::MAX / 64 && b as int / 64 <= usize::MAX / 64);
        assert(args.meta_address(a) == args.unlog_base + a / 64);
        assert(args.meta_address(b) == args.unlog_base + b / 64);
        assert(a % 64 / 8 < 8 && b % 64 / 8 < 8);
        assert(args.unlog_bit(a) == a % 64 / 8);
        assert(args.unlog_bit(b) == b % 64 / 8);
        assert(a / 8 == a / 64 * 8 + a % 64 / 8);
        assert(b / 8 == b / 64 * 8 + b % 64 / 8);
    }
}

/// The slots of an object lie between its header and its end; those of a large
/// object are taken to start where it does.
pub open spec fn is_slot_of(s: State, o: ObjectReference, los: bool, size: usize, a: usize) -> bool {
    let header: int = if los {
        0
    } else if s.args.compressed_pointers {
        12
    } else {
        16
    };
    o.address + header <= a < o.address + size
}

/// Re-arming an object that holds references arms all its slots, where it is large
/// or stayed in place. The first address of a large object is armed in any case. What
/// lies well below and above the object keeps its unlog bits, and so does everything
/// where the object is an array of values, or a copy that is not large.
pub proof fn rearming_reaches_every_slot(
    s: State,
    o: ObjectReference,
    los: bool,
    in_place: bool,
    size: usize,
    a: usize,
)
    requires
        s.args.wf(),
        o.address + size + 4096 <= usize::MAX,
    ensures
        ({
            let t = rearmed(s, o, los, in_place, size);
            let holds_references = !(s.shape(o.address).kind is ValArray);
            &&& holds_references && (los || in_place) && is_slot_of(s, o, los, size, a)
                ==> t.logging_state(a) == UNLOGGED_VALUE
            &&& los ==> t.logging_state(o.address) == UNLOGGED_VALUE
            &&& a + 256 <= o.address || o.address + size + 256 <= a ==> t.logging_state(a)
                == s.logging_state(a)
            &&& !los && (!in_place || !holds_references) ==> t == s
            &&& t == (State { unlog: t.unlog, ..s })
        }),
{
    reveal(rearmed);
    let t = rearmed(s, o, los, in_place, size);
    let start = o.address as int;
    let end = o.address + size;
    let span = s.args.unlog_span() as int;
    let from = s.args.meta_address(o.address) as int;
    let to = s.args.meta_address(
        crate::args::align_up(o.address + size, span) as usize,
    ) as int;
    let first = s.args.meta_address(
        crate::args::align_down(o.address + s.args.header_bytes(), span * 4) as usize,
    ) as int;
    let last = s.args.meta_address(
        crate::args::align_up(o.address + size, span * 4) as usize,
    ) as int;
    let header = s.args.header_bytes() as int;
    lemma_rounded(span, header, start, end, a as int);
    lemma_meta(s.args, a as int);
    lemma_meta(s.args, start);
    lemma_meta(s.args, crate::args::align_up(end, span));
    lemma_meta(s.args, crate::args::align_down(start + header, span * 4));
    lemma_meta(s.args, crate::args::align_up(end, span * 4));
    if los {
        lemma_filled_bytes(s, from, to, a);
        lemma_stored_bit(s.with_unlogged(from, to), o.address, UNLOGGED_VALUE, a);
        lemma_stored_bit(s, o.address, UNLOGGED_VALUE, a);
        lemma_stored_bit(s.with_unlogged(from, to), o.address, UNLOGGED_VALUE, o.address);
        lemma_stored_bit(s, o.address, UNLOGGED_VALUE, o.address);
        each_slot_has_its_own_bit(s.args, o.address, a);
    } else if in_place {
        lemma_filled_bytes(s, first, last, a);
    }
}

/// Dividing by `span` keeps the order of an address and a multiple of `span`.
proof fn lemma_divided(a: int, m: int, span: int)
    requires
        0 < span,
        m % span == 0,
    ensures
        a < m <==> a / span < m / span,
{
    assert(a < m <==> a / span < m / span) by (nonlinear_arith)
        requires
            0 < span,
            m % span == 0,
    ;
}

/// An address rounded down to a multiple of `n` spans.
proof fn lemma_aligned(x: int, span: int, n: int)
    requires
        0 <= x,
        0 < span,
        0 < n,
    ensures
        ({
            let down = crate::args::align_down(x, span * n);
            &&& 0 <= down <= x < down + span * n
            &&& down % span == 0
        }),
{
    let step = span * n;
    assert(step > 0) by (nonlinear_arith)
        requires
            step == span * n,
            0 < span,
            0 < n,
    ;
    let down = x - x % step;
    let k = x / step;
    vstd::arithmetic::div_mod::lemma_fundamental_div_mod(x, step);
    vstd::arithmetic::div_mod::lemma_div_pos_is_pos(x, step);
    assert(down == (k * n) * span) by (nonlinear_arith)
        requires
            down == step * k,
            step == span * n,
    ;
    assert(0 <= down) by (nonlinear_arith)
        requires
            down == step * k,
            0 <= k,
            0 < step,
    ;
    vstd::arithmetic::div_mod::lemma_mod_multiples_basic(k * n, span);
}

/// Where rounding ends up.
proof fn lemma_rounded(span: int, header: int, start: int, end: int, a: int)
    requires
        span == 32 && header == 12 || span == 64 && header == 16,
        0 <= start <= end,
        0 <= a,
    ensures
        ({
            let up = crate::args::align_up(end, span);
            let low = crate::args::align_down(start + header, span * 4);
            let high = crate::args::align_up(end, span * 4);
            &&& 0 <= low <= start + header
            &&& end <= up < end + 64
            &&& end <= high < end + 256
            &&& start <= a < end ==> start / span <= a / span < up / span
            &&& start + header <= a < end ==> low / span <= a / span < high / span
            &&& a + 256 <= start || end + 256 <= a ==> {
                &&& !(start / span <= a / span < up / span)
                &&& !(low / span <= a / span < high / span)
            }
        }),
{
    let up = crate::args::align_up(end, span);
    let low = crate::args::align_down(start + header, span * 4);
    let high = crate::args::align_up(end, span * 4);
    let group = start - start % span;
    lemma_aligned(end + span - 1, span, 1);
    lemma_aligned(start + header, span, 4);
    lemma_aligned(end + span * 4 - 1, span, 4);
    lemma_aligned(start, span, 1);
    assert(group / span == start / span) by (nonlinear_arith)
        requires
            0 < span,
            group == start - start % span,
    ;
    lemma_divided(a, group, span);
    lemma_divided(a, up, span);
    lemma_divided(a, low, span);
    lemma_divided(a, high, span);
}

/// The metadata byte of an address.
proof fn lemma_meta(args: Args, a: int)
    requires
        args.wf(),
        0 <= a <= usize::MAX,
    ensures
        args.meta_address(a as usize) == args.unlog_base + a / (args.unlog_span() as int),
{
    if args.compressed_pointers {
        assert(a / 32 <= usize::MAX / 32);
    } else {
        assert(a / 64 <= usize::MAX / 64);
    }
}

proof fn lemma_children_keep_bits(
    p: IncsState,
    s: State,
    o: ObjectReference,
    in_defrag: bool,
    fields: Seq<Field>,
)
    ensures
        crate::increments::children_scanned(p, s, o, in_defrag, fields).1.unlog == s.unlog,
        crate::increments::children_scanned(p, s, o, in_defrag, fields).1.args == s.args,
    decreases fields.len(),
{
    if fields.len() > 0 {
        lemma_children_keep_bits(p, s, o, in_defrag, fields.drop_last());
        reveal(crate::increments::child_scanned);
    }
}

proof fn lemma_slices_keep_bits(p: IncsState, s: State, slices: Seq<MemorySlice>)
    ensures
        crate::increments::slices_added(p, s, slices).1.unlog == s.unlog,
        crate::increments::slices_added(p, s, slices).1.args == s.args,
    decreases slices.len(),
{
    if slices.len() > 0 {
        lemma_slices_keep_bits(p, s, slices.drop_last());
    }
}

/// The promotion of an object that holds references arms all its slots, where it
/// is large or stayed in place, whatever its size. It changes no unlog bit well below
/// or above the object, and none at all for an array of values or a copy, but for the
/// first address of a large object.
pub proof fn promotion_arms_every_slot(
    p: IncsState,
    s: State,
    o: ObjectReference,
    copied: bool,
    los: bool,
    depth: u32,
    a: usize,
)
    requires
        s.args.wf(),
        o.address + s.shape(o.address).size + 4096 <= usize::MAX,
    ensures
        ({
            let (_, t) = promoted(p, s, o, copied, los, depth);
            let size = s.shape(o.address).size;
            let holds_references = !(s.shape(o.address).kind is ValArray);
            &&& holds_references && (los || !copied) && is_slot_of(s, o, los, size, a)
                ==> t.logging_state(a) == UNLOGGED_VALUE
            &&& los ==> t.logging_state(o.address) == UNLOGGED_VALUE
            &&& a + 256 <= o.address || o.address + size + 256 <= a ==> t.logging_state(a)
                == s.logging_state(a)
            &&& !los && (copied || !holds_references) ==> t.unlog == s.unlog
        }),
{
    reveal(promoted);
    reveal(nursery_object_scanned);
    let size = s.shape(o.address).size;
    let s1 = promotion_noted(s, o, copied, los, depth);
    let s2 = if los {
        s1
    } else {
        let told = if !copied && s1.in_nursery(o) {
            s1.with_effect(Effect::InPlacePromoted { block: s1.args.block_of(o.address) })
        } else {
            s1
        };
        told.with_effect(Effect::PromoteWithSize { object: o, size })
    };
    let p2 = if !los && copied {
        IncsState { copied_sizes: p.copied_sizes.push(size), ..p }
    } else {
        p
    };
    assert(s2.shape(o.address) == s.shape(o.address));
    assert(s2.logging_state(a) == s.logging_state(a));
    let s3 = rearmed(s2, o, los, !copied, size);
    rearming_reaches_every_slot(s2, o, los, !copied, size, a);
    let shape = s2.shape(o.address);
    let in_defrag = !los && s2.in_defrag_block(o.address);
    lemma_children_keep_bits(p2, s3, o, in_defrag, shape.fields);
    if let ObjectKind::ObjArray(data) = shape.kind {
        lemma_slices_keep_bits(p2, s3, data.chunks(s2.args.buffer_size as int));
    }
    let (_, t) = promoted(p, s, o, copied, los, depth);
    assert(t.unlog == s3.unlog && t.args == s3.args);
    assert(t.logging_state(a) == s3.logging_state(a));
    assert(t.logging_state(o.address) == s3.logging_state(o.address));
}

/// The first increment of an object that stays where it is arms all its slots: the
/// next write to any of them in the heap is recorded. The object holds references,
/// and the copy allocator does not answer with the place where the object is.
pub proof fn first_increment_arms_every_slot(
    p: IncsState,
    s: State,
    o: ObjectReference,
    depth: u32,
    slot: Slot,
    b: BarrierState,
)
    requires
        s.wf(),
        s.has_rc(o),
        s.count(o) == 0,
        !(s.shape(o.address).kind is ValArray),
        !(s.copies.len() > 0 && s.copies.last() == Some(o)),
        is_slot_of(s, o, s.los.has(o.address), s.shape(o.address).size, slot.address),
    ensures
        ({
            let (_, t, new) = inc_processed(p, s, o, depth);
            new == o ==> {
                &&& t.logging_state(slot.address) == UNLOGGED_VALUE
                &&& node_enqueued(b, t, slot).2
                &&& s.args.heap_start <= slot.address < s.args.heap_end ==> node_enqueued(
                    b,
                    t,
                    slot,
                ).1.logging_state(slot.address) == LOGGED_VALUE
            }
        }),
{
    reveal(inc_processed);
    reveal(moved_or_kept);
    lemma_wf_bounded(s);
    let a = slot.address;
    let los = s.los.has(o.address);
    let (q, t, new) = inc_processed(p, s, o, depth);
    assert(s.objects.contains_key(o.address));
    assert(s.objects[o.address].wf_at(o.address));
    if new == o {
        if s.args.rc_nursery_evacuation && !los && s.forwarding_of(o) != Forwarding::Untouched {
            let found = claim_settled(s, o);
            let settled = increment_counted(found, o);
            assert(forwarded_to(found, o) == o);
            let counted = inc_traced(settled, o);
            assert(settled.count(o) == s.count(o));
            assert(counted.shape(o.address) == s.shape(o.address));
            promotion_arms_every_slot(p, counted, o, false, los, depth, a);
        } else {
            let noted = increment_counted(s, o);
            assert(noted.count(o) == s.count(o));
            assert(noted.forwarding_of(o) == s.forwarding_of(o));
            let counted = inc_traced(noted, o);
            assert(counted.shape(o.address) == s.shape(o.address));
            promotion_arms_every_slot(p, counted, o, false, los, depth, a);
            let claimed = noted.with_forwarding(o, Forwarding::BeingForwarded(None));
            assert(claimed.count(o) == s.count(o));
            let kept = crate::increments::claim_dropped(claimed, o);
            assert(kept.shape(o.address) == s.shape(o.address));
            promotion_arms_every_slot(p, kept, o, false, los, depth, a);
            let full = answer_taken(claimed).with_event(Event::ToSpaceOverflow);
            let left = crate::increments::claim_dropped(full, o);
            assert(left.shape(o.address) == s.shape(o.address));
            promotion_arms_every_slot(p, left, o, false, los, depth, a);
            let s1 = promoted(p, left, o, false, los, depth).1;
            assert(State { no_evac: true, ..s1 }.logging_state(a) == s1.logging_state(a));
        }
        assert(t.logging_state(a) == UNLOGGED_VALUE);
        crate::progress::lemma_inc_processed(p, s, o, depth);
        crate::laws::barrier::write_barrier_records(b, t, slot);
        crate::laws::barrier::barrier_logs(b, t, slot, a);
    }
}

} // verus!
