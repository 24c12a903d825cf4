//! What holds of decrements.

use crate::decrements::dec_added;
use crate::decrements::dec_dropped;
use crate::decrements::dec_processed;
use crate::decrements::dec_target;
use crate::decrements::decs_begun;
use crate::decrements::decs_flushed;
use crate::decrements::decs_processed;
use crate::decrements::field_released;
use crate::decrements::fields_released;
use crate::decrements::given_decs_processed;
use crate::decrements::lowered_or_died;
use crate::decrements::mark_object_added;
use crate::decrements::mark_objects_flushed;
use crate::decrements::new_decs_flushed;
use crate::decrements::object_died;
use crate::decs::decs_done;
use crate::decs::decs_drained;
use crate::decs::lemma_decs_drained;
use crate::increments::inc_processed;
use crate::laws::barrier::decs_in_work;
use crate::object::Field;
use crate::object::ObjectReference;
use crate::progress::bounded;
use crate::progress::lemma_wf_bounded;
use crate::referrers::death_noted;
use crate::release::lemma_death_noted;
use crate::release::lemma_dec_processed;
use crate::release::lemma_decs_processed;
use crate::release::lemma_fields_released;
use crate::release::lemma_framed_trans;
use crate::release::lemma_lowered_or_died;
use crate::release::lemma_object_died;
use crate::release::moves_stay_counted;
use crate::state::DecsState;
use crate::state::Effect;
use crate::state::Event;
use crate::state::Forwarding;
use crate::state::IncsState;
use crate::state::State;
use crate::state::SubmissionView;
use crate::state::WorkView;
use vstd::prelude::*;

verus! {

/// A packet of decrements raises no count, leaves stuck counts alone, and loses
/// no mark. It leaves the configuration, the spaces, the objects, where they moved
/// to, and the unlog bits as they were, and memory too, unless dead objects are
/// overwritten. Objects without a count keep what their entry holds, as long as
/// objects move only to where they have a count. Nothing is left to process.
pub proof fn decrements_only_lower_counts(p: DecsState, s: State, o: ObjectReference)
    requires
        s.wf(),
    ensures
        ({
            let (q, t) = decs_done(p, s);
            &&& t.count(o) <= s.count(o)
            &&& s.count(o) == s.args.max_ref_count ==> t.count(o) == s.args.max_ref_count
            &&& moves_stay_counted(s) && !s.has_rc(o) ==> t.count(o) == s.count(o)
            &&& s.marks.subset_of(t.marks)
            &&& !s.args.poison_dead_objects ==> t.words == s.words
            &&& t == (State {
                words: t.words,
                counts: t.counts,
                marks: t.marks,
                effects: t.effects,
                work: t.work,
                diag: t.diag,
                ..s
            })
            &&& q.new_decs.len() == 0
            &&& q.mark_objects.len() == 0
        }),
{
    let (p1, s1) = decs_begun(p, s);
    lemma_wf_bounded(s);
    assert(s1.counts == s.counts);
    assert forall|x: ObjectReference| #[trigger] s1.count(x) == s.count(x) by {}
    if moves_stay_counted(s) {
        assert(moves_stay_counted(s1)) by {
            assert forall|x: ObjectReference|
                s1.has_rc(x) implies ((#[trigger] s1.forwarding_of(
                x,
            )) matches Forwarding::Forwarded(new) ==> s1.has_rc(new)) by {
                assert(s.forwarding_of(x) == s1.forwarding_of(x));
                assert(s.has_rc(x));
            }
        }
    }
    let (p2, s2) = given_decs_processed(p1, s1);
    let given = match p.decs {
        Some(decs) => decs,
        None => match p.decs_arc {
            Some(decs) => decs,
            None => Seq::empty(),
        },
    };
    let start = match p.decs {
        Some(_) => DecsState { decs: None, ..p1 },
        None => match p.decs_arc {
            Some(_) => DecsState { decs_arc: None, ..p1 },
            None => p1,
        },
    };
    lemma_decs_processed(start, s1, given);
    assert((p2, s2) == decs_processed(start, s1, given));
    let (p3, s3) = decs_drained(p2, s2);
    lemma_decs_drained(p2, s2);
    lemma_framed_trans(start, s1, p2, s2, p3, s3);
    let (q, t) = decs_done(p, s);
    assert(t.counts == s3.counts);
    assert(t.count(o) == s3.count(o));
    assert(s3.count(o) <= s1.count(o));
    assert(s1.count(o) == s.count(o));
    if s.count(o) == s.args.max_ref_count {
        assert(s3.count(o) == s1.args.max_ref_count);
    }
    if moves_stay_counted(s) && !s.has_rc(o) {
        assert(!s1.has_rc(o));
        assert(s3.count(o) == s1.count(o));
    }
}

/// An increment and a decrement of a mature object cancel, as long as the
/// increment does not make the count stick: every count is what it was.
pub proof fn increment_and_decrement_cancel(
    p: IncsState,
    d: DecsState,
    s: State,
    o: ObjectReference,
    depth: u32,
    x: ObjectReference,
)
    requires
        bounded(s),
        s.has_rc(o),
        0 < s.count(o),
        s.count(o) + 1 < s.args.max_ref_count,
        s.forwarding_of(o) == Forwarding::Untouched,
        !d.mature_sweeping_in_progress || s.is_marked(o),
    ensures
        ({
            let (_, s1, _) = inc_processed(p, s, o, depth);
            let (e, t) = dec_processed(d, s1, o);
            &&& t.count(x) == s.count(x)
            &&& e == d
            &&& t == (State { counts: t.counts, diag: t.diag, ..s })
        }),
{
    crate::laws::increments::mature_object_is_counted_once(p, s, o, depth, x);
    let (_, s1, _) = inc_processed(p, s, o, depth);
    reveal(dec_processed);
    reveal(lowered_or_died);
    assert(s1.forwarding_of(o) == Forwarding::Untouched);
    assert(s1.has_rc(o));
    if x.address == o.address {
        assert(x == o);
    }
}

/// A decrement of an object that has not moved lowers its count by one, unless
/// it is stuck, and no other count. The count of a live object reaches zero just
/// where one reference was left.
pub proof fn decrement_lowers_one_count(
    p: DecsState,
    s: State,
    o: ObjectReference,
    x: ObjectReference,
)
    requires
        bounded(s),
        s.has_rc(o),
        s.forwarding_of(o) == Forwarding::Untouched,
        !dec_dropped(p, s, o),
    ensures
        ({
            let (_, t) = dec_processed(p, s, o);
            &&& t.count(o) == s.count(o) - 1
            &&& t.count(o) == 0 <==> s.count(o) == 1
            &&& x.address != o.address ==> t.count(x) == s.count(x)
        }),
{
    reveal(dec_processed);
    assert(dec_target(s, o) == o);
    lemma_lowered_or_died(p, s, o);
}

/// A decrement that is dropped changes nothing but the log: that of an object
/// without a count, of one that is dead or stuck, and of one that mature sweeping
/// is about to free.
pub proof fn dropped_decrement_does_nothing(p: DecsState, s: State, o: ObjectReference)
    requires
        !s.has_rc(o) || dec_dropped(p, s, o),
    ensures
        ({
            let (q, t) = dec_processed(p, s, o);
            &&& q == p
            &&& t == (State { diag: t.diag, ..s })
        }),
{
    reveal(dec_processed);
}

/// An object dies once: after the decrement that took its last reference, a
/// further decrement changes nothing but the log.
pub proof fn object_dies_once(p: DecsState, s: State, o: ObjectReference, later: DecsState)
    requires
        bounded(s),
        s.has_rc(o),
        s.count(o) == 1,
        s.forwarding_of(o) == Forwarding::Untouched,
        !dec_dropped(p, s, o),
    ensures
        ({
            let (_, s1) = dec_processed(p, s, o);
            let (q, t) = dec_processed(later, s1, o);
            &&& s1.count(o) == 0
            &&& q == later
            &&& t == (State { diag: t.diag, ..s1 })
        }),
{
    decrement_lowers_one_count(p, s, o, o);
    lemma_dec_processed(p, s, o);
    let (_, s1) = dec_processed(p, s, o);
    assert(s1.has_rc(o));
    dropped_decrement_does_nothing(later, s1, o);
}

/// A large object is freed with its last reference, and not before.
pub proof fn large_object_is_freed_with_its_last_reference(
    p: DecsState,
    s: State,
    o: ObjectReference,
)
    requires
        bounded(s),
        s.los.has(o.address),
        !s.immix.has(o.address),
        !dec_dropped(p, s, o),
    ensures
        ({
            let (_, t) = dec_processed(p, s, o);
            &&& s.count(o) == 1 ==> t.effects.len() > 0 && t.effects.last() == (Effect::RcFree {
                object: o,
            })
            &&& s.count(o) > 1 ==> t.effects == s.effects
        }),
{
    reveal(dec_processed);
    reveal(lowered_or_died);
}

// Deaths.

/// The objects that were handed over for marking, in order.
pub open spec fn marked_in_work(work: Seq<SubmissionView>) -> Seq<ObjectReference>
    decreases work.len(),
{
    if work.len() == 0 {
        Seq::empty()
    } else {
        let before = marked_in_work(work.drop_last());
        match work.last().work {
            WorkView::ConcurrentTrace(objects) => before + objects,
            _ => before,
        }
    }
}

/// The new decrements, whether handed over or not.
pub open spec fn queued_decs(p: DecsState, s: State) -> Seq<ObjectReference> {
    decs_in_work(s.work) + p.new_decs
}

/// The objects put aside for marking, whether handed over or not.
pub open spec fn put_aside(p: DecsState, s: State) -> Seq<ObjectReference> {
    marked_in_work(s.work) + p.mark_objects
}

/// The objects that lose a reference with a dying object: those that its slots in
/// the heap refer to and that are counted, neither dead nor stuck. One that
/// several slots refer to comes up as often.
pub open spec fn children_released(s: State, fields: Seq<Field>) -> Seq<ObjectReference>
    decreases fields.len(),
{
    if fields.len() == 0 {
        Seq::empty()
    } else {
        let before = children_released(s, fields.drop_last());
        match s.load(fields.last().slot) {
            Some(x) => if !fields.last().out_of_heap && s.has_rc(x) && !s.dead_or_stuck(x) {
                before.push(x)
            } else {
                before
            },
            None => before,
        }
    }
}

/// The counted objects that slots refer to and that are not marked.
pub open spec fn unmarked_children(s: State, fields: Seq<Field>) -> Seq<ObjectReference>
    decreases fields.len(),
{
    if fields.len() == 0 {
        Seq::empty()
    } else {
        let before = unmarked_children(s, fields.drop_last());
        match s.load(fields.last().slot) {
            Some(x) => if s.has_rc(x) && !s.is_marked(x) {
                before.push(x)
            } else {
                before
            },
            None => before,
        }
    }
}

/// What one more submission adds.
proof fn lemma_submitted(work: Seq<SubmissionView>, w: SubmissionView)
    ensures
        decs_in_work(work.push(w)) == (match w.work {
            WorkView::Decs(packet) => match packet.decs {
                Some(decs) => decs_in_work(work) + decs,
                None => match packet.decs_arc {
                    Some(decs) => decs_in_work(work) + decs,
                    None => decs_in_work(work),
                },
            },
            _ => decs_in_work(work),
        }),
        marked_in_work(work.push(w)) == (match w.work {
            WorkView::ConcurrentTrace(objects) => marked_in_work(work) + objects,
            _ => marked_in_work(work),
        }),
{
    assert(work.push(w).drop_last() =~= work);
}

/// A flush hands everything over, and loses nothing.
pub proof fn decrement_flush_hands_everything_over(p: DecsState, s: State)
    ensures
        ({
            let (q, t) = decs_flushed(p, s);
            &&& queued_decs(q, t) == queued_decs(p, s)
            &&& put_aside(q, t) == put_aside(p, s)
            &&& q.new_decs.len() == 0
            &&& q.mark_objects.len() == 0
            &&& t == (State { work: t.work, ..s })
        }),
{
    let (p1, s1) = new_decs_flushed(p, s);
    if p.new_decs.len() > 0 {
        lemma_submitted(s.work, s1.work.last());
        assert(s1.work =~= s.work.push(s1.work.last()));
    }
    assert(queued_decs(p1, s1) =~= queued_decs(p, s));
    assert(put_aside(p1, s1) =~= put_aside(p, s));
    let (q, t) = mark_objects_flushed(p1, s1);
    if p1.mark_objects.len() > 0 {
        lemma_submitted(s1.work, t.work.last());
        assert(t.work =~= s1.work.push(t.work.last()));
    }
    assert(queued_decs(q, t) =~= queued_decs(p1, s1));
    assert(put_aside(q, t) =~= put_aside(p1, s1));
}

/// A new decrement is queued once.
proof fn lemma_dec_added(p: DecsState, s: State, o: ObjectReference)
    ensures
        ({
            let (q, t) = dec_added(p, s, o);
            &&& queued_decs(q, t) == queued_decs(p, s).push(o)
            &&& put_aside(q, t) == put_aside(p, s)
            &&& t == (State { work: t.work, ..s })
        }),
{
    let added = DecsState { new_decs: p.new_decs.push(o), ..p };
    decrement_flush_hands_everything_over(added, s);
    assert(queued_decs(added, s) =~= queued_decs(p, s).push(o));
}

/// An object is put aside once.
proof fn lemma_mark_object_added(p: DecsState, s: State, o: ObjectReference)
    ensures
        ({
            let (q, t) = mark_object_added(p, s, o);
            &&& queued_decs(q, t) == queued_decs(p, s)
            &&& put_aside(q, t) == put_aside(p, s).push(o)
            &&& t == (State { work: t.work, ..s })
        }),
{
    let added = DecsState { mark_objects: p.mark_objects.push(o), ..p };
    decrement_flush_hands_everything_over(added, s);
    assert(put_aside(added, s) =~= put_aside(p, s).push(o));
}

/// What a slot of a dying object gives up.
proof fn lemma_field(p: DecsState, s: State, parent: ObjectReference, field: Field)
    ensures
        ({
            let (q, t) = field_released(p, s, parent, field);
            let released = s.load(field.slot) matches Some(x) && !field.out_of_heap && s.has_rc(x)
                && !s.dead_or_stuck(x);
            let aside = s.load(field.slot) matches Some(x) && p.mark_dead_objects && s.has_rc(x)
                && !s.is_marked(x);
            &&& queued_decs(q, t) == (if released {
                queued_decs(p, s).push(s.load(field.slot)->0)
            } else {
                queued_decs(p, s)
            })
            &&& put_aside(q, t) == (if aside {
                put_aside(p, s).push(s.load(field.slot)->0)
            } else {
                put_aside(p, s)
            })
        }),
{
    reveal(field_released);
    match s.load(field.slot) {
        None => {},
        Some(x) => {
            let traced = s.traced(
                x,
                Event::RecDec {
                    gc: s.diag.gc_count,
                    object: x.address,
                    parent: parent.address,
                    slot: field.slot.address,
                    rc: s.count(x),
                },
            );
            lemma_dec_added(p, traced, x);
            let (p1, s1) = if field.out_of_heap {
                (p, crate::decrements::dead_reference_recorded(p, s, field.slot, x))
            } else if s.has_rc(x) && !s.dead_or_stuck(x) {
                dec_added(p, traced, x)
            } else {
                (p, s)
            };
            lemma_mark_object_added(p1, s1, x);
        },
    }
}

/// What the slots of a dying object give up.
proof fn lemma_fields(p: DecsState, s: State, parent: ObjectReference, fields: Seq<Field>)
    ensures
        ({
            let (q, t) = fields_released(p, s, parent, fields);
            &&& queued_decs(q, t) == queued_decs(p, s) + children_released(s, fields)
            &&& put_aside(q, t) == (if p.mark_dead_objects {
                put_aside(p, s) + unmarked_children(s, fields)
            } else {
                put_aside(p, s)
            })
        }),
    decreases fields.len(),
{
    if fields.len() == 0 {
        assert(queued_decs(p, s) + children_released(s, fields) =~= queued_decs(p, s));
        assert(put_aside(p, s) + unmarked_children(s, fields) =~= put_aside(p, s));
    } else {
        let (p1, s1) = fields_released(p, s, parent, fields.drop_last());
        lemma_fields(p, s, parent, fields.drop_last());
        lemma_fields_released(p, s, parent, fields.drop_last());
        lemma_field(p1, s1, parent, fields.last());
        let slot = fields.last().slot;
        assert(s1.load(slot) == s.load(slot));
        if let Some(x) = s.load(slot) {
            assert(s1.count(x) == s.count(x));
            let released = children_released(s, fields.drop_last());
            let unmarked = unmarked_children(s, fields.drop_last());
            assert((queued_decs(p, s) + released).push(x) =~= queued_decs(p, s) + released.push(x));
            assert((put_aside(p, s) + unmarked).push(x) =~= put_aside(p, s) + unmarked.push(x));
        }
    }
}

/// A dying object gives up each of its references once: the objects that lose
/// one are queued for a decrement, in order. Where dead objects are marked, the
/// object is marked, and so that marking misses nothing behind it, its unmarked
/// children are put aside.
pub proof fn dying_object_releases_its_children(p: DecsState, s: State, o: ObjectReference)
    ensures
        ({
            let (q, t) = object_died(p, s, o);
            let fields = s.shape(o.address).fields;
            let seen = if p.mark_dead_objects {
                s.with_mark(o)
            } else {
                s
            };
            &&& queued_decs(q, t) == queued_decs(p, s) + children_released(s, fields)
            &&& p.mark_dead_objects ==> t.is_marked(o) && put_aside(q, t) == put_aside(p, s)
                + unmarked_children(seen, fields)
            &&& !p.mark_dead_objects ==> t.marks == s.marks && put_aside(q, t) == put_aside(p, s)
        }),
{
    reveal(object_died);
    let s1 = death_noted(s, o);
    lemma_death_noted(s, o);
    let s2 = if p.mark_dead_objects {
        s1.with_mark(o)
    } else {
        s1
    };
    let seen = if p.mark_dead_objects {
        s.with_mark(o)
    } else {
        s
    };
    let fields = s.shape(o.address).fields;
    assert(s2.shape(o.address) == s.shape(o.address));
    lemma_fields(p, s2, o, fields);
    lemma_object_died(p, s, o);
    lemma_children_read(seen, s2, fields);
    lemma_children_released_read(s, s2, fields);
}

/// Which children are unmarked does not depend on the diagnostics.
proof fn lemma_children_read(s: State, t: State, fields: Seq<Field>)
    requires
        t == (State { diag: t.diag, ..s }),
    ensures
        unmarked_children(t, fields) == unmarked_children(s, fields),
    decreases fields.len(),
{
    if fields.len() > 0 {
        lemma_children_read(s, t, fields.drop_last());
        assert(t.load(fields.last().slot) == s.load(fields.last().slot));
    }
}

/// Which children lose a reference does not depend on marks or diagnostics.
proof fn lemma_children_released_read(s: State, t: State, fields: Seq<Field>)
    requires
        t == (State { diag: t.diag, marks: t.marks, ..s }),
    ensures
        children_released(t, fields) == children_released(s, fields),
    decreases fields.len(),
{
    if fields.len() > 0 {
        lemma_children_released_read(s, t, fields.drop_last());
        assert(t.load(fields.last().slot) == s.load(fields.last().slot));
        if let Some(x) = s.load(fields.last().slot) {
            assert(t.count(x) == s.count(x));
        }
    }
}

} // verus!
