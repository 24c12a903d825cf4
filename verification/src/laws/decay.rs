//! How far decrements reach: whatever a dead object referred to has lost a reference, or
//! its decrement was handed over.
//!
//! The laws are about packets in whose time no object moved, mature sweeping does not go
//! on, and dead objects are not overwritten.

use crate::decrements::dec_processed;
use crate::decrements::decs_begun;
use crate::decrements::decs_flushed;
use crate::decrements::decs_processed;
use crate::decrements::given_decs_processed;
use crate::decrements::lowered_or_died;
use crate::decs::decs_done;
use crate::decs::decs_drained;
use crate::laws::barrier::decs_in_work;
use crate::laws::deaths::decrement_does_its_work;
use crate::laws::deaths::decrements;
use crate::laws::deaths::given;
use crate::laws::deaths::meant;
use crate::laws::deaths::sweeping;
use crate::laws::decrements::children_released;
use crate::laws::decrements::decrement_flush_hands_everything_over;
use crate::laws::decrements::dying_object_releases_its_children;
use crate::laws::decrements::queued_decs;
use crate::laws::roots::nobody_moved;
use crate::object::Field;
use crate::object::ObjectReference;
use crate::progress::bounded;
use crate::progress::lemma_wf_bounded;
use crate::release::held;
use crate::release::lemma_dec_processed;
use crate::release::lemma_decs_processed;
use crate::state::DecsState;
use crate::state::Forwarding;
use crate::state::State;
use vstd::prelude::*;

verus! {

/// Whether a field holds a reference that its object gives up when it dies: the slot
/// lies in the heap, and refers to a counted object that is not stuck.
pub open spec fn gives_up(s: State, field: Field) -> bool {
    !field.out_of_heap && (s.load(field.slot) matches Some(x) && s.has_rc(x) && s.count(x) != 0
        && s.count(x) != s.args.max_ref_count)
}

/// What objects that died since `s0` referred to has lost a reference, or a decrement of
/// it is yet to be processed.
pub open spec fn lets_go(s0: State, p: DecsState, s: State, rest: Seq<ObjectReference>) -> bool {
    forall|o: ObjectReference, i: int|
        s0.count(o) > 0 && s.count(o) == 0 && 0 <= i < s0.shape(o.address).fields.len() ==> {
            let field = #[trigger] s0.shape(o.address).fields[i];
            gives_up(s0, field) ==> {
                let x = s0.load(field.slot)->0;
                s.count(x) < s0.count(x) || queued_decs(p, s).contains(x) || rest.contains(x)
            }
        }
}

/// What holds between two steps.
pub open spec fn steady(s0: State, p: DecsState, s: State) -> bool {
    &&& bounded(s)
    &&& nobody_moved(s)
    &&& !p.mature_sweeping_in_progress
    &&& !s.args.poison_dead_objects
    &&& s.words == s0.words
    &&& s.objects == s0.objects
    &&& (s.immix, s.los, s.args) == (s0.immix, s0.los, s0.args)
    &&& forall|o: ObjectReference| #[trigger] s.count(o) <= s0.count(o)
}

proof fn lemma_in_sum(a: Seq<ObjectReference>, b: Seq<ObjectReference>, x: ObjectReference)
    ensures
        (a + b).contains(x) == (a.contains(x) || b.contains(x)),
{
    if a.contains(x) {
        let i = choose|i: int| 0 <= i < a.len() && a[i] == x;
        assert((a + b)[i] == x);
    }
    if b.contains(x) {
        let i = choose|i: int| 0 <= i < b.len() && b[i] == x;
        assert((a + b)[a.len() + i] == x);
    }
    if (a + b).contains(x) {
        let i = choose|i: int| 0 <= i < (a + b).len() && (a + b)[i] == x;
        if i < a.len() {
            assert(a[i] == x);
        } else {
            assert(b[i - a.len()] == x);
        }
    }
}

/// What a field gives up is among what the object releases.
proof fn lemma_released(s: State, fields: Seq<Field>, i: int)
    requires
        0 <= i < fields.len(),
        gives_up(s, fields[i]),
    ensures
        children_released(s, fields).contains(s.load(fields[i].slot)->0),
    decreases fields.len(),
{
    let list = children_released(s, fields);
    let x = s.load(fields[i].slot)->0;
    if i == fields.len() - 1 {
        assert(list[list.len() - 1] == x);
    } else {
        let before = fields.drop_last();
        assert(before[i] == fields[i]);
        lemma_released(s, before, i);
        let old_list = children_released(s, before);
        let k = choose|k: int| 0 <= k < old_list.len() && old_list[k] == x;
        assert(list[k] == x);
    }
}

proof fn lemma_queue(p: DecsState, s: State, o: ObjectReference)
    requires
        bounded(s),
        nobody_moved(s),
    ensures
        ({
            let (q, t) = dec_processed(p, s, o);
            queued_decs(q, t) == (if decrements(p, s, o) && s.count(o) == 1 {
                queued_decs(p, s) + children_released(s, s.shape(o.address).fields)
            } else {
                queued_decs(p, s)
            })
        }),
{
    assert(s.forwarding_of(o) == Forwarding::Untouched);
    decrement_does_its_work(p, s, o, o);
    dying_object_releases_its_children(p, s, o);
    reveal(dec_processed);
    reveal(lowered_or_died);
    let (q, t) = dec_processed(p, s, o);
    if decrements(p, s, o) && s.count(o) == 1 {
        let (p1, s1) = crate::decrements::object_died(p, s, o);
        assert(q == p1 && t.work == s1.work);
    } else {
        assert(q == p && t.work == s.work);
    }
}

proof fn lemma_dec(
    s0: State,
    p: DecsState,
    s: State,
    o: ObjectReference,
    rest: Seq<ObjectReference>,
)
    requires
        steady(s0, p, s),
        lets_go(s0, p, s, seq![o] + rest),
    ensures
        ({
            let (q, t) = dec_processed(p, s, o);
            &&& steady(s0, q, t)
            &&& lets_go(s0, q, t, rest)
        }),
{
    let (q, t) = dec_processed(p, s, o);
    lemma_dec_processed(p, s, o);
    lemma_queue(p, s, o);
    decrement_does_its_work(p, s, o, o);
    assert(s.forwarding_of(o) == Forwarding::Untouched);
    assert(meant(s, o) == o);
    assert(nobody_moved(t)) by {
        assert forall|y: ObjectReference| #[trigger] t.forwarding_of(y)
            == Forwarding::Untouched by {
            assert(s.forwarding_of(y) == Forwarding::Untouched);
        }
    }
    assert forall|y: ObjectReference| #[trigger] t.count(y) <= s0.count(y) by {
        assert(t.count(y) <= s.count(y));
        assert(s.count(y) <= s0.count(y));
    }
    let todo = seq![o] + rest;
    assert forall|d: ObjectReference, i: int|
        s0.count(d) > 0 && t.count(d) == 0 && 0 <= i < s0.shape(d.address).fields.len() implies {
        let field = #[trigger] s0.shape(d.address).fields[i];
        gives_up(s0, field) ==> {
            let x = s0.load(field.slot)->0;
            t.count(x) < s0.count(x) || queued_decs(q, t).contains(x) || rest.contains(x)
        }
    } by {
        let field = s0.shape(d.address).fields[i];
        if gives_up(s0, field) {
            let x = s0.load(field.slot)->0;
            assert(s.load(field.slot) == s0.load(field.slot));
            assert(t.count(x) <= s.count(x) && s.count(x) <= s0.count(x));
            lemma_in_sum(
                queued_decs(p, s),
                children_released(s, s.shape(o.address).fields),
                x,
            );
            lemma_in_sum(seq![o], rest, x);
            decrement_does_its_work(p, s, o, d);
            if s.count(d) == 0 {
                assert(s.count(x) < s0.count(x) || queued_decs(p, s).contains(x)
                    || todo.contains(x));
                if x == o && s.count(x) == s0.count(x) {
                    assert(decrements(p, s, o));
                }
            } else {
                assert(d == o);
                assert(s.shape(o.address) == s0.shape(o.address));
                if s.count(x) == s0.count(x) {
                    assert(gives_up(s, field));
                    lemma_released(s, s.shape(o.address).fields, i);
                }
            }
        }
    }
}

proof fn lemma_decs(
    s0: State,
    p: DecsState,
    s: State,
    decs: Seq<ObjectReference>,
    rest: Seq<ObjectReference>,
)
    requires
        steady(s0, p, s),
        lets_go(s0, p, s, decs + rest),
    ensures
        ({
            let (q, t) = decs_processed(p, s, decs);
            &&& steady(s0, q, t)
            &&& lets_go(s0, q, t, rest)
        }),
    decreases decs.len(),
{
    if decs.len() == 0 {
        assert(decs + rest =~= rest);
    } else {
        let before = decs.drop_last();
        let o = decs.last();
        assert(decs + rest =~= before + (seq![o] + rest));
        lemma_decs(s0, p, s, before, seq![o] + rest);
        let (p1, s1) = decs_processed(p, s, before);
        lemma_dec(s0, p1, s1, o, rest);
    }
}

proof fn lemma_drained(s0: State, p: DecsState, s: State)
    requires
        steady(s0, p, s),
        lets_go(s0, p, s, Seq::empty()),
    ensures
        ({
            let (q, t) = decs_drained(p, s);
            &&& steady(s0, q, t)
            &&& lets_go(s0, q, t, Seq::empty())
        }),
    decreases held(s).len(),
{
    if p.new_decs.len() > 0 {
        let p0 = DecsState { new_decs: Seq::empty(), ..p };
        let none = Seq::<ObjectReference>::empty();
        assert(p.new_decs + none =~= p.new_decs);
        assert(lets_go(s0, p0, s, p.new_decs + none)) by {
            assert forall|o: ObjectReference, i: int|
                s0.count(o) > 0 && s.count(o) == 0 && 0 <= i < s0.shape(
                    o.address,
                ).fields.len() implies {
                let field = #[trigger] s0.shape(o.address).fields[i];
                gives_up(s0, field) ==> {
                    let x = s0.load(field.slot)->0;
                    s.count(x) < s0.count(x) || queued_decs(p0, s).contains(x)
                        || p.new_decs.contains(x)
                }
            } by {
                let field = s0.shape(o.address).fields[i];
                if gives_up(s0, field) {
                    let x = s0.load(field.slot)->0;
                    lemma_in_sum(decs_in_work(s.work), p.new_decs, x);
                    lemma_in_sum(decs_in_work(s.work), none, x);
                    assert(s.count(x) < s0.count(x) || queued_decs(p, s).contains(x)
                        || none.contains(x));
                }
            }
        }
        lemma_decs_processed(p0, s, p.new_decs);
        lemma_decs(s0, p0, s, p.new_decs, none);
        let (p1, s1) = decs_processed(p0, s, p.new_decs);
        if p1.new_decs.len() > 0 {
            lemma_drained(s0, p1, s1);
            assert(decs_drained(p, s) == decs_drained(p1, s1));
        }
    }
}

/// A packet of decrements lets go of everything that dead objects referred to. When it is
/// done, every object that lost its last reference on the way has passed that on: each
/// object that one of its slots in the heap referred to, if it was counted and not stuck,
/// has lost a reference too, unless its decrement was handed over.
pub proof fn packet_releases_what_dead_objects_held(
    p: DecsState,
    s: State,
    o: ObjectReference,
    i: int,
)
    requires
        s.wf(),
        nobody_moved(s),
        !sweeping(s),
        !s.args.poison_dead_objects,
        0 <= i < s.shape(o.address).fields.len(),
        gives_up(s, s.shape(o.address).fields[i]),
    ensures
        ({
            let (_, t) = decs_done(p, s);
            let x = s.load(s.shape(o.address).fields[i].slot)->0;
            s.count(o) > 0 && t.count(o) == 0 ==> t.count(x) < s.count(x) || decs_in_work(
                t.work,
            ).contains(x)
        }),
{
    lemma_wf_bounded(s);
    let none = Seq::<ObjectReference>::empty();
    let (p1, s1) = decs_begun(p, s);
    assert forall|y: ObjectReference| #[trigger] s1.count(y) == s.count(y) by {}
    assert forall|y: ObjectReference| #[trigger] s1.forwarding_of(y)
        == Forwarding::Untouched by {
        assert(s.forwarding_of(y) == Forwarding::Untouched);
    }
    let start = if p1.decs is Some {
        DecsState { decs: None, ..p1 }
    } else {
        DecsState { decs_arc: None, ..p1 }
    };
    let list = given(p1);
    assert(given_decs_processed(p1, s1) == decs_processed(start, s1, list));
    lemma_decs(s1, start, s1, list, none);
    let (p2, s2) = given_decs_processed(p1, s1);
    lemma_drained(s1, p2, s2);
    crate::decs::lemma_decs_drained(p2, s2);
    let (p3, s3) = decs_drained(p2, s2);
    decrement_flush_hands_everything_over(p3, s3);
    let (q, t) = decs_done(p, s);
    assert((q, t) == decs_flushed(p3, s3));
    let field = s.shape(o.address).fields[i];
    let x = s.load(field.slot)->0;
    assert(t.count(o) == s3.count(o));
    assert(t.count(x) == s3.count(x));
    if s.count(o) > 0 && t.count(o) == 0 {
        assert(s1.shape(o.address) == s.shape(o.address));
        assert(s1.shape(o.address).fields[i] == field);
        assert(s1.load(field.slot) == s.load(field.slot));
        assert(gives_up(s1, field));
        assert(s3.count(x) < s1.count(x) || queued_decs(p3, s3).contains(x) || none.contains(x));
        lemma_in_sum(decs_in_work(t.work), q.new_decs, x);
    }
}

} // verus!
