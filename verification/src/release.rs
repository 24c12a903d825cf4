//! How far decrements change the collector, and why a packet of them comes to
//! an end.

use crate::decrements::dec_processed;
use crate::decrements::dec_target;
use crate::decrements::decs_processed;
use crate::decrements::field_released;
use crate::decrements::fields_released;
use crate::decrements::lowered_or_died;
use crate::decrements::object_died;
use crate::object::Field;
use crate::object::ObjectReference;
use crate::progress::bounded;
use crate::referrers::death_checked;
use crate::referrers::death_logged;
use crate::referrers::death_noted;
use crate::state::DecsState;
use crate::state::Forwarding;
use crate::state::State;
use crate::table::lookup;
use vstd::prelude::*;

verus! {

/// Objects that have a count move to places where they have one.
pub open spec fn moves_stay_counted(s: State) -> bool {
    forall|o: ObjectReference|
        s.has_rc(o) ==> ((#[trigger] s.forwarding_of(o)) matches Forwarding::Forwarded(new)
            ==> s.has_rc(new))
}

/// No count went up, stuck counts stayed, and so did the counts of objects that
/// are not counted.
pub open spec fn counts_shrank(s: State, t: State) -> bool {
    &&& forall|o: ObjectReference| #[trigger] t.count(o) <= s.count(o)
    &&& forall|o: ObjectReference|
        s.count(o) == s.args.max_ref_count ==> #[trigger] t.count(o) == s.args.max_ref_count
    &&& moves_stay_counted(s) ==> forall|o: ObjectReference|
        !s.has_rc(o) ==> #[trigger] t.count(o) == s.count(o)
}

/// What decrements keep: the configuration, the spaces, the objects, where they
/// moved, and unlog bits; the words too, unless dead objects are overwritten.
/// Counts do not go up, and marks are not lost.
pub open spec fn decs_framed(p: DecsState, s: State, q: DecsState, t: State) -> bool {
    &&& t == State {
        words: t.words,
        counts: t.counts,
        marks: t.marks,
        effects: t.effects,
        work: t.work,
        diag: t.diag,
        ..s
    }
    &&& q == DecsState { new_decs: q.new_decs, mark_objects: q.mark_objects, ..p }
    &&& counts_shrank(s, t)
    &&& s.marks.subset_of(t.marks)
    &&& !s.args.poison_dead_objects ==> t.words == s.words
}

/// The addresses of the objects that are counted.
pub open spec fn held(s: State) -> Set<usize> {
    s.objects.dom().filter(|a: usize| lookup(s.counts, a, 0) > 0)
}

/// What decrements do: beyond what they keep, new decrements come from deaths
/// only.
pub open spec fn released(p: DecsState, s: State, q: DecsState, t: State) -> bool {
    &&& decs_framed(p, s, q, t)
    &&& held(t).len() <= held(s).len()
    &&& held(t).len() < held(s).len() || (q.new_decs.len() > 0 ==> p.new_decs.len() > 0)
}

/// Steps in a row.
pub proof fn lemma_framed_trans(
    p0: DecsState,
    s0: State,
    p1: DecsState,
    s1: State,
    p2: DecsState,
    s2: State,
)
    requires
        decs_framed(p0, s0, p1, s1),
        decs_framed(p1, s1, p2, s2),
    ensures
        decs_framed(p0, s0, p2, s2),
{
    assert forall|o: ObjectReference| #[trigger] s2.count(o) <= s0.count(o) by {
        assert(s1.count(o) <= s0.count(o));
    }
    assert forall|o: ObjectReference|
        s0.count(o) == s0.args.max_ref_count implies #[trigger] s2.count(o)
        == s0.args.max_ref_count by {
        assert(s1.count(o) == s0.args.max_ref_count);
    }
    if moves_stay_counted(s0) {
        assert(moves_stay_counted(s1)) by {
            assert forall|o: ObjectReference|
                s1.has_rc(o) implies ((#[trigger] s1.forwarding_of(
                o,
            )) matches Forwarding::Forwarded(new) ==> s1.has_rc(new)) by {
                assert(s0.forwarding_of(o) == s1.forwarding_of(o));
                assert(s0.has_rc(o));
            }
        }
        assert forall|o: ObjectReference|
            !s0.has_rc(o) implies #[trigger] s2.count(o) == s0.count(o) by {
            assert(!s1.has_rc(o));
            assert(s1.count(o) == s0.count(o));
        }
    }
}

/// Steps in a row.
pub proof fn lemma_released_trans(
    p0: DecsState,
    s0: State,
    p1: DecsState,
    s1: State,
    p2: DecsState,
    s2: State,
)
    requires
        released(p0, s0, p1, s1),
        released(p1, s1, p2, s2),
    ensures
        released(p0, s0, p2, s2),
{
    lemma_framed_trans(p0, s0, p1, s1, p2, s2);
}

/// Where counts only went down, no object became counted; where a counted object
/// died, there is one fewer.
proof fn lemma_held_shrinks(s: State, t: State)
    requires
        s.objects.dom().finite(),
        t.objects == s.objects,
        forall|o: ObjectReference| #[trigger] t.count(o) <= s.count(o),
    ensures
        held(t).finite(),
        held(t).len() <= held(s).len(),
        forall|a: usize|
            #![trigger held(s).contains(a)]
            held(s).contains(a) && !held(t).contains(a) ==> held(t).len() < held(s).len(),
{
    assert forall|a: usize| held(t).contains(a) implies held(s).contains(a) by {
        let o = ObjectReference { address: a };
        assert(t.count(o) <= s.count(o));
    }
    vstd::set_lib::lemma_len_subset(held(t), held(s));
    assert forall|a: usize|
        #![trigger held(s).contains(a)]
        held(s).contains(a) && !held(t).contains(a) implies held(t).len() < held(s).len() by {
        assert(held(t).subset_of(held(s).remove(a)));
        vstd::set_lib::lemma_len_subset(held(t), held(s).remove(a));
    }
}

/// A step that changes no count.
proof fn lemma_counts_kept(s: State, t: State)
    requires
        t.counts == s.counts,
    ensures
        counts_shrank(s, t),
        forall|o: ObjectReference| #[trigger] t.count(o) == s.count(o),
{
    assert forall|o: ObjectReference| #[trigger] t.count(o) == s.count(o) by {}
}

/// The diagnostics change nothing but themselves.
pub proof fn lemma_death_noted(s: State, o: ObjectReference)
    ensures
        death_noted(s, o) == (State { diag: death_noted(s, o).diag, ..s }),
{
    reveal(death_noted);
    reveal(death_checked);
    reveal(death_logged);
}

/// A slot that gives up its reference changes no count.
#[verifier::rlimit(40)]
proof fn lemma_field_released(p: DecsState, s: State, parent: ObjectReference, field: Field)
    ensures
        ({
            let (q, t) = field_released(p, s, parent, field);
            &&& decs_framed(p, s, q, t)
            &&& t.counts == s.counts
            &&& t.words == s.words
            &&& t.marks == s.marks
        }),
{
    reveal(field_released);
    lemma_counts_kept(s, field_released(p, s, parent, field).1);
}

/// Slots that give up their references change no count; without slots there are
/// no new decrements.
pub proof fn lemma_fields_released(
    p: DecsState,
    s: State,
    parent: ObjectReference,
    fields: Seq<Field>,
)
    ensures
        ({
            let (q, t) = fields_released(p, s, parent, fields);
            &&& decs_framed(p, s, q, t)
            &&& t.counts == s.counts
            &&& t.words == s.words
            &&& t.marks == s.marks
            &&& fields.len() == 0 ==> q == p
        }),
    decreases fields.len(),
{
    if fields.len() == 0 {
        lemma_counts_kept(s, s);
    } else {
        let (p1, s1) = fields_released(p, s, parent, fields.drop_last());
        lemma_fields_released(p, s, parent, fields.drop_last());
        lemma_field_released(p1, s1, parent, fields.last());
        let (q, t) = fields_released(p, s, parent, fields);
        lemma_framed_trans(p, s, p1, s1, q, t);
    }
}

/// A death changes no count; that of an object that was never laid out makes no
/// new decrements.
pub proof fn lemma_object_died(p: DecsState, s: State, o: ObjectReference)
    ensures
        ({
            let (q, t) = object_died(p, s, o);
            &&& decs_framed(p, s, q, t)
            &&& t.counts == s.counts
            &&& !s.objects.contains_key(o.address) ==> q == p
            &&& t.words == if s.args.poison_dead_objects {
                s.words.insert(o.address, crate::decrements::POISON)
            } else {
                s.words
            }
            &&& t.marks == if p.mark_dead_objects {
                s.marks.insert(o.address)
            } else {
                s.marks
            }
        }),
{
    reveal(object_died);
    let s1 = death_noted(s, o);
    lemma_death_noted(s, o);
    let s2 = if p.mark_dead_objects {
        s1.with_mark(o)
    } else {
        s1
    };
    lemma_fields_released(p, s2, o, s2.shape(o.address).fields);
    let (q, t) = object_died(p, s, o);
    lemma_counts_kept(s, t);
}

/// A decrement of a counted object.
pub proof fn lemma_lowered_or_died(p: DecsState, s: State, o: ObjectReference)
    requires
        bounded(s),
        moves_stay_counted(s) ==> s.has_rc(o),
    ensures
        ({
            let (q, t) = lowered_or_died(p, s, o);
            &&& released(p, s, q, t)
            &&& t.count(o) == (match crate::decrements::lowered(
                s.count(o),
                s.args.max_ref_count,
            ) {
                Some(count) => count,
                None => s.count(o),
            })
            &&& forall|x: ObjectReference|
                x.address != o.address ==> #[trigger] t.count(x) == s.count(x)
        }),
{
    reveal(lowered_or_died);
    let old = s.count(o);
    let (q, t) = lowered_or_died(p, s, o);
    let (p1, s1) = if old == 1 {
        object_died(p, s, o)
    } else {
        (p, s)
    };
    if old == 1 {
        lemma_object_died(p, s, o);
    } else {
        lemma_counts_kept(s, s);
    }
    assert(s1.counts == s.counts);
    assert forall|x: ObjectReference| #[trigger] s1.count(x) == s.count(x) by {}
    assert forall|x: ObjectReference|
        x.address != o.address implies #[trigger] t.count(x) == s.count(x) by {}
    assert forall|x: ObjectReference|
        #[trigger] t.count(x) <= s.count(x) && (s.count(x) == s.args.max_ref_count ==> t.count(x)
            == s.args.max_ref_count) && (moves_stay_counted(s) && !s.has_rc(x) ==> t.count(x)
            == s.count(x)) by {
        if x.address == o.address {
            assert(x == o);
        }
    }
    assert(counts_shrank(s, t));
    assert(decs_framed(p, s, q, t));
    lemma_held_shrinks(s, t);
    if old == 1 && s.objects.contains_key(o.address) {
        assert(t.count(o) == 0);
        assert(held(s).contains(o.address));
        assert(!held(t).contains(o.address));
    }
}

/// A decrement.
pub proof fn lemma_dec_processed(p: DecsState, s: State, o: ObjectReference)
    requires
        bounded(s),
    ensures
        ({
            let (q, t) = dec_processed(p, s, o);
            &&& released(p, s, q, t)
            &&& bounded(t)
            &&& forall|x: ObjectReference|
                x.address != dec_target(s, o).address ==> #[trigger] t.count(x) == s.count(x)
        }),
{
    reveal(dec_processed);
    let (q, t) = dec_processed(p, s, o);
    if !s.has_rc(o) || crate::decrements::dec_dropped(p, s, o) {
        lemma_counts_kept(s, t);
        lemma_held_shrinks(s, t);
    } else {
        let x = dec_target(s, o);
        if moves_stay_counted(s) {
            assert(s.forwarding_of(o) matches Forwarding::Forwarded(new) ==> s.has_rc(new));
        }
        lemma_lowered_or_died(p, s, x);
    }
    assert forall|x: ObjectReference| #[trigger] t.count(x) <= t.args.max_ref_count by {
        assert(t.count(x) <= s.count(x));
    }
}

/// Decrements in a row.
pub proof fn lemma_decs_processed(p: DecsState, s: State, decs: Seq<ObjectReference>)
    requires
        bounded(s),
    ensures
        ({
            let (q, t) = decs_processed(p, s, decs);
            &&& released(p, s, q, t)
            &&& bounded(t)
        }),
    decreases decs.len(),
{
    if decs.len() == 0 {
        lemma_counts_kept(s, s);
    } else {
        let (p1, s1) = decs_processed(p, s, decs.drop_last());
        lemma_decs_processed(p, s, decs.drop_last());
        lemma_dec_processed(p1, s1, decs.last());
        let (q, t) = decs_processed(p, s, decs);
        lemma_released_trans(p, s, p1, s1, q, t);
    }
}

} // verus!
