//! What holds of decrements and deaths, from a single decrement to a packet.

use crate::decrements::dec_added;
use crate::decrements::dec_processed;
use crate::decrements::decs_begun;
use crate::decrements::decs_processed;
use crate::decrements::field_released;
use crate::decrements::fields_released;
use crate::decrements::given_decs_processed;
use crate::decrements::lowered_or_died;
use crate::decrements::mark_object_added;
use crate::decrements::object_died;
use crate::decs::decs_done;
use crate::decs::decs_drained;
use crate::laws::requests::requests_kept;
use crate::object::Field;
use crate::object::ObjectReference;
use crate::progress::bounded;
use crate::progress::lemma_wf_bounded;
use crate::referrers::death_noted;
use crate::release::held;
use crate::release::lemma_death_noted;
use crate::release::lemma_dec_processed;
use crate::release::lemma_decs_processed;
use crate::release::lemma_fields_released;
use crate::state::DecsState;
use crate::state::Destination;
use crate::state::Effect;
use crate::state::Forwarding;
use crate::state::LazySweepingJobsCounter;
use crate::state::Pause;
use crate::state::State;
use crate::state::SubmissionView;
use crate::state::WorkBucketStage;
use crate::state::WorkView;
use vstd::prelude::*;

verus! {

/// The references of a dying object that are to be remembered: those from slots
/// outside the heap into blocks that are being emptied, while dead objects are
/// marked.
pub open spec fn remembered(p: DecsState, s: State, fields: Seq<Field>) -> Seq<Effect>
    decreases fields.len(),
{
    if fields.len() == 0 {
        Seq::empty()
    } else {
        let before = remembered(p, s, fields.drop_last());
        let slot = fields.last().slot;
        if fields.last().out_of_heap && s.load(slot) is Some && s.args.rc_mature_evacuation
            && p.mark_dead_objects && !s.in_defrag(slot.address) && s.in_defrag(
            s.load(slot)->0.address,
        ) {
            before.push(Effect::RemsetRecord { slot, object: s.load(slot)->0 })
        } else {
            before
        }
    }
}

/// The block that contains an address: it starts at a multiple of the block size,
/// and the address lies in it.
pub open spec fn is_block_of(s: State, block: usize, address: usize) -> bool {
    &&& block as int % s.args.block_bytes as int == 0
    &&& block <= address < block + s.args.block_bytes
}

/// The block of an address contains it.
pub proof fn lemma_block(s: State, address: usize)
    requires
        s.args.wf(),
    ensures
        is_block_of(s, s.args.block_of(address), address),
{
    let n = s.args.block_bytes as int;
    let x = address as int;
    vstd::arithmetic::div_mod::lemma_fundamental_div_mod(x, n);
    vstd::arithmetic::div_mod::lemma_mod_bound(x, n);
    vstd::arithmetic::div_mod::lemma_mod_multiples_basic(x / n, n);
    vstd::arithmetic::div_mod::lemma_mod_decreases(address as nat, n as nat);
    assert(x - x % n == (x / n) * n) by (nonlinear_arith)
        requires
            x == n * (x / n) + x % n,
    ;
}

proof fn lemma_fields_remembered(
    p: DecsState,
    s: State,
    parent: ObjectReference,
    fields: Seq<Field>,
)
    ensures
        fields_released(p, s, parent, fields).1.effects == s.effects + remembered(p, s, fields),
    decreases fields.len(),
{
    if fields.len() == 0 {
        assert(s.effects + remembered(p, s, fields) =~= s.effects);
    } else {
        let before = fields.drop_last();
        lemma_fields_remembered(p, s, parent, before);
        lemma_fields_released(p, s, parent, before);
        let (p1, s1) = fields_released(p, s, parent, before);
        reveal(field_released);
        let slot = fields.last().slot;
        assert(s1.load(slot) == s.load(slot));
        let e = fields_released(p, s, parent, fields).1.effects;
        assert(e =~= s.effects + remembered(p, s, fields));
    }
}

proof fn lemma_remembered_read(p: DecsState, s: State, t: State, fields: Seq<Field>)
    requires
        t == (State { diag: t.diag, marks: t.marks, ..s }),
    ensures
        remembered(p, t, fields) == remembered(p, s, fields),
    decreases fields.len(),
{
    if fields.len() > 0 {
        lemma_remembered_read(p, s, t, fields.drop_last());
        assert(t.load(fields.last().slot) == s.load(fields.last().slot));
    }
}

/// What a death asks for, behind what was asked before: references to remember, and
/// for an object of the Immix space that its lines are unmarked and that its block is
/// looked at. It marks the object where dead objects are marked, and nothing else. Its
/// first word is overwritten where that is configured, and no other word.
pub proof fn death_asks_for_the_block(p: DecsState, s: State, o: ObjectReference)
    requires
        s.args.wf(),
    ensures
        ({
            let (_, t) = object_died(p, s, o);
            let asked = s.effects + remembered(p, s, s.shape(o.address).fields);
            let n = t.effects.len() as int;
            &&& s.immix.has(o.address) ==> {
                &&& n == asked.len() + 2
                &&& t.effects.take(n - 2) == asked
                &&& t.effects[n - 2] == (Effect::UnmarkStraddle { object: o })
                &&& t.effects[n - 1] matches Effect::PossiblyDeadBlock { block } && is_block_of(
                    s,
                    block,
                    o.address,
                )
            }
            &&& !s.immix.has(o.address) ==> t.effects == asked
            &&& t.marks == (if p.mark_dead_objects {
                s.marks.insert(o.address)
            } else {
                s.marks
            })
            &&& t.words == (if s.args.poison_dead_objects {
                s.words.insert(o.address, 0xdead)
            } else {
                s.words
            })
        }),
{
    reveal(object_died);
    let s1 = death_noted(s, o);
    lemma_death_noted(s, o);
    let s2 = if p.mark_dead_objects {
        s1.with_mark(o)
    } else {
        s1
    };
    let fields = s.shape(o.address).fields;
    assert(s2.shape(o.address) == s.shape(o.address));
    lemma_fields_remembered(p, s2, o, fields);
    lemma_fields_released(p, s2, o, fields);
    lemma_remembered_read(p, s, s2, fields);
    lemma_block(s, o.address);
    let (_, t) = object_died(p, s, o);
    let asked = s.effects + remembered(p, s, fields);
    if s.immix.has(o.address) {
        let n = t.effects.len() as int;
        assert(t.effects.take(n - 2) =~= asked);
    }
}

/// The object that a decrement of `o` is for: its copy, where it moved.
pub open spec fn meant(s: State, o: ObjectReference) -> ObjectReference {
    if s.args.rc_mature_evacuation && s.immix.has(o.address) && s.forwarding_of(
        o,
    ) is Forwarded {
        s.forwarding_of(o)->Forwarded_0
    } else {
        o
    }
}

/// Whether a decrement has an effect: the object is counted, its count is neither
/// zero nor stuck, and mature sweeping is not about to free it.
pub open spec fn decrements(p: DecsState, s: State, o: ObjectReference) -> bool {
    &&& s.immix.has(o.address) || s.los.has(o.address)
    &&& s.count(o) != 0
    &&& s.count(o) != s.args.max_ref_count
    &&& !(p.mature_sweeping_in_progress && !s.marks.contains(o.address))
}

/// A decrement lowers the count of the object that it is for by one. The last
/// reference takes the object with it: whatever its fields, the requests behind those
/// from before end with one to unmark its lines and one to look at its block, or, for
/// an object outside the Immix space, with one to free it. A decrement that is not the
/// last asks for nothing and starts nothing, and one that is dropped changes nothing
/// but the log.
pub proof fn decrement_does_its_work(
    p: DecsState,
    s: State,
    o: ObjectReference,
    other: ObjectReference,
)
    requires
        bounded(s),
    ensures
        ({
            let (q, t) = dec_processed(p, s, o);
            let x = meant(s, o);
            let n = t.effects.len() as int;
            &&& !decrements(p, s, o) ==> q == p && t == (State { diag: t.diag, ..s })
            &&& decrements(p, s, o) ==> {
                &&& t.count(x) == (if s.count(x) == 0 || s.count(x) == s.args.max_ref_count {
                    s.count(x) as int
                } else {
                    s.count(x) - 1
                })
                &&& other.address != x.address ==> t.count(other) == s.count(other)
                &&& s.count(x) != 1 ==> {
                    &&& q == p
                    &&& t == (State { counts: t.counts, diag: t.diag, ..s })
                }
                &&& s.count(x) == 1 ==> {
                    &&& requests_kept(s, t)
                    &&& s.immix.has(x.address) ==> {
                        &&& n >= s.effects.len() + 2
                        &&& t.effects[n - 2] == (Effect::UnmarkStraddle { object: x })
                        &&& t.effects[n - 1] matches Effect::PossiblyDeadBlock { block }
                            && is_block_of(s, block, x.address)
                    }
                    &&& !s.immix.has(x.address) ==> {
                        &&& n >= s.effects.len() + 1
                        &&& t.effects[n - 1] == (Effect::RcFree { object: x })
                    }
                    &&& p.mark_dead_objects ==> t.marks == s.marks.insert(x.address)
                    &&& !p.mark_dead_objects ==> t.marks == s.marks
                    &&& s.args.poison_dead_objects ==> t.words == s.words.insert(
                        x.address,
                        0xdead,
                    )
                    &&& !s.args.poison_dead_objects ==> t.words == s.words
                }
            }
        }),
{
    reveal(dec_processed);
    reveal(lowered_or_died);
    if decrements(p, s, o) {
        let x = meant(s, o);
        assert(crate::decrements::dec_target(s, o) == x);
        death_asks_for_the_block(p, s, x);
        let (q, t) = dec_processed(p, s, o);
        let (_, d) = object_died(p, s, x);
        crate::release::lemma_object_died(p, s, x);
        let asked = s.effects + remembered(p, s, s.shape(x.address).fields);
        if s.count(x) == 1 {
            let n = d.effects.len() as int;
            if s.immix.has(x.address) {
                assert forall|i: int| 0 <= i < s.effects.len() implies #[trigger] d.effects[i]
                    == s.effects[i] by {
                    assert(d.effects.take(n - 2)[i] == asked[i]);
                }
            } else {
                assert(d.effects == asked);
            }
        }
        if other.address == x.address {
            assert(other == x);
        }
    }
}

/// Whether the death of an object was asked to be followed up, behind what `s` had
/// asked for.
pub open spec fn followed_up(s: State, t: State, o: ObjectReference) -> bool {
    if s.immix.has(o.address) {
        &&& exists|i: int|
            s.effects.len() <= i < t.effects.len() && #[trigger] t.effects[i]
                == (Effect::UnmarkStraddle { object: o })
        &&& exists|i: int|
            s.effects.len() <= i < t.effects.len() && ((
            #[trigger] t.effects[i]) matches Effect::PossiblyDeadBlock { block } && is_block_of(
                s,
                block,
                o.address,
            ))
    } else {
        exists|i: int|
            s.effects.len() <= i < t.effects.len() && #[trigger] t.effects[i] == (Effect::RcFree {
                object: o,
            })
    }
}

/// Every object that lost its last reference was followed up.
pub open spec fn deaths_followed_up(s: State, t: State) -> bool {
    &&& requests_kept(s, t)
    &&& (t.immix, t.args) == (s.immix, s.args)
    &&& forall|o: ObjectReference|
        s.count(o) > 0 && #[trigger] t.count(o) == 0 ==> followed_up(s, t, o)
}

proof fn lemma_followed_up_kept(s: State, t: State, u: State, o: ObjectReference)
    requires
        followed_up(s, t, o),
        requests_kept(t, u),
    ensures
        followed_up(s, u, o),
{
    if s.immix.has(o.address) {
        let i = choose|i: int|
            s.effects.len() <= i < t.effects.len() && #[trigger] t.effects[i]
                == (Effect::UnmarkStraddle { object: o });
        assert(u.effects[i] == t.effects[i]);
        let j = choose|j: int|
            s.effects.len() <= j < t.effects.len() && ((
            #[trigger] t.effects[j]) matches Effect::PossiblyDeadBlock { block } && is_block_of(
                s,
                block,
                o.address,
            ));
        assert(u.effects[j] == t.effects[j]);
    } else {
        let i = choose|i: int|
            s.effects.len() <= i < t.effects.len() && #[trigger] t.effects[i] == (Effect::RcFree {
                object: o,
            });
        assert(u.effects[i] == t.effects[i]);
    }
}

proof fn lemma_followed_up_later(s: State, t: State, u: State, o: ObjectReference)
    requires
        followed_up(t, u, o),
        (t.immix, t.args) == (s.immix, s.args),
        s.effects.len() <= t.effects.len(),
    ensures
        followed_up(s, u, o),
{
    if s.immix.has(o.address) {
        let i = choose|i: int|
            t.effects.len() <= i < u.effects.len() && #[trigger] u.effects[i]
                == (Effect::UnmarkStraddle { object: o });
        assert(u.effects[i] == (Effect::UnmarkStraddle { object: o }));
        let j = choose|j: int|
            t.effects.len() <= j < u.effects.len() && ((
            #[trigger] u.effects[j]) matches Effect::PossiblyDeadBlock { block } && is_block_of(
                t,
                block,
                o.address,
            ));
        assert(u.effects[j] is PossiblyDeadBlock);
    } else {
        let i = choose|i: int|
            t.effects.len() <= i < u.effects.len() && #[trigger] u.effects[i] == (Effect::RcFree {
                object: o,
            });
        assert(u.effects[i] == (Effect::RcFree { object: o }));
    }
}

proof fn lemma_followed_up_trans(s: State, t: State, u: State)
    requires
        deaths_followed_up(s, t),
        deaths_followed_up(t, u),
    ensures
        deaths_followed_up(s, u),
{
    assert forall|o: ObjectReference| s.count(o) > 0 && #[trigger] u.count(o) == 0 implies followed_up(
        s,
        u,
        o,
    ) by {
        if t.count(o) == 0 {
            lemma_followed_up_kept(s, t, u, o);
        } else {
            lemma_followed_up_later(s, t, u, o);
        }
    }
}

proof fn lemma_dec_followed_up(p: DecsState, s: State, o: ObjectReference)
    requires
        bounded(s),
    ensures
        deaths_followed_up(s, dec_processed(p, s, o).1),
        bounded(dec_processed(p, s, o).1),
{
    let (_, t) = dec_processed(p, s, o);
    let x = meant(s, o);
    lemma_dec_processed(p, s, o);
    decrement_does_its_work(p, s, o, o);
    let n = t.effects.len() as int;
    assert forall|y: ObjectReference| s.count(y) > 0 && #[trigger] t.count(y) == 0 implies followed_up(
        s,
        t,
        y,
    ) by {
        decrement_does_its_work(p, s, o, y);
        assert(y == x);
        if s.immix.has(x.address) {
            assert(t.effects[n - 2] == (Effect::UnmarkStraddle { object: x }));
            assert(t.effects[n - 1] is PossiblyDeadBlock);
        } else {
            assert(t.effects[n - 1] == (Effect::RcFree { object: x }));
        }
    }
}

proof fn lemma_decs_followed_up(p: DecsState, s: State, decs: Seq<ObjectReference>)
    requires
        bounded(s),
    ensures
        deaths_followed_up(s, decs_processed(p, s, decs).1),
        bounded(decs_processed(p, s, decs).1),
    decreases decs.len(),
{
    if decs.len() > 0 {
        lemma_decs_followed_up(p, s, decs.drop_last());
        let (p1, s1) = decs_processed(p, s, decs.drop_last());
        lemma_dec_followed_up(p1, s1, decs.last());
        lemma_followed_up_trans(s, s1, decs_processed(p, s, decs).1);
    }
}

proof fn lemma_drained_followed_up(p: DecsState, s: State)
    requires
        bounded(s),
    ensures
        deaths_followed_up(s, decs_drained(p, s).1),
    decreases held(s).len(),
{
    if p.new_decs.len() > 0 {
        let p0 = DecsState { new_decs: Seq::empty(), ..p };
        lemma_decs_processed(p0, s, p.new_decs);
        lemma_decs_followed_up(p0, s, p.new_decs);
        let (p1, s1) = decs_processed(p0, s, p.new_decs);
        if p1.new_decs.len() > 0 {
            lemma_drained_followed_up(p1, s1);
            lemma_followed_up_trans(s, s1, decs_drained(p1, s1).1);
            assert(decs_drained(p, s) == decs_drained(p1, s1));
        }
    }
}

/// The decrements that a packet was given: its own, or those that it shares.
pub open spec fn given(p: DecsState) -> Seq<ObjectReference> {
    if p.decs is Some {
        p.decs->0
    } else if p.decs_arc is Some {
        p.decs_arc->0
    } else {
        Seq::empty()
    }
}

/// The packet that starts on what it was given.
spec fn started(p: DecsState) -> DecsState {
    if p.decs is Some {
        DecsState { decs: None, ..p }
    } else {
        DecsState { decs_arc: None, ..p }
    }
}

proof fn lemma_given(p: DecsState, s: State)
    ensures
        given_decs_processed(p, s) == decs_processed(started(p), s, given(p)),
{
}

/// When a packet of decrements is done, every object that lost its last reference
/// on the way, directly or with a dying object, was followed up: its lines are to be
/// unmarked and its block is to be looked at, or it is to be freed. Nothing that was
/// asked before is withdrawn.
pub proof fn packet_follows_up_deaths(p: DecsState, s: State, o: ObjectReference)
    requires
        s.wf(),
    ensures
        ({
            let (_, t) = decs_done(p, s);
            &&& requests_kept(s, t)
            &&& s.count(o) > 0 && t.count(o) == 0 ==> followed_up(s, t, o)
        }),
{
    lemma_wf_bounded(s);
    let (p1, s1) = decs_begun(p, s);
    assert forall|x: ObjectReference| #[trigger] s1.count(x) == s.count(x) by {}
    lemma_given(p1, s1);
    lemma_decs_followed_up(started(p1), s1, given(p1));
    let (p2, s2) = given_decs_processed(p1, s1);
    lemma_drained_followed_up(p2, s2);
    let (p3, s3) = decs_drained(p2, s2);
    lemma_followed_up_trans(s1, s2, s3);
    let (_, t) = decs_done(p, s);
    assert(t.effects == s3.effects);
    assert(t.count(o) == s3.count(o));
    if s.count(o) > 0 && t.count(o) == 0 {
        lemma_followed_up_later(s, s1, s3, o);
        lemma_followed_up_kept(s, s3, t, o);
    }
}

// Counts.

/// How often an object comes up in a list.
pub open spec fn occurrences(list: Seq<ObjectReference>, x: ObjectReference) -> nat
    decreases list.len(),
{
    if list.len() == 0 {
        0
    } else {
        occurrences(list.drop_last(), x) + if list.last() == x {
            1nat
        } else {
            0nat
        }
    }
}

/// A list of decrements lowers the count of each object as often as the object comes
/// up, until it is zero; stuck counts stay. The object is counted, mature sweeping is
/// not about to free it, and the objects of the list have not moved.
pub proof fn each_decrement_counts(
    p: DecsState,
    s: State,
    decs: Seq<ObjectReference>,
    x: ObjectReference,
)
    requires
        bounded(s),
        s.has_rc(x),
        !p.mature_sweeping_in_progress || s.is_marked(x),
        forall|i: int|
            0 <= i < decs.len() ==> s.forwarding_of(#[trigger] decs[i]) == Forwarding::Untouched,
    ensures
        ({
            let (q, t) = decs_processed(p, s, decs);
            let n = occurrences(decs, x);
            t.count(x) == (if s.count(x) == s.args.max_ref_count {
                s.count(x) as int
            } else if s.count(x) >= n {
                s.count(x) - n
            } else {
                0
            })
        }),
    decreases decs.len(),
{
    if decs.len() > 0 {
        let before = decs.drop_last();
        let o = decs.last();
        assert forall|i: int| 0 <= i < before.len() implies s.forwarding_of(#[trigger] before[i])
            == Forwarding::Untouched by {
            assert(before[i] == decs[i]);
        }
        each_decrement_counts(p, s, before, x);
        lemma_decs_processed(p, s, before);
        let (p1, s1) = decs_processed(p, s, before);
        assert(decs[decs.len() - 1] == o);
        assert(s1.forwarding_of(o) == s.forwarding_of(o));
        assert(s1.has_rc(x) && (s.is_marked(x) ==> s1.is_marked(x)));
        decrement_does_its_work(p1, s1, o, x);
        assert(meant(s1, o) == o);
        if x.address == o.address {
            assert(x == o);
        }
    }
}

/// A packet of decrements takes at least as many references from an object as the
/// object comes up in what the packet was given, until none is left; a stuck count
/// stays. The object is counted, mature sweeping is not about to free it, and the
/// objects of the packet have not moved.
pub proof fn packet_takes_its_references(p: DecsState, s: State, x: ObjectReference)
    requires
        s.wf(),
        s.has_rc(x),
        !sweeping(s) || s.is_marked(x),
        forall|i: int|
            0 <= i < given(p).len() ==> s.forwarding_of(#[trigger] given(p)[i])
                == Forwarding::Untouched,
    ensures
        ({
            let (_, t) = decs_done(p, s);
            let n = occurrences(given(p), x);
            &&& s.count(x) == s.args.max_ref_count ==> t.count(x) == s.count(x)
            &&& s.count(x) < s.args.max_ref_count && s.count(x) >= n ==> t.count(x) <= s.count(x)
                - n
            &&& s.count(x) < s.args.max_ref_count && s.count(x) < n ==> t.count(x) == 0
        }),
{
    lemma_wf_bounded(s);
    let (p1, s1) = decs_begun(p, s);
    assert forall|y: ObjectReference| #[trigger] s1.count(y) == s.count(y) by {}
    assert(given(p1) == given(p));
    lemma_given(p1, s1);
    assert forall|i: int| 0 <= i < given(p1).len() implies s1.forwarding_of(
        #[trigger] given(p1)[i],
    ) == Forwarding::Untouched by {
        assert(s.forwarding_of(given(p)[i]) == Forwarding::Untouched);
    }
    each_decrement_counts(started(p1), s1, given(p1), x);
    lemma_decs_processed(started(p1), s1, given(p1));
    let (p2, s2) = given_decs_processed(p1, s1);
    crate::decs::lemma_decs_drained(p2, s2);
    let (p3, s3) = decs_drained(p2, s2);
    assert(s3.count(x) <= s2.count(x));
    let (_, t) = decs_done(p, s);
    assert(t.count(x) == s3.count(x));
    crate::laws::decrements::decrements_only_lower_counts(p, s, x);
}

// The phase.

/// Whether mature sweeping goes on: the pause that the decrements belong to, the last
/// one where they are lazy and otherwise this one, ended marking, or this one is a full
/// collection.
pub open spec fn sweeping(s: State) -> bool {
    let pause = if s.args.lazy_decrements {
        s.phase.previous_pause
    } else {
        s.phase.current_pause
    };
    pause == Some(Pause::FinalMark) || s.phase.current_pause == Some(Pause::Full)
}

/// A packet of decrements marks dead objects just where marking goes on and did not
/// start in the pause that the decrements belong to, and takes mature sweeping into
/// account just where it goes on.
pub proof fn packet_follows_the_phase(p: DecsState, s: State)
    requires
        s.wf(),
    ensures
        ({
            let (q, _) = decs_done(p, s);
            let pause = if s.args.lazy_decrements {
                s.phase.previous_pause
            } else {
                s.phase.current_pause
            };
            &&& q.mark_dead_objects == (s.phase.cm_in_progress && pause != Some(
                Pause::InitialMark,
            ))
            &&& q.mature_sweeping_in_progress == sweeping(s)
            &&& q.counter == p.counter
        }),
{
    lemma_wf_bounded(s);
    let (p1, s1) = decs_begun(p, s);
    assert forall|y: ObjectReference| #[trigger] s1.count(y) == s.count(y) by {}
    lemma_given(p1, s1);
    lemma_decs_processed(started(p1), s1, given(p1));
    let (p2, s2) = given_decs_processed(p1, s1);
    crate::decs::lemma_decs_drained(p2, s2);
}

// Where work goes.

/// Whether work of decrements goes where it belongs: decrements to a worker, ahead of
/// other work outside a pause, and they count for the collection of the packet that
/// found them; objects to trace to a worker where decrements are lazy, and otherwise
/// after the pause. There is no other work.
pub open spec fn goes_right(s: State, counter: LazySweepingJobsCounter, w: SubmissionView) -> bool {
    match w.work {
        WorkView::Decs(packet) => {
            &&& w.to == (if s.phase.current_pause is None {
                Destination::WorkerPrioritized(WorkBucketStage::Unconstrained)
            } else {
                Destination::Worker(WorkBucketStage::Unconstrained)
            })
            &&& packet.counter.cycle == counter.cycle
            &&& packet.counter.decs
            &&& packet.decs is Some
            &&& packet.new_decs.len() == 0
        },
        WorkView::ConcurrentTrace(objects) => w.to == (if s.args.lazy_decrements {
            Destination::Worker(WorkBucketStage::Unconstrained)
        } else {
            Destination::Postponed
        }),
        _ => false,
    }
}

/// The work from before is still there, and new work goes where it belongs.
pub open spec fn work_goes_right(s: State, counter: LazySweepingJobsCounter, t: State) -> bool {
    &&& (t.phase, t.args) == (s.phase, s.args)
    &&& s.work.len() <= t.work.len()
    &&& forall|i: int| 0 <= i < s.work.len() ==> #[trigger] t.work[i] == s.work[i]
    &&& forall|i: int|
        s.work.len() <= i < t.work.len() ==> goes_right(s, counter, #[trigger] t.work[i])
}

/// New decrements, and objects put aside for marking, stay with the packet as long as its
/// buffer for them is not full; once one of the two is, everything is handed over and
/// nothing stays.
pub proof fn full_buffers_are_handed_over(p: DecsState, s: State, o: ObjectReference)
    requires
        s.args.wf(),
        p.new_decs.len() < s.args.buffer_size,
        p.mark_objects.len() < s.args.buffer_size,
    ensures
        ({
            let (q, t) = dec_added(p, s, o);
            &&& p.new_decs.len() + 1 < s.args.buffer_size ==> {
                &&& t == s
                &&& q == (DecsState { new_decs: p.new_decs.push(o), ..p })
            }
            &&& p.new_decs.len() + 1 == s.args.buffer_size ==> {
                &&& q.new_decs.len() == 0
                &&& q.mark_objects.len() == 0
                &&& t.work.len() > s.work.len()
                &&& t.work[s.work.len() as int].work matches WorkView::Decs(packet)
                    && packet.decs == Some(p.new_decs.push(o))
            }
        }),
        ({
            let (q, t) = mark_object_added(p, s, o);
            &&& p.mark_objects.len() + 1 < s.args.buffer_size ==> {
                &&& t == s
                &&& q == (DecsState { mark_objects: p.mark_objects.push(o), ..p })
            }
            &&& p.mark_objects.len() + 1 == s.args.buffer_size ==> {
                &&& q.new_decs.len() == 0
                &&& q.mark_objects.len() == 0
                &&& t.work.len() > s.work.len()
                &&& t.work.last().work matches WorkView::ConcurrentTrace(objects) && objects
                    == p.mark_objects.push(o)
            }
        }),
{
}

proof fn lemma_flush_goes_right(p: DecsState, s: State)
    ensures
        work_goes_right(s, p.counter, crate::decrements::decs_flushed(p, s).1),
{
}

proof fn lemma_right_trans(s: State, counter: LazySweepingJobsCounter, t: State, u: State)
    requires
        work_goes_right(s, counter, t),
        work_goes_right(t, counter, u),
    ensures
        work_goes_right(s, counter, u),
{
    assert forall|i: int| 0 <= i < s.work.len() implies #[trigger] u.work[i] == s.work[i] by {
        assert(t.work[i] == s.work[i]);
    }
    assert forall|i: int| s.work.len() <= i < u.work.len() implies goes_right(
        s,
        counter,
        #[trigger] u.work[i],
    ) by {
        if i < t.work.len() {
            assert(u.work[i] == t.work[i]);
        }
    }
}

proof fn lemma_field_goes_right(p: DecsState, s: State, parent: ObjectReference, field: Field)
    ensures
        ({
            let (q, t) = field_released(p, s, parent, field);
            &&& work_goes_right(s, p.counter, t)
            &&& q.counter == p.counter
        }),
{
    reveal(field_released);
}

proof fn lemma_fields_go_right(
    p: DecsState,
    s: State,
    parent: ObjectReference,
    fields: Seq<Field>,
)
    ensures
        ({
            let (q, t) = fields_released(p, s, parent, fields);
            &&& work_goes_right(s, p.counter, t)
            &&& q.counter == p.counter
        }),
    decreases fields.len(),
{
    if fields.len() > 0 {
        lemma_fields_go_right(p, s, parent, fields.drop_last());
        let (p1, s1) = fields_released(p, s, parent, fields.drop_last());
        lemma_field_goes_right(p1, s1, parent, fields.last());
        lemma_right_trans(s, p.counter, s1, fields_released(p, s, parent, fields).1);
    }
}

proof fn lemma_dec_goes_right(p: DecsState, s: State, o: ObjectReference)
    ensures
        ({
            let (q, t) = dec_processed(p, s, o);
            &&& work_goes_right(s, p.counter, t)
            &&& q.counter == p.counter
        }),
{
    reveal(dec_processed);
    reveal(lowered_or_died);
    reveal(object_died);
    let x = crate::decrements::dec_target(s, o);
    let s1 = death_noted(s, x);
    lemma_death_noted(s, x);
    let s2 = if p.mark_dead_objects {
        s1.with_mark(x)
    } else {
        s1
    };
    lemma_fields_go_right(p, s2, x, s2.shape(x.address).fields);
}

proof fn lemma_decs_go_right(p: DecsState, s: State, decs: Seq<ObjectReference>)
    ensures
        ({
            let (q, t) = decs_processed(p, s, decs);
            &&& work_goes_right(s, p.counter, t)
            &&& q.counter == p.counter
        }),
    decreases decs.len(),
{
    if decs.len() > 0 {
        lemma_decs_go_right(p, s, decs.drop_last());
        let (p1, s1) = decs_processed(p, s, decs.drop_last());
        lemma_dec_goes_right(p1, s1, decs.last());
        lemma_right_trans(s, p.counter, s1, decs_processed(p, s, decs).1);
    }
}

proof fn lemma_drained_goes_right(p: DecsState, s: State)
    requires
        bounded(s),
    ensures
        ({
            let (q, t) = decs_drained(p, s);
            &&& work_goes_right(s, p.counter, t)
            &&& q.counter == p.counter
        }),
    decreases held(s).len(),
{
    if p.new_decs.len() > 0 {
        let p0 = DecsState { new_decs: Seq::empty(), ..p };
        lemma_decs_processed(p0, s, p.new_decs);
        lemma_decs_go_right(p0, s, p.new_decs);
        let (p1, s1) = decs_processed(p0, s, p.new_decs);
        if p1.new_decs.len() > 0 {
            lemma_drained_goes_right(p1, s1);
            assert(decs_drained(p, s) == decs_drained(p1, s1));
            lemma_right_trans(s, p.counter, s1, decs_drained(p1, s1).1);
        }
    }
}

/// All work that a packet of decrements hands over goes where it belongs, and none
/// from before is lost.
pub proof fn packet_hands_work_over(p: DecsState, s: State)
    requires
        s.wf(),
    ensures
        work_goes_right(s, p.counter, decs_done(p, s).1),
{
    lemma_wf_bounded(s);
    let (p1, s1) = decs_begun(p, s);
    assert forall|y: ObjectReference| #[trigger] s1.count(y) == s.count(y) by {}
    lemma_given(p1, s1);
    lemma_decs_processed(started(p1), s1, given(p1));
    lemma_decs_go_right(started(p1), s1, given(p1));
    let (p2, s2) = given_decs_processed(p1, s1);
    lemma_drained_goes_right(p2, s2);
    let (p3, s3) = decs_drained(p2, s2);
    lemma_right_trans(s1, p.counter, s2, s3);
    lemma_flush_goes_right(p3, s3);
    let (_, t) = decs_done(p, s);
    lemma_right_trans(s1, p.counter, s3, t);
    lemma_right_trans(s, p.counter, s1, t);
}

} // verus!
