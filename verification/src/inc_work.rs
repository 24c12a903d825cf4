//! A packet of increments from start to end.

use crate::increments::slices_processed;
use crate::increments::slots_processed;
use crate::object::MemorySlice;
use crate::object::ObjectReference;
use crate::object::Slot;
use crate::packets::ProcessIncs;
use crate::packets::Work;
use crate::packets::EDGE_KIND_NURSERY;
use crate::packets::EDGE_KIND_ROOT;
use crate::plan::Lxr;
use crate::progress::advanced;
use crate::progress::bounded;
use crate::progress::counts_grew;
use crate::progress::framed;
use crate::progress::lemma_advanced_trans;
use crate::progress::lemma_slices_processed;
use crate::progress::lemma_slots_processed;
use crate::progress::lemma_wf_bounded;
use crate::progress::remaining;
use crate::state::Destination;
use crate::state::Event;
use crate::state::IncsState;
use crate::state::Pause;
use crate::state::Phase;
use crate::state::RootKind;
use crate::state::State;
use crate::state::WorkBucketStage;
use crate::state::WorkView;
use vstd::prelude::*;

verus! {

/// Whether a pause that has lasted for `elapsed_millis` is too long to go on
/// evacuating.
pub open spec fn over_time(limit: Option<usize>, elapsed_millis: u128) -> bool {
    match limit {
        Some(limit) => elapsed_millis >= limit,
        None => false,
    }
}

/// Whether the heap is too full to go on evacuating.
pub open spec fn over_space(phase: Phase) -> bool {
    phase.used_pages - phase.collection_reserved_pages > phase.total_pages
}

/// Whether nursery evacuation has stopped, or stops now.
pub open spec fn evacuation_stopped(s: State, elapsed_millis: u128) -> bool {
    s.no_evac || over_space(s.phase) || over_time(s.args.max_pause_millis, elapsed_millis)
}

/// Whether the pause traces from the roots.
pub open spec fn traces_roots(pause: Pause) -> bool {
    pause == Pause::FinalMark || pause == Pause::Full
}

/// A packet that starts: it takes note of the pause, and of the end of
/// evacuation, which is logged when it comes.
pub open spec fn incs_begun(p: IncsState, s: State, pause: Pause, elapsed_millis: u128) -> (
    IncsState,
    State,
) {
    let stopped = evacuation_stopped(s, elapsed_millis);
    let s1 = State { no_evac: stopped, ..s };
    (
        IncsState {
            pause,
            in_cm: s.phase.cm_in_progress,
            no_evac: p.no_evac || stopped,
            ..p
        },
        if s.no_evac || !stopped {
            s1
        } else {
            s1.with_event(
                Event::EvacuationStopped {
                    over_space: over_space(s.phase),
                    over_time: over_time(s.args.max_pause_millis, elapsed_millis),
                },
            )
        },
    )
}

/// Whether references from the slots that the packet was given are considered for
/// remembering although they are roots.
pub open spec fn remembers_roots(p: IncsState, kind: u8) -> bool {
    kind == EDGE_KIND_ROOT && p.root_kind is Some && p.root_kind->0.record_remset
}

/// After the increments that the packet was given, first those of its slots and
/// after them those of its slices. The result is where the objects of roots are.
pub open spec fn given_processed(p: IncsState, s: State, kind: u8) -> (
    IncsState,
    State,
    Seq<ObjectReference>,
) {
    let (p1, s1, objects) = slots_processed(
        IncsState { incs: Seq::empty(), ..p },
        s,
        kind,
        p.incs,
        p.depth,
        remembers_roots(p, kind),
    );
    let (p2, s2) = slices_processed(
        IncsState { inc_slices: Seq::empty(), ..p1 },
        s1,
        kind,
        p.inc_slices,
        p.depth,
    );
    (
        p2,
        s2,
        if kind == EDGE_KIND_ROOT {
            objects
        } else {
            Seq::empty()
        },
    )
}

/// Where the objects of the roots are that the packet was given.
pub open spec fn roots_found(p: IncsState, s: State, kind: u8, elapsed_millis: u128) -> Seq<
    ObjectReference,
> {
    let (p1, s1) = incs_begun(p, s, s.phase.current_pause->0, elapsed_millis);
    given_processed(p1, s1, kind).2
}

/// After the objects of roots were handed over: to concurrent marking in its
/// first pause, their slots to the trace of a pause that traces, and otherwise to
/// the next pause, which decrements them.
pub open spec fn roots_handed_over(
    s: State,
    pause: Pause,
    root_kind: Option<RootKind>,
    slots: Seq<Slot>,
    roots: Seq<ObjectReference>,
) -> State {
    let s1 = if s.phase.cm_enabled && pause == Pause::InitialMark
        && !root_kind->0.skip_mark_and_decs {
        s.with_work(Destination::Postponed, WorkView::ConcurrentTrace(roots))
    } else {
        s
    };
    if traces_roots(pause) {
        if slots.len() > 0 && !(root_kind is Some && root_kind->0.weak) {
            s1.with_work(
                Destination::Worker(WorkBucketStage::Closure),
                WorkView::ProcessEdges { slots, full: pause == Pause::Full, root_kind },
            )
        } else {
            s1
        }
    } else if !root_kind->0.skip_decs {
        State { curr_roots: s1.curr_roots.push(roots), ..s1 }
    } else {
        s1
    }
}

/// After one round of new increments: the slots at `depth`, and after them the
/// slices, at the depth that the packet started with.
pub open spec fn round_processed(p: IncsState, s: State, depth: u32) -> (IncsState, State) {
    let (p1, s1, _) = slots_processed(
        p.emptied(),
        s,
        EDGE_KIND_NURSERY,
        p.new_incs,
        depth,
        false,
    );
    slices_processed(p1, s1, EDGE_KIND_NURSERY, p.new_inc_slices, p.depth)
}

/// After rounds of new increments until there are none, each a level deeper. The
/// depth wraps.
pub open spec fn incs_drained(p: IncsState, s: State, depth: u32) -> (IncsState, State)
    decreases remaining(s),
    when bounded(s)
    via incs_drained_ends
{
    if p.pending() {
        let deeper = depth.wrapping_add(1);
        let (p1, s1) = round_processed(p, s, deeper);
        if p1.pending() {
            incs_drained(p1, s1, deeper)
        } else {
            (p1, s1)
        }
    } else {
        (p, s)
    }
}

#[via_fn]
proof fn incs_drained_ends(p: IncsState, s: State, depth: u32) {
    lemma_round(p, s, depth.wrapping_add(1));
}

/// After the packet was processed, in a pause that has lasted for
/// `elapsed_millis`: the increments it was given, the roots, and what the
/// increments led to. At the end the sizes of the copies are reported.
pub open spec fn incs_done(p: IncsState, s: State, kind: u8, elapsed_millis: u128) -> (
    IncsState,
    State,
) {
    let pause = s.phase.current_pause->0;
    let (p1, s1) = incs_begun(p, s, pause, elapsed_millis);
    let (p2, s2, roots) = given_processed(p1, s1, kind);
    let slots = if traces_roots(pause) {
        p.incs
    } else {
        Seq::empty()
    };
    let s3 = if roots.len() > 0 {
        roots_handed_over(s2, pause, p.root_kind, slots, roots)
    } else {
        s2
    };
    let (p4, s4) = incs_drained(p2, s3, p.depth);
    (
        IncsState { copied_sizes: Seq::empty(), ..p4 },
        State { survival: s4.survival + p4.copied_sizes, ..s4 },
    )
}

/// A round of new increments advances; where it leaves new increments, fewer
/// promotions remain.
pub proof fn lemma_round(p: IncsState, s: State, depth: u32)
    requires
        bounded(s),
    ensures
        ({
            let (q, t) = round_processed(p, s, depth);
            &&& advanced(p.emptied(), s, q, t)
            &&& q.pending() ==> remaining(t) < remaining(s)
        }),
{
    let (p1, s1, _) = slots_processed(
        p.emptied(),
        s,
        EDGE_KIND_NURSERY,
        p.new_incs,
        depth,
        false,
    );
    lemma_slots_processed(p.emptied(), s, EDGE_KIND_NURSERY, p.new_incs, depth, false);
    lemma_slices_processed(p1, s1, EDGE_KIND_NURSERY, p.new_inc_slices, p.depth);
    let (q, t) = round_processed(p, s, depth);
    lemma_advanced_trans(p.emptied(), s, p1, s1, q, t);
}


/// The increments that the packet was given advance.
pub proof fn lemma_given(p: IncsState, s: State, kind: u8)
    requires
        bounded(s),
    ensures
        ({
            let (q, t, _) = given_processed(p, s, kind);
            advanced(
                IncsState { incs: Seq::empty(), inc_slices: Seq::empty(), ..p },
                s,
                q,
                t,
            )
        }),
{
    let begin = IncsState { incs: Seq::empty(), ..p };
    let record = remembers_roots(p, kind);
    let (p1, s1, _) = slots_processed(begin, s, kind, p.incs, p.depth, record);
    lemma_slots_processed(begin, s, kind, p.incs, p.depth, record);
    let middle = IncsState { inc_slices: Seq::empty(), ..p1 };
    lemma_slices_processed(middle, s1, kind, p.inc_slices, p.depth);
    let (q, t, _) = given_processed(p, s, kind);
    let start = IncsState { incs: Seq::empty(), inc_slices: Seq::empty(), ..p };
    lemma_advanced_trans(start, s, middle, s1, q, t);
}

/// Rounds until there are no new increments leave none, and change the
/// collector no further than increments do.
pub proof fn lemma_drained(p: IncsState, s: State, depth: u32)
    requires
        bounded(s),
    ensures
        ({
            let (q, t) = incs_drained(p, s, depth);
            &&& !q.pending()
            &&& framed(p, s, q, t)
        }),
    decreases remaining(s),
{
    if p.pending() {
        let deeper = depth.wrapping_add(1);
        lemma_round(p, s, deeper);
        let (p1, s1) = round_processed(p, s, deeper);
        if p1.pending() {
            lemma_drained(p1, s1, deeper);
            let (q, t) = incs_drained(p1, s1, deeper);
            assert(counts_grew(s, t)) by {
                assert forall|o: ObjectReference| s.count(o) <= #[trigger] t.count(o) by {
                    assert(s1.count(o) <= t.count(o));
                }
            }
        }
    } else {
        assert(counts_grew(s, s));
    }
}

impl<const KIND: u8> ProcessIncs<KIND> {
    /// Takes note of the pause, and of the end of evacuation.
    fn begin(&mut self, lxr: &mut Lxr, pause: Pause, elapsed_millis: u128)
        requires
            old(lxr)@.wf(),
            old(self)@.wf(old(lxr)@),
            !old(lxr)@.no_evac ==> old(lxr)@.phase.collection_reserved_pages <= old(
                lxr,
            )@.phase.used_pages,
        ensures
            (final(self)@, final(lxr)@) == incs_begun(
                old(self)@,
                old(lxr)@,
                pause,
                elapsed_millis,
            ),
            final(lxr)@.wf(),
            final(self)@.wf(final(lxr)@),
    {
        self.pause = pause;
        self.in_cm = lxr.phase.cm_in_progress;
        if lxr.no_evac {
            self.no_evac = true;
        } else {
            let over_time: bool = match lxr.args.max_pause_millis {
                Some(threshold) => elapsed_millis >= threshold as u128,
                None => false,
            };
            let over_space: bool = lxr.phase.used_pages - lxr.phase.collection_reserved_pages
                > lxr.phase.total_pages;
            if over_space || over_time {
                self.no_evac = true;
                lxr.no_evac = true;
                lxr.log(Event::EvacuationStopped { over_space, over_time });
            }
        }
        proof {
            assert(self@.inc_slices == old(self)@.inc_slices);
            assert(self@.new_inc_slices == old(self)@.new_inc_slices);
        }
    }

    /// Processes the increments of slices.
    fn process_slices<const K: u8>(
        &mut self,
        lxr: &mut Lxr,
        slices: &Vec<MemorySlice>,
        depth: u32,
    )
        requires
            old(lxr)@.wf(),
            old(self)@.wf(old(lxr)@),
            forall|i: int| 0 <= i < slices@.len() ==> (#[trigger] slices@[i]).wf(),
        ensures
            (final(self)@, final(lxr)@) == slices_processed(
                old(self)@,
                old(lxr)@,
                K,
                slices@,
                depth,
            ),
            final(lxr)@.wf(),
            final(self)@.wf(final(lxr)@),
    {
        let mut i: usize = 0;
        while i < slices.len()
            invariant
                i <= slices.len(),
                forall|j: int| 0 <= j < slices@.len() ==> (#[trigger] slices@[j]).wf(),
                lxr@.wf(),
                self@.wf(lxr@),
                (self@, lxr@) == slices_processed(
                    old(self)@,
                    old(lxr)@,
                    K,
                    slices@.take(i as int),
                    depth,
                ),
            decreases slices.len() - i,
        {
            self.process_incs_for_obj_array::<K>(lxr, slices[i], depth);
            i += 1;
            proof {
                assert(slices@.take(i as int).drop_last() =~= slices@.take(i - 1));
                assert(slices@.take(i as int).last() == slices@[i - 1]);
            }
        }
        proof {
            assert(slices@.take(i as int) =~= slices@);
        }
    }

    /// Processes the increments that the packet was given. For roots, returns
    /// where their objects are, where there are any.
    fn process_given(&mut self, lxr: &mut Lxr) -> (roots: Option<Vec<ObjectReference>>)
        requires
            old(lxr)@.wf(),
            old(self)@.wf(old(lxr)@),
        ensures
            ({
                let (p, s, objects) = given_processed(old(self)@, old(lxr)@, KIND);
                &&& final(self)@ == p
                &&& final(lxr)@ == s
                &&& match roots {
                    Some(found) => objects.len() > 0 && found@ == objects,
                    None => objects.len() == 0,
                }
            }),
            final(lxr)@.wf(),
            final(self)@.wf(final(lxr)@),
    {
        let depth: u32 = self.depth;
        let add_root_to_remset: bool = KIND == EDGE_KIND_ROOT && match self.root_kind {
            Some(kind) => kind.record_remset,
            None => false,
        };
        let mut incs: Vec<Slot> = Vec::new();
        std::mem::swap(&mut self.incs, &mut incs);
        let ghost begin = self@;
        proof {
            assert(begin == (IncsState { incs: Seq::empty(), ..old(self)@ }));
            assert(begin.inc_slices == old(self)@.inc_slices);
            assert(begin.new_inc_slices == old(self)@.new_inc_slices);
            lemma_wf_bounded(lxr@);
            lemma_slots_processed(begin, lxr@, KIND, incs@, depth, add_root_to_remset);
        }
        let roots: Option<Vec<ObjectReference>> = self.process_incs::<KIND>(
            lxr,
            &incs,
            depth,
            add_root_to_remset,
        );
        let mut slices: Vec<MemorySlice> = Vec::new();
        let ghost middle = self@;
        std::mem::swap(&mut self.inc_slices, &mut slices);
        proof {
            assert(self@ == (IncsState { inc_slices: Seq::empty(), ..middle }));
            assert(self@.new_inc_slices == middle.new_inc_slices);
            assert forall|i: int| 0 <= i < slices@.len() implies (#[trigger] slices@[i]).wf() by {
                assert(middle.inc_slices[i].wf());
            }
        }
        self.process_slices::<KIND>(lxr, &slices, depth);
        roots
    }

    /// Hands over the objects of roots.
    fn hand_over_roots(&self, lxr: &mut Lxr, slots: Vec<Slot>, roots: Vec<ObjectReference>)
        requires
            old(lxr)@.wf(),
            !traces_roots(self@.pause) ==> self@.root_kind is Some,
        ensures
            final(lxr)@ == roots_handed_over(
                old(lxr)@,
                self@.pause,
                self@.root_kind,
                slots@,
                roots@,
            ),
            final(lxr)@.wf(),
    {
        let (weak, skip_mark_and_decs, skip_decs): (bool, bool, bool) = match self.root_kind {
            Some(kind) => (kind.weak, kind.skip_mark_and_decs, kind.skip_decs),
            None => (false, false, false),
        };
        if lxr.phase.cm_enabled && self.pause == Pause::InitialMark && !skip_mark_and_decs {
            let copy: Vec<ObjectReference> = roots.clone();
            proof {
                assert(copy@ =~= roots@);
            }
            lxr.submit(Destination::Postponed, Work::ConcurrentTrace(copy));
        }
        if self.pause == Pause::FinalMark || self.pause == Pause::Full {
            if slots.len() != 0 && !weak {
                lxr.submit(
                    Destination::Worker(WorkBucketStage::Closure),
                    Work::ProcessEdges {
                        slots,
                        full: self.pause == Pause::Full,
                        root_kind: self.root_kind,
                    },
                );
            }
        } else if !skip_decs {
            let ghost before = lxr@;
            lxr.curr_roots.push(roots);
            proof {
                assert(lxr@.curr_roots =~= before.curr_roots.push(roots@));
            }
        }
    }

    /// Processes new increments until there are none.
    fn drain(&mut self, lxr: &mut Lxr)
        requires
            old(lxr)@.wf(),
            old(self)@.wf(old(lxr)@),
        ensures
            (final(self)@, final(lxr)@) == incs_drained(
                old(self)@,
                old(lxr)@,
                old(self)@.depth,
            ),
            final(lxr)@.wf(),
            final(self)@.wf(final(lxr)@),
    {
        let mut depth: u32 = self.depth;
        let mut incs: Vec<Slot> = Vec::new();
        let mut inc_slices: Vec<MemorySlice> = Vec::new();
        proof {
            lemma_wf_bounded(lxr@);
        }
        while !self.new_incs.is_empty() || !self.new_inc_slices.is_empty()
            invariant
                lxr@.wf(),
                bounded(lxr@),
                self@.wf(lxr@),
                self@.depth == old(self)@.depth,
                incs_drained(self@, lxr@, depth) == incs_drained(
                    old(self)@,
                    old(lxr)@,
                    old(self)@.depth,
                ),
            decreases
                    if self@.pending() {
                        1int
                    } else {
                        0int
                    },
                    remaining(lxr@),
        {
            let ghost p0 = self@;
            let ghost s0 = lxr@;
            self.new_incs_count = 0;
            depth = depth.wrapping_add(1);
            incs.clear();
            inc_slices.clear();
            self.new_incs.swap(&mut incs);
            self.new_inc_slices.swap(&mut inc_slices);
            proof {
                assert(self@ == p0.emptied());
                assert(self@.inc_slices == p0.inc_slices);
                assert forall|i: int|
                    0 <= i < inc_slices@.len() implies (#[trigger] inc_slices@[i]).wf() by {
                    assert(p0.new_inc_slices[i].wf());
                }
                lemma_round(p0, s0, depth);
                lemma_slots_processed(
                    p0.emptied(),
                    s0,
                    EDGE_KIND_NURSERY,
                    p0.new_incs,
                    depth,
                    false,
                );
            }
            self.process_incs::<EDGE_KIND_NURSERY>(lxr, &incs, depth, false);
            let slice_depth: u32 = self.depth;
            self.process_slices::<EDGE_KIND_NURSERY>(lxr, &inc_slices, slice_depth);
            proof {
                assert((self@, lxr@) == round_processed(p0, s0, depth));
            }
        }
    }

    /// Reports the sizes of the copies.
    fn report_copies(&mut self, lxr: &mut Lxr)
        requires
            old(lxr)@.wf(),
            old(self)@.wf(old(lxr)@),
        ensures
            final(self)@ == (IncsState { copied_sizes: Seq::empty(), ..old(self)@ }),
            final(lxr)@ == (State {
                survival: old(lxr)@.survival + old(self)@.copied_sizes,
                ..old(lxr)@
            }),
            final(lxr)@.wf(),
            final(self)@.wf(final(lxr)@),
    {
        lxr.survival.append(&mut self.copied_sizes);
        proof {
            assert(self@.copied_sizes =~= Seq::<usize>::empty());
            assert(self@.inc_slices == old(self)@.inc_slices);
            assert(self@.new_inc_slices == old(self)@.new_inc_slices);
        }
    }

    /// Processes the packet, in a pause that has lasted for `elapsed_millis`.
    /// There has to be a pause. Roots for which a later pause is responsible have
    /// a kind.
    pub fn do_work(&mut self, lxr: &mut Lxr, elapsed_millis: u128)
        requires
            old(lxr)@.wf(),
            old(self)@.wf(old(lxr)@),
            old(lxr)@.phase.current_pause is Some,
            !old(lxr)@.no_evac ==> old(lxr)@.phase.collection_reserved_pages <= old(
                lxr,
            )@.phase.used_pages,
            !traces_roots(old(lxr)@.phase.current_pause->0) && roots_found(
                old(self)@,
                old(lxr)@,
                KIND,
                elapsed_millis,
            ).len() > 0 ==> old(self)@.root_kind is Some,
        ensures
            (final(self)@, final(lxr)@) == incs_done(
                old(self)@,
                old(lxr)@,
                KIND,
                elapsed_millis,
            ),
            !final(self)@.pending(),
            final(lxr)@.wf(),
            final(self)@.wf(final(lxr)@),
    {
        let pause: Pause = match lxr.phase.current_pause {
            Some(pause) => pause,
            None => Pause::RefCount,
        };
        self.begin(lxr, pause, elapsed_millis);
        let traces: bool = pause == Pause::FinalMark || pause == Pause::Full;
        let root_slots: Vec<Slot> = if KIND == EDGE_KIND_ROOT && traces {
            self.incs.clone()
        } else {
            Vec::new()
        };
        let ghost p1 = self@;
        let ghost s1 = lxr@;
        proof {
            if KIND == EDGE_KIND_ROOT && traces {
                assert(root_slots@ =~= old(self)@.incs);
            }
            lemma_wf_bounded(s1);
            lemma_given(p1, s1, KIND);
        }
        let roots: Option<Vec<ObjectReference>> = self.process_given(lxr);
        if let Some(roots) = roots {
            self.hand_over_roots(lxr, root_slots, roots);
        }
        proof {
            lemma_wf_bounded(lxr@);
            lemma_drained(self@, lxr@, self@.depth);
        }
        self.drain(lxr);
        self.report_copies(lxr);
    }
}

} // verus!
