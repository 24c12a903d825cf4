//! Counting the roots.

use crate::inc_work::incs_done;
use crate::inc_work::roots_found;
use crate::inc_work::traces_roots;
use crate::increments::fresh_incs;
use crate::object::Slot;
use crate::packets::ProcessIncs;
use crate::packets::EDGE_KIND_ROOT;
use crate::plan::Lxr;
use crate::state::IncsState;
use crate::state::RootKind;
use crate::state::State;
use vstd::prelude::*;

verus! {

/// The value of a set of root slots.
pub struct RootEdgesState {
    pub slots: Seq<Slot>,
    pub roots: bool,
    pub root_kind: Option<RootKind>,
}

impl RootEdgesState {
    /// The packet of increments for the roots.
    pub open spec fn packet(self) -> IncsState {
        IncsState { root_kind: self.root_kind, ..fresh_incs(self.slots) }
    }

    /// Whether the roots are kept for a sanity collection: one that has not
    /// begun will need them, and they keep their objects alive.
    pub open spec fn kept_for_sanity(self, s: State) -> bool {
        s.args.sanity && self.roots && !s.phase.in_sanity && !(self.root_kind is Some
            && self.root_kind->0.weak)
    }
}

/// After the slots of roots were put aside for a sanity collection, where that is
/// needed.
pub open spec fn roots_cached(r: RootEdgesState, s: State) -> State {
    if r.kept_for_sanity(s) {
        State { sanity_roots: s.sanity_roots.push(r.slots), ..s }
    } else {
        s
    }
}

/// After the roots were counted: where there are any, by a packet of increments
/// that is processed at once.
pub open spec fn roots_counted(r: RootEdgesState, s: State, elapsed_millis: u128) -> (
    RootEdgesState,
    State,
) {
    if r.slots.len() > 0 {
        let (_, s1) = incs_done(
            r.packet(),
            roots_cached(r, s),
            EDGE_KIND_ROOT,
            elapsed_millis,
        );
        (RootEdgesState { slots: Seq::empty(), ..r }, s1)
    } else {
        (r, s)
    }
}

/// A set of root slots.
pub struct RCImmixCollectRootEdges {
    pub slots: Vec<Slot>,
    /// Whether the slots are roots.
    pub roots: bool,
    pub root_kind: Option<RootKind>,
}

impl View for RCImmixCollectRootEdges {
    type V = RootEdgesState;

    open spec fn view(&self) -> RootEdgesState {
        RootEdgesState { slots: self.slots@, roots: self.roots, root_kind: self.root_kind }
    }
}

impl RCImmixCollectRootEdges {
    /// Whether the roots are updated by whoever collected them: they are not, the
    /// increments do so.
    pub const OVERWRITE_REFERENCE: bool = false;

    /// Whether the roots are counted.
    pub const RC_ROOTS: bool = true;

    /// Whether objects are scanned where they are found.
    pub const SCAN_OBJECTS_IMMEDIATELY: bool = true;

    /// A set of root slots of no particular kind.
    pub fn new(slots: Vec<Slot>, roots: bool) -> (edges: Self)
        ensures
            edges@ == (RootEdgesState { slots: slots@, roots, root_kind: None }),
    {
        RCImmixCollectRootEdges { slots, roots, root_kind: None }
    }

    /// Counts the roots, in a pause that has lasted for `elapsed_millis`.
    pub fn process_slots(&mut self, lxr: &mut Lxr, elapsed_millis: u128)
        requires
            old(lxr)@.wf(),
            old(self)@.slots.len() > 0 ==> {
                &&& old(lxr)@.phase.current_pause is Some
                &&& !old(lxr)@.no_evac ==> old(lxr)@.phase.collection_reserved_pages <= old(
                    lxr,
                )@.phase.used_pages
                &&& !traces_roots(old(lxr)@.phase.current_pause->0) && roots_found(
                    old(self)@.packet(),
                    roots_cached(old(self)@, old(lxr)@),
                    EDGE_KIND_ROOT,
                    elapsed_millis,
                ).len() > 0 ==> old(self)@.root_kind is Some
            },
        ensures
            (final(self)@, final(lxr)@) == roots_counted(
                old(self)@,
                old(lxr)@,
                elapsed_millis,
            ),
            final(lxr)@.wf(),
    {
        if self.slots.len() == 0 {
            return;
        }
        let weak: bool = match self.root_kind {
            Some(kind) => kind.weak,
            None => false,
        };
        if lxr.args.sanity && self.roots && !lxr.phase.in_sanity && !weak {
            let kept: Vec<Slot> = self.slots.clone();
            let ghost before = lxr@;
            lxr.sanity_roots.push(kept);
            proof {
                assert(kept@ =~= self@.slots);
                assert(lxr@.sanity_roots =~= before.sanity_roots.push(self@.slots));
            }
        }
        let mut roots: Vec<Slot> = Vec::new();
        std::mem::swap(&mut self.slots, &mut roots);
        let mut w: ProcessIncs<EDGE_KIND_ROOT> = ProcessIncs::new(roots);
        w.root_kind = self.root_kind;
        proof {
            assert(w@ == old(self)@.packet());
            assert(lxr@ == roots_cached(old(self)@, old(lxr)@));
            assert(self@.slots =~= Seq::<Slot>::empty());
        }
        w.do_work(lxr, elapsed_millis);
    }
}

} // verus!
