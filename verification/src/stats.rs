//! Statistics.

use crate::object::ObjectReference;
use crate::plan::Lxr;
use crate::state::DiagView;
use crate::state::Event;
use crate::state::State;
use crate::trace::count_up;
use crate::trace::counted;
use crate::trace::trace;
use vstd::prelude::*;

verus! {

/// Objects and the bytes that they take. Both counters wrap.
#[derive(Clone, Copy, Debug, PartialEq, Eq, Structural)]
pub struct Tally {
    pub objects: usize,
    pub volume: usize,
}

impl Tally {
    /// No objects.
    pub open spec fn zero() -> Tally {
        Tally { objects: 0, volume: 0 }
    }

    /// With one more object, of `size` bytes.
    pub open spec fn plus(self, size: usize) -> Tally {
        Tally { objects: counted(self.objects), volume: self.volume.wrapping_add(size) }
    }

    /// With one more object of `size` bytes where `counts` says so.
    pub open spec fn plus_if(self, counts: bool, size: usize) -> Tally {
        if counts {
            self.plus(size)
        } else {
            self
        }
    }

    /// No objects.
    pub fn none() -> (tally: Tally)
        ensures
            tally == Tally::zero(),
    {
        Tally { objects: 0, volume: 0 }
    }

    /// Counts one more object, of `size` bytes.
    pub fn record(&mut self, size: usize)
        ensures
            *final(self) == old(self).plus(size),
    {
        self.objects = count_up(self.objects);
        self.volume = self.volume.wrapping_add(size);
    }
}

/// What the packets have done so far.
#[derive(Clone, Copy, Debug, PartialEq, Eq, Structural)]
pub struct Stats {
    /// Objects that became mature.
    pub promoted: Tally,
    /// Those of them that are large.
    pub promoted_los: Tally,
    /// Those of them that are copies.
    pub promoted_copy: Tally,
    /// Objects that slots referred to.
    pub inc: Tally,
    /// Mature objects that died.
    pub dead_mature: Tally,
    /// Those of them whose count went to zero.
    pub dead_mature_rc: Tally,
    /// Those of them that are large.
    pub dead_mature_los: Tally,
    /// Large ones whose count went to zero.
    pub dead_mature_rc_los: Tally,
}

impl Stats {
    /// Nothing so far.
    pub open spec fn zero() -> Stats {
        Stats {
            promoted: Tally::zero(),
            promoted_los: Tally::zero(),
            promoted_copy: Tally::zero(),
            inc: Tally::zero(),
            dead_mature: Tally::zero(),
            dead_mature_rc: Tally::zero(),
            dead_mature_los: Tally::zero(),
            dead_mature_rc_los: Tally::zero(),
        }
    }

    /// With one more promotion.
    pub open spec fn promotion(self, size: usize, large: bool, copied: bool) -> Stats {
        Stats {
            promoted: self.promoted.plus(size),
            promoted_los: self.promoted_los.plus_if(large, size),
            promoted_copy: self.promoted_copy.plus_if(copied, size),
            ..self
        }
    }

    /// With one more increment.
    pub open spec fn increment(self, size: usize) -> Stats {
        Stats { inc: self.inc.plus(size), ..self }
    }

    /// With one more death of an object that lost its last reference.
    pub open spec fn death(self, size: usize, large: bool) -> Stats {
        Stats {
            dead_mature: self.dead_mature.plus(size),
            dead_mature_rc: self.dead_mature_rc.plus(size),
            dead_mature_los: self.dead_mature_los.plus_if(large, size),
            dead_mature_rc_los: self.dead_mature_rc_los.plus_if(large, size),
            ..self
        }
    }

    /// Nothing so far.
    pub fn none() -> (stats: Stats)
        ensures
            stats == Stats::zero(),
    {
        Stats {
            promoted: Tally::none(),
            promoted_los: Tally::none(),
            promoted_copy: Tally::none(),
            inc: Tally::none(),
            dead_mature: Tally::none(),
            dead_mature_rc: Tally::none(),
            dead_mature_los: Tally::none(),
            dead_mature_rc_los: Tally::none(),
        }
    }
}

/// After a promotion was traced and counted.
pub open spec fn promotion_noted(
    s: State,
    o: ObjectReference,
    copied: bool,
    los: bool,
    depth: u32,
) -> State {
    let s1 = s.traced(
        o,
        Event::Promote { gc: s.diag.gc_count, object: o.address, copied, los, depth },
    );
    let stats = s1.diag.stats.promotion(
        s.shape(o.address).size,
        s.los.has(o.address),
        copied,
    );
    State { diag: DiagView { stats, ..s1.diag }, ..s1 }
}

/// After an increment of `o` was counted.
pub open spec fn increment_counted(s: State, o: ObjectReference) -> State {
    let stats = s.diag.stats.increment(s.shape(o.address).size);
    State { diag: DiagView { stats, ..s.diag }, ..s }
}

/// After a death was counted.
pub open spec fn death_counted(s: State, o: ObjectReference) -> State {
    let stats = s.diag.stats.death(s.shape(o.address).size, !s.immix.has(o.address));
    State { diag: DiagView { stats, ..s.diag }, ..s }
}

/// Traces and counts a promotion.
pub fn note_promotion(lxr: &mut Lxr, o: ObjectReference, copied: bool, los: bool, depth: u32)
    requires
        old(lxr)@.wf(),
    ensures
        final(lxr)@ == promotion_noted(old(lxr)@, o, copied, los, depth),
        final(lxr)@.wf(),
{
    let gc: usize = lxr.diag.gc_count;
    trace(lxr, o, Event::Promote { gc, object: o.address, copied, los, depth });
    let size: usize = lxr.get_size(o);
    lxr.diag.stats.promoted.record(size);
    if lxr.los.in_space(o) {
        lxr.diag.stats.promoted_los.record(size);
    }
    if copied {
        lxr.diag.stats.promoted_copy.record(size);
    }
}

/// Counts an increment.
pub fn count_increment(lxr: &mut Lxr, o: ObjectReference)
    requires
        old(lxr)@.wf(),
    ensures
        final(lxr)@ == increment_counted(old(lxr)@, o),
        final(lxr)@.wf(),
{
    let size: usize = lxr.get_size(o);
    lxr.diag.stats.inc.record(size);
}

/// Counts a death.
pub fn count_death(lxr: &mut Lxr, o: ObjectReference)
    requires
        old(lxr)@.wf(),
    ensures
        final(lxr)@ == death_counted(old(lxr)@, o),
        final(lxr)@.wf(),
{
    let size: usize = lxr.get_size(o);
    lxr.diag.stats.dead_mature.record(size);
    lxr.diag.stats.dead_mature_rc.record(size);
    if !lxr.immix.in_space(o) {
        lxr.diag.stats.dead_mature_los.record(size);
        lxr.diag.stats.dead_mature_rc_los.record(size);
    }
}

} // verus!
