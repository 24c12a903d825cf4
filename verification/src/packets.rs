//! The packets of work that reference counting is made of.

use crate::object::MemorySlice;
use crate::object::ObjectReference;
use crate::object::Slot;
use crate::queue::VectorQueue;
use crate::state::DecsState;
use crate::state::Destination;
use crate::state::IncsState;
use crate::state::LazySweepingJobsCounter;
use crate::state::Pause;
use crate::state::RootKind;
use crate::state::SubmissionView;
use crate::state::WorkView;
use std::sync::Arc;
use vstd::prelude::*;

verus! {

/// The kind of a slot whose increment is processed.
pub type EdgeKind = u8;

/// A root.
pub const EDGE_KIND_ROOT: u8 = 0;

/// A slot of an object that was just promoted.
pub const EDGE_KIND_NURSERY: u8 = 1;

/// A slot of a mature object that was written.
pub const EDGE_KIND_MATURE: u8 = 2;

/// A packet of increments.
pub struct ProcessIncs<const KIND: u8> {
    /// Increments to process.
    pub incs: Vec<Slot>,
    pub inc_slices: Vec<MemorySlice>,
    /// Recursively generated new increments.
    pub new_incs: VectorQueue<Slot>,
    pub new_inc_slices: VectorQueue<MemorySlice>,
    pub new_incs_count: u32,
    pub pause: Pause,
    pub in_cm: bool,
    pub no_evac: bool,
    pub root_kind: Option<RootKind>,
    pub depth: u32,
    /// The sizes of the objects that were copied.
    pub copied_sizes: Vec<usize>,
}

impl<const KIND: u8> View for ProcessIncs<KIND> {
    type V = IncsState;

    open spec fn view(&self) -> IncsState {
        IncsState {
            incs: self.incs@,
            inc_slices: self.inc_slices@,
            new_incs: self.new_incs@,
            new_inc_slices: self.new_inc_slices@,
            new_incs_count: self.new_incs_count,
            pause: self.pause,
            in_cm: self.in_cm,
            no_evac: self.no_evac,
            root_kind: self.root_kind,
            depth: self.depth,
            copied_sizes: self.copied_sizes@,
        }
    }
}

/// A packet of decrements.
pub struct ProcessDecs {
    /// Decrements to process.
    pub decs: Option<Vec<ObjectReference>>,
    pub decs_arc: Option<Arc<Vec<ObjectReference>>>,
    /// Recursively generated new decrements.
    pub new_decs: VectorQueue<ObjectReference>,
    pub counter: LazySweepingJobsCounter,
    /// Objects that marking has yet to reach.
    pub mark_objects: VectorQueue<ObjectReference>,
    pub mark_dead_objects: bool,
    pub mature_sweeping_in_progress: bool,
}

impl View for ProcessDecs {
    type V = DecsState;

    open spec fn view(&self) -> DecsState {
        DecsState {
            decs: match self.decs {
                Some(decs) => Some(decs@),
                None => None,
            },
            decs_arc: match self.decs_arc {
                Some(decs) => Some(decs@),
                None => None,
            },
            new_decs: self.new_decs@,
            counter: self.counter,
            mark_objects: self.mark_objects@,
            mark_dead_objects: self.mark_dead_objects,
            mature_sweeping_in_progress: self.mature_sweeping_in_progress,
        }
    }
}

/// A piece of work for the scheduler.
pub enum Work {
    /// Increments of slots that were written.
    MatureIncs(ProcessIncs<EDGE_KIND_MATURE>),
    /// Increments of slots of promoted objects.
    NurseryIncs(ProcessIncs<EDGE_KIND_NURSERY>),
    /// Decrements.
    Decs(ProcessDecs),
    /// Objects that marking must not miss.
    ModBufSatb(Vec<ObjectReference>),
    /// Objects that marking must not miss, shared with a packet of decrements.
    ModBufSatbShared(Arc<Vec<ObjectReference>>),
    /// Objects to trace concurrently.
    ConcurrentTrace(Vec<ObjectReference>),
    /// Root slots to trace in the pause; `full` in a full collection.
    ProcessEdges { slots: Vec<Slot>, full: bool, root_kind: Option<RootKind> },
}

impl View for Work {
    type V = WorkView;

    open spec fn view(&self) -> WorkView {
        match *self {
            Work::MatureIncs(packet) => WorkView::MatureIncs(packet@),
            Work::NurseryIncs(packet) => WorkView::NurseryIncs(packet@),
            Work::Decs(packet) => WorkView::Decs(packet@),
            Work::ModBufSatb(nodes) => WorkView::ModBufSatb(nodes@),
            Work::ModBufSatbShared(nodes) => WorkView::ModBufSatb(nodes@),
            Work::ConcurrentTrace(objects) => WorkView::ConcurrentTrace(objects@),
            Work::ProcessEdges { slots, full, root_kind } => WorkView::ProcessEdges {
                slots: slots@,
                full,
                root_kind,
            },
        }
    }
}

/// Work and the way in which it was handed over.
pub struct Submission {
    pub to: Destination,
    pub work: Work,
}

impl View for Submission {
    type V = SubmissionView;

    open spec fn view(&self) -> SubmissionView {
        SubmissionView { to: self.to, work: self.work@ }
    }
}

} // verus!
