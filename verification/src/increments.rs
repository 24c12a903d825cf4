//! What a packet of increments does, as functions on states.

use crate::args::align_down;
use crate::args::align_up;
use crate::object::Field;
use crate::object::MemorySlice;
use crate::object::ObjectKind;
use crate::object::ObjectReference;
use crate::object::Slot;
use crate::packets::EDGE_KIND_MATURE;
use crate::packets::EDGE_KIND_ROOT;
use crate::referrers::corruption_reported;
use crate::referrers::referred_rc;
use crate::state::Destination;
use crate::state::Effect;
use crate::state::Event;
use crate::state::Forwarding;
use crate::state::IncsState;
use crate::state::Pause;
use crate::state::State;
use crate::state::WorkBucketStage;
use crate::state::WorkView;
use crate::state::UNLOGGED_VALUE;
use crate::stats::increment_counted;
use crate::stats::promotion_noted;
use vstd::prelude::*;

verus! {

/// Arrays with more elements than this are scanned in slices.
pub const LARGE_ARRAY_LEN: usize = 1024;

/// Objects found deeper than this are kept in place, where that is configured.
pub const MAX_COPY_DEPTH: u32 = 16;

/// A new packet with increments for `incs`.
pub open spec fn fresh_incs(incs: Seq<Slot>) -> IncsState {
    IncsState {
        incs,
        inc_slices: Seq::empty(),
        new_incs: Seq::empty(),
        new_inc_slices: Seq::empty(),
        new_incs_count: 0,
        pause: Pause::RefCount,
        in_cm: false,
        no_evac: false,
        root_kind: None,
        depth: 1,
        copied_sizes: Seq::empty(),
    }
}

impl IncsState {
    /// The packet can be processed by the collector.
    pub open spec fn wf(self, s: State) -> bool {
        self.ready(s.args)
    }

    /// Whether there are new increments.
    pub open spec fn pending(self) -> bool {
        self.new_incs.len() > 0 || self.new_inc_slices.len() > 0
    }

    /// The packet without new increments.
    pub open spec fn emptied(self) -> IncsState {
        IncsState {
            new_incs: Seq::empty(),
            new_inc_slices: Seq::empty(),
            new_incs_count: 0,
            ..self
        }
    }

    /// Whether references into blocks that are being emptied are remembered.
    pub open spec fn remembers(self, s: State) -> bool {
        s.args.rc_mature_evacuation && (self.in_cm || self.pause == Pause::FinalMark)
    }
}

// New increments.

/// After a flush: the new increments, where there are any, are a packet of
/// their own, one level deeper than a new packet.
pub open spec fn incs_flushed(p: IncsState, s: State) -> (IncsState, State) {
    if p.pending() {
        (
            p.emptied(),
            s.with_work(
                Destination::Worker(WorkBucketStage::Unconstrained),
                WorkView::NurseryIncs(
                    IncsState {
                        depth: 2,
                        inc_slices: p.new_inc_slices,
                        ..fresh_incs(p.new_incs)
                    },
                ),
            ),
        )
    } else {
        (p.emptied(), s)
    }
}

/// After a new increment.
pub open spec fn slot_added(p: IncsState, s: State, slot: Slot) -> (IncsState, State) {
    let added = IncsState {
        new_incs: p.new_incs.push(slot),
        new_incs_count: (p.new_incs_count + 1) as u32,
        ..p
    };
    if added.new_incs_count >= s.args.buffer_size {
        incs_flushed(added, s)
    } else {
        (added, s)
    }
}

/// After new increments for a slice: what was there is flushed where the slice
/// would fill the buffer, and the slice itself where it fills the buffer alone.
pub open spec fn slice_added(p: IncsState, s: State, slice: MemorySlice) -> (IncsState, State) {
    let (p1, s1) = if p.new_incs_count + slice.len >= s.args.buffer_size {
        incs_flushed(p, s)
    } else {
        (p, s)
    };
    let added = IncsState {
        new_inc_slices: p1.new_inc_slices.push(slice),
        new_incs_count: (p1.new_incs_count + slice.len) as u32,
        ..p1
    };
    if added.new_incs_count >= s.args.buffer_size {
        incs_flushed(added, s1)
    } else {
        (added, s1)
    }
}

/// After new increments for slices.
pub open spec fn slices_added(p: IncsState, s: State, slices: Seq<MemorySlice>) -> (
    IncsState,
    State,
)
    decreases slices.len(),
{
    if slices.len() == 0 {
        (p, s)
    } else {
        let (p1, s1) = slices_added(p, s, slices.drop_last());
        slice_added(p1, s1, slices.last())
    }
}

// Remembered references.

/// After a reference from `slot` to `o` was considered for remembering: it is
/// remembered where it leads from outside into a block that is being emptied.
pub open spec fn reference_recorded(
    p: IncsState,
    s: State,
    slot_in_defrag: bool,
    slot: Slot,
    o: ObjectReference,
) -> State {
    if p.remembers(s) && !slot_in_defrag && s.in_defrag(o.address) {
        s.with_effect(Effect::RemsetRecord { slot, object: o })
    } else {
        s
    }
}

// Increments.

/// After an increment, and its trace.
pub open spec fn inc_traced(s: State, o: ObjectReference) -> State {
    let old = s.count(o);
    if old == s.args.max_ref_count {
        s.traced(o, Event::IncStuck { gc: s.diag.gc_count, object: o.address, old })
    } else {
        s.incremented(o).traced(o, Event::Inc { gc: s.diag.gc_count, object: o.address, old })
    }
}

// Promotion.

/// After the slots of a promoted object were re-armed: their next write has to
/// be recorded. A large object is covered from its first address to its end, and
/// its first slot in any case; an object that survived in place from behind its
/// header, in steps of four metadata bytes. An array of values has no slots, and
/// a copy was re-armed when it was made.
#[verifier::opaque]
pub open spec fn rearmed(s: State, o: ObjectReference, los: bool, in_place: bool, size: usize) -> State {
    let span = s.args.unlog_span() as int;
    let has_slots = !(s.shape(o.address).kind is ValArray);
    if los {
        let filled = if has_slots {
            s.with_unlogged(
                s.args.meta_address(o.address) as int,
                s.args.meta_address(align_up(o.address + size, span) as usize) as int,
            )
        } else {
            s
        };
        filled.with_logging_state(o.address, UNLOGGED_VALUE)
    } else if in_place && has_slots {
        s.with_unlogged(
            s.args.meta_address(
                align_down(o.address + s.args.header_bytes(), span * 4) as usize,
            ) as int,
            s.args.meta_address(align_up(o.address + size, span * 4) as usize) as int,
        )
    } else {
        s
    }
}

/// After a slot of a promoted object was looked at. A child without a count is
/// left alone. A child that is not mature is queued. A mature child is
/// incremented at once, unless it is stuck, and the reference is considered for
/// remembering.
#[verifier::opaque]
pub open spec fn child_scanned(
    p: IncsState,
    s: State,
    o: ObjectReference,
    in_defrag: bool,
    slot: Slot,
) -> (IncsState, State) {
    match s.load(slot) {
        None => (p, s),
        Some(child) => {
            let gc = s.diag.gc_count;
            let s1 = if s.diag.rc_trace && !s.tag_is_valid(child) {
                corruption_reported(
                    s,
                    child,
                    Event::CorruptChild {
                        gc,
                        number: s.diag.corrupt_count,
                        child: child.address,
                        tag: s.tag_word(child.address, 0),
                        slot: slot.address,
                        parent: o.address,
                    },
                )
            } else {
                s
            };
            let rc = s1.count(child);
            if !s1.has_rc(child) {
                (
                    p,
                    s1.traced(
                        child,
                        Event::IncPromoSkip {
                            gc,
                            object: child.address,
                            parent: o.address,
                            slot: slot.address,
                        },
                    ),
                )
            } else if rc == 0 {
                slot_added(
                    p,
                    s1.traced(
                        child,
                        Event::IncPromo {
                            gc,
                            object: child.address,
                            parent: o.address,
                            slot: slot.address,
                        },
                    ),
                    slot,
                )
            } else {
                let s2 = if rc != s1.args.max_ref_count {
                    s1.traced(
                        child,
                        Event::IncPromoDirect {
                            gc,
                            object: child.address,
                            parent: o.address,
                            slot: slot.address,
                            rc,
                        },
                    ).incremented(child)
                } else {
                    s1
                };
                (p, reference_recorded(p, s2, in_defrag, slot, child))
            }
        },
    }
}

/// After the fields of a promoted object were looked at.
pub open spec fn children_scanned(
    p: IncsState,
    s: State,
    o: ObjectReference,
    in_defrag: bool,
    fields: Seq<Field>,
) -> (IncsState, State)
    decreases fields.len(),
{
    if fields.len() == 0 {
        (p, s)
    } else {
        let (p1, s1) = children_scanned(p, s, o, in_defrag, fields.drop_last());
        child_scanned(p1, s1, o, in_defrag, fields.last().slot)
    }
}

/// After a promoted object was scanned: its slots are re-armed, and its
/// references are new increments: those of a large array in slices, those of
/// other objects one by one.
#[verifier::opaque]
pub open spec fn nursery_object_scanned(
    p: IncsState,
    s: State,
    o: ObjectReference,
    los: bool,
    in_place: bool,
    size: usize,
) -> (IncsState, State) {
    let s1 = rearmed(s, o, los, in_place, size);
    let shape = s.shape(o.address);
    match shape.kind {
        ObjectKind::ValArray => (p, s1),
        ObjectKind::ObjArray(data) => if data.len > LARGE_ARRAY_LEN {
            slices_added(p, s1, data.chunks(s.args.buffer_size as int))
        } else {
            children_scanned(p, s1, o, !los && s.in_defrag_block(o.address), shape.fields)
        },
        ObjectKind::Plain => children_scanned(
            p,
            s1,
            o,
            !los && s.in_defrag_block(o.address),
            shape.fields,
        ),
    }
}

/// After an object became mature. Its block is told where it survived in place
/// in the nursery, the lines it covers are marked, and its size is recorded where
/// it is a copy; none of that for a large object. Then it is scanned.
#[verifier::opaque]
pub open spec fn promoted(
    p: IncsState,
    s: State,
    o: ObjectReference,
    copied: bool,
    los: bool,
    depth: u32,
) -> (IncsState, State) {
    let size = s.shape(o.address).size;
    let s1 = promotion_noted(s, o, copied, los, depth);
    let s2 = if los {
        s1
    } else {
        let told = if !copied && s1.in_nursery(o) {
            s1.with_effect(Effect::InPlacePromoted { block: s1.args.block_of(o.address) })
        } else {
            s1
        };
        told.with_effect(Effect::PromoteWithSize { object: o, size })
    };
    let p2 = if !los && copied {
        IncsState { copied_sizes: p.copied_sizes.push(size), ..p }
    } else {
        p
    };
    nursery_object_scanned(p2, s2, o, los, !copied, size)
}

/// After an object that stays where it is was incremented; the first increment
/// promotes it.
pub open spec fn incremented_in_place(
    p: IncsState,
    s: State,
    o: ObjectReference,
    los: bool,
    depth: u32,
) -> (IncsState, State) {
    if s.count(o) == 0 {
        promoted(p, inc_traced(s, o), o, false, los, depth)
    } else {
        (p, inc_traced(s, o))
    }
}

// Evacuation.

/// Whether an object is not evacuated: it is large, unmanaged, mature, outside
/// the nursery, or not small enough.
pub open spec fn stays(s: State, o: ObjectReference, los: bool) -> bool {
    ||| los
    ||| !s.is_managed(o)
    ||| s.count(o) != 0
    ||| !s.in_nursery(o)
    ||| s.shape(o.address).size >= s.args.max_young_evac_size
}

/// After another worker that has claimed the object was waited for.
pub open spec fn claim_settled(s: State, o: ObjectReference) -> State {
    match s.forwarding_of(o) {
        Forwarding::BeingForwarded(Some(new)) => s.with_forwarding(o, Forwarding::Forwarded(new)),
        Forwarding::BeingForwarded(None) => s.with_forwarding(o, Forwarding::Untouched),
        _ => s,
    }
}

/// Where the object is.
pub open spec fn forwarded_to(s: State, o: ObjectReference) -> ObjectReference {
    match s.forwarding_of(o) {
        Forwarding::Forwarded(new) => new,
        _ => o,
    }
}

/// Memory after `count` slots were copied from `from` to `to`, in order; what is
/// not mapped is not copied.
pub open spec fn words_copied(
    words: Map<usize, usize>,
    from: usize,
    to: usize,
    granule: usize,
    count: int,
) -> Map<usize, usize>
    decreases count,
{
    if count <= 0 {
        words
    } else {
        let before = words_copied(words, from, to, granule, count - 1);
        let source = (from + (count - 1) * granule) as usize;
        let target = (to + (count - 1) * granule) as usize;
        if before.contains_key(source) {
            before.insert(target, before[source])
        } else {
            before
        }
    }
}

/// How many slots an object of `size` bytes covers.
pub open spec fn slots_covered(size: usize, granule: usize) -> int {
    (size + granule - 1) / granule as int
}

/// What the copy allocator answers next.
pub open spec fn copy_answer(s: State) -> Option<ObjectReference> {
    if s.copies.len() == 0 {
        None
    } else {
        s.copies.last()
    }
}

/// After the copy allocator has answered.
pub open spec fn answer_taken(s: State) -> State {
    if s.copies.len() == 0 {
        s
    } else {
        State { copies: s.copies.drop_last(), ..s }
    }
}

/// After the object was copied: the copy has its words and its shape, moved
/// along, and the object refers to the copy.
#[verifier::opaque]
pub open spec fn object_copied(s: State, o: ObjectReference, new: ObjectReference) -> State {
    let size = s.shape(o.address).size;
    let granule = s.args.granule();
    State {
        words: words_copied(
            s.words,
            o.address,
            new.address,
            granule,
            slots_covered(size, granule),
        ),
        objects: if s.objects.contains_key(o.address) {
            s.objects.insert(
                new.address,
                s.objects[o.address].relocated(o.address, new.address),
            )
        } else {
            s.objects
        },
        ..s
    }.with_forwarding(o, Forwarding::Forwarded(new))
}

/// After a claimed object was incremented where it is and its claim was dropped.
pub open spec fn claim_dropped(s: State, o: ObjectReference) -> State {
    inc_traced(s, o).with_forwarding(o, Forwarding::Untouched)
}

/// After a claimed object was copied to `new`, which is incremented and promoted.
pub open spec fn evacuated(
    p: IncsState,
    s: State,
    o: ObjectReference,
    new: ObjectReference,
    depth: u32,
) -> (IncsState, State) {
    promoted(p, inc_traced(object_copied(s, o, new), new), new, true, false, depth)
}

/// After the copy allocator had no room for a claimed object: the object stays,
/// and evacuation stops.
pub open spec fn overflowed(
    p: IncsState,
    s: State,
    o: ObjectReference,
    los: bool,
    depth: u32,
) -> (IncsState, State) {
    let kept = claim_dropped(s.with_event(Event::ToSpaceOverflow), o);
    let (p1, s1) = promoted(p, kept, o, false, los, depth);
    (IncsState { no_evac: true, ..p1 }, State { no_evac: true, ..s1 })
}

/// After a claimed object that is not to be copied was incremented where it is;
/// the first increment promotes it.
pub open spec fn claimed_kept(
    p: IncsState,
    s: State,
    o: ObjectReference,
    los: bool,
    depth: u32,
) -> (IncsState, State) {
    if s.count(o) == 0 {
        promoted(p, claim_dropped(s, o), o, false, los, depth)
    } else {
        (p, claim_dropped(s, o))
    }
}

/// After an attempt to claim an object that may be evacuated, and what follows.
/// Where another worker has the object, its outcome is awaited and the object is
/// incremented where it then is. Otherwise the object is copied, and the copy is
/// incremented and promoted, provided that the object is still in the nursery,
/// evacuation goes on, and the object was not found too deep. An object that is
/// not copied is incremented in place and its claim is dropped; where the copy
/// allocator has no room, evacuation stops.
#[verifier::opaque]
pub open spec fn moved_or_kept(
    p: IncsState,
    s: State,
    o: ObjectReference,
    los: bool,
    depth: u32,
) -> (IncsState, State, ObjectReference) {
    if s.forwarding_of(o) != Forwarding::Untouched {
        let settled = claim_settled(s, o);
        let new = forwarded_to(settled, o);
        (p, inc_traced(settled, new), new)
    } else {
        let claimed = s.with_forwarding(o, Forwarding::BeingForwarded(None));
        let too_deep = s.args.inc_max_copy_depth && depth > MAX_COPY_DEPTH;
        if s.count(o) == 0 && !p.no_evac && !too_deep {
            let answered = answer_taken(claimed);
            match copy_answer(claimed) {
                Some(new) => {
                    let (p1, s1) = evacuated(p, answered, o, new, depth);
                    (p1, s1, new)
                },
                None => {
                    let (p1, s1) = overflowed(p, answered, o, los, depth);
                    (p1, s1, o)
                },
            }
        } else {
            let (p1, s1) = claimed_kept(p, claimed, o, los, depth);
            (p1, s1, o)
        }
    }
}

/// After an object that a slot refers to was incremented; the result is where
/// the object is now. Objects without a count are left alone. An object that
/// moved, or that another worker has claimed, is incremented where it ends up.
/// An object that may not move is incremented in place.
#[verifier::opaque]
pub open spec fn inc_processed(p: IncsState, s: State, o: ObjectReference, depth: u32) -> (
    IncsState,
    State,
    ObjectReference,
) {
    let los = s.los.has(o.address);
    if !s.is_managed(o) || !s.has_rc(o) {
        (p, s, o)
    } else if s.args.rc_nursery_evacuation && !los && s.forwarding_of(o)
        != Forwarding::Untouched {
        let found = claim_settled(s, o);
        let new = forwarded_to(found, o);
        let settled = increment_counted(found, new);
        if new == o {
            let (p1, s1) = incremented_in_place(p, settled, o, los, depth);
            (p1, s1, o)
        } else {
            (p, inc_traced(settled, new), new)
        }
    } else {
        let s1 = increment_counted(s, o);
        if !s.args.rc_nursery_evacuation || stays(s, o, los) {
            let (p2, s2) = incremented_in_place(p, s1, o, los, depth);
            (p2, s2, o)
        } else {
            moved_or_kept(p, s1, o, los, depth)
        }
    }
}

// Slots.

/// After a slot was read: a slot of a mature object in the heap is re-armed.
pub open spec fn slot_read(s: State, kind: u8, slot: Slot) -> State {
    if kind == EDGE_KIND_MATURE && s.args.in_heap(slot.address) {
        s.with_logging_state(slot.address, UNLOGGED_VALUE)
    } else {
        s
    }
}

/// After a slot was traced.
pub open spec fn slot_traced(s: State, kind: u8, slot: Slot, depth: u32) -> State {
    if s.diag.rc_trace && s.is_traced_address(slot.address) {
        s.with_event(
            Event::ProcessSlot {
                gc: s.diag.gc_count,
                slot: slot.address,
                kind,
                loaded: s.word(slot.address),
                reported_rc: referred_rc(s, s.word(slot.address)),
                depth,
            },
        )
    } else {
        s
    }
}

/// After the object that a slot refers to was traced, and checked for a bad tag.
pub open spec fn target_traced(
    s: State,
    kind: u8,
    slot: Slot,
    depth: u32,
    o: ObjectReference,
) -> State {
    let s1 = s.traced(
        o,
        Event::IncSlot {
            gc: s.diag.gc_count,
            object: o.address,
            slot: slot.address,
            kind,
            rc_before: s.reported_rc(o),
            depth,
        },
    );
    if s1.diag.rc_trace && !s1.tag_is_valid(o) {
        corruption_reported(
            s1,
            o,
            Event::CorruptInc {
                gc: s1.diag.gc_count,
                number: s1.diag.corrupt_count,
                object: o.address,
                tag: s1.tag_word(o.address, 0),
                reported_rc: s1.reported_rc(o),
                from_slot: slot,
                kind,
                depth,
            },
        )
    } else {
        s1
    }
}

/// After the increment of a slot; the result is where the object of the slot is
/// now. The object of a type tag gets stuck, where it has a count. The reference
/// is considered for remembering, except for a root unless that was asked for. The
/// slot is updated where the object moved.
#[verifier::opaque]
pub open spec fn slot_processed(
    p: IncsState,
    s: State,
    kind: u8,
    slot: Slot,
    depth: u32,
    add_root_to_remset: bool,
) -> (IncsState, State, Option<ObjectReference>) {
    let s1 = slot_read(slot_traced(s, kind, slot, depth), kind, slot);
    match s1.load(slot) {
        None => (p, s1, None),
        Some(o) => {
            let s2 = target_traced(s1, kind, slot, depth, o);
            let (p3, s3, new) = inc_processed(p, s2, o, depth);
            let s4 = if slot.type_tag && s3.has_rc(new) {
                s3.with_stuck(new)
            } else {
                s3
            };
            let s5 = if kind != EDGE_KIND_ROOT || add_root_to_remset {
                reference_recorded(p3, s4, s4.in_defrag(slot.address), slot, new)
            } else {
                s4
            };
            let s6 = if new != o {
                s5.with_word(slot.address, new.address)
            } else {
                s5
            };
            (p3, s6, Some(new))
        },
    }
}

/// After the increments of slots, in order; the result is where the objects of
/// the slots are.
pub open spec fn slots_processed(
    p: IncsState,
    s: State,
    kind: u8,
    slots: Seq<Slot>,
    depth: u32,
    add_root_to_remset: bool,
) -> (IncsState, State, Seq<ObjectReference>)
    decreases slots.len(),
{
    if slots.len() == 0 {
        (p, s, Seq::empty())
    } else {
        let (p1, s1, objects) = slots_processed(
            p,
            s,
            kind,
            slots.drop_last(),
            depth,
            add_root_to_remset,
        );
        let (p2, s2, object) = slot_processed(
            p1,
            s1,
            kind,
            slots.last(),
            depth,
            add_root_to_remset,
        );
        (
            p2,
            s2,
            match object {
                Some(o) => objects.push(o),
                None => objects,
            },
        )
    }
}

/// After the increments of slices, in order.
pub open spec fn slices_processed(
    p: IncsState,
    s: State,
    kind: u8,
    slices: Seq<MemorySlice>,
    depth: u32,
) -> (IncsState, State)
    decreases slices.len(),
{
    if slices.len() == 0 {
        (p, s)
    } else {
        let (p1, s1) = slices_processed(p, s, kind, slices.drop_last(), depth);
        let (p2, s2, _) = slots_processed(p1, s1, kind, slices.last().slots(), depth, false);
        (p2, s2)
    }
}

} // verus!
