//! Processing a packet of increments.

use crate::args::round_down;
use crate::args::round_up;
use crate::increments::child_scanned;
use crate::increments::children_scanned;
use crate::increments::claimed_kept;
use crate::increments::evacuated;
use crate::increments::fresh_incs;
use crate::increments::inc_processed;
use crate::increments::inc_traced;
use crate::increments::incremented_in_place;
use crate::increments::incs_flushed;
use crate::increments::moved_or_kept;
use crate::increments::nursery_object_scanned;
use crate::increments::object_copied;
use crate::increments::overflowed;
use crate::increments::promoted;
use crate::increments::rearmed;
use crate::increments::reference_recorded;
use crate::increments::slice_added;
use crate::increments::slices_added;
use crate::increments::slot_added;
use crate::increments::slot_processed;
use crate::increments::slot_read;
use crate::increments::slots_processed;
use crate::increments::stays;
use crate::increments::target_traced;
use crate::increments::LARGE_ARRAY_LEN;
use crate::increments::MAX_COPY_DEPTH;
use crate::object::Field;
use crate::object::MemorySlice;
use crate::object::ObjectKind;
use crate::object::ObjectReference;
use crate::object::Slot;
use crate::packets::ProcessIncs;
use crate::packets::Work;
use crate::packets::EDGE_KIND_MATURE;
use crate::packets::EDGE_KIND_NURSERY;
use crate::packets::EDGE_KIND_ROOT;
use crate::plan::has_rc_metadata;
use crate::plan::Lxr;
use crate::queue::VectorQueue;
use crate::referrers::report_corruption;
use crate::state::Destination;
use crate::state::Effect;
use crate::state::Event;
use crate::state::Forwarding;
use crate::state::Pause;
use crate::state::State;
use crate::state::WorkBucketStage;
use crate::state::UNLOGGED_VALUE;
use crate::stats::count_increment;
use crate::stats::note_promotion;
use crate::trace::is_rc_traced_addr;
use crate::trace::reported_rc;
use crate::trace::trace;
use vstd::prelude::*;

verus! {

impl<const KIND: u8> ProcessIncs<KIND> {
    /// A packet without increments.
    fn __default() -> (packet: Self)
        ensures
            packet@ == fresh_incs(Seq::empty()),
    {
        ProcessIncs {
            incs: Vec::new(),
            inc_slices: Vec::new(),
            new_incs: VectorQueue::default(),
            new_inc_slices: VectorQueue::default(),
            new_incs_count: 0,
            pause: Pause::RefCount,
            in_cm: false,
            no_evac: false,
            root_kind: None,
            depth: 1,
            copied_sizes: Vec::new(),
        }
    }

    /// A packet with increments for the slots `incs`.
    pub fn new(incs: Vec<Slot>) -> (packet: Self)
        ensures
            packet@ == fresh_incs(incs@),
            forall|s: State| s.wf() ==> #[trigger] packet@.wf(s),
    {
        let mut packet: Self = Self::__default();
        packet.incs = incs;
        packet
    }

    /// Queues a new increment.
    pub fn add_new_slot(&mut self, lxr: &mut Lxr, s: Slot)
        requires
            old(lxr)@.wf(),
            old(self)@.wf(old(lxr)@),
        ensures
            (final(self)@, final(lxr)@) == slot_added(old(self)@, old(lxr)@, s),
            final(lxr)@.wf(),
            final(self)@.wf(final(lxr)@),
    {
        self.new_incs.push(s);
        self.new_incs_count = self.new_incs_count + 1;
        proof {
            assert(self@.inc_slices == old(self)@.inc_slices);
            assert(self@.new_inc_slices == old(self)@.new_inc_slices);
        }
        if self.new_incs_count as usize >= lxr.args.buffer_size {
            self.flush(lxr);
        }
    }

    /// Queues new increments for a slice.
    pub fn add_new_slice(&mut self, lxr: &mut Lxr, s: MemorySlice)
        requires
            old(lxr)@.wf(),
            old(self)@.wf(old(lxr)@),
            s.wf(),
            s.len <= u32::MAX,
        ensures
            (final(self)@, final(lxr)@) == slice_added(old(self)@, old(lxr)@, s),
            final(lxr)@.wf(),
            final(self)@.wf(final(lxr)@),
    {
        let len: usize = s.len;
        if len >= lxr.args.buffer_size - self.new_incs_count as usize {
            self.flush(lxr);
        }
        self.new_incs_count = self.new_incs_count + len as u32;
        self.new_inc_slices.push(s);
        if self.new_incs_count as usize >= lxr.args.buffer_size {
            self.flush(lxr);
        }
    }

    /// Hands the new increments to the scheduler.
    pub fn flush(&mut self, lxr: &mut Lxr)
        requires
            old(lxr)@.wf(),
            forall|i: int|
                0 <= i < old(self)@.inc_slices.len() ==> (#[trigger] old(
                    self,
                )@.inc_slices[i]).wf(),
            forall|i: int|
                0 <= i < old(self)@.new_inc_slices.len() ==> (#[trigger] old(
                    self,
                )@.new_inc_slices[i]).wf(),
        ensures
            (final(self)@, final(lxr)@) == incs_flushed(old(self)@, old(lxr)@),
            final(lxr)@.wf(),
            final(self)@.wf(final(lxr)@),
    {
        if !self.new_incs.is_empty() || !self.new_inc_slices.is_empty() {
            let new_incs: Vec<Slot> = self.new_incs.take();
            let new_inc_slices: Vec<MemorySlice> = self.new_inc_slices.take();
            let mut w: ProcessIncs<EDGE_KIND_NURSERY> = ProcessIncs::new(new_incs);
            w.depth = w.depth + 1;
            w.inc_slices = new_inc_slices;
            lxr.submit(
                Destination::Worker(WorkBucketStage::Unconstrained),
                Work::NurseryIncs(w),
            );
        } else {
            proof {
                assert(self.new_incs@ =~= Seq::<Slot>::empty());
                assert(self.new_inc_slices@ =~= Seq::<MemorySlice>::empty());
            }
        }
        self.new_incs_count = 0;
    }

    /// Remembers a reference that leads into a block that is being emptied.
    pub fn record_mature_evac_remset2(
        &mut self,
        lxr: &mut Lxr,
        slot_in_defrag: bool,
        s: Slot,
        o: ObjectReference,
    )
        requires
            old(lxr)@.wf(),
        ensures
            final(self)@ == old(self)@,
            final(lxr)@ == reference_recorded(old(self)@, old(lxr)@, slot_in_defrag, s, o),
            final(lxr)@.wf(),
    {
        if !(lxr.args.rc_mature_evacuation && (self.in_cm || self.pause == Pause::FinalMark)) {
            return;
        }
        if !slot_in_defrag && lxr.in_defrag(o) {
            lxr.request(Effect::RemsetRecord { slot: s, object: o });
        }
    }

    /// Remembers a reference that leads from outside into a block that is being
    /// emptied.
    pub fn record_mature_evac_remset(&mut self, lxr: &mut Lxr, s: Slot, o: ObjectReference)
        requires
            old(lxr)@.wf(),
        ensures
            final(self)@ == old(self)@,
            final(lxr)@ == reference_recorded(
                old(self)@,
                old(lxr)@,
                old(lxr)@.in_defrag(s.address),
                s,
                o,
            ),
            final(lxr)@.wf(),
    {
        if !(lxr.args.rc_mature_evacuation && (self.in_cm || self.pause == Pause::FinalMark)) {
            return;
        }
        let slot_in_defrag: bool = lxr.address_in_defrag(s.address);
        self.record_mature_evac_remset2(lxr, slot_in_defrag, s, o);
    }

    /// Increments an object. Returns whether the count was zero.
    pub fn inc(&self, lxr: &mut Lxr, o: ObjectReference) -> (promoted: bool)
        requires
            old(lxr)@.wf(),
        ensures
            promoted == (old(lxr)@.count(o) == 0),
            final(lxr)@ == inc_traced(old(lxr)@, o),
            final(lxr)@.wf(),
    {
        let result: Result<u8, u8> = lxr.inc(o);
        let gc: usize = lxr.diag.gc_count;
        match result {
            Ok(old) => {
                trace(lxr, o, Event::Inc { gc, object: o.address, old });
                old == 0
            },
            Err(old) => {
                trace(lxr, o, Event::IncStuck { gc, object: o.address, old });
                false
            },
        }
    }

    /// Whether an object has a reference count.
    pub fn object_has_rc_metadata(&self, lxr: &Lxr, o: ObjectReference) -> (counted: bool)
        ensures
            counted == lxr@.has_rc(o),
    {
        has_rc_metadata(lxr, o)
    }

    /// Re-arms the slots of a promoted object.
    fn rearm(&self, lxr: &mut Lxr, o: ObjectReference, los: bool, in_place: bool, size: usize)
        requires
            old(lxr)@.wf(),
            o.address + size + crate::args::ADDRESS_SLACK <= usize::MAX,
        ensures
            final(lxr)@ == rearmed(old(lxr)@, o, los, in_place, size),
            final(lxr)@.wf(),
    {
        proof {
            reveal(rearmed);
        }
        let span: usize = lxr.args.heap_bytes_per_unlog_byte();
        let kind: ObjectKind = lxr.get_kind(o);
        let is_val_array: bool = match kind {
            ObjectKind::ValArray => true,
            _ => false,
        };
        if los {
            if !is_val_array {
                let start: usize = lxr.args.address_to_meta_address(o.address);
                let limit: usize = lxr.args.address_to_meta_address(
                    round_up(o.address + size, span),
                );
                lxr.fill_unlog_bytes(start, limit);
            }
            lxr.store_unlog_bit(o.address, UNLOGGED_VALUE);
        } else if in_place && !is_val_array {
            let step: usize = span * 4;
            let end: usize = o.address + size;
            let aligned_end: usize = round_up(end, step);
            let cursor: usize = round_down(o.address + lxr.args.header_size(), step);
            let meta: usize = lxr.args.address_to_meta_address(cursor);
            let limit: usize = lxr.args.address_to_meta_address(aligned_end);
            lxr.fill_unlog_bytes(meta, limit);
        }
    }

    /// Scans a promoted object.
    pub fn scan_nursery_object(
        &mut self,
        lxr: &mut Lxr,
        o: ObjectReference,
        los: bool,
        in_place_promotion: bool,
        size: usize,
    )
        requires
            old(lxr)@.wf(),
            old(self)@.wf(old(lxr)@),
            o.address + size + crate::args::ADDRESS_SLACK <= usize::MAX,
        ensures
            (final(self)@, final(lxr)@) == nursery_object_scanned(
                old(self)@,
                old(lxr)@,
                o,
                los,
                in_place_promotion,
                size,
            ),
            final(lxr)@.wf(),
            final(self)@.wf(final(lxr)@),
    {
        proof {
            reveal(nursery_object_scanned);
            lemma_rearmed_keeps(lxr@, o, los, in_place_promotion, size);
        }
        let kind: ObjectKind = lxr.get_kind(o);
        let obj_in_defrag: bool = !los && lxr.in_defrag_block(o.address);
        self.rearm(lxr, o, los, in_place_promotion, size);
        match kind {
            ObjectKind::ValArray => {},
            ObjectKind::ObjArray(data) => {
                proof {
                    assert(old(lxr)@.objects.contains_key(o.address));
                    assert(data.wf());
                }
                if data.len > LARGE_ARRAY_LEN {
                    self.add_chunks(lxr, data);
                } else {
                    self.scan_children(lxr, o, obj_in_defrag);
                }
            },
            ObjectKind::Plain => {
                self.scan_children(lxr, o, obj_in_defrag);
            },
        }
    }

    /// Queues new increments for the elements of a large array, in slices that
    /// fill a buffer.
    fn add_chunks(&mut self, lxr: &mut Lxr, data: MemorySlice)
        requires
            old(lxr)@.wf(),
            old(self)@.wf(old(lxr)@),
            data.wf(),
        ensures
            (final(self)@, final(lxr)@) == slices_added(
                old(self)@,
                old(lxr)@,
                data.chunks(old(lxr)@.args.buffer_size as int),
            ),
            final(lxr)@.wf(),
            final(self)@.wf(final(lxr)@),
    {
        let capacity: usize = lxr.args.buffer_size;
        let ghost chunks = data.chunks(capacity as int);
        let mut from: usize = 0;
        let ghost mut done: int = 0;
        proof {
            assert(chunks.take(0) =~= Seq::empty());
            if data.len == 0 {
                lemma_no_chunks(data, capacity as int);
            }
        }
        while from < data.len
            invariant
                lxr@.wf(),
                self@.wf(lxr@),
                data.wf(),
                capacity == old(lxr)@.args.buffer_size,
                lxr@.args == old(lxr)@.args,
                0 < capacity,
                chunks == data.chunks(capacity as int),
                0 <= done <= chunks.len(),
                from <= data.len,
                from == data.len ==> done == chunks.len(),
                from < data.len ==> from == done * capacity,
                (self@, lxr@) == slices_added(old(self)@, old(lxr)@, chunks.take(done)),
            decreases data.len - from,
        {
            let rest: usize = data.len - from;
            let count: usize = if rest < capacity {
                rest
            } else {
                capacity
            };
            proof {
                lemma_chunk(data, capacity as int, done);
                assert(chunks.take(done + 1).drop_last() =~= chunks.take(done));
                assert(chunks.take(done + 1).last() == chunks[done]);
                assert(chunks[done] == data.part(from as int, count as int));
            }
            let chunk = MemorySlice {
                start: data.start + from * data.slot_bytes,
                len: count,
                slot_bytes: data.slot_bytes,
            };
            self.add_new_slice(lxr, chunk);
            from += count;
            proof {
                assert((done + 1) * capacity == done * capacity + capacity) by (nonlinear_arith);
                done = done + 1;
            }
        }
        proof {
            assert(chunks.take(done) =~= chunks);
        }
    }

    /// Looks at the fields of a promoted object.
    fn scan_children(&mut self, lxr: &mut Lxr, o: ObjectReference, obj_in_defrag: bool)
        requires
            old(lxr)@.wf(),
            old(self)@.wf(old(lxr)@),
        ensures
            (final(self)@, final(lxr)@) == children_scanned(
                old(self)@,
                old(lxr)@,
                o,
                obj_in_defrag,
                old(lxr)@.shape(o.address).fields,
            ),
            final(lxr)@.wf(),
            final(self)@.wf(final(lxr)@),
    {
        let fields: Vec<Field> = lxr.get_fields(o);
        let mut i: usize = 0;
        while i < fields.len()
            invariant
                i <= fields.len(),
                lxr@.wf(),
                self@.wf(lxr@),
                (self@, lxr@) == children_scanned(
                    old(self)@,
                    old(lxr)@,
                    o,
                    obj_in_defrag,
                    fields@.take(i as int),
                ),
            decreases fields.len() - i,
        {
            let field: Field = fields[i];
            self.scan_child(lxr, o, obj_in_defrag, field.slot);
            i += 1;
            proof {
                assert(fields@.take(i as int).drop_last() =~= fields@.take(i - 1));
                assert(fields@.take(i as int).last() == fields@[i - 1]);
            }
        }
        proof {
            assert(fields@.take(i as int) =~= fields@);
        }
    }

    /// Looks at a slot of a promoted object.
    fn scan_child(
        &mut self,
        lxr: &mut Lxr,
        o: ObjectReference,
        obj_in_defrag: bool,
        slot: Slot,
    )
        requires
            old(lxr)@.wf(),
            old(self)@.wf(old(lxr)@),
        ensures
            (final(self)@, final(lxr)@) == child_scanned(
                old(self)@,
                old(lxr)@,
                o,
                obj_in_defrag,
                slot,
            ),
            final(lxr)@.wf(),
            final(self)@.wf(final(lxr)@),
    {
        proof {
            reveal(child_scanned);
        }
        let target: ObjectReference = match lxr.load(slot) {
            Some(target) => target,
            None => {
                return;
            },
        };
        let gc: usize = lxr.diag.gc_count;
        if lxr.diag.rc_trace {
            if !lxr.debug_object_tag_is_valid(target) {
                let tag: usize = lxr.tag_word(target.address, 0);
                let number: usize = lxr.diag.corrupt_count;
                report_corruption(
                    lxr,
                    target,
                    Event::CorruptChild {
                        gc,
                        number,
                        child: target.address,
                        tag,
                        slot: slot.address,
                        parent: o.address,
                    },
                );
            }
        }
        if !self.object_has_rc_metadata(lxr, target) {
            trace(
                lxr,
                target,
                Event::IncPromoSkip {
                    gc,
                    object: target.address,
                    parent: o.address,
                    slot: slot.address,
                },
            );
            return;
        }
        let rc: u8 = lxr.count(target);
        if rc == 0 {
            trace(
                lxr,
                target,
                Event::IncPromo {
                    gc,
                    object: target.address,
                    parent: o.address,
                    slot: slot.address,
                },
            );
            self.add_new_slot(lxr, slot);
        } else {
            if rc != lxr.args.max_ref_count {
                trace(
                    lxr,
                    target,
                    Event::IncPromoDirect {
                        gc,
                        object: target.address,
                        parent: o.address,
                        slot: slot.address,
                        rc,
                    },
                );
                let _ = lxr.inc(target);
            }
            self.record_mature_evac_remset2(lxr, obj_in_defrag, slot, target);
        }
    }

    /// Makes an object mature.
    pub fn promote(
        &mut self,
        lxr: &mut Lxr,
        o: ObjectReference,
        copied: bool,
        los: bool,
        depth: u32,
    )
        requires
            old(lxr)@.wf(),
            old(self)@.wf(old(lxr)@),
            o.address + old(lxr)@.shape(o.address).size + crate::args::ADDRESS_SLACK
                <= usize::MAX,
        ensures
            (final(self)@, final(lxr)@) == promoted(
                old(self)@,
                old(lxr)@,
                o,
                copied,
                los,
                depth,
            ),
            final(lxr)@.wf(),
            final(self)@.wf(final(lxr)@),
    {
        proof {
            reveal(promoted);
        }
        note_promotion(lxr, o, copied, los, depth);
        let size: usize = lxr.get_size(o);
        if !los {
            let block: usize = lxr.args.block_containing(o.address);
            if !copied && lxr.is_nursery_block(block) {
                lxr.request(Effect::InPlacePromoted { block });
            }
            lxr.request(Effect::PromoteWithSize { object: o, size });
            if copied {
                self.copied_sizes.push(size);
            }
        }
        proof {
            assert(self@.inc_slices == old(self)@.inc_slices);
            assert(self@.new_inc_slices == old(self)@.new_inc_slices);
        }
        self.scan_nursery_object(lxr, o, los, !copied, size);
    }

    /// Whether an object is not evacuated.
    pub fn dont_evacuate(&self, lxr: &Lxr, o: ObjectReference, los: bool) -> (keep: bool)
        requires
            lxr@.wf(),
        ensures
            keep == stays(lxr@, o, los),
    {
        if los {
            return true;
        }
        if !lxr.is_managed(o) {
            return true;
        }
        // Skip mature objects.
        if lxr.count(o) != 0 {
            return true;
        }
        // Skip recycled lines.
        if !lxr.is_nursery_block(lxr.args.block_containing(o.address)) {
            return true;
        }
        if lxr.get_size(o) >= lxr.args.max_young_evac_size {
            return true;
        }
        false
    }

    /// Increments an object that stays where it is.
    fn increment_in_place(&mut self, lxr: &mut Lxr, o: ObjectReference, los: bool, depth: u32)
        requires
            old(lxr)@.wf(),
            old(self)@.wf(old(lxr)@),
            old(lxr)@.has_rc(o),
        ensures
            (final(self)@, final(lxr)@) == incremented_in_place(
                old(self)@,
                old(lxr)@,
                o,
                los,
                depth,
            ),
            final(lxr)@.wf(),
            final(self)@.wf(final(lxr)@),
    {
        proof {
            lemma_counted_object_fits(lxr@, o);
        }
        if self.inc(lxr, o) {
            self.promote(lxr, o, false, los, depth);
        }
    }

    /// Copies a claimed object, and increments and promotes the copy.
    fn evacuate(&mut self, lxr: &mut Lxr, o: ObjectReference, new: ObjectReference, depth: u32)
        requires
            old(lxr)@.wf(),
            old(self)@.wf(old(lxr)@),
            old(lxr)@.shape(o.address).size <= old(lxr)@.args.max_young_evac_size,
            o.address + old(lxr)@.shape(o.address).size + crate::args::ADDRESS_SLACK
                <= usize::MAX,
            0 < new.address,
            new.address + old(lxr)@.args.max_young_evac_size + crate::args::ADDRESS_SLACK
                <= usize::MAX,
        ensures
            (final(self)@, final(lxr)@) == evacuated(old(self)@, old(lxr)@, o, new, depth),
            final(lxr)@.wf(),
            final(self)@.wf(final(lxr)@),
    {
        lxr.forward_object(o, new);
        self.inc(lxr, new);
        proof {
            lemma_copy_fits(old(lxr)@, o, new);
        }
        self.promote(lxr, new, true, false, depth);
    }

    /// Keeps a claimed object for which there is no room, and stops evacuation.
    fn give_up_evacuation(&mut self, lxr: &mut Lxr, o: ObjectReference, los: bool, depth: u32)
        requires
            old(lxr)@.wf(),
            old(self)@.wf(old(lxr)@),
            o.address + old(lxr)@.shape(o.address).size + crate::args::ADDRESS_SLACK
                <= usize::MAX,
        ensures
            (final(self)@, final(lxr)@) == overflowed(old(self)@, old(lxr)@, o, los, depth),
            final(lxr)@.wf(),
            final(self)@.wf(final(lxr)@),
    {
        lxr.log(Event::ToSpaceOverflow);
        self.inc(lxr, o);
        lxr.set_forwarding(o, Forwarding::Untouched);
        self.promote(lxr, o, false, los, depth);
        let ghost s1 = lxr@;
        lxr.no_evac = true;
        let ghost p1 = self@;
        self.no_evac = true;
        proof {
            assert(lxr@.copies == s1.copies);
            assert(lxr@.work == s1.work);
            assert(lxr@.objects == s1.objects);
            assert(lxr@.counts == s1.counts);
            assert(self@.inc_slices == p1.inc_slices);
            assert(self@.new_inc_slices == p1.new_inc_slices);
        }
    }

    /// Keeps a claimed object that is not to be copied.
    fn keep(&mut self, lxr: &mut Lxr, o: ObjectReference, los: bool, depth: u32)
        requires
            old(lxr)@.wf(),
            old(self)@.wf(old(lxr)@),
            o.address + old(lxr)@.shape(o.address).size + crate::args::ADDRESS_SLACK
                <= usize::MAX,
        ensures
            (final(self)@, final(lxr)@) == claimed_kept(old(self)@, old(lxr)@, o, los, depth),
            final(lxr)@.wf(),
            final(self)@.wf(final(lxr)@),
    {
        let promoted: bool = self.inc(lxr, o);
        lxr.set_forwarding(o, Forwarding::Untouched);
        if promoted {
            self.promote(lxr, o, false, los, depth);
        }
    }

    /// Claims an object that may be evacuated, and increments it: where another
    /// worker leaves it, in its copy, or in place. Returns where the object is.
    pub fn move_or_keep(
        &mut self,
        lxr: &mut Lxr,
        o: ObjectReference,
        los: bool,
        depth: u32,
    ) -> (new: ObjectReference)
        requires
            old(lxr)@.wf(),
            old(self)@.wf(old(lxr)@),
            old(lxr)@.has_rc(o),
            old(lxr)@.shape(o.address).size <= old(lxr)@.args.max_young_evac_size,
        ensures
            (final(self)@, final(lxr)@, new) == moved_or_kept(
                old(self)@,
                old(lxr)@,
                o,
                los,
                depth,
            ),
            final(lxr)@.wf(),
            final(self)@.wf(final(lxr)@),
    {
        proof {
            reveal(moved_or_kept);
            lemma_counted_object_fits(lxr@, o);
        }
        let status: Forwarding = lxr.forwarding_of(o);
        if status != Forwarding::Untouched {
            // The object is moved to a new location.
            lxr.await_claim(o);
            let new: ObjectReference = match lxr.forwarding_of(o) {
                Forwarding::Forwarded(new) => new,
                _ => o,
            };
            self.inc(lxr, new);
            return new;
        }
        lxr.set_forwarding(o, Forwarding::BeingForwarded(None));
        let is_nursery: bool = lxr.count(o) == 0;
        let copy_depth_reached: bool = lxr.args.inc_max_copy_depth && depth > MAX_COPY_DEPTH;
        if is_nursery && !self.no_evac && !copy_depth_reached {
            match lxr.alloc_copy() {
                Some(new) => {
                    self.evacuate(lxr, o, new, depth);
                    new
                },
                None => {
                    self.give_up_evacuation(lxr, o, los, depth);
                    o
                },
            }
        } else {
            self.keep(lxr, o, los, depth);
            o
        }
    }

    /// Increments an object that a slot refers to. Returns where it is now.
    pub fn process_inc_and_evacuate(
        &mut self,
        lxr: &mut Lxr,
        o: ObjectReference,
        depth: u32,
    ) -> (new: ObjectReference)
        requires
            old(lxr)@.wf(),
            old(self)@.wf(old(lxr)@),
        ensures
            (final(self)@, final(lxr)@, new) == inc_processed(old(self)@, old(lxr)@, o, depth),
            final(lxr)@.wf(),
            final(self)@.wf(final(lxr)@),
    {
        proof {
            reveal(inc_processed);
        }
        if !lxr.is_managed(o) {
            return o;
        }
        // Objects outside the Immix and the large object space live forever and
        // are not counted.
        if !self.object_has_rc_metadata(lxr, o) {
            return o;
        }
        let los: bool = lxr.los.in_space(o);
        if lxr.args.rc_nursery_evacuation && !los && lxr.forwarding_of(o)
            != Forwarding::Untouched {
            lxr.await_claim(o);
            let new: ObjectReference = match lxr.forwarding_of(o) {
                Forwarding::Forwarded(new) => new,
                _ => o,
            };
            count_increment(lxr, new);
            if new == o {
                self.increment_in_place(lxr, o, los, depth);
            } else {
                self.inc(lxr, new);
            }
            return new;
        }
        count_increment(lxr, o);
        if !lxr.args.rc_nursery_evacuation || self.dont_evacuate(lxr, o, los) {
            self.increment_in_place(lxr, o, los, depth);
            return o;
        }
        self.move_or_keep(lxr, o, los, depth)
    }

    /// Reads the object of a slot, and re-arms the slot where it was written: it
    /// is a slot of a mature object in the heap. Slots elsewhere have no unlog
    /// bits.
    pub fn unlog_and_load_rc_object<const K: u8>(&mut self, lxr: &mut Lxr, s: Slot) -> (target:
        Option<ObjectReference>)
        requires
            old(lxr)@.wf(),
        ensures
            target == old(lxr)@.load(s),
            final(self)@ == old(self)@,
            final(lxr)@ == slot_read(old(lxr)@, K, s),
            final(lxr)@.wf(),
    {
        let o: Option<ObjectReference> = lxr.load(s);
        if K == EDGE_KIND_MATURE {
            if lxr.args.contains_address(s.address) {
                lxr.store_unlog_bit(s.address, UNLOGGED_VALUE);
            }
        }
        o
    }

    /// Processes the increment of a slot. Returns where its object is now, or
    /// nothing where the slot is empty.
    #[verifier::rlimit(40)]
    pub fn process_slot<const K: u8>(
        &mut self,
        lxr: &mut Lxr,
        s: Slot,
        depth: u32,
        add_root_to_remset: bool,
    ) -> (object: Option<ObjectReference>)
        requires
            old(lxr)@.wf(),
            old(self)@.wf(old(lxr)@),
        ensures
            (final(self)@, final(lxr)@, object) == slot_processed(
                old(self)@,
                old(lxr)@,
                K,
                s,
                depth,
                add_root_to_remset,
            ),
            final(lxr)@.wf(),
            final(self)@.wf(final(lxr)@),
    {
        proof {
            reveal(slot_processed);
        }
        if lxr.diag.rc_trace && is_rc_traced_addr(lxr, s.address) {
            let gc: usize = lxr.diag.gc_count;
            let loaded: usize = lxr.load_word(s.address);
            let shown: i16 = if loaded == 0 {
                -2
            } else {
                reported_rc(lxr, ObjectReference { address: loaded })
            };
            lxr.log(
                Event::ProcessSlot {
                    gc,
                    slot: s.address,
                    kind: K,
                    loaded,
                    reported_rc: shown,
                    depth,
                },
            );
        }
        let o: ObjectReference = match self.unlog_and_load_rc_object::<K>(lxr, s) {
            Some(o) => o,
            None => {
                return None;
            },
        };
        self.trace_target(lxr, K, s, depth, o);
        let new: ObjectReference = self.process_inc_and_evacuate(lxr, o, depth);
        if s.type_tag && self.object_has_rc_metadata(lxr, new) {
            let _ = lxr.stick(new);
        }
        // Remember the reference of a mature slot, or of a weak root.
        if K != EDGE_KIND_ROOT || add_root_to_remset {
            self.record_mature_evac_remset(lxr, s, new);
        }
        if new != o {
            lxr.store_word(s.address, new.address);
        }
        Some(new)
    }

    /// Traces the object of a slot, and checks its tag.
    fn trace_target(&self, lxr: &mut Lxr, kind: u8, s: Slot, depth: u32, o: ObjectReference)
        requires
            old(lxr)@.wf(),
        ensures
            final(lxr)@ == target_traced(old(lxr)@, kind, s, depth, o),
            final(lxr)@.wf(),
    {
        let gc: usize = lxr.diag.gc_count;
        let rc_before: i16 = reported_rc(lxr, o);
        trace(
            lxr,
            o,
            Event::IncSlot { gc, object: o.address, slot: s.address, kind, rc_before, depth },
        );
        if lxr.diag.rc_trace && !lxr.debug_object_tag_is_valid(o) {
            let number: usize = lxr.diag.corrupt_count;
            let tag: usize = lxr.tag_word(o.address, 0);
            report_corruption(
                lxr,
                o,
                Event::CorruptInc {
                    gc,
                    number,
                    object: o.address,
                    tag,
                    reported_rc: rc_before,
                    from_slot: s,
                    kind,
                    depth,
                },
            );
        }
    }

    /// Processes the increments of slots. For roots, returns where their objects
    /// are, where there are any.
    pub fn process_incs<const K: u8>(
        &mut self,
        lxr: &mut Lxr,
        incs: &Vec<Slot>,
        depth: u32,
        add_root_to_remset: bool,
    ) -> (roots: Option<Vec<ObjectReference>>)
        requires
            old(lxr)@.wf(),
            old(self)@.wf(old(lxr)@),
        ensures
            ({
                let (p, s, objects) = slots_processed(
                    old(self)@,
                    old(lxr)@,
                    K,
                    incs@,
                    depth,
                    K == EDGE_KIND_ROOT && add_root_to_remset,
                );
                &&& final(self)@ == p
                &&& final(lxr)@ == s
                &&& match roots {
                    Some(found) => K == EDGE_KIND_ROOT && objects.len() > 0 && found@ == objects,
                    None => K != EDGE_KIND_ROOT || objects.len() == 0,
                }
            }),
            final(lxr)@.wf(),
            final(self)@.wf(final(lxr)@),
    {
        let record: bool = K == EDGE_KIND_ROOT && add_root_to_remset;
        let mut roots: Vec<ObjectReference> = Vec::new();
        let mut i: usize = 0;
        while i < incs.len()
            invariant
                i <= incs.len(),
                lxr@.wf(),
                self@.wf(lxr@),
                record == (K == EDGE_KIND_ROOT && add_root_to_remset),
                (self@, lxr@, roots@) == slots_processed(
                    old(self)@,
                    old(lxr)@,
                    K,
                    incs@.take(i as int),
                    depth,
                    record,
                ),
            decreases incs.len() - i,
        {
            match self.process_slot::<K>(lxr, incs[i], depth, record) {
                Some(new) => {
                    roots.push(new);
                },
                None => {},
            }
            i += 1;
            proof {
                assert(incs@.take(i as int).drop_last() =~= incs@.take(i - 1));
                assert(incs@.take(i as int).last() == incs@[i - 1]);
            }
        }
        proof {
            assert(incs@.take(i as int) =~= incs@);
        }
        if K == EDGE_KIND_ROOT && roots.len() != 0 {
            Some(roots)
        } else {
            None
        }
    }

    /// Processes the increments of a slice.
    pub fn process_incs_for_obj_array<const K: u8>(
        &mut self,
        lxr: &mut Lxr,
        slice: MemorySlice,
        depth: u32,
    )
        requires
            old(lxr)@.wf(),
            old(self)@.wf(old(lxr)@),
            slice.wf(),
        ensures
            ({
                let (p, s, _) = slots_processed(
                    old(self)@,
                    old(lxr)@,
                    K,
                    slice.slots(),
                    depth,
                    false,
                );
                &&& final(self)@ == p
                &&& final(lxr)@ == s
            }),
            final(lxr)@.wf(),
            final(self)@.wf(final(lxr)@),
    {
        let ghost slots = slice.slots();
        let ghost mut objects: Seq<ObjectReference> = Seq::empty();
        let mut i: usize = 0;
        while i < slice.len
            invariant
                i <= slice.len,
                slice.wf(),
                slots == slice.slots(),
                lxr@.wf(),
                self@.wf(lxr@),
                (self@, lxr@, objects) == slots_processed(
                    old(self)@,
                    old(lxr)@,
                    K,
                    slots.take(i as int),
                    depth,
                    false,
                ),
            decreases slice.len - i,
        {
            let slot: Slot = slice.get(i);
            let object: Option<ObjectReference> = self.process_slot::<K>(lxr, slot, depth, false);
            i += 1;
            proof {
                assert(slots.take(i as int).drop_last() =~= slots.take(i - 1));
                assert(slots.take(i as int).last() == slots[i - 1]);
                objects = match object {
                    Some(o) => objects.push(o),
                    None => objects,
                };
            }
        }
        proof {
            assert(slots.take(i as int) =~= slots);
        }
    }
}

/// An object with a reference count ends well inside the address space.
proof fn lemma_counted_object_fits(s: State, o: ObjectReference)
    requires
        s.wf(),
        s.has_rc(o),
    ensures
        o.address + s.shape(o.address).size + crate::args::ADDRESS_SLACK <= usize::MAX,
{
    if s.objects.contains_key(o.address) {
        assert(s.objects[o.address].wf_at(o.address));
    } else {
        if s.immix.has(o.address) {
            let i = choose|i: int|
                0 <= i < s.immix.ranges.len() && (#[trigger] s.immix.ranges[i]).start <= o.address
                    < s.immix.ranges[i].end;
            assert(s.immix.ranges[i].end <= usize::MAX - crate::args::ADDRESS_SLACK);
        } else {
            let i = choose|i: int|
                0 <= i < s.los.ranges.len() && (#[trigger] s.los.ranges[i]).start <= o.address
                    < s.los.ranges[i].end;
            assert(s.los.ranges[i].end <= usize::MAX - crate::args::ADDRESS_SLACK);
        }
    }
}

/// A copy ends well inside the address space.
proof fn lemma_copy_fits(s: State, o: ObjectReference, new: ObjectReference)
    requires
        s.wf(),
        new.address + s.shape(o.address).size + crate::args::ADDRESS_SLACK <= usize::MAX,
    ensures
        new.address + object_copied(s, o, new).shape(new.address).size
            + crate::args::ADDRESS_SLACK <= usize::MAX,
        object_copied(s, o, new).args == s.args,
{
    reveal(object_copied);
    if !s.objects.contains_key(o.address) && s.objects.contains_key(new.address) {
        assert(s.objects[new.address].wf_at(new.address));
    }
}

/// Re-arming changes nothing but unlog bits.
proof fn lemma_rearmed_keeps(s: State, o: ObjectReference, los: bool, in_place: bool, size: usize)
    ensures
        rearmed(s, o, los, in_place, size) == (State {
            unlog: rearmed(s, o, los, in_place, size).unlog,
            ..s
        }),
{
    reveal(rearmed);
}

/// A chunk of a slice lies in the slice.
proof fn lemma_chunk(data: MemorySlice, size: int, index: int)
    requires
        data.wf(),
        size > 0,
        index >= 0,
        index * size < data.len,
    ensures
        index < data.chunks(size).len(),
        ({
            let rest = data.len - index * size;
            let count = if rest < size {
                rest
            } else {
                size
            };
            &&& data.chunks(size)[index] == data.part(index * size, count)
            &&& data.part(index * size, count).wf()
            &&& data.start + (index * size) * data.slot_bytes <= usize::MAX
            &&& rest <= size ==> index + 1 == data.chunks(size).len()
            &&& rest > size ==> (index + 1) * size < data.len
        }),
{
    let rest = data.len - index * size;
    let n = (data.len + size - 1) / size;
    assert(index * size + size == (index + 1) * size) by (nonlinear_arith);
    assert(index < n) by (nonlinear_arith)
        requires
            n == (data.len + size - 1) / size,
            index * size < data.len,
            size > 0,
    ;
    if rest <= size {
        assert(n == index + 1) by (nonlinear_arith)
            requires
                n == (data.len + size - 1) / size,
                index * size < data.len,
                data.len <= (index + 1) * size,
                size > 0,
        ;
    }
    let count = if rest < size {
        rest
    } else {
        size
    };
    assert((index * size) * data.slot_bytes + count * data.slot_bytes <= data.len
        * data.slot_bytes) by (nonlinear_arith)
        requires
            index * size + count <= data.len,
            data.slot_bytes >= 0,
    ;
    assert((index * size) * data.slot_bytes >= 0) by (nonlinear_arith)
        requires
            index >= 0,
            size > 0,
            data.slot_bytes >= 0,
    ;
    assert(count * data.slot_bytes >= 0) by (nonlinear_arith)
        requires
            count >= 0,
            data.slot_bytes >= 0,
    ;
}

/// An empty slice has no chunks.
proof fn lemma_no_chunks(data: MemorySlice, size: int)
    requires
        data.len == 0,
        size > 0,
    ensures
        data.chunks(size).len() == 0,
{
    assert((size - 1) / size == 0) by (nonlinear_arith)
        requires
            size > 0,
    ;
}

} // verus!
