//! What holds of the barriers of many slots at once, and of what barriers hand over.

use crate::barrier::barrier_flushed;
use crate::barrier::exchange_recorded;
use crate::barrier::node_enqueued;
use crate::barrier::nodes_enqueued;
use crate::barrier::object_write_recorded;
use crate::barrier::old_value_recorded;
use crate::barrier::old_values_flushed;
use crate::barrier::region_recorded;
use crate::barrier::slot_recorded;
use crate::barrier::slots_flushed;
use crate::barrier::weak_reference_loaded;
use crate::barrier::weak_refs_flushed;
use crate::barrier::write_recorded;
use crate::barrier::BarrierState;
use crate::laws::arming::each_slot_has_its_own_bit;
use crate::laws::barrier::as_list;
use crate::laws::barrier::barrier_logs;
use crate::laws::barrier::decs_in_work;
use crate::laws::barrier::lemma_submitted;
use crate::laws::barrier::quick_region_check_is_sound;
use crate::laws::barrier::recorded_old_values;
use crate::laws::barrier::recorded_slots;
use crate::laws::barrier::snapshot_in_work;
use crate::laws::barrier::write_barrier_frame;
use crate::laws::barrier::write_barrier_records;
use crate::laws::barrier::write_is_recorded_once;
use crate::laws::copying::slot_width;
use crate::laws::roots::loaded;
use crate::logging::lemma_stored_bit;
use crate::object::Field;
use crate::object::MemorySlice;
use crate::object::ObjectReference;
use crate::object::Slot;
use crate::state::Destination;
use crate::state::Pause;
use crate::state::State;
use crate::state::SubmissionView;
use crate::state::WorkBucketStage;
use crate::state::WorkView;
use crate::state::LOGGED_VALUE;
use crate::state::UNLOGGED_VALUE;
use vstd::prelude::*;

verus! {

// Which slots are recorded.

/// Whether `address` lies in the managed heap.
pub open spec fn in_managed_heap(s: State, address: usize) -> bool {
    s.args.heap_start <= address && address < s.args.heap_end
}

/// Whether a write to the slot is to be recorded: the slot is armed, or lies outside
/// the heap, where there are no unlog bits.
pub open spec fn fires(s: State, slot: Slot) -> bool {
    !in_managed_heap(s, slot.address) || s.logging_state(slot.address) == UNLOGGED_VALUE
}

/// The slots whose writes are to be recorded, in order.
pub open spec fn firing(s: State, slots: Seq<Slot>) -> Seq<Slot>
    decreases slots.len(),
{
    if slots.len() == 0 {
        Seq::empty()
    } else if fires(s, slots.last()) {
        firing(s, slots.drop_last()).push(slots.last())
    } else {
        firing(s, slots.drop_last())
    }
}

/// No two of the slots are the same place in memory.
pub open spec fn distinct(s: State, slots: Seq<Slot>) -> bool {
    forall|i: int, j: int|
        0 <= i < j < slots.len() ==> (#[trigger] slots[i]).address as int / slot_width(s) != (
        #[trigger] slots[j]).address as int / slot_width(s)
}

/// The unlog bit of an address is one of the two values.
proof fn lemma_two_values(s: State, a: usize)
    ensures
        s.logging_state(a) == LOGGED_VALUE || s.logging_state(a) == UNLOGGED_VALUE,
{
    let byte = s.unlog_byte(s.args.meta_address(a));
    let bit = s.args.unlog_bit(a);
    assert((byte >> bit) & 1 == 0 || (byte >> bit) & 1 == 1) by (bit_vector);
}

/// The barrier of one write leaves the unlog bits of other slots alone.
proof fn lemma_other_bits(b: BarrierState, s: State, slot: Slot, other: usize)
    requires
        s.args.wf(),
        slot.address as int / slot_width(s) != other as int / slot_width(s),
    ensures
        node_enqueued(b, s, slot).1.logging_state(other) == s.logging_state(other),
{
    let (_, t, _) = node_enqueued(b, s, slot);
    let logged = s.with_logging_state(slot.address, LOGGED_VALUE);
    write_is_recorded_once(b, s, slot, s.load(slot));
    write_is_recorded_once(b, logged, slot, s.load(slot));
    each_slot_has_its_own_bit(s.args, slot.address, other);
    lemma_stored_bit(s, slot.address, LOGGED_VALUE, other);
    assert(t.unlog == s.unlog || t.unlog == logged.unlog);
    assert(t.logging_state(other) == s.logging_state(other) || t.logging_state(other)
        == logged.logging_state(other));
}

/// The barrier of many slots, each a place of its own, records just the writes that
/// are to be recorded: the slots that are armed or lie outside the heap, from the first
/// to the last, in order, and the values that they hold. Every slot in the heap is logged
/// afterwards. The unlog bits of other slots, memory and counts stay as they are.
pub proof fn every_slot_is_recorded(
    b: BarrierState,
    s: State,
    slots: Seq<Slot>,
    i: int,
    other: usize,
)
    requires
        s.args.wf(),
        distinct(s, slots),
    ensures
        ({
            let (c, t) = nodes_enqueued(b, s, slots);
            &&& recorded_slots(c, t) == recorded_slots(b, s) + firing(s, slots)
            &&& recorded_old_values(c, t) == recorded_old_values(b, s) + loaded(
                s,
                firing(s, slots),
            )
            &&& 0 <= i < slots.len() && in_managed_heap(s, slots[i].address) ==> t.logging_state(
                slots[i].address,
            ) == LOGGED_VALUE
            &&& (forall|j: int|
                0 <= j < slots.len() ==> (#[trigger] slots[j]).address as int / slot_width(s)
                    != other as int / slot_width(s)) ==> t.logging_state(other)
                == s.logging_state(other)
            &&& c.refs == b.refs
            &&& t == (State {
                unlog: t.unlog,
                work: t.work,
                inc_buffer_size: t.inc_buffer_size,
                ..s
            })
        }),
    decreases slots.len(),
{
    if slots.len() == 0 {
        assert(recorded_slots(b, s) + firing(s, slots) =~= recorded_slots(b, s));
        assert(recorded_old_values(b, s) + loaded(s, firing(s, slots)) =~= recorded_old_values(
            b,
            s,
        ));
    } else {
        let before = slots.drop_last();
        let slot = slots.last();
        let n = slots.len() - 1;
        assert(distinct(s, before)) by {
            assert forall|x: int, y: int| 0 <= x < y < before.len() implies (
            #[trigger] before[x]).address as int / slot_width(s) != (
            #[trigger] before[y]).address as int / slot_width(s) by {
                assert(slots[x] == before[x] && slots[y] == before[y]);
            }
        }
        every_slot_is_recorded(b, s, before, i, other);
        every_slot_is_recorded(b, s, before, i, slot.address);
        let (b1, s1) = nodes_enqueued(b, s, before);
        assert forall|j: int| 0 <= j < before.len() implies (#[trigger] before[j]).address as int
            / slot_width(s) != slot.address as int / slot_width(s) by {
            assert(slots[j] == before[j]);
            assert(slots[n] == slot);
        }
        assert(s1.logging_state(slot.address) == s.logging_state(slot.address));
        assert(s1.load(slot) == s.load(slot));
        lemma_two_values(s, slot.address);
        let (c, t, _) = node_enqueued(b1, s1, slot);
        write_barrier_records(b1, s1, slot);
        write_barrier_frame(b1, s1, slot);
        barrier_logs(b1, s1, slot, slot.address);
        write_is_recorded_once(b1, s1, slot, s1.load(slot));
        write_is_recorded_once(
            b1,
            s1.with_logging_state(slot.address, LOGGED_VALUE),
            slot,
            s1.load(slot),
        );
        let old_firing = firing(s, before);
        if fires(s, slot) {
            assert(firing(s, slots).drop_last() =~= old_firing);
            assert((recorded_slots(b, s) + old_firing).push(slot) =~= recorded_slots(b, s)
                + firing(s, slots));
            assert(recorded_old_values(b, s) + loaded(s, old_firing) + as_list(s.load(slot))
                =~= recorded_old_values(b, s) + loaded(s, firing(s, slots)));
        }
        if 0 <= i < slots.len() && in_managed_heap(s, slots[i].address) {
            if i < n {
                assert(before[i] == slots[i]);
                barrier_logs(b1, s1, slot, slots[i].address);
            }
        }
        if forall|j: int|
            0 <= j < slots.len() ==> (#[trigger] slots[j]).address as int / slot_width(s) != other as int
                / slot_width(s) {
            assert(slots[n] == slot);
            assert forall|j: int| 0 <= j < before.len() implies (
            #[trigger] before[j]).address as int / slot_width(s) != other as int / slot_width(
                s,
            ) by {
                assert(slots[j] == before[j]);
            }
            lemma_other_bits(b1, s1, slot, other);
        }
    }
}

/// For a single slot the barrier of many does what the barrier of one write does.
pub proof fn one_slot_is_one_write(b: BarrierState, s: State, slot: Slot)
    ensures
        ({
            let (c, t, _) = node_enqueued(b, s, slot);
            nodes_enqueued(b, s, seq![slot]) == (c, t)
        }),
{
    assert(seq![slot].drop_last() =~= Seq::<Slot>::empty());
    assert(nodes_enqueued(b, s, Seq::<Slot>::empty()) == (b, s));
    assert(seq![slot].last() == slot);
}

/// The slots of a region: as many as it is long, each as far behind the one before as a
/// slot is wide, from the start of the region on.
pub proof fn region_has_its_slots(dst: MemorySlice, i: int)
    requires
        dst.wf(),
        0 <= i < dst.len,
    ensures
        dst.slots().len() == dst.len,
        dst.slots()[i].address == dst.start + i * dst.slot_bytes,
        !dst.slots()[i].type_tag,
{
    assert(0 <= i * dst.slot_bytes && i * dst.slot_bytes <= dst.len * dst.slot_bytes)
        by (nonlinear_arith)
        requires
            0 <= i < dst.len,
            0 < dst.slot_bytes,
    ;
}

/// The slots of a region that are a number of machine slots wide are places of their own.
proof fn lemma_region_distinct(s: State, dst: MemorySlice)
    requires
        dst.wf(),
        dst.slot_bytes as int % slot_width(s) == 0,
    ensures
        distinct(s, dst.slots()),
{
    let slots = dst.slots();
    let w = slot_width(s);
    assert forall|i: int, j: int| 0 <= i < j < slots.len() implies (
    #[trigger] slots[i]).address as int / w != (#[trigger] slots[j]).address as int / w by {
        region_has_its_slots(dst, i);
        region_has_its_slots(dst, j);
        let a = slots[i].address as int;
        let b = slots[j].address as int;
        let step = dst.slot_bytes as int;
        assert(step >= w) by (nonlinear_arith)
            requires
                step > 0,
                w > 0,
                step % w == 0,
        ;
        assert(b - a >= step) by (nonlinear_arith)
            requires
                i < j,
                step > 0,
                a == dst.start + i * step,
                b == dst.start + j * step,
        ;
        assert(a / w != b / w) by (nonlinear_arith)
            requires
                b - a >= w,
                w > 0,
        ;
    }
}

/// The barrier of a copy to a region in the heap records every armed slot of the
/// region, the first and the last included, in order, and what these slots hold. All
/// slots of the region are logged afterwards.
pub proof fn copy_records_the_region(b: BarrierState, s: State, dst: MemorySlice, i: int)
    requires
        s.args.wf(),
        dst.wf(),
        0 <= i < dst.len,
        dst.slot_bytes as int % slot_width(s) == 0,
        in_managed_heap(s, dst.start),
        dst.start + dst.len * dst.slot_bytes <= s.args.heap_end,
    ensures
        ({
            let (c, t) = region_recorded(b, s, dst);
            let a = (dst.start + i * dst.slot_bytes) as usize;
            &&& t.logging_state(a) == LOGGED_VALUE
            &&& recorded_slots(c, t) == recorded_slots(b, s) + firing(s, dst.slots())
            &&& recorded_old_values(c, t) == recorded_old_values(b, s) + loaded(
                s,
                firing(s, dst.slots()),
            )
            &&& s.logging_state(a) == UNLOGGED_VALUE ==> firing(s, dst.slots()).contains(
                Slot { address: a, type_tag: false },
            )
        }),
{
    let slots = dst.slots();
    assert forall|k: int| 0 <= k < dst.len implies s.args.in_heap(
        (#[trigger] slots[k]).address,
    ) by {
        region_has_its_slots(dst, k);
        assert(0 <= k * dst.slot_bytes && k * dst.slot_bytes + dst.slot_bytes <= dst.len
            * dst.slot_bytes) by (nonlinear_arith)
            requires
                0 <= k < dst.len,
                0 < dst.slot_bytes,
        ;
    }
    quick_region_check_is_sound(b, s, dst);
    lemma_region_distinct(s, dst);
    every_slot_is_recorded(b, s, slots, i, 0);
    region_has_its_slots(dst, i);
    assert(s.args.in_heap(slots[i].address));
    if s.logging_state(slots[i].address) == UNLOGGED_VALUE {
        lemma_firing(s, slots, i);
    }
}

/// Where no slot anywhere is armed, the barrier of a copy does nothing. Where a slot of the
/// region is armed, every slot of the region is written, in the heap or not.
pub proof fn copy_looks_at_the_region(b: BarrierState, s: State, dst: MemorySlice, i: int)
    requires
        s.args.wf(),
        dst.wf(),
    ensures
        (forall|m: usize| #[trigger] s.unlog_byte(m) == 0) ==> region_recorded(b, s, dst) == (b, s),
        0 <= i < dst.len && s.logging_state((dst.start + i * dst.slot_bytes) as usize)
            == UNLOGGED_VALUE ==> region_recorded(b, s, dst) == nodes_enqueued(
            b,
            s,
            dst.slots(),
        ),
{
    if 0 <= i < dst.len {
        region_has_its_slots(dst, i);
        let a = dst.slots()[i].address;
        if s.logging_state(a) == UNLOGGED_VALUE {
            crate::laws::barrier::lemma_slot_covered(s, dst, i);
            let meta = s.args.meta_address(a);
            if s.unlog_byte(meta) == 0 {
                crate::logging::lemma_zero_byte(s, a);
            }
            assert(crate::barrier::covers_region(s, dst, meta));
        }
    }
}

/// A slot whose write is to be recorded is among those.
proof fn lemma_firing(s: State, slots: Seq<Slot>, i: int)
    requires
        0 <= i < slots.len(),
        fires(s, slots[i]),
    ensures
        firing(s, slots).contains(slots[i]),
    decreases slots.len(),
{
    let list = firing(s, slots);
    if i == slots.len() - 1 {
        assert(list[list.len() - 1] == slots[i]);
    } else {
        let before = slots.drop_last();
        assert(before[i] == slots[i]);
        lemma_firing(s, before, i);
        let k = choose|k: int| 0 <= k < firing(s, before).len() && firing(s, before)[k] == slots[i];
        assert(list[k] == slots[i]);
    }
}

/// The barrier of an object that is about to be written records every armed field of
/// the object, the first and the last included, with what it holds. All fields in the
/// heap are logged afterwards.
pub proof fn object_write_records_every_field(
    b: BarrierState,
    s: State,
    obj: ObjectReference,
    i: int,
)
    requires
        s.args.wf(),
        0 <= i < s.shape(obj.address).fields.len(),
        forall|j: int, k: int|
            0 <= j < k < s.shape(obj.address).fields.len() ==> (#[trigger] s.shape(
                obj.address,
            ).fields[j]).slot.address as int / slot_width(s) != (#[trigger] s.shape(
                obj.address,
            ).fields[k]).slot.address as int / slot_width(s),
    ensures
        ({
            let (c, t) = object_write_recorded(b, s, obj);
            let slots = s.shape(obj.address).fields.map_values(|f: Field| f.slot);
            let slot = s.shape(obj.address).fields[i].slot;
            &&& in_managed_heap(s, slot.address) ==> t.logging_state(slot.address) == LOGGED_VALUE
            &&& recorded_slots(c, t) == recorded_slots(b, s) + firing(s, slots)
            &&& recorded_old_values(c, t) == recorded_old_values(b, s) + loaded(
                s,
                firing(s, slots),
            )
            &&& fires(s, slot) ==> firing(s, slots).contains(slot)
        }),
{
    let fields = s.shape(obj.address).fields;
    let slots = fields.map_values(|f: Field| f.slot);
    assert(crate::barrier::field_slots(fields) =~= slots);
    assert(distinct(s, slots)) by {
        assert forall|x: int, y: int| 0 <= x < y < slots.len() implies (
        #[trigger] slots[x]).address as int / slot_width(s) != (
        #[trigger] slots[y]).address as int / slot_width(s) by {
            assert(slots[x] == fields[x].slot && slots[y] == fields[y].slot);
        }
    }
    every_slot_is_recorded(b, s, slots, i, 0);
    assert(slots[i] == fields[i].slot);
    if fires(s, slots[i]) {
        lemma_firing(s, slots, i);
    }
}

// What barriers hand over.

/// Whether marking needs the old values: it is configured, and goes on or ends in this
/// pause.
pub open spec fn marking_needs_old_values(s: State) -> bool {
    s.phase.cm_enabled && (s.phase.cm_in_progress || s.phase.current_pause == Some(
        Pause::FinalMark,
    ))
}

/// Whether work of a barrier goes where it belongs: written slots to the increments of
/// the pause, old values to its decrements, or after it where decrements are lazy, with
/// the counter of the collection, and what marking must not miss to the end of marking.
/// There is no other work.
pub open spec fn goes_right(s: State, w: SubmissionView) -> bool {
    match w.work {
        WorkView::MatureIncs(packet) => {
            &&& w.to == Destination::Bucket(WorkBucketStage::RCProcessIncs)
            &&& packet.incs.len() > 0
            &&& packet.depth == 1
            &&& packet.root_kind is None
            &&& !packet.no_evac
            &&& packet.inc_slices.len() == 0
            &&& packet.new_incs.len() == 0
            &&& packet.new_inc_slices.len() == 0
            &&& packet.new_incs_count == 0
            &&& packet.copied_sizes.len() == 0
        },
        WorkView::Decs(packet) => {
            &&& w.to == (if s.args.lazy_decrements {
                Destination::PostponedPrioritized
            } else {
                Destination::Bucket(WorkBucketStage::STWRCDecsAndSweep)
            })
            &&& packet.counter.cycle == s.phase.lazy_jobs_cycle
            &&& packet.counter.decs
            &&& packet.new_decs.len() == 0
            &&& packet.mark_objects.len() == 0
            &&& packet.decs is Some <==> packet.decs_arc is None
            &&& packet.decs_arc is Some <==> marking_needs_old_values(s)
        },
        WorkView::ModBufSatb(nodes) => w.to == Destination::Bucket(
            WorkBucketStage::FinishConcurrentWork,
        ) && nodes.len() > 0,
        _ => false,
    }
}

/// The work from before is still there, and new work goes where it belongs. Of the old
/// values that were handed over, marking has heard where it needs them, and of nothing
/// else but weak references.
pub open spec fn work_goes_right(s: State, t: State, weak: Seq<ObjectReference>) -> bool {
    &&& (t.phase, t.args) == (s.phase, s.args)
    &&& s.work.len() <= t.work.len()
    &&& forall|i: int| 0 <= i < s.work.len() ==> #[trigger] t.work[i] == s.work[i]
    &&& forall|i: int| s.work.len() <= i < t.work.len() ==> goes_right(s, #[trigger] t.work[i])
    &&& exists|values: Seq<ObjectReference>|
        {
            &&& decs_in_work(t.work) == #[trigger] (decs_in_work(s.work) + values)
            &&& snapshot_in_work(t.work) == snapshot_in_work(s.work) + weak + (
            if marking_needs_old_values(s) {
                values
            } else {
                Seq::empty()
            })
        }
}

proof fn lemma_right_trans(s: State, t: State, u: State, weak: Seq<ObjectReference>)
    requires
        work_goes_right(s, t, weak),
        work_goes_right(t, u, Seq::empty()),
    ensures
        work_goes_right(s, u, weak),
{
    assert forall|i: int| 0 <= i < s.work.len() implies #[trigger] u.work[i] == s.work[i] by {
        assert(t.work[i] == s.work[i]);
    }
    assert forall|i: int| s.work.len() <= i < u.work.len() implies goes_right(
        s,
        #[trigger] u.work[i],
    ) by {
        if i < t.work.len() {
            assert(u.work[i] == t.work[i]);
        }
    }
    let nothing = Seq::<ObjectReference>::empty();
    let first = choose|values: Seq<ObjectReference>|
        {
            &&& decs_in_work(t.work) == #[trigger] (decs_in_work(s.work) + values)
            &&& snapshot_in_work(t.work) == snapshot_in_work(s.work) + weak + (
            if marking_needs_old_values(s) {
                values
            } else {
                Seq::empty()
            })
        };
    let second = choose|values: Seq<ObjectReference>|
        {
            &&& decs_in_work(u.work) == #[trigger] (decs_in_work(t.work) + values)
            &&& snapshot_in_work(u.work) == snapshot_in_work(t.work) + nothing + (
            if marking_needs_old_values(t) {
                values
            } else {
                Seq::empty()
            })
        };
    let both = first + second;
    assert(decs_in_work(u.work) =~= decs_in_work(s.work) + both);
    if marking_needs_old_values(s) {
        assert(snapshot_in_work(u.work) =~= snapshot_in_work(s.work) + weak + both);
    } else {
        assert(snapshot_in_work(u.work) =~= snapshot_in_work(s.work) + weak + nothing);
    }
}

proof fn lemma_nothing_sent(s: State, t: State)
    requires
        t.work == s.work,
        (t.phase, t.args) == (s.phase, s.args),
    ensures
        work_goes_right(s, t, Seq::empty()),
{
    let nothing = Seq::<ObjectReference>::empty();
    assert(decs_in_work(s.work) + nothing =~= decs_in_work(s.work));
    assert(snapshot_in_work(s.work) + nothing + nothing =~= snapshot_in_work(s.work));
}

proof fn lemma_slots_go_right(b: BarrierState, s: State)
    ensures
        work_goes_right(s, slots_flushed(b, s).1, Seq::empty()),
{
    let (_, t) = slots_flushed(b, s);
    if b.incs.len() > 0 {
        lemma_submitted(s.work, t.work.last());
        assert(t.work =~= s.work.push(t.work.last()));
        let nothing = Seq::<ObjectReference>::empty();
        assert(decs_in_work(s.work) + nothing =~= decs_in_work(s.work));
        assert(snapshot_in_work(s.work) + nothing + nothing =~= snapshot_in_work(s.work));
    } else {
        lemma_nothing_sent(s, t);
    }
}

proof fn lemma_values_go_right(b: BarrierState, s: State)
    ensures
        work_goes_right(s, old_values_flushed(b, s).1, Seq::empty()),
{
    let (_, t) = old_values_flushed(b, s);
    let nothing = Seq::<ObjectReference>::empty();
    if b.decs.len() > 0 {
        if marking_needs_old_values(s) {
            let middle = t.work.drop_last();
            lemma_submitted(s.work, middle.last());
            lemma_submitted(middle, t.work.last());
            assert(middle =~= s.work.push(middle.last()));
            assert(t.work =~= middle.push(t.work.last()));
            assert(snapshot_in_work(t.work) =~= snapshot_in_work(s.work) + nothing + b.decs);
        } else {
            lemma_submitted(s.work, t.work.last());
            assert(t.work =~= s.work.push(t.work.last()));
            assert(snapshot_in_work(t.work) =~= snapshot_in_work(s.work) + nothing + nothing);
        }
        assert(decs_in_work(t.work) == decs_in_work(s.work) + b.decs);
    } else {
        lemma_nothing_sent(s, t);
    }
}

proof fn lemma_refs_go_right(b: BarrierState, s: State)
    ensures
        work_goes_right(s, weak_refs_flushed(b, s).1, b.refs),
{
    let (_, t) = weak_refs_flushed(b, s);
    let nothing = Seq::<ObjectReference>::empty();
    if b.refs.len() > 0 {
        lemma_submitted(s.work, t.work.last());
        assert(t.work =~= s.work.push(t.work.last()));
        assert(snapshot_in_work(t.work) =~= snapshot_in_work(s.work) + b.refs + nothing);
    } else {
        assert(snapshot_in_work(t.work) =~= snapshot_in_work(s.work) + b.refs + nothing);
    }
    assert(decs_in_work(t.work) =~= decs_in_work(s.work) + nothing);
}

proof fn lemma_write_goes_right(
    b: BarrierState,
    s: State,
    slot: Slot,
    old_value: Option<ObjectReference>,
)
    ensures
        work_goes_right(s, write_recorded(b, s, slot, old_value).1, Seq::empty()),
{
    let (b1, s1) = old_value_recorded(b, s, old_value);
    match old_value {
        Some(o) => {
            lemma_values_go_right(BarrierState { decs: b.decs.push(o), ..b }, s);
        },
        None => {},
    }
    if s1.work == s.work {
        lemma_nothing_sent(s, s1);
    }
    let (_, t) = slot_recorded(b1, s1, slot);
    lemma_slots_go_right(BarrierState { incs: b1.incs.push(slot), ..b1 }, s1);
    if t.work == s1.work {
        lemma_nothing_sent(s1, t);
    }
    lemma_right_trans(s, s1, t, Seq::empty());
}

/// What the barrier of a write hands over goes where it belongs, and marking hears of
/// the old values that are handed over where it needs them.
pub proof fn write_hands_over(b: BarrierState, s: State, slot: Slot)
    ensures
        work_goes_right(s, node_enqueued(b, s, slot).1, Seq::empty()),
{
    let logged = s.with_logging_state(slot.address, LOGGED_VALUE);
    lemma_write_goes_right(b, s, slot, s.load(slot));
    lemma_write_goes_right(b, logged, slot, s.load(slot));
    lemma_nothing_sent(s, s);
    lemma_nothing_sent(s, logged);
    lemma_right_trans(
        s,
        logged,
        write_recorded(b, logged, slot, s.load(slot)).1,
        Seq::empty(),
    );
}

/// What the barrier of an exchange hands over goes where it belongs, and marking hears
/// of the old values that are handed over where it needs them.
pub proof fn exchange_hands_over(
    b: BarrierState,
    s: State,
    slot: Slot,
    old_value: Option<ObjectReference>,
)
    ensures
        work_goes_right(s, exchange_recorded(b, s, slot, old_value).1, Seq::empty()),
{
    let logged = s.with_logging_state(slot.address, LOGGED_VALUE);
    lemma_write_goes_right(b, logged, slot, old_value);
    lemma_nothing_sent(s, s);
    lemma_nothing_sent(s, logged);
    lemma_right_trans(
        s,
        logged,
        write_recorded(b, logged, slot, old_value).1,
        Seq::empty(),
    );
}

/// What the barrier of many slots hands over goes where it belongs, and marking hears of
/// the old values that are handed over where it needs them.
pub proof fn writes_hand_over(b: BarrierState, s: State, slots: Seq<Slot>)
    ensures
        work_goes_right(s, nodes_enqueued(b, s, slots).1, Seq::empty()),
    decreases slots.len(),
{
    if slots.len() == 0 {
        lemma_nothing_sent(s, s);
    } else {
        writes_hand_over(b, s, slots.drop_last());
        let (b1, s1) = nodes_enqueued(b, s, slots.drop_last());
        write_hands_over(b1, s1, slots.last());
        lemma_right_trans(s, s1, nodes_enqueued(b, s, slots).1, Seq::empty());
    }
}

/// What a flush hands over goes where it belongs, and marking hears of the weak
/// references that were read, and of the old values where it needs them. The slots that
/// are handed over are counted for the pause.
pub proof fn flush_hands_over(b: BarrierState, s: State)
    ensures
        ({
            let (c, t) = barrier_flushed(b, s);
            &&& work_goes_right(s, t, b.refs)
            &&& t.inc_buffer_size == s.inc_buffer_size.wrapping_add(b.incs.len() as usize)
            &&& t == (State { work: t.work, inc_buffer_size: t.inc_buffer_size, ..s })
        }),
{
    let (b1, s1) = weak_refs_flushed(b, s);
    lemma_refs_go_right(b, s);
    let (b2, s2) = slots_flushed(b1, s1);
    lemma_slots_go_right(b1, s1);
    lemma_right_trans(s, s1, s2, b.refs);
    let (_, t) = old_values_flushed(b2, s2);
    lemma_values_go_right(b2, s2);
    lemma_right_trans(s, s2, t, b.refs);
}

/// Full buffers are handed over, and no others: a buffer that a write does not fill keeps
/// what it has, and after the write no buffer is full. The slots that are handed over are
/// counted for the pause.
pub proof fn full_buffers_are_handed_over(
    b: BarrierState,
    s: State,
    slot: Slot,
    old_value: Option<ObjectReference>,
)
    requires
        s.args.wf(),
        b.incs.len() < s.args.buffer_size,
        b.decs.len() < s.args.buffer_size,
    ensures
        ({
            let (c, t) = write_recorded(b, s, slot, old_value);
            let values = b.decs + as_list(old_value);
            &&& c.incs.len() < s.args.buffer_size
            &&& c.decs.len() < s.args.buffer_size
            &&& b.incs.len() + 1 < s.args.buffer_size ==> {
                &&& c.incs == b.incs.push(slot)
                &&& t.inc_buffer_size == s.inc_buffer_size
            }
            &&& b.incs.len() + 1 == s.args.buffer_size ==> {
                &&& c.incs.len() == 0
                &&& t.work.last().work matches WorkView::MatureIncs(packet) && packet.incs
                    == b.incs.push(slot)
                &&& t.inc_buffer_size == s.inc_buffer_size.wrapping_add(s.args.buffer_size)
            }
            &&& values.len() < s.args.buffer_size ==> c.decs == values
            &&& values.len() < s.args.buffer_size && b.incs.len() + 1 < s.args.buffer_size
                ==> t.work == s.work
            &&& values.len() == s.args.buffer_size ==> c.decs.len() == 0 && decs_in_work(t.work)
                == decs_in_work(s.work) + values
        }),
{
    write_is_recorded_once(b, s, slot, old_value);
    let (c, t) = write_recorded(b, s, slot, old_value);
    let values = b.decs + as_list(old_value);
    match old_value {
        Some(o) => {
            assert(values =~= b.decs.push(o));
        },
        None => {
            assert(values =~= b.decs);
        },
    }
    let (b1, s1) = old_value_recorded(b, s, old_value);
    assert(b1.incs == b.incs);
    if values.len() == s.args.buffer_size {
        assert(c.decs.len() == 0);
        assert(decs_in_work(t.work) =~= recorded_old_values(c, t));
        assert(recorded_old_values(b, s) + as_list(old_value) =~= decs_in_work(s.work) + values);
    }
}

/// A weak reference that is read while marking goes on, to an object that is not
/// marked, is recorded once, for marking; others are not. Nothing else changes.
pub proof fn weak_reference_is_recorded(b: BarrierState, s: State, o: ObjectReference)
    requires
        s.args.wf(),
        b.refs.len() < s.args.buffer_size,
    ensures
        ({
            let (c, t) = weak_reference_loaded(b, s, o);
            let needed = s.phase.cm_in_progress && !s.marks.contains(o.address);
            &&& snapshot_in_work(t.work) + c.refs == snapshot_in_work(s.work) + b.refs + (
            if needed {
                seq![o]
            } else {
                Seq::empty()
            })
            &&& c.refs.len() < s.args.buffer_size
            &&& !needed ==> c == b && t == s
            &&& b.refs.len() + 1 < s.args.buffer_size ==> t == s
            &&& (c.incs, c.decs) == (b.incs, b.decs)
            &&& t == (State { work: t.work, ..s })
            &&& forall|i: int|
                s.work.len() <= i < t.work.len() ==> goes_right(s, #[trigger] t.work[i])
            &&& forall|i: int| 0 <= i < s.work.len() ==> #[trigger] t.work[i] == s.work[i]
        }),
{
    let (c, t) = weak_reference_loaded(b, s, o);
    let needed = s.phase.cm_in_progress && !s.marks.contains(o.address);
    if needed {
        let added = BarrierState { refs: b.refs.push(o), ..b };
        if added.refs.len() >= s.args.buffer_size {
            lemma_refs_go_right(added, s);
            lemma_submitted(s.work, t.work.last());
            assert(t.work =~= s.work.push(t.work.last()));
        }
        assert(snapshot_in_work(t.work) + c.refs =~= snapshot_in_work(s.work) + b.refs + seq![o]);
    } else {
        let nothing = Seq::<ObjectReference>::empty();
        assert(snapshot_in_work(s.work) + b.refs + nothing =~= snapshot_in_work(s.work) + b.refs);
    }
}

} // verus!
