use lxr::args::Args;
use lxr::barrier::log_attempt_result;
use lxr::barrier::LXRFieldBarrierSemantics;
use lxr::object::Field;
use lxr::object::MemorySlice;
use lxr::object::ObjectKind;
use lxr::object::ObjectReference;
use lxr::object::Shape;
use lxr::object::Slot;
use lxr::packets::Work;
use lxr::plan::Lxr;
use lxr::state::Destination;
use lxr::state::LazySweepingJobsCounter;
use lxr::state::Pause;
use lxr::state::Phase;
use lxr::state::WorkBucketStage;
use lxr::state::LOGGED_VALUE;
use lxr::state::UNLOGGED_VALUE;

const HEAP: usize = 0x10000;
const OUTSIDE: usize = 0x90000;

fn collector() -> Lxr {
    let args = Args {
        buffer_size: 4,
        max_ref_count: 7,
        max_young_evac_size: 1024,
        max_pause_millis: None,
        lazy_decrements: false,
        rc_nursery_evacuation: false,
        rc_mature_evacuation: false,
        inc_max_copy_depth: false,
        compressed_pointers: false,
        sanity: false,
        poison_dead_objects: false,
        heap_start: HEAP,
        heap_end: 0x20000,
        unlog_base: 0x100_0000,
        block_bytes: 0x1000,
    };
    let phase = Phase {
        current_pause: None,
        previous_pause: None,
        cm_enabled: true,
        cm_in_progress: false,
        in_sanity: false,
        used_pages: 10,
        collection_reserved_pages: 2,
        total_pages: 100,
        lazy_jobs_cycle: 3,
    };
    assert!(args.is_valid());
    Lxr::new(args, phase)
}

fn slot(address: usize) -> Slot {
    Slot { address, type_tag: false }
}

fn object(address: usize) -> ObjectReference {
    ObjectReference { address }
}

fn arm(lxr: &mut Lxr, address: usize) {
    lxr.store_unlog_bit(address, UNLOGGED_VALUE);
}

fn mature_incs(work: &Work) -> Vec<Slot> {
    match work {
        Work::MatureIncs(packet) => packet.incs.clone(),
        _ => panic!("no packet of increments"),
    }
}

fn decs(work: &Work) -> Vec<ObjectReference> {
    match work {
        Work::Decs(packet) => match (&packet.decs, &packet.decs_arc) {
            (Some(decs), None) => decs.clone(),
            (None, Some(decs)) => decs.to_vec(),
            _ => panic!("no decrements"),
        },
        _ => panic!("no packet of decrements"),
    }
}

fn satb(work: &Work) -> Vec<ObjectReference> {
    match work {
        Work::ModBufSatb(nodes) => nodes.clone(),
        Work::ModBufSatbShared(nodes) => nodes.to_vec(),
        _ => panic!("no nodes"),
    }
}

#[test]
fn first_write_is_recorded_with_the_old_value() {
    let mut lxr = collector();
    let mut barrier = LXRFieldBarrierSemantics::new();
    arm(&mut lxr, HEAP + 8);
    lxr.store_word(HEAP + 8, 0x10100);
    assert!(barrier.enqueue_node(&mut lxr, None, slot(HEAP + 8), None));
    assert_eq!(lxr.load_unlog_bit(HEAP + 8), LOGGED_VALUE);
    barrier.flush(&mut lxr);
    assert_eq!(lxr.work.len(), 2);
    assert_eq!(lxr.work[0].to, Destination::Bucket(WorkBucketStage::RCProcessIncs));
    assert_eq!(mature_incs(&lxr.work[0].work), vec![slot(HEAP + 8)]);
    assert_eq!(lxr.work[1].to, Destination::Bucket(WorkBucketStage::STWRCDecsAndSweep));
    assert_eq!(decs(&lxr.work[1].work), vec![object(0x10100)]);
    assert_eq!(lxr.inc_buffer_size, 1);
}

#[test]
fn later_writes_to_a_logged_slot_are_not_recorded() {
    let mut lxr = collector();
    let mut barrier = LXRFieldBarrierSemantics::new();
    arm(&mut lxr, HEAP);
    arm(&mut lxr, HEAP + 8);
    assert!(barrier.enqueue_node(&mut lxr, None, slot(HEAP), None));
    assert!(barrier.enqueue_node(&mut lxr, None, slot(HEAP + 8), None));
    assert!(!barrier.enqueue_node(&mut lxr, None, slot(HEAP), None));
    barrier.object_reference_write_post_cmpswap(
        &mut lxr,
        object(HEAP),
        slot(HEAP),
        Some(object(0x10200)),
        None,
    );
    barrier.object_reference_write_slow(&mut lxr, object(HEAP), slot(HEAP + 8), None);
    barrier.flush(&mut lxr);
    assert_eq!(lxr.work.len(), 1);
    assert_eq!(mature_incs(&lxr.work[0].work), vec![slot(HEAP), slot(HEAP + 8)]);
}

#[test]
fn an_empty_slot_is_recorded_without_an_old_value() {
    let mut lxr = collector();
    let mut barrier = LXRFieldBarrierSemantics::new();
    arm(&mut lxr, HEAP);
    barrier.object_reference_write_slow(&mut lxr, object(HEAP), slot(HEAP), Some(object(1)));
    barrier.flush(&mut lxr);
    assert_eq!(lxr.work.len(), 1);
    assert_eq!(mature_incs(&lxr.work[0].work), vec![slot(HEAP)]);
}

#[test]
fn every_write_outside_the_heap_is_recorded() {
    let mut lxr = collector();
    let mut barrier = LXRFieldBarrierSemantics::new();
    lxr.store_word(OUTSIDE, 0x10100);
    assert!(barrier.enqueue_node(&mut lxr, None, slot(OUTSIDE), None));
    assert!(barrier.enqueue_node(&mut lxr, None, slot(OUTSIDE), None));
    assert_eq!(lxr.load_unlog_bit(OUTSIDE), LOGGED_VALUE);
    barrier.flush(&mut lxr);
    assert_eq!(mature_incs(&lxr.work[0].work), vec![slot(OUTSIDE), slot(OUTSIDE)]);
    assert_eq!(decs(&lxr.work[1].work), vec![object(0x10100), object(0x10100)]);
}

#[test]
fn the_heap_ends_before_its_limit() {
    let mut lxr = collector();
    let mut barrier = LXRFieldBarrierSemantics::new();
    assert!(!barrier.enqueue_node(&mut lxr, None, slot(HEAP), None));
    assert!(!barrier.enqueue_node(&mut lxr, None, slot(0x1fff8), None));
    assert!(barrier.enqueue_node(&mut lxr, None, slot(0x20000), None));
    assert!(barrier.enqueue_node(&mut lxr, None, slot(HEAP - 8), None));
}

#[test]
fn an_exchange_is_recorded_with_the_value_of_the_caller() {
    let mut lxr = collector();
    let mut barrier = LXRFieldBarrierSemantics::new();
    arm(&mut lxr, HEAP);
    lxr.store_word(HEAP, 0x10300);
    barrier.object_reference_write_post_cmpswap(
        &mut lxr,
        object(HEAP),
        slot(HEAP),
        Some(object(0x10200)),
        Some(object(0x10300)),
    );
    barrier.object_reference_write_post_cmpswap(
        &mut lxr,
        object(HEAP),
        slot(HEAP),
        Some(object(0x10300)),
        None,
    );
    // Slots outside the heap are left alone.
    barrier.object_reference_write_post_cmpswap(
        &mut lxr,
        object(HEAP),
        slot(OUTSIDE),
        Some(object(0x10400)),
        None,
    );
    barrier.flush(&mut lxr);
    assert_eq!(mature_incs(&lxr.work[0].work), vec![slot(HEAP)]);
    assert_eq!(decs(&lxr.work[1].work), vec![object(0x10200)]);
}

#[test]
fn full_buffers_are_handed_over() {
    let mut lxr = collector();
    let mut barrier = LXRFieldBarrierSemantics::new();
    for i in 0..5 {
        lxr.store_word(OUTSIDE + 8 * i, 0x10000 + 8 * i);
        assert!(barrier.enqueue_node(&mut lxr, None, slot(OUTSIDE + 8 * i), None));
    }
    assert_eq!(lxr.work.len(), 2);
    assert_eq!(decs(&lxr.work[0].work).len(), 4);
    assert_eq!(mature_incs(&lxr.work[1].work).len(), 4);
    assert_eq!(lxr.inc_buffer_size, 4);
    barrier.flush(&mut lxr);
    assert_eq!(lxr.work.len(), 4);
    assert_eq!(mature_incs(&lxr.work[2].work), vec![slot(OUTSIDE + 32)]);
    assert_eq!(decs(&lxr.work[3].work), vec![object(0x10020)]);
    assert_eq!(lxr.inc_buffer_size, 5);
    barrier.flush(&mut lxr);
    assert_eq!(lxr.work.len(), 4);
}

#[test]
fn marking_shares_the_old_values() {
    let mut lxr = collector();
    lxr.phase.cm_in_progress = true;
    let mut barrier = LXRFieldBarrierSemantics::new();
    assert!(barrier.should_create_satb_packets(&lxr));
    lxr.store_word(OUTSIDE, 0x10100);
    barrier.enqueue_node(&mut lxr, None, slot(OUTSIDE), None);
    barrier.flush_decs_and_satb(&mut lxr);
    assert_eq!(lxr.work.len(), 2);
    assert_eq!(lxr.work[0].to, Destination::Bucket(WorkBucketStage::FinishConcurrentWork));
    assert_eq!(satb(&lxr.work[0].work), vec![object(0x10100)]);
    assert_eq!(decs(&lxr.work[1].work), vec![object(0x10100)]);
    match &lxr.work[1].work {
        Work::Decs(packet) => {
            assert!(packet.decs.is_none());
            assert_eq!(packet.counter, LazySweepingJobsCounter { cycle: 3, decs: true });
        }
        _ => panic!("no packet of decrements"),
    }
}

#[test]
fn snapshots_are_kept_while_marking_and_in_its_last_pause() {
    let mut lxr = collector();
    let barrier = LXRFieldBarrierSemantics::new();
    assert!(!barrier.should_create_satb_packets(&lxr));
    lxr.phase.current_pause = Some(Pause::RefCount);
    assert!(!barrier.should_create_satb_packets(&lxr));
    lxr.phase.current_pause = Some(Pause::FinalMark);
    assert!(barrier.should_create_satb_packets(&lxr));
    lxr.phase.cm_enabled = false;
    assert!(!barrier.should_create_satb_packets(&lxr));
}

#[test]
fn lazy_decrements_come_after_the_pause() {
    let mut lxr = collector();
    lxr.args.lazy_decrements = true;
    let mut barrier = LXRFieldBarrierSemantics::new();
    lxr.store_word(OUTSIDE, 0x10100);
    barrier.slow(&mut lxr, None, slot(OUTSIDE), Some(object(0x10100)));
    barrier.flush_decs_and_satb(&mut lxr);
    assert_eq!(lxr.work[0].to, Destination::PostponedPrioritized);
}

#[test]
fn weak_references_are_kept_while_marking() {
    let mut lxr = collector();
    let mut barrier = LXRFieldBarrierSemantics::new();
    barrier.load_weak_reference(&mut lxr, object(0x10100));
    barrier.flush_weak_refs(&mut lxr);
    assert_eq!(lxr.work.len(), 0);
    lxr.phase.cm_in_progress = true;
    lxr.marks.insert(0x10200);
    barrier.load_weak_reference(&mut lxr, object(0x10200));
    barrier.load_weak_reference(&mut lxr, object(0x10100));
    barrier.flush(&mut lxr);
    assert_eq!(lxr.work.len(), 1);
    assert_eq!(satb(&lxr.work[0].work), vec![object(0x10100)]);
    for _ in 0..4 {
        barrier.load_weak_reference(&mut lxr, object(0x10100));
    }
    assert_eq!(lxr.work.len(), 2);
    assert_eq!(satb(&lxr.work[1].work).len(), 4);
}

#[test]
fn a_copy_to_a_logged_region_is_skipped() {
    let mut lxr = collector();
    let mut barrier = LXRFieldBarrierSemantics::new();
    let dst = MemorySlice { start: HEAP, len: 3, slot_bytes: 8 };
    barrier.memory_region_copy_slow(&mut lxr, dst, dst);
    barrier.flush(&mut lxr);
    assert_eq!(lxr.work.len(), 0);
}

#[test]
fn a_copy_records_the_armed_slots_of_a_region() {
    let mut lxr = collector();
    let mut barrier = LXRFieldBarrierSemantics::new();
    let dst = MemorySlice { start: HEAP, len: 3, slot_bytes: 8 };
    arm(&mut lxr, HEAP + 8);
    lxr.store_word(HEAP + 8, 0x10100);
    barrier.memory_region_copy_slow(&mut lxr, dst, dst);
    barrier.flush(&mut lxr);
    assert_eq!(mature_incs(&lxr.work[0].work), vec![slot(HEAP + 8)]);
    assert_eq!(decs(&lxr.work[1].work), vec![object(0x10100)]);
}

#[test]
fn an_armed_neighbour_does_not_change_what_a_copy_records() {
    let mut lxr = collector();
    let mut barrier = LXRFieldBarrierSemantics::new();
    let dst = MemorySlice { start: HEAP, len: 3, slot_bytes: 8 };
    // In the same group of metadata bytes, behind the region.
    arm(&mut lxr, HEAP + 64 * 15);
    barrier.memory_region_copy_slow(&mut lxr, dst, dst);
    barrier.flush(&mut lxr);
    assert_eq!(lxr.work.len(), 0);
    assert_eq!(lxr.load_unlog_bit(HEAP + 64 * 15), UNLOGGED_VALUE);
}

#[test]
fn a_copy_checks_all_groups_of_a_long_region() {
    let mut lxr = collector();
    let mut barrier = LXRFieldBarrierSemantics::new();
    let dst = MemorySlice { start: HEAP, len: 300, slot_bytes: 8 };
    arm(&mut lxr, HEAP + 299 * 8);
    barrier.memory_region_copy_slow(&mut lxr, dst, dst);
    barrier.flush(&mut lxr);
    assert_eq!(mature_incs(&lxr.work[0].work), vec![slot(HEAP + 299 * 8)]);
}

#[test]
fn an_empty_region_records_nothing() {
    let mut lxr = collector();
    let mut barrier = LXRFieldBarrierSemantics::new();
    arm(&mut lxr, HEAP);
    let dst = MemorySlice { start: HEAP, len: 0, slot_bytes: 8 };
    barrier.memory_region_copy_slow(&mut lxr, dst, dst);
    barrier.flush(&mut lxr);
    assert_eq!(lxr.work.len(), 0);
}

#[test]
fn a_probable_write_records_the_armed_fields() {
    let mut lxr = collector();
    let mut barrier = LXRFieldBarrierSemantics::new();
    let fields = vec![
        Field { slot: slot(HEAP), out_of_heap: false },
        Field { slot: slot(HEAP + 8), out_of_heap: false },
        Field { slot: slot(OUTSIDE), out_of_heap: true },
    ];
    lxr.objects.set(
        HEAP,
        Shape {
            size: 32,
            kind: ObjectKind::Plain,
            fields,
            tag_valid: true,
            class_name: String::new(),
        },
    );
    arm(&mut lxr, HEAP + 8);
    barrier.object_probable_write_slow(&mut lxr, object(HEAP));
    barrier.flush(&mut lxr);
    assert_eq!(mature_incs(&lxr.work[0].work), vec![slot(HEAP + 8), slot(OUTSIDE)]);
}

#[test]
fn logging_a_field_succeeds_once() {
    let mut lxr = collector();
    let barrier = LXRFieldBarrierSemantics::new();
    arm(&mut lxr, HEAP);
    lxr.store_word(HEAP, 0x10100);
    assert_eq!(barrier.get_slot_logging_state(&lxr, slot(HEAP)), UNLOGGED_VALUE);
    assert_eq!(
        barrier.log_slot_and_get_old_target(&mut lxr, slot(HEAP)),
        Ok(Some(object(0x10100)))
    );
    assert_eq!(barrier.get_slot_logging_state(&lxr, slot(HEAP)), LOGGED_VALUE);
    assert_eq!(barrier.log_slot_and_get_old_target(&mut lxr, slot(HEAP)), Err(()));
    assert!(!barrier.attempt_to_log_field(&mut lxr, slot(HEAP)));
    arm(&mut lxr, HEAP);
    assert!(barrier.attempt_to_log_field(&mut lxr, slot(HEAP)));
}

#[test]
fn a_lost_race_ends_or_repeats_an_attempt() {
    assert_eq!(log_attempt_result(Ok(UNLOGGED_VALUE)), Some(true));
    assert_eq!(log_attempt_result(Err(LOGGED_VALUE)), Some(false));
    assert_eq!(log_attempt_result(Err(UNLOGGED_VALUE)), None);
}

#[test]
fn unlog_bits_are_independent() {
    for compressed in [false, true] {
        let mut lxr = collector();
        lxr.args.compressed_pointers = compressed;
        let width: usize = if compressed { 4 } else { 8 };
        for i in 0..20 {
            if i % 3 == 0 {
                arm(&mut lxr, HEAP + i * width);
            }
        }
        lxr.store_unlog_bit(HEAP + 3 * width, LOGGED_VALUE);
        for i in 0..20 {
            let expected = if i % 3 == 0 && i != 3 { UNLOGGED_VALUE } else { LOGGED_VALUE };
            assert_eq!(lxr.load_unlog_bit(HEAP + i * width), expected);
        }
    }
}
