use lxr::args::Args;
use lxr::decs::lower;
use lxr::object::Field;
use lxr::object::ObjectKind;
use lxr::object::ObjectReference;
use lxr::object::Shape;
use lxr::object::Slot;
use lxr::packets::ProcessDecs;
use lxr::packets::ProcessIncs;
use lxr::packets::Work;
use lxr::packets::EDGE_KIND_MATURE;
use lxr::plan::Lxr;
use lxr::state::AddressRange;
use lxr::state::Destination;
use lxr::state::Effect;
use lxr::state::Forwarding;
use lxr::state::LazySweepingJobsCounter;
use lxr::state::Pause;
use lxr::state::Phase;
use lxr::state::WorkBucketStage;
use std::sync::Arc;

const IMMIX: usize = 0x10000;
const LOS: usize = 0x18000;
const IMMORTAL: usize = 0x1c000;

fn collector() -> Lxr {
    let args = Args {
        buffer_size: 4,
        max_ref_count: 7,
        max_young_evac_size: 1024,
        max_pause_millis: None,
        lazy_decrements: false,
        rc_nursery_evacuation: false,
        rc_mature_evacuation: false,
        inc_max_copy_depth: false,
        compressed_pointers: false,
        sanity: false,
        poison_dead_objects: false,
        heap_start: IMMIX,
        heap_end: 0x20000,
        unlog_base: 0x100_0000,
        block_bytes: 0x1000,
    };
    let phase = Phase {
        current_pause: Some(Pause::RefCount),
        previous_pause: None,
        cm_enabled: true,
        cm_in_progress: false,
        in_sanity: false,
        used_pages: 10,
        collection_reserved_pages: 2,
        total_pages: 100,
        lazy_jobs_cycle: 0,
    };
    let mut lxr = Lxr::new(args, phase);
    lxr.immix.ranges.push(AddressRange { start: IMMIX, end: LOS });
    lxr.los.ranges.push(AddressRange { start: LOS, end: IMMORTAL });
    lxr.immortal.ranges.push(AddressRange { start: IMMORTAL, end: 0x1e000 });
    lxr
}

fn slot(address: usize) -> Slot {
    Slot { address, type_tag: false }
}

fn object(address: usize) -> ObjectReference {
    ObjectReference { address }
}

fn counter() -> LazySweepingJobsCounter {
    LazySweepingJobsCounter { cycle: 5, decs: false }
}

/// Lays out an object with a count whose fields hold `targets`.
fn lay_out(lxr: &mut Lxr, address: usize, count: u8, targets: &[usize]) {
    let mut fields = Vec::new();
    for (i, target) in targets.iter().enumerate() {
        let at = address + 16 + 8 * i;
        lxr.store_word(at, *target);
        fields.push(Field { slot: slot(at), out_of_heap: false });
    }
    lxr.store_word(address, 0x77);
    lxr.counts.set(address, count);
    lxr.objects.set(
        address,
        Shape {
            size: 16 + 8 * targets.len(),
            kind: ObjectKind::Plain,
            fields,
            tag_valid: true,
            class_name: String::new(),
        },
    );
}

fn run(lxr: &mut Lxr, addresses: &[usize]) {
    let decs: Vec<ObjectReference> = addresses.iter().map(|a| object(*a)).collect();
    let mut w = ProcessDecs::new(decs, counter());
    w.do_work(lxr);
    assert!(w.decs.is_none());
    assert!(w.new_decs.is_empty());
    assert!(w.mark_objects.is_empty());
}

#[test]
fn a_decrement_lowers_the_count() {
    let mut lxr = collector();
    lay_out(&mut lxr, IMMIX, 3, &[]);
    run(&mut lxr, &[IMMIX]);
    assert_eq!(lxr.count(object(IMMIX)), 2);
    assert!(lxr.effects.is_empty());
}

#[test]
fn stuck_and_dead_objects_are_skipped() {
    let mut lxr = collector();
    lay_out(&mut lxr, IMMIX, 7, &[]);
    lay_out(&mut lxr, IMMIX + 0x100, 0, &[]);
    run(&mut lxr, &[IMMIX, IMMIX + 0x100]);
    assert_eq!(lxr.count(object(IMMIX)), 7);
    assert_eq!(lxr.count(object(IMMIX + 0x100)), 0);
    assert!(lxr.effects.is_empty());
}

#[test]
fn decrements_of_objects_without_counts_are_skipped() {
    let mut lxr = collector();
    lxr.counts.set(IMMORTAL, 3);
    lxr.counts.set(0x90000, 3);
    run(&mut lxr, &[IMMORTAL, 0x90000]);
    assert_eq!(lxr.count(object(IMMORTAL)), 3);
    assert_eq!(lxr.count(object(0x90000)), 3);
}

#[test]
fn the_last_reference_takes_the_object_with_it() {
    let mut lxr = collector();
    lay_out(&mut lxr, IMMIX + 0x1100, 1, &[]);
    run(&mut lxr, &[IMMIX + 0x1100]);
    assert_eq!(lxr.count(object(IMMIX + 0x1100)), 0);
    assert_eq!(
        lxr.effects,
        vec![
            Effect::UnmarkStraddle { object: object(IMMIX + 0x1100) },
            Effect::PossiblyDeadBlock { block: IMMIX + 0x1000 },
        ]
    );
    assert_eq!(lxr.load_word(IMMIX + 0x1100), 0x77);
}

#[test]
fn an_object_dies_once() {
    let mut lxr = collector();
    lay_out(&mut lxr, IMMIX, 1, &[]);
    run(&mut lxr, &[IMMIX, IMMIX, IMMIX]);
    assert_eq!(lxr.effects.len(), 2);
}

#[test]
fn a_large_object_is_freed() {
    let mut lxr = collector();
    lay_out(&mut lxr, LOS, 2, &[]);
    run(&mut lxr, &[LOS]);
    assert!(lxr.effects.is_empty());
    run(&mut lxr, &[LOS]);
    assert_eq!(lxr.effects, vec![Effect::RcFree { object: object(LOS) }]);
}

#[test]
fn dead_objects_are_overwritten_where_that_is_configured() {
    let mut lxr = collector();
    lxr.args.poison_dead_objects = true;
    lay_out(&mut lxr, IMMIX, 1, &[]);
    run(&mut lxr, &[IMMIX]);
    assert_eq!(lxr.load_word(IMMIX), 0xdead);
}

#[test]
fn children_of_a_dying_object_are_decremented() {
    let mut lxr = collector();
    lay_out(&mut lxr, IMMIX, 1, &[IMMIX + 0x100, IMMIX + 0x200, 0, IMMIX + 0x200, IMMORTAL]);
    lay_out(&mut lxr, IMMIX + 0x100, 1, &[IMMIX + 0x300]);
    lay_out(&mut lxr, IMMIX + 0x200, 3, &[]);
    lay_out(&mut lxr, IMMIX + 0x300, 2, &[]);
    run(&mut lxr, &[IMMIX]);
    assert_eq!(lxr.count(object(IMMIX)), 0);
    assert_eq!(lxr.count(object(IMMIX + 0x100)), 0);
    assert_eq!(lxr.count(object(IMMIX + 0x200)), 1);
    assert_eq!(lxr.count(object(IMMIX + 0x300)), 1);
}

#[test]
fn stuck_children_are_left_alone() {
    let mut lxr = collector();
    lay_out(&mut lxr, IMMIX, 1, &[IMMIX + 0x100]);
    lay_out(&mut lxr, IMMIX + 0x100, 7, &[]);
    run(&mut lxr, &[IMMIX]);
    assert_eq!(lxr.count(object(IMMIX + 0x100)), 7);
}

#[test]
fn slots_outside_the_heap_hold_no_count() {
    let mut lxr = collector();
    lxr.args.rc_mature_evacuation = true;
    lxr.phase.cm_in_progress = true;
    lxr.defrag.insert(IMMIX + 0x1000);
    lay_out(&mut lxr, IMMIX, 1, &[]);
    lay_out(&mut lxr, IMMIX + 0x1100, 2, &[]);
    lxr.marks.insert(IMMIX + 0x1100);
    lxr.store_word(0x90000, IMMIX + 0x1100);
    lxr.objects.set(
        IMMIX,
        Shape {
            size: 16,
            kind: ObjectKind::Plain,
            fields: vec![Field { slot: slot(0x90000), out_of_heap: true }],
            tag_valid: true,
            class_name: String::new(),
        },
    );
    run(&mut lxr, &[IMMIX]);
    assert_eq!(lxr.count(object(IMMIX + 0x1100)), 2);
    assert_eq!(
        lxr.effects[0],
        Effect::RemsetRecord { slot: slot(0x90000), object: object(IMMIX + 0x1100) }
    );
}

#[test]
fn marking_hears_of_dead_objects() {
    let mut lxr = collector();
    lxr.phase.cm_in_progress = true;
    lay_out(&mut lxr, IMMIX, 1, &[IMMIX + 0x100, IMMIX + 0x200, IMMORTAL]);
    lay_out(&mut lxr, IMMIX + 0x100, 2, &[]);
    lay_out(&mut lxr, IMMIX + 0x200, 2, &[]);
    lxr.marks.insert(IMMIX + 0x200);
    run(&mut lxr, &[IMMIX]);
    assert!(lxr.is_marked(object(IMMIX)));
    assert!(!lxr.is_marked(object(IMMIX + 0x100)));
    assert_eq!(lxr.work.len(), 1);
    assert_eq!(lxr.work[0].to, Destination::Postponed);
    match &lxr.work[0].work {
        Work::ConcurrentTrace(objects) => assert_eq!(*objects, vec![object(IMMIX + 0x100)]),
        _ => panic!("nothing to trace"),
    }
}

#[test]
fn lazy_decrements_trace_at_once() {
    let mut lxr = collector();
    lxr.args.lazy_decrements = true;
    lxr.phase.cm_in_progress = true;
    lay_out(&mut lxr, IMMIX, 1, &[IMMIX + 0x100]);
    lay_out(&mut lxr, IMMIX + 0x100, 2, &[]);
    run(&mut lxr, &[IMMIX]);
    assert_eq!(lxr.work[0].to, Destination::Worker(WorkBucketStage::Unconstrained));
}

#[test]
fn dead_objects_are_not_marked_when_marking_has_just_begun() {
    for (lazy, current, previous, marks) in [
        (false, Some(Pause::InitialMark), None, false),
        (false, Some(Pause::RefCount), Some(Pause::InitialMark), true),
        (true, None, Some(Pause::InitialMark), false),
        (true, Some(Pause::InitialMark), Some(Pause::RefCount), true),
    ] {
        let mut lxr = collector();
        lxr.args.lazy_decrements = lazy;
        lxr.phase.cm_in_progress = true;
        lxr.phase.current_pause = current;
        lxr.phase.previous_pause = previous;
        lay_out(&mut lxr, IMMIX, 1, &[]);
        run(&mut lxr, &[IMMIX]);
        assert_eq!(lxr.is_marked(object(IMMIX)), marks);
    }
}

#[test]
fn unmarked_objects_are_left_to_mature_sweeping() {
    for (lazy, current, previous, swept) in [
        (false, Some(Pause::FinalMark), None, true),
        (false, Some(Pause::Full), None, true),
        (false, Some(Pause::RefCount), Some(Pause::FinalMark), false),
        (true, None, Some(Pause::FinalMark), true),
        (true, Some(Pause::Full), None, true),
        (true, Some(Pause::FinalMark), None, false),
    ] {
        let mut lxr = collector();
        lxr.args.lazy_decrements = lazy;
        lxr.phase.current_pause = current;
        lxr.phase.previous_pause = previous;
        lay_out(&mut lxr, IMMIX, 3, &[]);
        lay_out(&mut lxr, IMMIX + 0x100, 3, &[]);
        lxr.marks.insert(IMMIX + 0x100);
        run(&mut lxr, &[IMMIX, IMMIX + 0x100]);
        assert_eq!(lxr.count(object(IMMIX)) == 3, swept);
        assert_eq!(lxr.count(object(IMMIX + 0x100)), 2);
    }
}

#[test]
fn decrements_follow_objects_that_moved() {
    let mut lxr = collector();
    lxr.args.rc_mature_evacuation = true;
    lay_out(&mut lxr, IMMIX, 2, &[]);
    lay_out(&mut lxr, IMMIX + 0x100, 2, &[]);
    lxr.forwarding.set(IMMIX, Forwarding::Forwarded(object(IMMIX + 0x100)));
    run(&mut lxr, &[IMMIX]);
    assert_eq!(lxr.count(object(IMMIX)), 2);
    assert_eq!(lxr.count(object(IMMIX + 0x100)), 1);
    // Not without mature evacuation, and not for large objects.
    lxr.args.rc_mature_evacuation = false;
    run(&mut lxr, &[IMMIX]);
    assert_eq!(lxr.count(object(IMMIX)), 1);
    lxr.args.rc_mature_evacuation = true;
    lay_out(&mut lxr, LOS, 2, &[]);
    lxr.forwarding.set(LOS, Forwarding::Forwarded(object(IMMIX + 0x100)));
    run(&mut lxr, &[LOS]);
    assert_eq!(lxr.count(object(LOS)), 1);
}

#[test]
fn a_full_buffer_of_new_decrements_is_handed_over() {
    let mut lxr = collector();
    let targets: Vec<usize> = (1..6).map(|i| IMMIX + 0x100 * i).collect();
    lay_out(&mut lxr, IMMIX, 1, &targets);
    for target in &targets {
        lay_out(&mut lxr, *target, 2, &[]);
    }
    run(&mut lxr, &[IMMIX]);
    assert_eq!(lxr.work.len(), 1);
    assert_eq!(lxr.work[0].to, Destination::Worker(WorkBucketStage::Unconstrained));
    match &lxr.work[0].work {
        Work::Decs(packet) => {
            assert_eq!(packet.decs.as_ref().unwrap().len(), 4);
            assert_eq!(packet.counter, LazySweepingJobsCounter { cycle: 5, decs: true });
        }
        _ => panic!("no packet of decrements"),
    }
    assert_eq!(lxr.count(object(IMMIX + 0x500)), 1);
    assert_eq!(lxr.count(object(IMMIX + 0x100)), 2);
    // Outside a pause the packet goes ahead of other work.
    let w = ProcessDecs::new(Vec::new(), counter());
    lxr.phase.current_pause = None;
    w.new_work(&mut lxr, ProcessDecs::new(Vec::new(), counter()));
    assert_eq!(lxr.work[1].to, Destination::WorkerPrioritized(WorkBucketStage::Unconstrained));
}

#[test]
fn shared_decrements_are_processed() {
    let mut lxr = collector();
    lay_out(&mut lxr, IMMIX, 3, &[]);
    let shared = Arc::new(vec![object(IMMIX)]);
    let mut w = ProcessDecs::new_arc(Arc::clone(&shared), counter());
    w.do_work(&mut lxr);
    assert_eq!(lxr.count(object(IMMIX)), 2);
    assert!(w.decs_arc.is_none());
    assert_eq!(*shared, vec![object(IMMIX)]);
}

#[test]
fn an_increment_and_a_decrement_cancel() {
    let mut lxr = collector();
    lay_out(&mut lxr, IMMIX, 2, &[]);
    lxr.store_word(0x1a000, IMMIX);
    let mut w: ProcessIncs<EDGE_KIND_MATURE> = ProcessIncs::new(vec![slot(0x1a000)]);
    w.do_work(&mut lxr, 0);
    run(&mut lxr, &[IMMIX]);
    assert_eq!(lxr.count(object(IMMIX)), 2);
    // Not where the increment makes the count stick.
    lxr.counts.set(IMMIX, 6);
    let mut w: ProcessIncs<EDGE_KIND_MATURE> = ProcessIncs::new(vec![slot(0x1a000)]);
    w.do_work(&mut lxr, 0);
    run(&mut lxr, &[IMMIX]);
    assert_eq!(lxr.count(object(IMMIX)), 7);
}

#[test]
fn cyclic_garbage_stays() {
    let mut lxr = collector();
    lay_out(&mut lxr, IMMIX, 2, &[IMMIX + 0x100]);
    lay_out(&mut lxr, IMMIX + 0x100, 1, &[IMMIX]);
    run(&mut lxr, &[IMMIX]);
    assert_eq!(lxr.count(object(IMMIX)), 1);
    assert_eq!(lxr.count(object(IMMIX + 0x100)), 1);
}

#[test]
fn a_long_chain_dies() {
    let mut lxr = collector();
    for i in 0..100 {
        lay_out(&mut lxr, IMMIX + 0x100 * i, 1, &[IMMIX + 0x100 * (i + 1)]);
    }
    lay_out(&mut lxr, IMMIX + 0x6400, 2, &[]);
    run(&mut lxr, &[IMMIX]);
    for i in 0..100 {
        assert_eq!(lxr.count(object(IMMIX + 0x100 * i)), 0);
    }
    assert_eq!(lxr.count(object(IMMIX + 0x6400)), 1);
}

#[test]
fn counts_go_down_by_one_unless_they_are_fixed() {
    assert_eq!(lower(0, 7), None);
    assert_eq!(lower(7, 7), None);
    assert_eq!(lower(1, 7), Some(0));
    assert_eq!(lower(6, 7), Some(5));
}
