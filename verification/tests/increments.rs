use lxr::args::Args;
use lxr::barrier::LXRFieldBarrierSemantics;
use lxr::object::Field;
use lxr::object::MemorySlice;
use lxr::object::ObjectKind;
use lxr::object::ObjectReference;
use lxr::object::Shape;
use lxr::object::Slot;
use lxr::packets::ProcessIncs;
use lxr::packets::Work;
use lxr::packets::EDGE_KIND_MATURE;
use lxr::packets::EDGE_KIND_NURSERY;
use lxr::plan::Lxr;
use lxr::state::AddressRange;
use lxr::state::Destination;
use lxr::state::Effect;
use lxr::state::Event;
use lxr::state::Forwarding;
use lxr::state::Pause;
use lxr::state::Phase;
use lxr::state::WorkBucketStage;
use lxr::state::LOGGED_VALUE;
use lxr::state::UNLOGGED_VALUE;
use lxr::stats::Tally;

const IMMIX: usize = 0x10000;
const LOS: usize = 0x18000;
const IMMORTAL: usize = 0x1c000;
const ROOM: usize = 0x14000;

fn collector() -> Lxr {
    let args = Args {
        buffer_size: 4,
        max_ref_count: 7,
        max_young_evac_size: 1024,
        max_pause_millis: None,
        lazy_decrements: false,
        rc_nursery_evacuation: false,
        rc_mature_evacuation: false,
        inc_max_copy_depth: false,
        compressed_pointers: false,
        sanity: false,
        poison_dead_objects: false,
        heap_start: IMMIX,
        heap_end: 0x20000,
        unlog_base: 0x100_0000,
        block_bytes: 0x1000,
    };
    let phase = Phase {
        current_pause: Some(Pause::RefCount),
        previous_pause: None,
        cm_enabled: true,
        cm_in_progress: false,
        in_sanity: false,
        used_pages: 10,
        collection_reserved_pages: 2,
        total_pages: 100,
        lazy_jobs_cycle: 0,
    };
    let mut lxr = Lxr::new(args, phase);
    lxr.immix.ranges.push(AddressRange { start: IMMIX, end: LOS });
    lxr.los.ranges.push(AddressRange { start: LOS, end: IMMORTAL });
    lxr.immortal.ranges.push(AddressRange { start: IMMORTAL, end: 0x1e000 });
    lxr
}

fn slot(address: usize) -> Slot {
    Slot { address, type_tag: false }
}

fn object(address: usize) -> ObjectReference {
    ObjectReference { address }
}

/// Lays out an object whose fields, behind a header of two words, hold `targets`.
fn lay_out(lxr: &mut Lxr, address: usize, targets: &[usize]) {
    let mut fields = Vec::new();
    for (i, target) in targets.iter().enumerate() {
        let at = address + 16 + 8 * i;
        lxr.store_word(at, *target);
        fields.push(Field { slot: slot(at), out_of_heap: false });
    }
    lxr.store_word(address, 0x77);
    lxr.objects.set(
        address,
        Shape {
            size: 16 + 8 * targets.len(),
            kind: ObjectKind::Plain,
            fields,
            tag_valid: true,
            class_name: String::new(),
        },
    );
}

fn packet(slots: Vec<Slot>) -> ProcessIncs<EDGE_KIND_MATURE> {
    ProcessIncs::new(slots)
}

fn nursery(lxr: &mut Lxr) {
    lxr.args.rc_nursery_evacuation = true;
    lxr.nursery.insert(IMMIX);
}

#[test]
fn a_mature_object_is_incremented() {
    let mut lxr = collector();
    lxr.store_word(0x1a000, IMMIX);
    lxr.counts.set(IMMIX, 3);
    let mut w = packet(vec![slot(0x1a000)]);
    w.do_work(&mut lxr, 0);
    assert_eq!(lxr.count(object(IMMIX)), 4);
    assert!(lxr.effects.is_empty());
    assert!(lxr.work.is_empty());
}

#[test]
fn a_count_sticks_at_its_maximum() {
    let mut lxr = collector();
    lxr.store_word(0x1a000, IMMIX);
    lxr.counts.set(IMMIX, 6);
    let mut w = packet(vec![slot(0x1a000), slot(0x1a000), slot(0x1a000)]);
    w.do_work(&mut lxr, 0);
    assert_eq!(lxr.count(object(IMMIX)), 7);
    assert_eq!(lxr.inc(object(IMMIX)), Err(7));
    assert_eq!(lxr.count(object(IMMIX)), 7);
}

#[test]
fn objects_without_counts_are_skipped() {
    let mut lxr = collector();
    lxr.store_word(0x1a000, IMMORTAL);
    lxr.store_word(0x1a008, 0x90000);
    lxr.store_word(0x1a010, 0);
    let mut w = packet(vec![slot(0x1a000), slot(0x1a008), slot(0x1a010)]);
    assert_eq!(
        w.process_slot::<EDGE_KIND_MATURE>(&mut lxr, slot(0x1a000), 1, false),
        Some(object(IMMORTAL))
    );
    assert_eq!(w.process_slot::<EDGE_KIND_MATURE>(&mut lxr, slot(0x1a010), 1, false), None);
    w.do_work(&mut lxr, 0);
    assert_eq!(lxr.count(object(IMMORTAL)), 0);
    assert_eq!(lxr.count(object(0x90000)), 0);
}

#[test]
fn a_type_tag_makes_its_object_stick() {
    let mut lxr = collector();
    lxr.store_word(0x1a000, IMMIX);
    lxr.counts.set(IMMIX, 1);
    let mut w = packet(vec![Slot { address: 0x1a000, type_tag: true }]);
    w.do_work(&mut lxr, 0);
    assert_eq!(lxr.count(object(IMMIX)), 7);
}

#[test]
fn written_slots_are_armed_again() {
    let mut lxr = collector();
    let mut barrier = LXRFieldBarrierSemantics::new();
    lxr.store_unlog_bit(0x1a000, UNLOGGED_VALUE);
    assert!(barrier.enqueue_node(&mut lxr, None, slot(0x1a000), None));
    assert!(!barrier.enqueue_node(&mut lxr, None, slot(0x1a000), None));
    let mut w = packet(vec![slot(0x1a000), slot(0x90000)]);
    w.do_work(&mut lxr, 0);
    assert_eq!(lxr.load_unlog_bit(0x1a000), UNLOGGED_VALUE);
    // Slots outside the heap have no unlog bits.
    assert_eq!(lxr.load_unlog_bit(0x90000), LOGGED_VALUE);
    assert!(barrier.enqueue_node(&mut lxr, None, slot(0x1a000), None));
    // Slots of promoted objects are not armed one by one.
    let mut n: ProcessIncs<EDGE_KIND_NURSERY> = ProcessIncs::new(vec![slot(0x1a100)]);
    n.do_work(&mut lxr, 0);
    assert_eq!(lxr.load_unlog_bit(0x1a100), LOGGED_VALUE);
}

#[test]
fn a_first_increment_promotes_in_place() {
    let mut lxr = collector();
    lay_out(&mut lxr, IMMIX, &[IMMIX + 0x100, IMMIX + 0x200, 0, IMMORTAL]);
    lxr.counts.set(IMMIX + 0x200, 2);
    lay_out(&mut lxr, IMMIX + 0x100, &[]);
    lxr.nursery.insert(IMMIX);
    lxr.store_word(0x1a000, IMMIX);
    let mut w = packet(vec![slot(0x1a000)]);
    w.do_work(&mut lxr, 0);
    assert_eq!(lxr.count(object(IMMIX)), 1);
    assert_eq!(lxr.count(object(IMMIX + 0x100)), 1);
    assert_eq!(lxr.count(object(IMMIX + 0x200)), 3);
    assert_eq!(lxr.count(object(IMMORTAL)), 0);
    assert_eq!(
        lxr.effects,
        vec![
            Effect::InPlacePromoted { block: IMMIX },
            Effect::PromoteWithSize { object: object(IMMIX), size: 48 },
            Effect::InPlacePromoted { block: IMMIX },
            Effect::PromoteWithSize { object: object(IMMIX + 0x100), size: 16 },
        ]
    );
    assert!(w.new_incs.is_empty());
    assert!(lxr.survival.is_empty());
}

#[test]
fn promotion_arms_the_slots_of_the_object() {
    let mut lxr = collector();
    lay_out(&mut lxr, IMMIX + 0x400, &[0, 0]);
    lxr.store_word(0x1a000, IMMIX + 0x400);
    let mut w = packet(vec![slot(0x1a000)]);
    w.do_work(&mut lxr, 0);
    assert_eq!(lxr.load_unlog_bit(IMMIX + 0x410), UNLOGGED_VALUE);
    assert_eq!(lxr.load_unlog_bit(IMMIX + 0x418), UNLOGGED_VALUE);
    // Four metadata bytes are filled at a time.
    assert_eq!(lxr.load_unlog_bit(IMMIX + 0x4f8), UNLOGGED_VALUE);
    assert_eq!(lxr.load_unlog_bit(IMMIX + 0x500), LOGGED_VALUE);
    assert_eq!(lxr.load_unlog_bit(IMMIX + 0x3f8), LOGGED_VALUE);
}

#[test]
fn promotion_of_a_large_object_arms_it_to_its_end() {
    let mut lxr = collector();
    lay_out(&mut lxr, LOS, &[0; 14]);
    lxr.store_word(0x1b000, LOS);
    let mut w = packet(vec![slot(0x1b000)]);
    w.do_work(&mut lxr, 0);
    assert_eq!(lxr.count(object(LOS)), 1);
    assert_eq!(lxr.load_unlog_bit(LOS), UNLOGGED_VALUE);
    assert_eq!(lxr.load_unlog_bit(LOS + 0x78), UNLOGGED_VALUE);
    assert_eq!(lxr.load_unlog_bit(LOS + 0x80), LOGGED_VALUE);
    assert!(lxr.effects.is_empty());
}

#[test]
fn an_array_of_values_is_not_armed() {
    let mut lxr = collector();
    for address in [IMMIX + 0x400, LOS] {
        lxr.objects.set(
            address,
            Shape {
                size: 64,
                kind: ObjectKind::ValArray,
                fields: vec![Field { slot: slot(address + 16), out_of_heap: false }],
                tag_valid: true,
                class_name: String::new(),
            },
        );
        lxr.store_word(address + 16, IMMIX + 0x800);
    }
    lxr.store_word(0x1b000, IMMIX + 0x400);
    lxr.store_word(0x1b008, LOS);
    let mut w = packet(vec![slot(0x1b000), slot(0x1b008)]);
    w.do_work(&mut lxr, 0);
    assert_eq!(lxr.load_unlog_bit(IMMIX + 0x410), LOGGED_VALUE);
    // Of a large array of values the first slot alone is armed.
    assert_eq!(lxr.load_unlog_bit(LOS), UNLOGGED_VALUE);
    assert_eq!(lxr.load_unlog_bit(LOS + 16), LOGGED_VALUE);
    assert_eq!(lxr.count(object(IMMIX + 0x800)), 0);
}

#[test]
fn a_large_array_is_cut_into_slices() {
    let mut lxr = collector();
    lxr.args.buffer_size = 1000;
    let data = MemorySlice { start: LOS + 16, len: 1500, slot_bytes: 8 };
    lxr.objects.set(
        LOS,
        Shape {
            size: 16 + 1500 * 8,
            kind: ObjectKind::ObjArray(data),
            fields: Vec::new(),
            tag_valid: true,
            class_name: String::new(),
        },
    );
    lxr.store_word(LOS + 16 + 1499 * 8, IMMIX);
    lxr.counts.set(IMMIX, 1);
    let mut w = packet(Vec::new());
    lxr.counts.set(LOS, 1);
    w.scan_nursery_object(&mut lxr, object(LOS), true, true, 16 + 1500 * 8);
    // The first slice fills the buffer alone.
    assert_eq!(lxr.work.len(), 1);
    match &lxr.work[0].work {
        Work::NurseryIncs(sent) => {
            assert_eq!(
                sent.inc_slices,
                vec![MemorySlice { start: LOS + 16, len: 1000, slot_bytes: 8 }]
            );
            assert_eq!(sent.depth, 2);
        }
        _ => panic!("no packet of increments"),
    }
    assert_eq!(lxr.work[0].to, Destination::Worker(WorkBucketStage::Unconstrained));
    assert_eq!(w.new_incs_count, 500);
    w.do_work(&mut lxr, 0);
    assert_eq!(lxr.count(object(IMMIX)), 2);
    assert!(w.new_inc_slices.is_empty());
}

#[test]
fn slices_that_a_packet_was_given_are_processed() {
    let mut lxr = collector();
    lxr.store_word(0x1a008, IMMIX);
    lxr.store_word(0x1a010, IMMIX);
    let mut w: ProcessIncs<EDGE_KIND_NURSERY> = ProcessIncs::new(Vec::new());
    w.inc_slices.push(MemorySlice { start: 0x1a000, len: 3, slot_bytes: 8 });
    w.do_work(&mut lxr, 0);
    assert_eq!(lxr.count(object(IMMIX)), 2);
}

#[test]
fn a_full_buffer_of_new_increments_is_handed_over() {
    let mut lxr = collector();
    let targets: Vec<usize> = (1..6).map(|i| IMMIX + 0x100 * i).collect();
    lay_out(&mut lxr, IMMIX, &targets);
    lxr.store_word(0x1a000, IMMIX);
    let mut w = packet(vec![slot(0x1a000)]);
    w.do_work(&mut lxr, 0);
    assert_eq!(lxr.work.len(), 1);
    match &lxr.work[0].work {
        Work::NurseryIncs(sent) => {
            let sent_slots: Vec<usize> = sent.incs.iter().map(|s| s.address).collect();
            assert_eq!(sent_slots, vec![IMMIX + 16, IMMIX + 24, IMMIX + 32, IMMIX + 40]);
        }
        _ => panic!("no packet of increments"),
    }
    // The rest was processed at once.
    assert_eq!(lxr.count(object(IMMIX + 0x500)), 1);
    assert_eq!(lxr.count(object(IMMIX + 0x100)), 0);
}

#[test]
fn cycles_come_to_an_end() {
    let mut lxr = collector();
    lay_out(&mut lxr, IMMIX, &[IMMIX + 0x100, IMMIX]);
    lay_out(&mut lxr, IMMIX + 0x100, &[IMMIX]);
    lxr.store_word(0x1a000, IMMIX);
    let mut w = packet(vec![slot(0x1a000)]);
    w.do_work(&mut lxr, 0);
    assert_eq!(lxr.count(object(IMMIX)), 3);
    assert_eq!(lxr.count(object(IMMIX + 0x100)), 1);
}

#[test]
fn a_young_object_moves() {
    let mut lxr = collector();
    nursery(&mut lxr);
    lay_out(&mut lxr, IMMIX, &[IMMIX + 0x2000]);
    lxr.counts.set(IMMIX + 0x2000, 1);
    lxr.copies.push(Some(object(ROOM)));
    lxr.store_word(0x1a000, IMMIX);
    let mut w = packet(vec![slot(0x1a000)]);
    w.do_work(&mut lxr, 0);
    assert_eq!(lxr.load_word(0x1a000), ROOM);
    assert_eq!(lxr.forwarding_of(object(IMMIX)), Forwarding::Forwarded(object(ROOM)));
    assert_eq!(lxr.count(object(ROOM)), 1);
    assert_eq!(lxr.count(object(IMMIX)), 0);
    assert_eq!(lxr.load_word(ROOM), 0x77);
    assert_eq!(lxr.load_word(ROOM + 16), IMMIX + 0x2000);
    assert_eq!(lxr.count(object(IMMIX + 0x2000)), 2);
    assert_eq!(lxr.survival, vec![24]);
    assert_eq!(
        lxr.effects,
        vec![Effect::PromoteWithSize { object: object(ROOM), size: 24 }]
    );
}

#[test]
fn slots_of_an_object_that_moved_are_updated() {
    let mut lxr = collector();
    nursery(&mut lxr);
    lxr.forwarding.set(IMMIX, Forwarding::Forwarded(object(ROOM)));
    lxr.counts.set(ROOM, 1);
    lxr.store_word(0x1a000, IMMIX);
    let mut w = packet(vec![slot(0x1a000)]);
    w.do_work(&mut lxr, 0);
    assert_eq!(lxr.load_word(0x1a000), ROOM);
    assert_eq!(lxr.count(object(ROOM)), 2);
}

#[test]
fn a_claim_of_another_worker_is_awaited() {
    let mut lxr = collector();
    nursery(&mut lxr);
    lxr.forwarding.set(IMMIX, Forwarding::BeingForwarded(Some(object(ROOM))));
    lxr.forwarding.set(IMMIX + 0x100, Forwarding::BeingForwarded(None));
    lay_out(&mut lxr, IMMIX + 0x100, &[]);
    lxr.store_word(0x1a000, IMMIX);
    lxr.store_word(0x1a008, IMMIX + 0x100);
    let mut w = packet(vec![slot(0x1a000), slot(0x1a008)]);
    w.do_work(&mut lxr, 0);
    assert_eq!(lxr.load_word(0x1a000), ROOM);
    assert_eq!(lxr.count(object(ROOM)), 1);
    // The worker left this one in place: it is promoted here.
    assert_eq!(lxr.load_word(0x1a008), IMMIX + 0x100);
    assert_eq!(lxr.count(object(IMMIX + 0x100)), 1);
    assert_eq!(lxr.forwarding_of(object(IMMIX + 0x100)), Forwarding::Untouched);
    assert_eq!(lxr.effects.len(), 2);
}

#[test]
fn a_lost_claim_is_settled() {
    let mut lxr = collector();
    nursery(&mut lxr);
    lay_out(&mut lxr, IMMIX, &[]);
    lxr.forwarding.set(IMMIX, Forwarding::BeingForwarded(Some(object(ROOM))));
    let mut w = packet(Vec::new());
    assert_eq!(w.move_or_keep(&mut lxr, object(IMMIX), false, 1), object(ROOM));
    assert_eq!(lxr.count(object(ROOM)), 1);
    lxr.forwarding.set(IMMIX, Forwarding::BeingForwarded(None));
    assert_eq!(w.move_or_keep(&mut lxr, object(IMMIX), false, 1), object(IMMIX));
    assert_eq!(lxr.count(object(IMMIX)), 1);
    // The other worker promotes it.
    assert!(lxr.effects.is_empty());
}

#[test]
fn objects_that_do_not_qualify_stay() {
    let mut lxr = collector();
    nursery(&mut lxr);
    let w = packet(Vec::new());
    lay_out(&mut lxr, IMMIX, &[]);
    assert!(!w.dont_evacuate(&lxr, object(IMMIX), false));
    // A large object.
    assert!(w.dont_evacuate(&lxr, object(IMMIX), true));
    // An object in none of the spaces.
    assert!(w.dont_evacuate(&lxr, object(0x90000), false));
    // A block that is not in the nursery.
    assert!(w.dont_evacuate(&lxr, object(IMMIX + 0x1000), false));
    // A mature object.
    lxr.counts.set(IMMIX, 1);
    assert!(w.dont_evacuate(&lxr, object(IMMIX), false));
    lxr.counts.set(IMMIX, 0);
    // An object of the size limit.
    lxr.args.max_young_evac_size = 16;
    assert!(w.dont_evacuate(&lxr, object(IMMIX), false));
    lxr.args.max_young_evac_size = 17;
    assert!(!w.dont_evacuate(&lxr, object(IMMIX), false));
}

#[test]
fn evacuation_stops_where_there_is_no_room() {
    let mut lxr = collector();
    nursery(&mut lxr);
    lay_out(&mut lxr, IMMIX, &[]);
    lay_out(&mut lxr, IMMIX + 0x100, &[]);
    lxr.copies.push(Some(object(ROOM)));
    lxr.copies.push(None);
    lxr.store_word(0x1a000, IMMIX);
    lxr.store_word(0x1a008, IMMIX + 0x100);
    let mut w = packet(vec![slot(0x1a000), slot(0x1a008)]);
    w.do_work(&mut lxr, 0);
    assert_eq!(lxr.load_word(0x1a000), IMMIX);
    assert_eq!(lxr.load_word(0x1a008), IMMIX + 0x100);
    assert_eq!(lxr.count(object(IMMIX)), 1);
    assert_eq!(lxr.count(object(IMMIX + 0x100)), 1);
    assert_eq!(lxr.forwarding_of(object(IMMIX)), Forwarding::Untouched);
    assert!(lxr.no_evac);
    assert!(w.no_evac);
    assert_eq!(lxr.copies, vec![Some(object(ROOM))]);
    assert_eq!(lxr.diag.log, vec![Event::ToSpaceOverflow]);
}

#[test]
fn evacuation_stops_after_too_long_a_pause() {
    for (elapsed, moves) in [(9u128, true), (10, false)] {
        let mut lxr = collector();
        nursery(&mut lxr);
        lxr.args.max_pause_millis = Some(10);
        lay_out(&mut lxr, IMMIX, &[]);
        lxr.copies.push(Some(object(ROOM)));
        lxr.store_word(0x1a000, IMMIX);
        let mut w = packet(vec![slot(0x1a000)]);
        w.do_work(&mut lxr, elapsed);
        assert_eq!(lxr.load_word(0x1a000) == ROOM, moves);
        assert_eq!(lxr.no_evac, !moves);
        let stopped = Event::EvacuationStopped { over_space: false, over_time: true };
        assert_eq!(lxr.diag.log, if moves { vec![] } else { vec![stopped] });
    }
}

#[test]
fn evacuation_stops_in_a_full_heap() {
    for (used, moves) in [(102, true), (103, false)] {
        let mut lxr = collector();
        nursery(&mut lxr);
        lxr.phase.used_pages = used;
        lay_out(&mut lxr, IMMIX, &[]);
        lxr.copies.push(Some(object(ROOM)));
        lxr.store_word(0x1a000, IMMIX);
        let mut w = packet(vec![slot(0x1a000)]);
        w.do_work(&mut lxr, 0);
        assert_eq!(lxr.load_word(0x1a000) == ROOM, moves);
        assert_eq!(lxr.no_evac, !moves);
        let stopped = Event::EvacuationStopped { over_space: true, over_time: false };
        assert_eq!(lxr.diag.log, if moves { vec![] } else { vec![stopped] });
    }
}

#[test]
fn deep_objects_stay_where_that_is_configured() {
    for (depth, moves) in [(16u32, true), (17, false)] {
        let mut lxr = collector();
        nursery(&mut lxr);
        lxr.args.inc_max_copy_depth = true;
        lay_out(&mut lxr, IMMIX, &[]);
        lxr.copies.push(Some(object(ROOM)));
        let mut w = packet(Vec::new());
        let new = w.process_inc_and_evacuate(&mut lxr, object(IMMIX), depth);
        assert_eq!(new == object(ROOM), moves);
        assert_eq!(lxr.no_evac, false);
    }
}

#[test]
fn references_into_emptied_blocks_are_remembered() {
    let mut lxr = collector();
    lxr.args.rc_mature_evacuation = true;
    lxr.phase.current_pause = Some(Pause::FinalMark);
    lxr.defrag.insert(IMMIX);
    lxr.counts.set(IMMIX + 0x100, 1);
    lxr.store_word(0x1a000, IMMIX + 0x100);
    lxr.store_word(IMMIX + 8, IMMIX + 0x100);
    let mut w = packet(vec![slot(0x1a000), slot(IMMIX + 8)]);
    w.do_work(&mut lxr, 0);
    // Not where the slot lies in such a block itself.
    assert_eq!(
        lxr.effects,
        vec![Effect::RemsetRecord { slot: slot(0x1a000), object: object(IMMIX + 0x100) }]
    );
    // Nor outside marking.
    lxr.effects.clear();
    lxr.phase.current_pause = Some(Pause::RefCount);
    let mut w = packet(vec![slot(0x1a000)]);
    w.do_work(&mut lxr, 0);
    assert!(lxr.effects.is_empty());
    lxr.phase.cm_in_progress = true;
    let mut w = packet(vec![slot(0x1a000)]);
    w.do_work(&mut lxr, 0);
    assert_eq!(lxr.effects.len(), 1);
}

#[test]
fn a_copy_is_scanned_where_it_is() {
    let mut lxr = collector();
    nursery(&mut lxr);
    lay_out(&mut lxr, IMMIX, &[IMMIX + 0x100]);
    lay_out(&mut lxr, IMMIX + 0x100, &[]);
    lxr.copies.push(Some(object(ROOM + 0x100)));
    lxr.copies.push(Some(object(ROOM)));
    lxr.store_word(0x1a000, IMMIX);
    let mut w = packet(vec![slot(0x1a000)]);
    w.do_work(&mut lxr, 0);
    // The slot in the copy was queued, and its object moved in turn.
    assert_eq!(lxr.load_word(ROOM + 16), ROOM + 0x100);
    assert_eq!(lxr.load_word(IMMIX + 16), IMMIX + 0x100);
    assert_eq!(lxr.count(object(ROOM + 0x100)), 1);
    assert_eq!(lxr.survival, vec![24, 16]);
}

#[test]
fn compressed_slots_are_four_bytes_apart() {
    let mut lxr = collector();
    lxr.args.compressed_pointers = true;
    nursery(&mut lxr);
    lay_out(&mut lxr, IMMIX, &[]);
    lxr.store_word(IMMIX + 4, 0x99);
    lxr.copies.push(Some(object(ROOM)));
    lxr.store_word(0x1a000, IMMIX);
    let mut w = packet(vec![slot(0x1a000)]);
    w.do_work(&mut lxr, 0);
    assert_eq!(lxr.load_word(ROOM + 4), 0x99);
    assert!(!lxr.is_mapped(ROOM + 8));
}

#[test]
fn many_writes_move_one_reference() {
    let mut lxr = collector();
    let mut barrier = LXRFieldBarrierSemantics::new();
    let (a, b, c) = (IMMIX, IMMIX + 0x100, IMMIX + 0x200);
    for o in [a, b, c] {
        lxr.counts.set(o, 3);
    }
    lxr.store_unlog_bit(0x1a000, UNLOGGED_VALUE);
    lxr.store_word(0x1a000, a);
    for target in [b, 0, c, b, c] {
        barrier.object_reference_write_slow(
            &mut lxr,
            object(0x1a000),
            slot(0x1a000),
            Some(object(target)),
        );
        lxr.store_word(0x1a000, target);
    }
    barrier.flush(&mut lxr);
    let work = std::mem::take(&mut lxr.work);
    assert_eq!(work.len(), 2);
    for submission in work {
        match submission.work {
            Work::MatureIncs(mut w) => w.do_work(&mut lxr, 0),
            Work::Decs(mut w) => w.do_work(&mut lxr),
            _ => panic!("unexpected work"),
        }
    }
    assert_eq!(lxr.count(object(a)), 2);
    assert_eq!(lxr.count(object(b)), 3);
    assert_eq!(lxr.count(object(c)), 4);
    assert_eq!(lxr.load_unlog_bit(0x1a000), UNLOGGED_VALUE);
}

#[test]
fn a_type_tag_leaves_an_object_without_a_count_alone() {
    let mut lxr = collector();
    lxr.store_word(0x1a000, IMMORTAL);
    let mut w = packet(vec![slot(0x1a000)]);
    w.do_work(&mut lxr, 0);
    assert_eq!(lxr.count(object(IMMORTAL)), 0);
    let mut w = packet(vec![Slot { address: 0x1a000, type_tag: true }]);
    w.do_work(&mut lxr, 0);
    assert_eq!(lxr.count(object(IMMORTAL)), 0);
    // Nor does an object outside the heap get stuck.
    lxr.store_word(0x1a000, 0x500);
    let mut w = packet(vec![Slot { address: 0x1a000, type_tag: true }]);
    w.do_work(&mut lxr, 0);
    assert_eq!(lxr.count(object(0x500)), 0);
}

#[test]
fn nothing_moves_once_evacuation_has_stopped() {
    let mut lxr = collector();
    nursery(&mut lxr);
    lxr.no_evac = true;
    lay_out(&mut lxr, IMMIX, &[IMMIX + 0x100]);
    lay_out(&mut lxr, IMMIX + 0x100, &[]);
    lxr.copies.push(Some(object(ROOM)));
    lxr.store_word(0x1a000, IMMIX);
    let mut w = packet(vec![slot(0x1a000)]);
    w.do_work(&mut lxr, 0);
    assert!(w.no_evac);
    assert!(lxr.no_evac);
    assert_eq!(lxr.copies, vec![Some(object(ROOM))]);
    assert_eq!(lxr.load_word(0x1a000), IMMIX);
    assert_eq!(lxr.load_word(IMMIX + 16), IMMIX + 0x100);
    assert_eq!(lxr.forwarding_of(object(IMMIX)), Forwarding::Untouched);
    assert_eq!(lxr.count(object(IMMIX + 0x100)), 1);
    // That evacuation stops was logged when it did.
    assert!(lxr.diag.log.is_empty());
}

#[test]
fn increments_and_promotions_are_counted() {
    let mut lxr = collector();
    nursery(&mut lxr);
    lay_out(&mut lxr, IMMIX, &[LOS]);
    lay_out(&mut lxr, LOS, &[0, 0]);
    lxr.copies.push(Some(object(ROOM)));
    lxr.store_word(0x1a000, IMMIX);
    lxr.store_word(0x1a008, IMMIX);
    lxr.store_word(0x1a010, IMMORTAL);
    let mut w = packet(vec![slot(0x1a000), slot(0x1a008), slot(0x1a010)]);
    w.do_work(&mut lxr, 0);
    let stats = lxr.diag.stats;
    // The object before it moved, its copy, and the large object.
    assert_eq!(stats.inc, Tally { objects: 3, volume: 24 + 24 + 32 });
    assert_eq!(stats.promoted, Tally { objects: 2, volume: 24 + 32 });
    assert_eq!(stats.promoted_copy, Tally { objects: 1, volume: 24 });
    assert_eq!(stats.promoted_los, Tally { objects: 1, volume: 32 });
    assert_eq!(stats.dead_mature, Tally { objects: 0, volume: 0 });
}

#[test]
fn collectors_and_packets_are_checked() {
    let mut lxr = collector();
    lay_out(&mut lxr, IMMIX, &[LOS]);
    lxr.counts.set(IMMIX, 7);
    lxr.copies.push(Some(object(ROOM)));
    assert!(lxr.is_valid());
    let far = usize::MAX - 0x800;
    // A count above the largest one.
    lxr.counts.set(LOS, 8);
    assert!(!lxr.is_valid());
    lxr.counts.set(LOS, 0);
    assert!(lxr.is_valid());
    // A copy that would not fit.
    lxr.copies.push(Some(object(far)));
    assert!(!lxr.is_valid());
    lxr.copies.pop();
    // A space too high up.
    lxr.other.ranges.push(AddressRange { start: LOS, end: far });
    assert!(!lxr.is_valid());
    lxr.other.ranges.pop();
    assert!(lxr.is_valid());
    // Slices in the address space and outside.
    let mut w = packet(vec![slot(0x1a000)]);
    assert!(w.is_ready(&lxr));
    w.inc_slices.push(MemorySlice { start: 8, len: 2, slot_bytes: 8 });
    assert!(w.is_ready(&lxr));
    w.inc_slices.push(MemorySlice { start: 8, len: usize::MAX / 8, slot_bytes: 8 });
    assert!(!w.is_ready(&lxr));
    w.inc_slices.pop();
    w.new_incs_count = 4;
    assert!(!w.is_ready(&lxr));
    // An object too high up.
    lay_out(&mut lxr, far, &[]);
    assert!(!lxr.is_valid());
}
