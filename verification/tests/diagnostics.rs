use lxr::args::Args;
use lxr::object::Field;
use lxr::object::ObjectKind;
use lxr::object::ObjectReference;
use lxr::object::Shape;
use lxr::object::Slot;
use lxr::packets::ProcessDecs;
use lxr::packets::ProcessIncs;
use lxr::packets::EDGE_KIND_MATURE;
use lxr::parse::rc_trace_init_from_env;
use lxr::parse::rc_undercount_init_from_env;
use lxr::parse::NumberError;
use lxr::plan::Lxr;
use lxr::referrers::note_death;
use lxr::referrers::report_corruption;
use lxr::referrers::scan_heap_referrers;
use lxr::referrers::scan_heap_referrers_collect;
use lxr::state::AddressRange;
use lxr::state::Event;
use lxr::state::HeapItem;
use lxr::state::LazySweepingJobsCounter;
use lxr::state::Pause;
use lxr::state::Phase;
use lxr::state::SpaceName;
use lxr::stats::Tally;
use lxr::trace::describe_referrer_owner;
use lxr::trace::describe_referrer_owner_with_lxr;
use lxr::trace::is_rc_traced;
use lxr::trace::is_rc_traced_addr;
use lxr::trace::rc_trace_add_addr;
use lxr::trace::rc_trace_gc;
use lxr::trace::rc_trace_inc_gc_count;
use lxr::trace::referrer_owner_is_live;
use lxr::trace::referrer_space_name;

const IMMIX: usize = 0x10000;
const LOS: usize = 0x18000;
const IMMORTAL: usize = 0x1c000;

fn collector() -> Lxr {
    let args = Args {
        buffer_size: 4,
        max_ref_count: 7,
        max_young_evac_size: 1024,
        max_pause_millis: None,
        lazy_decrements: false,
        rc_nursery_evacuation: false,
        rc_mature_evacuation: false,
        inc_max_copy_depth: false,
        compressed_pointers: false,
        sanity: false,
        poison_dead_objects: false,
        heap_start: IMMIX,
        heap_end: 0x20000,
        unlog_base: 0x100_0000,
        block_bytes: 0x1000,
    };
    let phase = Phase {
        current_pause: Some(Pause::RefCount),
        previous_pause: None,
        cm_enabled: false,
        cm_in_progress: false,
        in_sanity: false,
        used_pages: 10,
        collection_reserved_pages: 2,
        total_pages: 100,
        lazy_jobs_cycle: 0,
    };
    let mut lxr = Lxr::new(args, phase);
    lxr.immix.ranges.push(AddressRange { start: IMMIX, end: LOS });
    lxr.immix.items.push(HeapItem::Range(AddressRange { start: IMMIX, end: LOS }));
    lxr.los.ranges.push(AddressRange { start: LOS, end: IMMORTAL });
    lxr.los.items.push(HeapItem::Object(ObjectReference { address: LOS }));
    lxr.los.items.push(HeapItem::Range(AddressRange { start: LOS, end: IMMORTAL }));
    lxr.immortal.ranges.push(AddressRange { start: IMMORTAL, end: 0x1e000 });
    lxr
}

fn object(address: usize) -> ObjectReference {
    ObjectReference { address }
}

fn slot(address: usize) -> Slot {
    Slot { address, type_tag: false }
}

/// Lays out an object with a tag, a count, and a field.
fn lay_out(lxr: &mut Lxr, address: usize, count: u8, target: usize) {
    lxr.store_word(address - 8, 0x5003);
    lxr.store_word(address, 0x77);
    lxr.store_word(address + 16, target);
    lxr.counts.set(address, count);
    lxr.objects.set(
        address,
        Shape {
            size: 24,
            kind: ObjectKind::Plain,
            fields: vec![Field { slot: slot(address + 16), out_of_heap: false }],
            tag_valid: true,
            class_name: String::from("Node"),
        },
    );
}

fn decrement(lxr: &mut Lxr, address: usize) {
    let counter = LazySweepingJobsCounter { cycle: 0, decs: true };
    let mut w = ProcessDecs::new(vec![object(address)], counter);
    w.do_work(lxr);
}

fn increment(lxr: &mut Lxr, address: usize) {
    let mut w: ProcessIncs<EDGE_KIND_MATURE> = ProcessIncs::new(vec![slot(address)]);
    w.do_work(lxr, 0);
}

#[test]
fn the_trace_set_has_sixteen_places() {
    let mut lxr = collector();
    for i in 0..16 {
        assert!(rc_trace_add_addr(&mut lxr, 0x1000 + i));
        assert_eq!(
            lxr.diag.log.last(),
            Some(&Event::TracingAddress { address: 0x1000 + i, index: i })
        );
    }
    assert!(!rc_trace_add_addr(&mut lxr, 0x2000));
    assert_eq!(lxr.diag.log.last(), Some(&Event::TraceSetFull { address: 0x2000 }));
    assert!(!is_rc_traced_addr(&lxr, 0x2000));
    for i in 0..16 {
        assert!(is_rc_traced_addr(&lxr, 0x1000 + i));
    }
    assert_eq!(lxr.diag.addresses.len(), 16);
}

#[test]
fn objects_are_traced_by_address_or_tag() {
    let mut lxr = collector();
    lay_out(&mut lxr, IMMIX + 0x100, 1, 0);
    assert!(!is_rc_traced(&lxr, object(IMMIX + 0x100)));
    lxr.diag.tag = 0x5000;
    assert!(is_rc_traced(&lxr, object(IMMIX + 0x100)));
    assert!(!is_rc_traced(&lxr, object(IMMIX + 0x300)));
    lxr.diag.tag = 0x5010;
    assert!(!is_rc_traced(&lxr, object(IMMIX + 0x100)));
    rc_trace_add_addr(&mut lxr, IMMIX + 0x300);
    assert!(is_rc_traced(&lxr, object(IMMIX + 0x300)));
}

#[test]
fn collections_are_counted() {
    let mut lxr = collector();
    assert_eq!(rc_trace_gc(&lxr), 0);
    rc_trace_inc_gc_count(&mut lxr);
    assert_eq!(rc_trace_gc(&lxr), 1);
    lxr.diag.gc_count = usize::MAX;
    rc_trace_inc_gc_count(&mut lxr);
    assert_eq!(rc_trace_gc(&lxr), 0);
    // Packets of decrements count where that is built in.
    decrement(&mut lxr, IMMIX);
    assert_eq!((lxr.diag.gc_count, lxr.diag.gc_cycle), (0, 0));
    lxr.diag.rc_trace = true;
    lxr.diag.death_diag = true;
    decrement(&mut lxr, IMMIX);
    assert_eq!((lxr.diag.gc_count, lxr.diag.gc_cycle), (1, 1));
}

#[test]
fn increments_of_traced_objects_are_logged() {
    let mut lxr = collector();
    lxr.diag.rc_trace = true;
    lay_out(&mut lxr, IMMIX + 0x100, 6, 0);
    lxr.diag.addresses.push(IMMIX + 0x100);
    lxr.store_word(0x1a000, IMMIX + 0x100);
    increment(&mut lxr, 0x1a000);
    increment(&mut lxr, 0x1a000);
    let o = IMMIX + 0x100;
    assert_eq!(
        lxr.diag.log,
        vec![
            Event::IncSlot { gc: 0, object: o, slot: 0x1a000, kind: 2, rc_before: 6, depth: 1 },
            Event::Inc { gc: 0, object: o, old: 6 },
            Event::IncSlot { gc: 0, object: o, slot: 0x1a000, kind: 2, rc_before: 7, depth: 1 },
            Event::IncStuck { gc: 0, object: o, old: 7 },
        ]
    );
}

#[test]
fn promotions_are_logged() {
    let mut lxr = collector();
    lxr.diag.rc_trace = true;
    lxr.diag.tag = 0x5000;
    lay_out(&mut lxr, IMMIX + 0x100, 0, IMMIX + 0x200);
    lay_out(&mut lxr, IMMIX + 0x200, 0, IMMIX + 0x300);
    lay_out(&mut lxr, IMMIX + 0x300, 1, 0);
    lxr.store_word(0x1a000, IMMIX + 0x100);
    increment(&mut lxr, 0x1a000);
    let (a, b, c) = (IMMIX + 0x100, IMMIX + 0x200, IMMIX + 0x300);
    assert_eq!(
        lxr.diag.log,
        vec![
            Event::IncSlot { gc: 0, object: a, slot: 0x1a000, kind: 2, rc_before: 0, depth: 1 },
            Event::Inc { gc: 0, object: a, old: 0 },
            Event::Promote { gc: 0, object: a, copied: false, los: false, depth: 1 },
            Event::IncPromo { gc: 0, object: b, parent: a, slot: a + 16 },
            Event::IncSlot { gc: 0, object: b, slot: a + 16, kind: 1, rc_before: 0, depth: 2 },
            Event::Inc { gc: 0, object: b, old: 0 },
            Event::Promote { gc: 0, object: b, copied: false, los: false, depth: 2 },
            Event::IncPromoDirect { gc: 0, object: c, parent: b, slot: b + 16, rc: 1 },
        ]
    );
}

#[test]
fn children_without_counts_are_logged() {
    let mut lxr = collector();
    lxr.diag.rc_trace = true;
    lay_out(&mut lxr, IMMIX + 0x100, 0, IMMORTAL + 0x100);
    lay_out(&mut lxr, IMMORTAL + 0x100, 0, 0);
    lxr.diag.addresses.push(IMMORTAL + 0x100);
    lxr.store_word(0x1a000, IMMIX + 0x100);
    increment(&mut lxr, 0x1a000);
    assert_eq!(
        lxr.diag.log,
        vec![Event::IncPromoSkip {
            gc: 0,
            object: IMMORTAL + 0x100,
            parent: IMMIX + 0x100,
            slot: IMMIX + 0x110,
        }]
    );
}

#[test]
fn traced_slots_are_logged() {
    let mut lxr = collector();
    lxr.diag.rc_trace = true;
    lay_out(&mut lxr, IMMIX + 0x100, 3, 0);
    lay_out(&mut lxr, IMMORTAL + 0x100, 0, 0);
    for (i, target) in [0, IMMIX + 0x100, IMMORTAL + 0x100].iter().enumerate() {
        lxr.diag.addresses.push(0x1a000 + 8 * i);
        lxr.store_word(0x1a000 + 8 * i, *target);
        increment(&mut lxr, 0x1a000 + 8 * i);
    }
    let shown: Vec<(usize, i16)> = lxr
        .diag
        .log
        .iter()
        .map(|e| match e {
            Event::ProcessSlot { loaded, reported_rc, .. } => (*loaded, *reported_rc),
            _ => panic!("not a slot"),
        })
        .collect();
    assert_eq!(shown, vec![(0, -2), (IMMIX + 0x100, 3), (IMMORTAL + 0x100, -1)]);
}

#[test]
fn decrements_of_traced_objects_are_logged() {
    let mut lxr = collector();
    lxr.diag.rc_trace = true;
    lay_out(&mut lxr, IMMIX + 0x100, 2, IMMIX + 0x200);
    lay_out(&mut lxr, IMMIX + 0x200, 2, 0);
    lxr.diag.tag = 0x5000;
    decrement(&mut lxr, IMMIX + 0x100);
    decrement(&mut lxr, IMMIX + 0x100);
    decrement(&mut lxr, IMMIX + 0x100);
    let (a, b) = (IMMIX + 0x100, IMMIX + 0x200);
    assert_eq!(
        lxr.diag.log,
        vec![
            Event::Dec { gc: 1, object: a, old: 2, dead: false },
            Event::Death { gc: 2, object: a, tag: 0x5003, size: 24 },
            Event::ReferrerScanDone { gc: 2, target: a, words: 6, matches: 0 },
            Event::RecDec { gc: 2, object: b, parent: a, slot: a + 16, rc: 2 },
            Event::Dec { gc: 2, object: a, old: 1, dead: true },
            Event::Dec { gc: 2, object: b, old: 2, dead: false },
            Event::DecSkip { gc: 3, object: a, rc: 0, dead_or_stuck: true, unmarked: false },
        ]
    );
}

#[test]
fn dropped_decrements_are_logged() {
    let mut lxr = collector();
    lxr.diag.rc_trace = true;
    lxr.diag.addresses.push(IMMORTAL);
    lxr.diag.addresses.push(IMMIX + 0x100);
    lay_out(&mut lxr, IMMIX + 0x100, 2, 0);
    decrement(&mut lxr, IMMORTAL);
    lxr.phase.current_pause = Some(Pause::Full);
    decrement(&mut lxr, IMMIX + 0x100);
    assert_eq!(
        lxr.diag.log,
        vec![
            Event::DecSkipSpace { gc: 1, object: IMMORTAL },
            Event::DecSkip {
                gc: 2,
                object: IMMIX + 0x100,
                rc: 2,
                dead_or_stuck: false,
                unmarked: true,
            },
        ]
    );
}

#[test]
fn bad_tags_are_reported() {
    let mut lxr = collector();
    lxr.diag.rc_trace = true;
    lxr.counts.set(IMMIX + 0x100, 1);
    lxr.store_word(IMMIX + 0xf8, 0xbad);
    lxr.store_word(0x1a000, IMMIX + 0x100);
    increment(&mut lxr, 0x1a000);
    assert_eq!(
        lxr.diag.log[0],
        Event::CorruptInc {
            gc: 0,
            number: 0,
            object: IMMIX + 0x100,
            tag: 0xbad,
            reported_rc: 1,
            from_slot: slot(0x1a000),
            kind: 2,
            depth: 1,
        }
    );
    // The word at the slot is in the large object space, without an owner.
    assert_eq!(
        lxr.diag.log[1],
        Event::ReferrerScanDone { gc: 0, target: IMMIX + 0x100, words: 2, matches: 0 }
    );
    lay_out(&mut lxr, IMMIX + 0x1100, 0, IMMIX + 0x100);
    lxr.store_word(0x1a000, IMMIX + 0x1100);
    increment(&mut lxr, 0x1a000);
    assert_eq!(
        lxr.diag.log[2],
        Event::CorruptChild {
            gc: 0,
            number: 1,
            child: IMMIX + 0x100,
            tag: 0xbad,
            slot: IMMIX + 0x1110,
            parent: IMMIX + 0x1100,
        }
    );
    assert_eq!(lxr.diag.corrupt_count, 2);
}

#[test]
fn reports_of_bad_tags_are_limited() {
    let mut lxr = collector();
    let event = Event::BadTag { error: NumberError::Empty };
    for n in 0..60 {
        let before = lxr.diag.log.len();
        report_corruption(&mut lxr, object(IMMIX), event);
        let lines = if n < 5 {
            2
        } else if n < 50 {
            1
        } else {
            0
        };
        assert_eq!(lxr.diag.log.len() - before, lines);
    }
    assert_eq!(lxr.diag.corrupt_count, 60);
}

#[test]
fn only_live_owners_make_a_referrer_live() {
    let mut lxr = collector();
    lay_out(&mut lxr, IMMIX + 0x2000, 0, 0);
    let word = IMMIX + 0x2010;
    assert!(!referrer_owner_is_live(&lxr, word));
    lxr.counts.set(IMMIX + 0x2000, 1);
    assert!(referrer_owner_is_live(&lxr, word));
    lxr.counts.set(IMMIX + 0x2000, 0);
    lxr.marks.insert(IMMIX + 0x2000);
    assert!(referrer_owner_is_live(&lxr, word));
    // A space without counts.
    lay_out(&mut lxr, IMMORTAL + 0x100, 0, 0);
    assert!(referrer_owner_is_live(&lxr, IMMORTAL + 0x110));
    // No owner in reach.
    assert!(!referrer_owner_is_live(&lxr, IMMIX + 0x2000 + 4097));
    assert!(referrer_owner_is_live(&lxr, IMMIX + 0x2000 + 4096));
    assert!(!referrer_owner_is_live(&lxr, 4));
    // The word itself is not its owner.
    assert!(!referrer_owner_is_live(&lxr, IMMIX + 0x2000));
}

#[test]
fn a_scan_finds_live_words_outside_the_page() {
    let mut lxr = collector();
    let target = IMMIX + 0x100;
    lay_out(&mut lxr, IMMIX + 0x2000, 1, target);
    lay_out(&mut lxr, LOS + 0x100, 0, target);
    lay_out(&mut lxr, IMMIX + 0x200, 1, target);
    let (words, matches) = scan_heap_referrers_collect(&mut lxr, object(target), false);
    assert_eq!((words, matches), (9, 1));
    assert!(lxr.diag.log.is_empty());
    let (words, matches) = scan_heap_referrers_collect(&mut lxr, object(target), true);
    assert_eq!((words, matches), (9, 1));
    assert_eq!(
        lxr.diag.log[0],
        Event::ReferrerWord {
            at: IMMIX + 0x2010,
            space: SpaceName::Immix,
            owner_live: true,
            field_logged: true,
            target,
        }
    );
    assert_eq!(
        lxr.diag.log[1],
        Event::OwnerCandidate {
            owner: IMMIX + 0x2000,
            field_offset: 16,
            reported_rc: 1,
            space: SpaceName::Immix,
            marked: false,
        }
    );
    assert_eq!(lxr.diag.log[2], Event::DumpWord { at: IMMIX + 0x1ff8, value: 0x5003 });
    assert_eq!(lxr.diag.log[3], Event::DumpWord { at: IMMIX + 0x2000, value: 0x77 });
    assert_eq!(lxr.diag.log[4], Event::DumpWord { at: IMMIX + 0x2010, value: target });
    // The dead referrer is shown beside a live one.
    assert_eq!(
        lxr.diag.log[5],
        Event::ReferrerWord {
            at: LOS + 0x110,
            space: SpaceName::Los,
            owner_live: false,
            field_logged: true,
            target,
        }
    );
    lxr.diag.log.clear();
    lxr.diag.gc_count = 9;
    lxr.counts.set(IMMIX + 0x2000, 0);
    scan_heap_referrers(&mut lxr, object(target));
    assert_eq!(
        lxr.diag.log,
        vec![Event::ReferrerScanDone { gc: 9, target, words: 9, matches: 0 }]
    );
}

#[test]
fn a_scan_counts_and_reports_every_referrer() {
    let mut lxr = collector();
    lay_out(&mut lxr, IMMIX + 0x2000, 1, 0);
    for i in 0..100 {
        lxr.store_word(IMMIX + 0x2018 + 8 * i, IMMIX + 0x100);
    }
    let (words, matches) = scan_heap_referrers_collect(&mut lxr, object(IMMIX + 0x100), false);
    assert_eq!((words, matches), (103, 100));
    assert!(lxr.diag.log.is_empty());
    // The report makes no difference to what is counted.
    let seen = scan_heap_referrers_collect(&mut lxr, object(IMMIX + 0x100), true);
    assert_eq!(seen, (103, 100));
    let reported = lxr.diag.log.iter().filter(|e| matches!(e, Event::ReferrerWord { .. }));
    assert_eq!(reported.count(), 100);
}

#[test]
fn a_live_referrer_behind_many_dead_ones_is_counted() {
    let mut lxr = collector();
    let target = IMMIX + 0x100;
    lay_out(&mut lxr, IMMIX + 0x2000, 0, 0);
    for i in 0..64 {
        lxr.store_word(IMMIX + 0x2018 + 8 * i, target);
    }
    assert_eq!(scan_heap_referrers_collect(&mut lxr, object(target), false), (67, 0));
    lay_out(&mut lxr, IMMIX + 0x4000, 1, target);
    assert_eq!(scan_heap_referrers_collect(&mut lxr, object(target), false), (70, 1));
    // An object that it refers to dies of an undercount.
    lxr.diag.rc_trace = true;
    lxr.diag.undercount_enabled = true;
    lxr.diag.undercount_budget = 3;
    lay_out(&mut lxr, target, 1, 0);
    decrement(&mut lxr, target);
    assert_eq!(lxr.diag.undercount_found, 1);
    assert_eq!(lxr.diag.undercount_budget, 2);
}

#[test]
fn owners_without_counts_are_told_apart() {
    let mut lxr = collector();
    lay_out(&mut lxr, IMMORTAL + 0x100, 0, IMMIX + 0x100);
    lxr.immix.items.push(HeapItem::Range(AddressRange { start: IMMORTAL, end: 0x1e000 }));
    assert_eq!(
        describe_referrer_owner_with_lxr(&lxr, IMMORTAL + 0x110, true),
        "cand_owner=0x1c100 field_off=16 type=Node owner_rc=-1 owner_space=other \
         owner_marked=false"
    );
    scan_heap_referrers_collect(&mut lxr, object(IMMIX + 0x100), true);
    assert_eq!(
        lxr.diag.log[1],
        Event::OwnerCandidate {
            owner: IMMORTAL + 0x100,
            field_offset: 16,
            reported_rc: -1,
            space: SpaceName::Other,
            marked: false,
        }
    );
}

#[test]
fn deaths_are_counted() {
    let mut lxr = collector();
    lay_out(&mut lxr, IMMIX + 0x100, 1, LOS + 0x100);
    lay_out(&mut lxr, LOS + 0x100, 1, 0);
    lay_out(&mut lxr, IMMIX + 0x200, 2, 0);
    decrement(&mut lxr, IMMIX + 0x100);
    decrement(&mut lxr, IMMIX + 0x200);
    let stats = lxr.diag.stats;
    assert_eq!(stats.dead_mature, Tally { objects: 2, volume: 48 });
    assert_eq!(stats.dead_mature_rc, Tally { objects: 2, volume: 48 });
    assert_eq!(stats.dead_mature_los, Tally { objects: 1, volume: 24 });
    assert_eq!(stats.dead_mature_rc_los, Tally { objects: 1, volume: 24 });
    assert_eq!(stats.inc, Tally { objects: 0, volume: 0 });
}

#[test]
fn owners_are_described() {
    let mut lxr = collector();
    lay_out(&mut lxr, IMMIX + 0x100, 3, 0);
    lay_out(&mut lxr, IMMIX + 0x140, 0, 0);
    lxr.marks.insert(IMMIX + 0x140);
    assert_eq!(
        describe_referrer_owner_with_lxr(&lxr, IMMIX + 0x150, true),
        "cand_owner=0x10140 field_off=16 type=Node owner_rc=0 owner_space=immix owner_marked=true \
         | cand_owner=0x10100 field_off=80 type=Node owner_rc=3 owner_space=immix \
         owner_marked=false"
    );
    assert_eq!(
        describe_referrer_owner(&lxr, IMMIX + 0x110),
        "cand_owner=0x10100 field_off=16 type=Node owner_rc=? owner_space=? owner_marked=?"
    );
    assert_eq!(describe_referrer_owner(&lxr, IMMIX + 8), "<owner-not-found>");
}

#[test]
fn four_owners_are_described_at_most() {
    let mut lxr = collector();
    for i in 0..6 {
        lay_out(&mut lxr, IMMIX + 0x100 + 0x40 * i, 1, 0);
    }
    let text = describe_referrer_owner(&lxr, IMMIX + 0x300);
    assert_eq!(text.matches("cand_owner=").count(), 4);
}

#[test]
fn spaces_have_names() {
    let lxr = collector();
    assert_eq!(referrer_space_name(&lxr, IMMIX), SpaceName::Immix);
    assert_eq!(referrer_space_name(&lxr, LOS), SpaceName::Los);
    assert_eq!(referrer_space_name(&lxr, IMMORTAL), SpaceName::Immortal);
    assert_eq!(referrer_space_name(&lxr, 0), SpaceName::Other);
    assert_eq!(SpaceName::Los.as_text(), "los");
    assert_eq!(SpaceName::Immortal.as_text(), "immortal");
}

#[test]
fn undercounts_are_detected() {
    let mut lxr = collector();
    lxr.diag.rc_trace = true;
    rc_undercount_init_from_env(&mut lxr, Some("2"), None);
    lay_out(&mut lxr, IMMIX + 0x2000, 1, IMMIX + 0x100);
    lay_out(&mut lxr, IMMIX + 0x100, 1, 0);
    decrement(&mut lxr, IMMIX + 0x100);
    assert_eq!(
        lxr.diag.log.last(),
        Some(&Event::Undercount {
            gc: 1,
            number: 0,
            freed: IMMIX + 0x100,
            tag: 0x5003,
            size: 24,
            live_referrers: 1,
            marked: false,
        })
    );
    assert_eq!((lxr.diag.undercount_budget, lxr.diag.undercount_found), (1, 1));
    // Without a live referrer nothing is reported.
    lxr.diag.log.clear();
    lay_out(&mut lxr, IMMIX + 0x300, 1, 0);
    decrement(&mut lxr, IMMIX + 0x300);
    assert!(lxr.diag.log.is_empty());
    assert_eq!((lxr.diag.undercount_budget, lxr.diag.undercount_found), (0, 1));
    // The budget is spent.
    lxr.counts.set(IMMIX + 0x100, 1);
    decrement(&mut lxr, IMMIX + 0x100);
    assert!(lxr.diag.log.is_empty());
    assert_eq!((lxr.diag.undercount_budget, lxr.diag.undercount_found), (0, 1));
}

#[test]
fn the_detector_waits_for_its_collection() {
    let mut lxr = collector();
    lxr.diag.rc_trace = true;
    rc_undercount_init_from_env(&mut lxr, None, Some("2"));
    assert_eq!(lxr.diag.undercount_budget, 200);
    lay_out(&mut lxr, IMMIX + 0x100, 1, 0);
    decrement(&mut lxr, IMMIX + 0x100);
    assert_eq!(lxr.diag.undercount_budget, 200);
    lxr.counts.set(IMMIX + 0x100, 1);
    decrement(&mut lxr, IMMIX + 0x100);
    assert_eq!(lxr.diag.undercount_budget, 199);
}

#[test]
fn twenty_undercounts_are_reported() {
    let mut lxr = collector();
    lxr.diag.rc_trace = true;
    rc_undercount_init_from_env(&mut lxr, Some("100"), None);
    lxr.diag.undercount_found = 19;
    lay_out(&mut lxr, IMMIX + 0x2000, 1, IMMIX + 0x100);
    lay_out(&mut lxr, IMMIX + 0x100, 1, 0);
    for reported in [true, false] {
        lxr.diag.log.clear();
        note_death(&mut lxr, object(IMMIX + 0x100));
        let last = lxr.diag.log.last();
        assert_eq!(matches!(last, Some(Event::Undercount { .. })), reported);
    }
    assert_eq!(lxr.diag.undercount_found, 21);
}

#[test]
fn deaths_are_logged_up_to_a_limit() {
    let mut lxr = collector();
    lxr.diag.death_diag = true;
    lxr.diag.gc_cycle = 4;
    lay_out(&mut lxr, LOS + 0x100, 1, 0);
    note_death(&mut lxr, object(LOS + 0x100));
    assert_eq!(
        lxr.diag.log,
        vec![Event::RcDeath {
            number: 0,
            gc: 4,
            object: LOS + 0x100,
            tag: 0x5003,
            size: 24,
            space: SpaceName::Los,
        }]
    );
    lxr.diag.death_count = 500;
    note_death(&mut lxr, object(LOS + 0x100));
    assert_eq!(lxr.diag.log.last(), Some(&Event::RcDeathSuppressed { gc: 4 }));
    note_death(&mut lxr, object(LOS + 0x100));
    assert_eq!(lxr.diag.log.len(), 2);
    assert_eq!(lxr.diag.death_count, 502);
}

#[test]
fn objects_of_partition_size_show_their_words() {
    let mut lxr = collector();
    lxr.diag.death_diag = true;
    let o = IMMIX + 0x100;
    for (i, word) in [IMMIX + 0x300, 5, 6, 0, 8].iter().enumerate() {
        lxr.store_word(o + 8 * i, *word);
    }
    lxr.counts.set(IMMIX + 0x300, 2);
    lxr.objects.set(
        o,
        Shape {
            size: 48,
            kind: ObjectKind::Plain,
            fields: Vec::new(),
            tag_valid: true,
            class_name: String::new(),
        },
    );
    note_death(&mut lxr, object(o));
    assert_eq!(
        lxr.diag.log,
        vec![
            Event::RcDeath {
                number: 0,
                gc: 0,
                object: o,
                tag: 0xDEAD,
                size: 48,
                space: SpaceName::Immix,
            },
            Event::RcDeathFields {
                restriction: IMMIX + 0x300,
                restriction_rc: 2,
                partition_kind: 8,
                min_world: 5,
                max_world: 6,
                next: 0,
                next_rc: -2,
            },
        ]
    );
}

#[test]
fn diagnostics_change_nothing_else() {
    let mut plain = collector();
    let mut watched = collector();
    watched.diag.rc_trace = true;
    watched.diag.death_diag = true;
    watched.diag.tag = 0x5000;
    rc_undercount_init_from_env(&mut watched, Some("50"), None);
    for lxr in [&mut plain, &mut watched] {
        lay_out(lxr, IMMIX + 0x100, 0, IMMIX + 0x200);
        lay_out(lxr, IMMIX + 0x200, 0, IMMIX + 0x300);
        lxr.store_word(0x1a000, IMMIX + 0x100);
        increment(lxr, 0x1a000);
        decrement(lxr, IMMIX + 0x100);
    }
    assert!(plain.diag.log.is_empty());
    assert!(!watched.diag.log.is_empty());
    assert_eq!(plain.effects, watched.effects);
    for a in [IMMIX + 0x100, IMMIX + 0x200, IMMIX + 0x300] {
        assert_eq!(plain.count(object(a)), watched.count(object(a)));
        assert_eq!(plain.load_unlog_bit(a + 16), watched.load_unlog_bit(a + 16));
    }
    assert_eq!(plain.work.len(), watched.work.len());
}

#[test]
fn a_printed_address_can_be_traced() {
    let mut lxr = collector();
    lay_out(&mut lxr, IMMIX + 0x100, 3, 0);
    let text = describe_referrer_owner(&lxr, IMMIX + 0x110);
    let address = text.strip_prefix("cand_owner=").unwrap().split(' ').next().unwrap();
    rc_trace_init_from_env(&mut lxr, Some(address), None);
    assert!(is_rc_traced_addr(&lxr, IMMIX + 0x100));
}
