use lxr::args::Args;
use lxr::object::ObjectReference;
use lxr::object::Slot;
use lxr::packets::ProcessIncs;
use lxr::packets::Work;
use lxr::packets::EDGE_KIND_ROOT;
use lxr::plan::Lxr;
use lxr::roots::RCImmixCollectRootEdges;
use lxr::state::AddressRange;
use lxr::state::Destination;
use lxr::state::Effect;
use lxr::state::Pause;
use lxr::state::Phase;
use lxr::state::RootKind;
use lxr::state::WorkBucketStage;

const IMMIX: usize = 0x10000;
const STACK: usize = 0x90000;

fn collector(pause: Pause) -> Lxr {
    let args = Args {
        buffer_size: 4,
        max_ref_count: 7,
        max_young_evac_size: 1024,
        max_pause_millis: None,
        lazy_decrements: false,
        rc_nursery_evacuation: false,
        rc_mature_evacuation: true,
        inc_max_copy_depth: false,
        compressed_pointers: false,
        sanity: true,
        poison_dead_objects: true,
        heap_start: IMMIX,
        heap_end: 0x20000,
        unlog_base: 0x100_0000,
        block_bytes: 0x1000,
    };
    let phase = Phase {
        current_pause: Some(pause),
        previous_pause: None,
        cm_enabled: true,
        cm_in_progress: false,
        in_sanity: false,
        used_pages: 10,
        collection_reserved_pages: 2,
        total_pages: 100,
        lazy_jobs_cycle: 0,
    };
    let mut lxr = Lxr::new(args, phase);
    lxr.immix.ranges.push(AddressRange { start: IMMIX, end: 0x20000 });
    lxr.counts.set(IMMIX, 1);
    lxr.store_word(STACK, IMMIX);
    lxr.store_word(STACK + 8, 0);
    lxr
}

fn slot(address: usize) -> Slot {
    Slot { address, type_tag: false }
}

fn object(address: usize) -> ObjectReference {
    ObjectReference { address }
}

fn strong() -> RootKind {
    RootKind { weak: false, record_remset: false, skip_mark_and_decs: false, skip_decs: false }
}

fn count_roots(lxr: &mut Lxr, kind: Option<RootKind>) {
    let mut edges = RCImmixCollectRootEdges::new(vec![slot(STACK), slot(STACK + 8)], true);
    edges.root_kind = kind;
    edges.process_slots(lxr, 0);
    assert!(edges.slots.is_empty());
}

#[test]
fn roots_are_counted_and_decremented_in_the_next_pause() {
    let mut lxr = collector(Pause::RefCount);
    count_roots(&mut lxr, Some(strong()));
    assert_eq!(lxr.count(object(IMMIX)), 2);
    assert_eq!(lxr.curr_roots, vec![vec![object(IMMIX)]]);
    assert!(lxr.work.is_empty());
}

#[test]
fn some_roots_are_not_decremented() {
    let mut lxr = collector(Pause::RefCount);
    count_roots(&mut lxr, Some(RootKind { skip_decs: true, ..strong() }));
    assert_eq!(lxr.count(object(IMMIX)), 2);
    assert!(lxr.curr_roots.is_empty());
}

#[test]
fn marking_starts_from_the_roots() {
    let mut lxr = collector(Pause::InitialMark);
    count_roots(&mut lxr, Some(strong()));
    assert_eq!(lxr.work.len(), 1);
    assert_eq!(lxr.work[0].to, Destination::Postponed);
    match &lxr.work[0].work {
        Work::ConcurrentTrace(objects) => assert_eq!(*objects, vec![object(IMMIX)]),
        _ => panic!("nothing to trace"),
    }
    assert_eq!(lxr.curr_roots, vec![vec![object(IMMIX)]]);
    let mut lxr = collector(Pause::InitialMark);
    count_roots(&mut lxr, Some(RootKind { skip_mark_and_decs: true, ..strong() }));
    assert!(lxr.work.is_empty());
    let mut lxr = collector(Pause::InitialMark);
    lxr.phase.cm_enabled = false;
    count_roots(&mut lxr, Some(strong()));
    assert!(lxr.work.is_empty());
}

#[test]
fn a_tracing_pause_traces_the_slots() {
    for (pause, is_full) in [(Pause::FinalMark, false), (Pause::Full, true)] {
        let mut lxr = collector(pause);
        count_roots(&mut lxr, None);
        assert!(lxr.curr_roots.is_empty());
        assert_eq!(lxr.work.len(), 1);
        assert_eq!(lxr.work[0].to, Destination::Worker(WorkBucketStage::Closure));
        match &lxr.work[0].work {
            Work::ProcessEdges { slots, full, root_kind } => {
                assert_eq!(*slots, vec![slot(STACK), slot(STACK + 8)]);
                assert_eq!(*full, is_full);
                assert!(root_kind.is_none());
            }
            _ => panic!("no slots to trace"),
        }
    }
}

#[test]
fn weak_roots_are_not_traced() {
    let mut lxr = collector(Pause::Full);
    count_roots(&mut lxr, Some(RootKind { weak: true, ..strong() }));
    assert!(lxr.work.is_empty());
    assert!(lxr.curr_roots.is_empty());
    assert!(lxr.sanity_roots.is_empty());
    assert_eq!(lxr.count(object(IMMIX)), 2);
}

#[test]
fn roots_without_objects_are_not_handed_over() {
    let mut lxr = collector(Pause::RefCount);
    let mut edges = RCImmixCollectRootEdges::new(vec![slot(STACK + 8)], true);
    edges.process_slots(&mut lxr, 0);
    assert!(lxr.curr_roots.is_empty());
    assert!(lxr.work.is_empty());
}

#[test]
fn roots_are_kept_for_a_sanity_collection() {
    let mut lxr = collector(Pause::RefCount);
    count_roots(&mut lxr, Some(strong()));
    assert_eq!(lxr.sanity_roots, vec![vec![slot(STACK), slot(STACK + 8)]]);
    let mut lxr = collector(Pause::RefCount);
    lxr.phase.in_sanity = true;
    count_roots(&mut lxr, Some(strong()));
    assert!(lxr.sanity_roots.is_empty());
    let mut lxr = collector(Pause::RefCount);
    lxr.args.sanity = false;
    count_roots(&mut lxr, Some(strong()));
    assert!(lxr.sanity_roots.is_empty());
    let mut lxr = collector(Pause::RefCount);
    let mut edges = RCImmixCollectRootEdges::new(vec![slot(STACK)], false);
    edges.root_kind = Some(strong());
    edges.process_slots(&mut lxr, 0);
    assert!(lxr.sanity_roots.is_empty());
}

#[test]
fn an_empty_set_of_roots_does_nothing() {
    let mut lxr = collector(Pause::RefCount);
    lxr.phase.current_pause = None;
    let mut edges = RCImmixCollectRootEdges::new(Vec::new(), true);
    edges.process_slots(&mut lxr, 0);
    assert!(lxr.sanity_roots.is_empty());
    assert!(lxr.work.is_empty());
}

#[test]
fn root_slots_are_remembered_only_when_asked_for() {
    let mut lxr = collector(Pause::FinalMark);
    lxr.defrag.insert(IMMIX);
    let mut w: ProcessIncs<EDGE_KIND_ROOT> = ProcessIncs::new(Vec::new());
    w.pause = Pause::FinalMark;
    w.process_slot::<EDGE_KIND_ROOT>(&mut lxr, slot(STACK), 1, false);
    assert!(lxr.effects.is_empty());
    w.process_slot::<EDGE_KIND_ROOT>(&mut lxr, slot(STACK), 1, true);
    assert_eq!(lxr.effects.len(), 1);
    let found = w.process_incs::<EDGE_KIND_ROOT>(&mut lxr, &vec![slot(STACK)], 1, true);
    assert_eq!(found, Some(vec![object(IMMIX)]));
    assert_eq!(lxr.effects.len(), 2);
    let none = w.process_incs::<EDGE_KIND_ROOT>(&mut lxr, &vec![slot(STACK + 8)], 1, true);
    assert_eq!(none, None);
}

#[test]
fn roots_whose_kind_asks_for_it_are_remembered() {
    for (record_remset, in_cm, remembered) in
        [(true, true, 1), (false, true, 0), (true, false, 0)]
    {
        let mut lxr = collector(Pause::RefCount);
        lxr.phase.cm_in_progress = in_cm;
        lxr.defrag.insert(IMMIX);
        lxr.counts.set(IMMIX, 1);
        let earlier = Effect::RcFree { object: object(0x500) };
        lxr.effects.push(earlier);
        count_roots(&mut lxr, Some(RootKind { weak: true, record_remset, ..strong() }));
        assert_eq!(lxr.effects.len(), 1 + remembered);
        assert_eq!(lxr.effects[0], earlier);
        if remembered == 1 {
            assert_eq!(
                lxr.effects[1],
                Effect::RemsetRecord { slot: slot(STACK), object: object(IMMIX) }
            );
        }
    }
}
