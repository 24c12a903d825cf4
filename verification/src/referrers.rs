//! Scans of the heap for the words that refer to an object, and the checks that
//! use them: the undercount detector and the death log.

use crate::object::ObjectReference;
use crate::plan::Lxr;
use crate::state::DiagView;
use crate::state::Event;
use crate::state::HeapItem;
use crate::state::SpaceName;
use crate::state::State;
use crate::state::LOGGED_VALUE;
use crate::stats::count_death;
use crate::stats::death_counted;
use crate::trace::count_up;
use crate::trace::counted;
use crate::trace::find_owner_candidates;
use crate::trace::is_rc_traced;
use crate::trace::owner_candidates;
use crate::trace::owner_is_live;
use crate::trace::owner_space;
use crate::trace::referrer_owner_is_live;
use crate::trace::referrer_space_name;
use crate::trace::reported_rc;
use crate::trace::space_name;
use crate::trace::OwnerCandidate;
use crate::trace::CORRUPT_LOG_LIMIT;
use crate::trace::CORRUPT_SCAN_LIMIT;
use crate::trace::DEATH_LOG_LIMIT;
use crate::trace::NO_TAG;
use crate::trace::PAGE_BYTES;
use crate::trace::PARTITION_BYTES;
use crate::trace::UNDERCOUNT_FOUND_LIMIT;
use vstd::prelude::*;

verus! {

/// What a scan of the heap has seen: how many words, and those of them that refer
/// to the target.
pub struct Scan {
    pub words: usize,
    pub hits: Seq<usize>,
}

/// Whether the word at `at` refers to `target` from outside its page.
pub open spec fn refers_from_outside(s: State, target: usize, at: usize) -> bool {
    s.word(at) == target && at / PAGE_BYTES != target / PAGE_BYTES
}

/// The scan after the word at `at`.
pub open spec fn word_scanned(s: State, target: usize, at: usize, scan: Scan) -> Scan {
    if s.mapped(at) {
        Scan {
            words: counted(scan.words),
            hits: if refers_from_outside(s, target, at) {
                scan.hits.push(at)
            } else {
                scan.hits
            },
        }
    } else {
        scan
    }
}

/// The scan after the words from `start` up to `end`.
pub open spec fn range_scanned(s: State, target: usize, start: int, end: int, scan: Scan) -> Scan
    decreases end + 8 - start,
{
    if start >= end {
        scan
    } else {
        range_scanned(s, target, start + 8, end, word_scanned(s, target, start as usize, scan))
    }
}

/// The scan after the items of a space; objects that are visited as such hold
/// no words to look at.
pub open spec fn items_scanned(s: State, target: usize, items: Seq<HeapItem>, scan: Scan) -> Scan
    decreases items.len(),
{
    if items.len() == 0 {
        scan
    } else {
        let before = items_scanned(s, target, items.drop_last(), scan);
        match items.last() {
            HeapItem::Object(_) => before,
            HeapItem::Range(r) => range_scanned(s, target, r.start as int, r.end as int, before),
        }
    }
}

/// The scan of the whole heap.
#[verifier::opaque]
pub open spec fn heap_scanned(s: State, target: usize) -> Scan {
    let immix = items_scanned(
        s,
        target,
        s.immix.items,
        Scan { words: 0, hits: Seq::empty() },
    );
    items_scanned(s, target, s.los.items, immix)
}

/// The referring words whose owner is live.
pub open spec fn live_referrers(s: State, target: usize) -> Seq<usize> {
    heap_scanned(s, target).hits.filter(|at: usize| owner_is_live(s, at))
}

/// The mapped ones of the `count` words that end at `at`.
pub open spec fn dumped(s: State, at: usize, count: int) -> Seq<Event>
    decreases count,
{
    if count <= 0 {
        Seq::empty()
    } else {
        let rest = dumped(s, at, count - 1);
        let a = at - (count - 1) * 8;
        if a >= 0 && s.mapped(a as usize) {
            seq![Event::DumpWord { at: a as usize, value: s.word(a as usize) }] + rest
        } else {
            rest
        }
    }
}

/// The report of a possible owner.
pub open spec fn candidate_event(s: State, c: OwnerCandidate) -> Event {
    let o = ObjectReference { address: c.owner };
    Event::OwnerCandidate {
        owner: c.owner,
        field_offset: c.field_offset,
        reported_rc: s.reported_rc(o),
        space: owner_space(s, c.owner),
        marked: s.is_marked(o),
    }
}

/// The report of a referring word: where it lies, who may own it, and the words
/// before it.
pub open spec fn hit_events(s: State, target: usize, at: usize) -> Seq<Event> {
    seq![
        Event::ReferrerWord {
            at,
            space: space_name(s, at),
            owner_live: owner_is_live(s, at),
            field_logged: s.logging_state(at) == LOGGED_VALUE,
            target,
        },
    ] + owner_candidates(s, at).map_values(|c: OwnerCandidate| candidate_event(s, c)) + dumped(
        s,
        at,
        16,
    )
}

/// The reports of referring words.
pub open spec fn hits_events(s: State, target: usize, hits: Seq<usize>) -> Seq<Event>
    decreases hits.len(),
{
    if hits.len() == 0 {
        Seq::empty()
    } else {
        hits_events(s, target, hits.drop_last()) + hit_events(s, target, hits.last())
    }
}

/// What a scan for the referrers of `target` reports: every referring word, where
/// at least one of them has a live owner.
#[verifier::opaque]
pub open spec fn scan_events(s: State, target: usize) -> Seq<Event> {
    if live_referrers(s, target).len() > 0 {
        hits_events(s, target, heap_scanned(s, target).hits)
    } else {
        Seq::empty()
    }
}

/// The state after the referrers of an object were reported.
pub open spec fn referrers_reported(s: State, target: ObjectReference) -> State {
    s.with_events(scan_events(s, target.address)).with_event(
        Event::ReferrerScanDone {
            gc: s.diag.gc_count,
            target: target.address,
            words: heap_scanned(s, target.address).words,
            matches: live_referrers(s, target.address).len() as usize,
        },
    )
}

/// Scans the words of a range.
fn scan_range(
    lxr: &Lxr,
    target: usize,
    start: usize,
    end: usize,
    words: usize,
    hits: &mut Vec<usize>,
) -> (total: usize)
    requires
        end <= usize::MAX - 8,
    ensures
        (Scan { words: total, hits: final(hits)@ }) == range_scanned(
            lxr@,
            target,
            start as int,
            end as int,
            Scan { words, hits: old(hits)@ },
        ),
{
    let mut a: usize = start;
    let mut total: usize = words;
    while a < end
        invariant
            end <= usize::MAX - 8,
            range_scanned(
                lxr@,
                target,
                a as int,
                end as int,
                Scan { words: total, hits: hits@ },
            ) == range_scanned(
                lxr@,
                target,
                start as int,
                end as int,
                Scan { words, hits: old(hits)@ },
            ),
        decreases end + 8 - a,
    {
        if lxr.is_mapped(a) {
            let w: usize = lxr.load_word(a);
            total = count_up(total);
            if w == target && a / PAGE_BYTES != target / PAGE_BYTES {
                hits.push(a);
            }
        }
        a += 8;
    }
    total
}

/// Scans the items of a space.
fn scan_items(
    lxr: &Lxr,
    target: usize,
    items: &Vec<HeapItem>,
    words: usize,
    hits: &mut Vec<usize>,
) -> (total: usize)
    requires
        forall|i: int|
            0 <= i < items@.len() ==> ((#[trigger] items@[i]) matches HeapItem::Range(r) ==> r.end
                <= usize::MAX - 8),
    ensures
        (Scan { words: total, hits: final(hits)@ }) == items_scanned(
            lxr@,
            target,
            items@,
            Scan { words, hits: old(hits)@ },
        ),
{
    let mut i: usize = 0;
    let mut total: usize = words;
    while i < items.len()
        invariant
            i <= items.len(),
            forall|i: int|
                0 <= i < items@.len() ==> ((#[trigger] items@[i]) matches HeapItem::Range(r)
                    ==> r.end <= usize::MAX - 8),
            (Scan { words: total, hits: hits@ }) == items_scanned(
                lxr@,
                target,
                items@.take(i as int),
                Scan { words, hits: old(hits)@ },
            ),
        decreases items.len() - i,
    {
        match items[i] {
            HeapItem::Object(_) => {},
            HeapItem::Range(r) => {
                total = scan_range(lxr, target, r.start, r.end, total, hits);
            },
        }
        i += 1;
        proof {
            assert(items@.take(i as int).drop_last() =~= items@.take(i - 1));
            assert(items@.take(i as int).last() == items@[i - 1]);
        }
    }
    proof {
        assert(items@.take(i as int) =~= items@);
    }
    total
}

/// Reports the mapped ones of the sixteen words that end at `at`.
fn dump_words(lxr: &mut Lxr, at: usize)
    ensures
        final(lxr)@ == old(lxr)@.with_events(dumped(old(lxr)@, at, 16)),
        old(lxr)@.wf() ==> final(lxr)@.wf(),
{
    let mut k: usize = 16;
    let ghost s0 = lxr@;
    proof {
        assert(s0.with_events(Seq::empty()).diag.log =~= s0.diag.log);
        assert(dumped(s0, at, 16) =~= Seq::<Event>::empty() + dumped(s0, at, 16));
    }
    let ghost mut done: Seq<Event> = Seq::empty();
    while k > 0
        invariant
            k <= 16,
            s0 == old(lxr)@,
            lxr@ == s0.with_events(done),
            done + dumped(s0, at, k as int) == dumped(s0, at, 16),
            old(lxr)@.wf() ==> lxr@.wf(),
        decreases k,
    {
        k -= 1;
        let ghost before = done;
        if at >= k * 8 && lxr.is_mapped(at - k * 8) {
            let a: usize = at - k * 8;
            let value: usize = lxr.load_word(a);
            lxr.log(Event::DumpWord { at: a, value });
            proof {
                done = before.push(Event::DumpWord { at: a, value });
                assert(lxr@.diag.log =~= s0.with_events(done).diag.log);
                assert(before + dumped(s0, at, k + 1) =~= done + dumped(s0, at, k as int));
            }
        } else {
            proof {
                assert(dumped(s0, at, k + 1) == dumped(s0, at, k as int));
            }
        }
    }
    proof {
        assert(done + dumped(s0, at, 0) =~= done);
    }
}

/// Reports the possible owners of the word at `at`.
fn report_candidates(lxr: &mut Lxr, at: usize)
    ensures
        final(lxr)@ == old(lxr)@.with_events(
            owner_candidates(old(lxr)@, at).map_values(
                |c: OwnerCandidate| candidate_event(old(lxr)@, c),
            ),
        ),
        old(lxr)@.wf() ==> final(lxr)@.wf(),
{
    let candidates: Vec<OwnerCandidate> = find_owner_candidates(lxr, at);
    let ghost s0 = lxr@;
    let ghost events = candidates@.map_values(|c: OwnerCandidate| candidate_event(s0, c));
    let mut i: usize = 0;
    proof {
        assert(s0.with_events(events.take(0)).diag.log =~= s0.diag.log);
    }
    while i < candidates.len()
        invariant
            i <= candidates.len(),
            events == candidates@.map_values(|c: OwnerCandidate| candidate_event(s0, c)),
            lxr@ == s0.with_events(events.take(i as int)),
            s0.wf() ==> lxr@.wf(),
        decreases candidates.len() - i,
    {
        let c: OwnerCandidate = candidates[i];
        let o = ObjectReference { address: c.owner };
        let space = if lxr.immix.address_in_space(c.owner) {
            SpaceName::Immix
        } else if lxr.los.address_in_space(c.owner) {
            SpaceName::Los
        } else {
            SpaceName::Other
        };
        let shown: i16 = reported_rc(lxr, o);
        let marked: bool = lxr.is_marked(o);
        lxr.log(
            Event::OwnerCandidate {
                owner: c.owner,
                field_offset: c.field_offset,
                reported_rc: shown,
                space,
                marked,
            },
        );
        i += 1;
        proof {
            assert(lxr@.diag.log =~= s0.with_events(events.take(i as int)).diag.log);
        }
    }
    proof {
        assert(events.take(i as int) =~= events);
    }
}

/// Reports a referring word.
fn report_hit(lxr: &mut Lxr, target: usize, at: usize)
    requires
        old(lxr)@.wf(),
    ensures
        final(lxr)@ == old(lxr)@.with_events(hit_events(old(lxr)@, target, at)),
        final(lxr)@.wf(),
{
    let ghost s0 = lxr@;
    let owner_live: bool = referrer_owner_is_live(lxr, at);
    let field_logged: bool = lxr.load_unlog_bit(at) == LOGGED_VALUE;
    let space: SpaceName = referrer_space_name(lxr, at);
    lxr.log(Event::ReferrerWord { at, space, owner_live, field_logged, target });
    let ghost s1 = lxr@;
    proof {
        lemma_log_is_not_read(s0, s1, at);
    }
    report_candidates(lxr, at);
    let ghost s2 = lxr@;
    proof {
        lemma_dump_ignores_log(s0, s2, at, 16);
        assert(owner_candidates(s1, at).map_values(|c: OwnerCandidate| candidate_event(s1, c))
            =~= owner_candidates(s0, at).map_values(|c: OwnerCandidate| candidate_event(s0, c)));
    }
    dump_words(lxr, at);
    proof {
        assert(lxr@.diag.log =~= s0.with_events(hit_events(s0, target, at)).diag.log);
    }
}

/// Whether two states differ in their diagnostics at most.
pub open spec fn same_but_diag(a: State, b: State) -> bool {
    b == State { diag: b.diag, ..a }
}

/// The possible owners of a word do not depend on the diagnostics.
proof fn lemma_candidates_ignore_diag(
    a: State,
    b: State,
    slot: usize,
    candidate: usize,
    lo: usize,
    found: Seq<OwnerCandidate>,
)
    requires
        same_but_diag(a, b),
    ensures
        crate::trace::candidates_from(a, slot, candidate, lo, found)
            == crate::trace::candidates_from(b, slot, candidate, lo, found),
    decreases candidate,
{
    if candidate < lo || found.len() >= crate::trace::MAX_CANDS {
    } else {
        let next = if crate::trace::plausible_owner(a, candidate) && a.shape(
            candidate,
        ).class_name.len() != 0 {
            found.push(
                OwnerCandidate { owner: candidate, field_offset: (slot - candidate) as usize },
            )
        } else {
            found
        };
        if candidate >= 8 {
            lemma_candidates_ignore_diag(a, b, slot, (candidate - 8) as usize, lo, next);
        }
    }
}

/// The nearest owner of a word does not depend on the diagnostics.
proof fn lemma_owner_ignores_diag(a: State, b: State, candidate: usize, lo: usize)
    requires
        same_but_diag(a, b),
    ensures
        crate::trace::nearest_owner(a, candidate, lo) == crate::trace::nearest_owner(
            b,
            candidate,
            lo,
        ),
    decreases candidate,
{
    if candidate >= 8 {
        lemma_owner_ignores_diag(a, b, (candidate - 8) as usize, lo);
    }
}

/// What is reported of the owners of a word does not depend on the diagnostics.
pub proof fn lemma_log_is_not_read(a: State, b: State, at: usize)
    requires
        same_but_diag(a, b),
    ensures
        owner_candidates(a, at) == owner_candidates(b, at),
        owner_is_live(a, at) == owner_is_live(b, at),
        forall|c: OwnerCandidate| #[trigger] candidate_event(a, c) == candidate_event(b, c),
        space_name(a, at) == space_name(b, at),
        a.logging_state(at) == b.logging_state(at),
{
    lemma_candidates_ignore_diag(
        a,
        b,
        at,
        crate::trace::first_candidate(at),
        crate::trace::search_limit(at),
        Seq::empty(),
    );
    lemma_owner_ignores_diag(
        a,
        b,
        crate::trace::first_candidate(at),
        crate::trace::search_limit(at),
    );
}

/// The words before a word do not depend on the diagnostics.
proof fn lemma_dump_ignores_log(a: State, b: State, at: usize, count: int)
    requires
        same_but_diag(a, b),
    ensures
        dumped(a, at, count) == dumped(b, at, count),
    decreases count,
{
    if count > 0 {
        lemma_dump_ignores_log(a, b, at, count - 1);
    }
}

/// What is reported of a word does not depend on the diagnostics.
pub proof fn lemma_hit_ignores_log(a: State, b: State, target: usize, at: usize)
    requires
        same_but_diag(a, b),
    ensures
        hit_events(a, target, at) == hit_events(b, target, at),
{
    lemma_log_is_not_read(a, b, at);
    lemma_dump_ignores_log(a, b, at, 16);
    assert(owner_candidates(a, at).map_values(|c: OwnerCandidate| candidate_event(a, c))
        =~= owner_candidates(b, at).map_values(|c: OwnerCandidate| candidate_event(b, c)));
}

/// Reports the referring words.
fn report_hits(lxr: &mut Lxr, target: usize, hits: &Vec<usize>)
    requires
        old(lxr)@.wf(),
    ensures
        final(lxr)@ == old(lxr)@.with_events(hits_events(old(lxr)@, target, hits@)),
        final(lxr)@.wf(),
{
    let ghost s0 = lxr@;
    let mut i: usize = 0;
    proof {
        assert(s0.with_events(Seq::empty()).diag.log =~= s0.diag.log);
    }
    while i < hits.len()
        invariant
            i <= hits.len(),
            lxr@.wf(),
            lxr@ == s0.with_events(hits_events(s0, target, hits@.take(i as int))),
        decreases hits.len() - i,
    {
        let ghost s1 = lxr@;
        report_hit(lxr, target, hits[i]);
        proof {
            lemma_hit_ignores_log(s0, s1, target, hits@[i as int]);
            assert(hits@.take(i + 1).drop_last() =~= hits@.take(i as int));
            assert(hits@.take(i + 1).last() == hits@[i as int]);
            assert(lxr@.diag.log =~= s0.with_events(
                hits_events(s0, target, hits@.take(i + 1)),
            ).diag.log);
        }
        i += 1;
    }
    proof {
        assert(hits@.take(i as int) =~= hits@);
    }
}

/// How many of the words have a live owner.
fn count_live(lxr: &Lxr, hits: &Vec<usize>) -> (live: usize)
    ensures
        live == hits@.filter(|at: usize| owner_is_live(lxr@, at)).len(),
        live <= hits@.len(),
{
    let ghost pred = |at: usize| owner_is_live(lxr@, at);
    let mut live: usize = 0;
    let mut i: usize = 0;
    proof {
        assert(hits@.take(0).filter(pred).len() == 0) by {
            reveal(Seq::filter);
        }
    }
    while i < hits.len()
        invariant
            i <= hits.len(),
            pred == (|at: usize| owner_is_live(lxr@, at)),
            live == hits@.take(i as int).filter(pred).len(),
            live <= i,
        decreases hits.len() - i,
    {
        proof {
            reveal(Seq::filter);
            assert(hits@.take(i + 1).drop_last() =~= hits@.take(i as int));
            assert(hits@.take(i + 1).last() == hits@[i as int]);
        }
        if referrer_owner_is_live(lxr, hits[i]) {
            live += 1;
        }
        i += 1;
    }
    proof {
        assert(hits@.take(i as int) =~= hits@);
    }
    live
}

/// Scans the heap for words that refer to `target` from outside its page.
/// Returns how many words were looked at, and how many of the referring words have
/// a live owner. With `verbose`, and where there are such words, every referring word
/// is reported.
pub fn scan_heap_referrers_collect(lxr: &mut Lxr, target: ObjectReference, verbose: bool) -> (seen: (
    usize,
    usize,
))
    requires
        old(lxr)@.wf(),
    ensures
        seen.0 == heap_scanned(old(lxr)@, target.address).words,
        seen.1 == live_referrers(old(lxr)@, target.address).len(),
        final(lxr)@ == (if verbose {
            old(lxr)@.with_events(scan_events(old(lxr)@, target.address))
        } else {
            old(lxr)@
        }),
        final(lxr)@.wf(),
{
    proof {
        reveal(heap_scanned);
        reveal(scan_events);
    }
    let mut hits: Vec<usize> = Vec::new();
    let immix_words: usize = scan_items(lxr, target.address, &lxr.immix.items, 0, &mut hits);
    let words: usize = scan_items(lxr, target.address, &lxr.los.items, immix_words, &mut hits);
    let live: usize = count_live(lxr, &hits);
    if verbose && live > 0 {
        report_hits(lxr, target.address, &hits);
    } else {
        proof {
            assert(lxr@.with_events(Seq::empty()).diag.log =~= lxr@.diag.log);
        }
    }
    (words, live)
}

/// Reports the words of the heap that refer to `target`.
pub fn scan_heap_referrers(lxr: &mut Lxr, target: ObjectReference)
    requires
        old(lxr)@.wf(),
    ensures
        final(lxr)@ == referrers_reported(old(lxr)@, target),
        final(lxr)@.wf(),
{
    let (words, matches): (usize, usize) = scan_heap_referrers_collect(lxr, target, true);
    let gc: usize = lxr.diag.gc_count;
    lxr.log(Event::ReferrerScanDone { gc, target: target.address, words, matches });
}

// Bad tags.

/// The state after a slot was found to refer to `target`, whose tag denotes no
/// type: the first of them are logged with `event`, and the very first start a
/// scan for referrers.
pub open spec fn corruption_reported(s: State, target: ObjectReference, event: Event) -> State {
    let n = s.diag.corrupt_count;
    let counted_up = State {
        diag: DiagView { corrupt_count: counted(n), ..s.diag },
        ..s
    };
    if n < CORRUPT_SCAN_LIMIT {
        referrers_reported(counted_up.with_event(event), target)
    } else if n < CORRUPT_LOG_LIMIT {
        counted_up.with_event(event)
    } else {
        counted_up
    }
}

/// Counts and reports a reference to an object whose tag denotes no type.
pub fn report_corruption(lxr: &mut Lxr, target: ObjectReference, event: Event)
    requires
        old(lxr)@.wf(),
    ensures
        final(lxr)@ == corruption_reported(old(lxr)@, target, event),
        final(lxr)@.wf(),
{
    let n: usize = lxr.diag.corrupt_count;
    lxr.diag.corrupt_count = count_up(n);
    if n < CORRUPT_LOG_LIMIT {
        lxr.log(event);
        if n < CORRUPT_SCAN_LIMIT {
            scan_heap_referrers(lxr, target);
        }
    }
}

// Undercounts.

/// Whether a death is checked for live referrers: the detector is on, its
/// first collection has come, and there is budget left.
pub open spec fn undercount_checked(s: State) -> bool {
    &&& s.diag.undercount_enabled
    &&& s.diag.gc_count >= s.diag.undercount_from_gc
    &&& s.diag.undercount_budget > 0
}

/// The state after the death of an object was checked. A check spends one unit
/// of budget. Where a live word still refers to the object, the find is counted,
/// and reported while few were found.
#[verifier::opaque]
pub open spec fn death_checked(s: State, o: ObjectReference) -> State {
    if !undercount_checked(s) {
        s
    } else {
        let spent = State {
            diag: DiagView {
                undercount_budget: (s.diag.undercount_budget - 1) as usize,
                ..s.diag
            },
            ..s
        };
        let matches = live_referrers(spent, o.address).len();
        let scanned = spent.with_events(scan_events(spent, o.address));
        if matches == 0 {
            scanned
        } else {
            let found = s.diag.undercount_found;
            let noted = State {
                diag: DiagView { undercount_found: counted(found), ..scanned.diag },
                ..scanned
            };
            if found >= UNDERCOUNT_FOUND_LIMIT {
                noted
            } else {
                noted.with_event(
                    Event::Undercount {
                        gc: s.diag.gc_count,
                        number: found,
                        freed: o.address,
                        tag: s.tag_word(o.address, 0),
                        size: reported_size(s, o),
                        live_referrers: matches as usize,
                        marked: s.is_marked(o),
                    },
                )
            }
        }
    }
}

/// The size of an object for a report: zero where it is not mapped.
pub open spec fn reported_size(s: State, o: ObjectReference) -> usize {
    if s.mapped(o.address) {
        s.shape(o.address).size
    } else {
        0
    }
}

/// The size of an object for a report.
fn size_for_report(lxr: &Lxr, o: ObjectReference) -> (size: usize)
    ensures
        size == reported_size(lxr@, o),
{
    if lxr.is_mapped(o.address) {
        lxr.get_size(o)
    } else {
        0
    }
}

/// Checks a freed object for live referrers. Returns at once where the detector
/// is off, before its first collection, and without budget.
pub fn detect_death_undercount(lxr: &mut Lxr, o: ObjectReference)
    requires
        old(lxr)@.wf(),
    ensures
        final(lxr)@ == death_checked(old(lxr)@, o),
        final(lxr)@.wf(),
{
    proof {
        reveal(death_checked);
    }
    if !lxr.diag.undercount_enabled {
        return;
    }
    if lxr.diag.gc_count < lxr.diag.undercount_from_gc {
        return;
    }
    if lxr.diag.undercount_budget == 0 {
        return;
    }
    lxr.diag.undercount_budget = lxr.diag.undercount_budget - 1;
    let (_words, matches): (usize, usize) = scan_heap_referrers_collect(lxr, o, true);
    if matches == 0 {
        return;
    }
    let found: usize = lxr.diag.undercount_found;
    lxr.diag.undercount_found = count_up(found);
    if found >= UNDERCOUNT_FOUND_LIMIT {
        return;
    }
    let tag: usize = lxr.tag_word(o.address, 0);
    let size: usize = size_for_report(lxr, o);
    let marked: bool = lxr.is_marked(o);
    let gc: usize = lxr.diag.gc_count;
    lxr.log(
        Event::Undercount {
            gc,
            number: found,
            freed: o.address,
            tag,
            size,
            live_referrers: matches,
            marked,
        },
    );
}

// Deaths.

/// The count of the object that a word refers to, for a report: -1 where it has
/// none, -2 where the word is zero.
pub open spec fn referred_rc(s: State, word: usize) -> i16 {
    if word == 0 {
        (-2) as i16
    } else {
        s.reported_rc(ObjectReference { address: word })
    }
}

/// The count of the object that a word refers to, for a report.
fn rc_for_report(lxr: &Lxr, word: usize) -> (rc: i16)
    ensures
        rc == referred_rc(lxr@, word),
{
    if word == 0 {
        -2
    } else {
        reported_rc(lxr, ObjectReference { address: word })
    }
}

/// The word at `offset` into the object.
pub open spec fn object_word(s: State, o: ObjectReference, offset: int) -> usize {
    s.word((o.address + offset) as usize)
}

/// The state after a death was logged: the first deaths with the object, and its
/// words where it has the size of a binding partition; then one line that says
/// that no more are logged.
#[verifier::opaque]
pub open spec fn death_logged(s: State, o: ObjectReference) -> State {
    let n = s.diag.death_count;
    let next = State { diag: DiagView { death_count: counted(n), ..s.diag }, ..s };
    if n < DEATH_LOG_LIMIT {
        let logged = next.with_event(
            Event::RcDeath {
                number: n,
                gc: s.diag.gc_cycle,
                object: o.address,
                tag: s.tag_word(o.address, NO_TAG),
                size: reported_size(s, o),
                space: owner_space(s, o.address),
            },
        );
        if reported_size(s, o) == PARTITION_BYTES {
            logged.with_event(
                Event::RcDeathFields {
                    restriction: object_word(s, o, 0),
                    restriction_rc: referred_rc(s, object_word(s, o, 0)),
                    partition_kind: object_word(s, o, 32),
                    min_world: object_word(s, o, 8),
                    max_world: object_word(s, o, 16),
                    next: object_word(s, o, 24),
                    next_rc: referred_rc(s, object_word(s, o, 24)),
                },
            )
        } else {
            logged
        }
    } else if n == DEATH_LOG_LIMIT {
        next.with_event(Event::RcDeathSuppressed { gc: s.diag.gc_cycle })
    } else {
        next
    }
}

/// Logs a death.
fn log_death(lxr: &mut Lxr, o: ObjectReference)
    requires
        old(lxr)@.wf(),
    ensures
        final(lxr)@ == death_logged(old(lxr)@, o),
        final(lxr)@.wf(),
{
    proof {
        reveal(death_logged);
    }
    let n: usize = lxr.diag.death_count;
    lxr.diag.death_count = count_up(n);
    let gc: usize = lxr.diag.gc_cycle;
    if n < DEATH_LOG_LIMIT {
        let space = if lxr.immix.in_space(o) {
            SpaceName::Immix
        } else if lxr.los.in_space(o) {
            SpaceName::Los
        } else {
            SpaceName::Other
        };
        let tag: usize = lxr.tag_word(o.address, NO_TAG);
        let size: usize = size_for_report(lxr, o);
        lxr.log(Event::RcDeath { number: n, gc, object: o.address, tag, size, space });
        if size == PARTITION_BYTES {
            assert(lxr@.objects.contains_key(o.address));
            let restriction: usize = lxr.load_word(o.address);
            let min_world: usize = lxr.load_word(o.address + 8);
            let max_world: usize = lxr.load_word(o.address + 16);
            let next: usize = lxr.load_word(o.address + 24);
            let partition_kind: usize = lxr.load_word(o.address + 32);
            let restriction_rc: i16 = rc_for_report(lxr, restriction);
            let next_rc: i16 = rc_for_report(lxr, next);
            lxr.log(
                Event::RcDeathFields {
                    restriction,
                    restriction_rc,
                    partition_kind,
                    min_world,
                    max_world,
                    next,
                    next_rc,
                },
            );
        }
    } else if n == DEATH_LOG_LIMIT {
        lxr.log(Event::RcDeathSuppressed { gc });
    }
}

/// The state after the diagnostics have looked at a death, and counted it.
#[verifier::opaque]
pub open spec fn death_noted(s: State, o: ObjectReference) -> State {
    let traced = if s.diag.rc_trace {
        let reported = if s.is_traced(o) {
            referrers_reported(
                s.with_event(
                    Event::Death {
                        gc: s.diag.gc_count,
                        object: o.address,
                        tag: s.tag_word(o.address, NO_TAG),
                        size: reported_size(s, o),
                    },
                ),
                o,
            )
        } else {
            s
        };
        death_checked(reported, o)
    } else {
        s
    };
    let logged = if traced.diag.death_diag {
        death_logged(traced, o)
    } else {
        traced
    };
    death_counted(logged, o)
}

/// Lets the diagnostics look at a death: a traced object is reported with its
/// referrers, the undercount detector checks it, and the death is logged and
/// counted.
pub fn note_death(lxr: &mut Lxr, o: ObjectReference)
    requires
        old(lxr)@.wf(),
    ensures
        final(lxr)@ == death_noted(old(lxr)@, o),
        final(lxr)@.wf(),
{
    proof {
        reveal(death_noted);
    }
    if lxr.diag.rc_trace {
        if is_rc_traced(lxr, o) {
            let gc: usize = lxr.diag.gc_count;
            let tag: usize = lxr.tag_word(o.address, NO_TAG);
            let size: usize = size_for_report(lxr, o);
            lxr.log(Event::Death { gc, object: o.address, tag, size });
            scan_heap_referrers(lxr, o);
        }
        detect_death_undercount(lxr, o);
    }
    if lxr.diag.death_diag {
        log_death(lxr, o);
    }
    count_death(lxr, o);
}

} // verus!
