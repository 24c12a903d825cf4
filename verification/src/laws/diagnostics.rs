//! What holds of the diagnostics.

use crate::increments::answer_taken;
use crate::increments::child_scanned;
use crate::increments::children_scanned;
use crate::increments::claim_dropped;
use crate::increments::claim_settled;
use crate::increments::copy_answer;
use crate::increments::forwarded_to;
use crate::increments::inc_processed;
use crate::increments::inc_traced;
use crate::increments::moved_or_kept;
use crate::increments::nursery_object_scanned;
use crate::increments::object_copied;
use crate::increments::promoted;
use crate::increments::rearmed;
use crate::increments::slices_added;
use crate::object::Field;
use crate::object::MemorySlice;
use crate::object::ObjectKind;
use crate::object::ObjectReference;
use crate::object::Slot;
use crate::parse::comma_parts;
use crate::parse::digit_value;
use crate::parse::digits_value;
use crate::parse::hex_number;
use crate::parse::is_space;
use crate::parse::number;
use crate::parse::part_added;
use crate::parse::parts_added;
use crate::parse::setting;
use crate::parse::trace_initialised;
use crate::parse::trimmed;
use crate::parse::trimmed_end;
use crate::parse::trimmed_start;
use crate::parse::undercount_initialised;
use crate::parse::NumberError;
use crate::referrers::corruption_reported;
use crate::referrers::death_checked;
use crate::referrers::death_logged;
use crate::referrers::death_noted;
use crate::referrers::heap_scanned;
use crate::referrers::hit_events;
use crate::referrers::hits_events;
use crate::referrers::items_scanned;
use crate::referrers::live_referrers;
use crate::referrers::range_scanned;
use crate::referrers::referrers_reported;
use crate::referrers::refers_from_outside;
use crate::referrers::same_but_diag;
use crate::referrers::scan_events;
use crate::referrers::undercount_checked;
use crate::referrers::word_scanned;
use crate::referrers::Scan;
use crate::state::DiagView;
use crate::state::Effect;
use crate::state::Event;
use crate::state::Forwarding;
use crate::state::HeapItem;
use crate::state::IncsState;
use crate::state::State;
use crate::stats::increment_counted;
use crate::stats::promotion_noted;
use crate::text::decimal;
use crate::text::digit;
use crate::text::digits;
use crate::text::hexadecimal;
use crate::trace::address_added;
use crate::trace::candidates_from;
use crate::trace::counted;
use crate::trace::owner_candidates;
use crate::trace::owner_is_live;
use crate::trace::OwnerCandidate;
use crate::trace::CORRUPT_LOG_LIMIT;
use crate::trace::DEATH_LOG_LIMIT;
use crate::trace::MAX_CANDS;
use crate::trace::RC_TRACE_MAX_ADDRS;
use vstd::prelude::*;

verus! {

// The trace set.

/// An address that was added is traced, where there was room for it. What was
/// traced before stays traced, and the set never outgrows its limit.
pub proof fn added_addresses_are_traced(s: State, address: usize, other: usize)
    requires
        s.wf(),
    ensures
        ({
            let t = address_added(s, address);
            &&& s.diag.addresses.len() < RC_TRACE_MAX_ADDRS ==> t.is_traced_address(address)
            &&& s.diag.addresses.len() == RC_TRACE_MAX_ADDRS ==> t.diag.addresses
                == s.diag.addresses
            &&& s.is_traced_address(other) ==> t.is_traced_address(other)
            &&& t.diag.addresses.len() <= RC_TRACE_MAX_ADDRS
        }),
{
    let t = address_added(s, address);
    if s.diag.addresses.len() < RC_TRACE_MAX_ADDRS {
        let n = s.diag.addresses.len() as int;
        assert(t.diag.addresses[n] == address);
        if s.is_traced_address(other) {
            let i = choose|i: int| 0 <= i < n && s.diag.addresses[i] == other;
            assert(t.diag.addresses[i] == other);
        }
    }
}

// Scans.

/// A scan collects referring words only.
spec fn collects_referrers(s: State, target: usize, scan: Scan) -> bool {
    forall|i: int|
        0 <= i < scan.hits.len() ==> s.mapped(#[trigger] scan.hits[i]) && refers_from_outside(
            s,
            target,
            scan.hits[i],
        )
}

/// What the first scan collected the second has too.
spec fn goes_on(first: Scan, second: Scan) -> bool {
    forall|a: usize| #[trigger]
        first.hits.contains(a) ==> second.hits.contains(a)
}

proof fn lemma_word_scanned(s: State, target: usize, at: usize, scan: Scan)
    requires
        collects_referrers(s, target, scan),
    ensures
        ({
            let next = word_scanned(s, target, at, scan);
            &&& collects_referrers(s, target, next)
            &&& goes_on(scan, next)
            &&& s.mapped(at) && refers_from_outside(s, target, at) ==> next.hits.contains(at)
        }),
{
    let next = word_scanned(s, target, at, scan);
    if s.mapped(at) && refers_from_outside(s, target, at) {
        assert(next.hits[scan.hits.len() as int] == at);
        assert forall|a: usize| #[trigger]
            scan.hits.contains(a) implies next.hits.contains(a) by {
            let i = choose|i: int| 0 <= i < scan.hits.len() && scan.hits[i] == a;
            assert(next.hits[i] == a);
        }
    }
}

proof fn lemma_range_scanned(s: State, target: usize, start: int, end: int, scan: Scan, at: usize)
    requires
        collects_referrers(s, target, scan),
        0 <= start,
        end <= usize::MAX,
    ensures
        ({
            let next = range_scanned(s, target, start, end, scan);
            &&& collects_referrers(s, target, next)
            &&& goes_on(scan, next)
            &&& start <= at < end && (at - start) % 8 == 0 && s.mapped(at) && refers_from_outside(
                s,
                target,
                at,
            ) ==> next.hits.contains(at)
        }),
    decreases end + 8 - start,
{
    if start < end {
        let step = word_scanned(s, target, start as usize, scan);
        lemma_word_scanned(s, target, start as usize, scan);
        lemma_range_scanned(s, target, start + 8, end, step, at);
        let next = range_scanned(s, target, start, end, scan);
        assert forall|a: usize| #[trigger]
            scan.hits.contains(a) implies next.hits.contains(a) by {
            assert(step.hits.contains(a));
        }
    }
}

/// Whether a scan of `items` looks at the word at `at`.
pub open spec fn is_scanned(items: Seq<HeapItem>, at: usize) -> bool {
    exists|i: int|
        0 <= i < items.len() && ((#[trigger] items[i]) matches HeapItem::Range(r) && r.start <= at
            < r.end && (at - r.start) % 8 == 0)
}

proof fn lemma_items_scanned(
    s: State,
    target: usize,
    items: Seq<HeapItem>,
    scan: Scan,
    at: usize,
)
    requires
        collects_referrers(s, target, scan),
    ensures
        ({
            let next = items_scanned(s, target, items, scan);
            &&& collects_referrers(s, target, next)
            &&& goes_on(scan, next)
            &&& is_scanned(items, at) && s.mapped(at) && refers_from_outside(s, target, at)
                ==> next.hits.contains(at)
        }),
    decreases items.len(),
{
    if items.len() > 0 {
        let before = items_scanned(s, target, items.drop_last(), scan);
        lemma_items_scanned(s, target, items.drop_last(), scan, at);
        let next = items_scanned(s, target, items, scan);
        match items.last() {
            HeapItem::Object(_) => {},
            HeapItem::Range(r) => {
                lemma_range_scanned(s, target, r.start as int, r.end as int, before, at);
                assert forall|a: usize| #[trigger]
                    scan.hits.contains(a) implies next.hits.contains(a) by {
                    assert(before.hits.contains(a));
                }
            },
        }
        if is_scanned(items, at) && s.mapped(at) && refers_from_outside(s, target, at) {
            let i = choose|i: int|
                0 <= i < items.len() && ((#[trigger] items[i]) matches HeapItem::Range(r)
                    && r.start <= at < r.end && (at - r.start) % 8 == 0);
            if i < items.len() - 1 {
                assert(items.drop_last()[i] == items[i]);
                assert(is_scanned(items.drop_last(), at));
                assert(before.hits.contains(at));
            }
        }
    }
}

/// A scan of the heap finds the referrers: the mapped words among those that it
/// looks at that hold the address of the target, outside its page. The live ones
/// are those with a live owner.
pub proof fn scan_finds_the_referrers(s: State, target: usize, at: usize)
    ensures
        ({
            let refers = (is_scanned(s.immix.items, at) || is_scanned(s.los.items, at))
                && s.mapped(at) && refers_from_outside(s, target, at);
            &&& refers ==> heap_scanned(s, target).hits.contains(at)
            &&& heap_scanned(s, target).hits.contains(at) ==> s.mapped(at) && refers_from_outside(
                s,
                target,
                at,
            )
            &&& refers && owner_is_live(s, at) ==> live_referrers(s, target).contains(at)
            &&& live_referrers(s, target).contains(at) ==> s.mapped(at) && refers_from_outside(
                s,
                target,
                at,
            ) && owner_is_live(s, at)
        }),
{
    reveal(heap_scanned);
    let none = Scan { words: 0, hits: Seq::empty() };
    let immix = items_scanned(s, target, s.immix.items, none);
    lemma_items_scanned(s, target, s.immix.items, none, at);
    lemma_items_scanned(s, target, s.los.items, immix, at);
    let hits = heap_scanned(s, target).hits;
    if hits.contains(at) {
        let i = choose|i: int| 0 <= i < hits.len() && hits[i] == at;
        assert(s.mapped(hits[i]));
    }
    let pred = |a: usize| owner_is_live(s, a);
    lemma_filter(hits, pred, at);
}

/// A filtered list holds what the list holds and the filter lets through, and is
/// no longer than the list.
proof fn lemma_filter(list: Seq<usize>, pred: spec_fn(usize) -> bool, a: usize)
    ensures
        list.filter(pred).contains(a) == (list.contains(a) && pred(a)),
        list.filter(pred).len() <= list.len(),
    decreases list.len(),
{
    reveal(Seq::filter);
    if list.len() > 0 {
        let before = list.drop_last();
        let last = list.last();
        lemma_filter(before, pred, a);
        let kept = before.filter(pred);
        assert(list =~= before.push(last));
        assert(list.contains(a) == (before.contains(a) || a == last)) by {
            lemma_pushed(before, last, a);
        }
        lemma_pushed(kept, last, a);
    }
}

proof fn lemma_pushed(list: Seq<usize>, last: usize, a: usize)
    ensures
        list.push(last).contains(a) == (list.contains(a) || a == last),
{
    let longer = list.push(last);
    if list.contains(a) {
        let i = choose|i: int| 0 <= i < list.len() && list[i] == a;
        assert(longer[i] == a);
    }
    if a == last {
        assert(longer[list.len() as int] == a);
    }
    if longer.contains(a) && a != last {
        let i = choose|i: int| 0 <= i < longer.len() && longer[i] == a;
        assert(list[i] == a);
    }
}

/// How many words from `start` up to `end` are mapped.
pub open spec fn mapped_words(s: State, start: int, end: int) -> nat
    decreases end + 8 - start,
{
    if start >= end {
        0
    } else {
        mapped_words(s, start + 8, end) + if s.mapped(start as usize) {
            1nat
        } else {
            0nat
        }
    }
}

/// How many words of items are mapped.
pub open spec fn mapped_words_of(s: State, items: Seq<HeapItem>) -> nat
    decreases items.len(),
{
    if items.len() == 0 {
        0
    } else {
        mapped_words_of(s, items.drop_last()) + match items.last() {
            HeapItem::Object(_) => 0,
            HeapItem::Range(r) => mapped_words(s, r.start as int, r.end as int),
        }
    }
}

proof fn lemma_range_counts(s: State, target: usize, start: int, end: int, scan: Scan)
    requires
        scan.words + mapped_words(s, start, end) <= usize::MAX,
        scan.hits.len() <= scan.words,
    ensures
        ({
            let next = range_scanned(s, target, start, end, scan);
            &&& next.words == scan.words + mapped_words(s, start, end)
            &&& next.hits.len() <= next.words
        }),
    decreases end + 8 - start,
{
    if start < end {
        let step = word_scanned(s, target, start as usize, scan);
        lemma_range_counts(s, target, start + 8, end, step);
    }
}

proof fn lemma_items_count(s: State, target: usize, items: Seq<HeapItem>, scan: Scan)
    requires
        scan.words + mapped_words_of(s, items) <= usize::MAX,
        scan.hits.len() <= scan.words,
    ensures
        ({
            let next = items_scanned(s, target, items, scan);
            &&& next.words == scan.words + mapped_words_of(s, items)
            &&& next.hits.len() <= next.words
        }),
    decreases items.len(),
{
    if items.len() > 0 {
        lemma_items_count(s, target, items.drop_last(), scan);
        let before = items_scanned(s, target, items.drop_last(), scan);
        match items.last() {
            HeapItem::Object(_) => {},
            HeapItem::Range(r) => {
                lemma_range_counts(s, target, r.start as int, r.end as int, before);
            },
        }
    }
}

/// A scan counts the mapped words of the ranges that it enumerates, as long as a
/// word can hold their number. No more words have a live owner and refer to the
/// target than were counted.
pub proof fn scan_counts_the_words(s: State, target: usize)
    requires
        mapped_words_of(s, s.immix.items) + mapped_words_of(s, s.los.items) <= usize::MAX,
    ensures
        heap_scanned(s, target).words == mapped_words_of(s, s.immix.items) + mapped_words_of(
            s,
            s.los.items,
        ),
        live_referrers(s, target).len() <= heap_scanned(s, target).words,
{
    reveal(heap_scanned);
    let none = Scan { words: 0, hits: Seq::empty() };
    let immix = items_scanned(s, target, s.immix.items, none);
    lemma_items_count(s, target, s.immix.items, none);
    lemma_items_count(s, target, s.los.items, immix);
    lemma_filter(heap_scanned(s, target).hits, |a: usize| owner_is_live(s, a), 0);
}

/// Whether `events` report that the word at `at` refers to `target`.
pub open spec fn reports_referrer(events: Seq<Event>, target: usize, at: usize) -> bool {
    exists|i: int|
        0 <= i < events.len() && ((#[trigger] events[i]) matches Event::ReferrerWord {
            at: word,
            target: object,
            ..
        } && word == at && object == target)
}

proof fn lemma_hits_reported(s: State, target: usize, hits: Seq<usize>, at: usize)
    requires
        hits.contains(at),
    ensures
        reports_referrer(hits_events(s, target, hits), target, at),
    decreases hits.len(),
{
    let before = hits_events(s, target, hits.drop_last());
    let last = hit_events(s, target, hits.last());
    let events = hits_events(s, target, hits);
    assert(events == before + last);
    if hits.last() == at {
        assert(events[before.len() as int] == last[0]);
    } else {
        let i = choose|i: int| 0 <= i < hits.len() && hits[i] == at;
        assert(hits.drop_last()[i] == at);
        lemma_hits_reported(s, target, hits.drop_last(), at);
        let j = choose|j: int|
            0 <= j < before.len() && ((#[trigger] before[j]) matches Event::ReferrerWord {
                at: word,
                target: object,
                ..
            } && word == at && object == target);
        assert(events[j] == before[j]);
    }
}

/// A scan that finds a live referrer reports every referrer: each mapped word among
/// those that it looks at that holds the address of the target, outside its page.
pub proof fn every_referrer_is_reported(s: State, target: usize, at: usize)
    requires
        live_referrers(s, target).len() > 0,
        is_scanned(s.immix.items, at) || is_scanned(s.los.items, at),
        s.mapped(at),
        refers_from_outside(s, target, at),
    ensures
        reports_referrer(scan_events(s, target), target, at),
{
    reveal(scan_events);
    scan_finds_the_referrers(s, target, at);
    lemma_hits_reported(s, target, heap_scanned(s, target).hits, at);
}

/// A scan that finds no live referrer reports nothing.
pub proof fn nothing_is_reported_without_a_live_referrer(s: State, target: usize)
    requires
        live_referrers(s, target).len() == 0,
    ensures
        scan_events(s, target) == Seq::<Event>::empty(),
{
    reveal(scan_events);
}

/// At most a handful of owners are named for a word.
pub proof fn few_owners_are_named(s: State, slot: usize)
    ensures
        owner_candidates(s, slot).len() <= MAX_CANDS,
{
    lemma_candidates(
        s,
        slot,
        crate::trace::first_candidate(slot),
        crate::trace::search_limit(slot),
        Seq::empty(),
    );
}

proof fn lemma_candidates(
    s: State,
    slot: usize,
    candidate: usize,
    lo: usize,
    found: Seq<OwnerCandidate>,
)
    requires
        found.len() <= MAX_CANDS,
    ensures
        candidates_from(s, slot, candidate, lo, found).len() <= MAX_CANDS,
    decreases candidate,
{
    if candidate < lo || found.len() >= MAX_CANDS {
    } else {
        let next = if crate::trace::plausible_owner(s, candidate) && s.shape(
            candidate,
        ).class_name.len() != 0 {
            found.push(
                OwnerCandidate { owner: candidate, field_offset: (slot - candidate) as usize },
            )
        } else {
            found
        };
        if candidate >= 8 {
            lemma_candidates(s, slot, (candidate - 8) as usize, lo, next);
        }
    }
}

// The undercount detector.

proof fn lemma_range_ignores_diag(
    a: State,
    b: State,
    target: usize,
    start: int,
    end: int,
    scan: Scan,
)
    requires
        same_but_diag(a, b),
    ensures
        range_scanned(a, target, start, end, scan) == range_scanned(b, target, start, end, scan),
    decreases end + 8 - start,
{
    if start < end {
        assert(word_scanned(a, target, start as usize, scan) == word_scanned(
            b,
            target,
            start as usize,
            scan,
        ));
        lemma_range_ignores_diag(
            a,
            b,
            target,
            start + 8,
            end,
            word_scanned(a, target, start as usize, scan),
        );
    }
}

proof fn lemma_items_ignore_diag(
    a: State,
    b: State,
    target: usize,
    items: Seq<HeapItem>,
    scan: Scan,
)
    requires
        same_but_diag(a, b),
    ensures
        items_scanned(a, target, items, scan) == items_scanned(b, target, items, scan),
    decreases items.len(),
{
    if items.len() > 0 {
        lemma_items_ignore_diag(a, b, target, items.drop_last(), scan);
        let before = items_scanned(a, target, items.drop_last(), scan);
        match items.last() {
            HeapItem::Object(_) => {},
            HeapItem::Range(r) => {
                lemma_range_ignores_diag(a, b, target, r.start as int, r.end as int, before);
            },
        }
    }
}

/// Which live words refer to an object does not depend on the diagnostics.
pub proof fn live_referrers_ignore_diagnostics(a: State, b: State, target: usize)
    requires
        same_but_diag(a, b),
    ensures
        heap_scanned(a, target) == heap_scanned(b, target),
        live_referrers(a, target) == live_referrers(b, target),
{
    reveal(heap_scanned);
    let none = Scan { words: 0, hits: Seq::empty() };
    lemma_items_ignore_diag(a, b, target, a.immix.items, none);
    lemma_items_ignore_diag(
        a,
        b,
        target,
        a.los.items,
        items_scanned(a, target, a.immix.items, none),
    );
    assert forall|at: usize| #[trigger]
        owner_is_live(a, at) == owner_is_live(b, at) by {
        crate::referrers::lemma_log_is_not_read(a, b, at);
    }
    assert((|at: usize| owner_is_live(a, at)) =~= (|at: usize|
        owner_is_live(b, at)));
}

/// A scan changes nothing but the log, and what it reports makes no difference to
/// what it counts: a scan after it, with or without a report, counts the same.
pub proof fn scans_only_observe(s: State, target: usize)
    ensures
        ({
            let t = s.with_events(scan_events(s, target));
            &&& same_but_diag(s, t)
            &&& t.diag == (DiagView { log: t.diag.log, ..s.diag })
            &&& heap_scanned(t, target) == heap_scanned(s, target)
            &&& live_referrers(t, target) == live_referrers(s, target)
        }),
{
    live_referrers_ignore_diagnostics(s, s.with_events(scan_events(s, target)), target);
}

// Statistics.

/// A death is counted once, whatever the other diagnostics do with it.
#[verifier::rlimit(40)]
pub proof fn death_is_counted(s: State, o: ObjectReference)
    ensures
        death_noted(s, o).diag.stats == s.diag.stats.death(
            s.shape(o.address).size,
            !s.immix.has(o.address),
        ),
{
    reveal(death_noted);
    reveal(death_checked);
    reveal(death_logged);
}

proof fn lemma_child_keeps_stats(
    p: IncsState,
    s: State,
    o: ObjectReference,
    in_defrag: bool,
    slot: Slot,
)
    ensures
        child_scanned(p, s, o, in_defrag, slot).1.diag.stats == s.diag.stats,
{
    reveal(child_scanned);
}

proof fn lemma_children_keep_stats(
    p: IncsState,
    s: State,
    o: ObjectReference,
    in_defrag: bool,
    fields: Seq<Field>,
)
    ensures
        children_scanned(p, s, o, in_defrag, fields).1.diag.stats == s.diag.stats,
    decreases fields.len(),
{
    if fields.len() > 0 {
        lemma_children_keep_stats(p, s, o, in_defrag, fields.drop_last());
        let (p1, s1) = children_scanned(p, s, o, in_defrag, fields.drop_last());
        lemma_child_keeps_stats(p1, s1, o, in_defrag, fields.last().slot);
    }
}

proof fn lemma_slices_keep_stats(p: IncsState, s: State, slices: Seq<MemorySlice>)
    ensures
        slices_added(p, s, slices).1.diag.stats == s.diag.stats,
    decreases slices.len(),
{
    if slices.len() > 0 {
        lemma_slices_keep_stats(p, s, slices.drop_last());
    }
}

/// A promotion is counted once.
pub proof fn promotion_is_counted(
    p: IncsState,
    s: State,
    o: ObjectReference,
    copied: bool,
    los: bool,
    depth: u32,
)
    ensures
        promoted(p, s, o, copied, los, depth).1.diag.stats == s.diag.stats.promotion(
            s.shape(o.address).size,
            s.los.has(o.address),
            copied,
        ),
{
    reveal(promoted);
    reveal(nursery_object_scanned);
    reveal(rearmed);
    let size = s.shape(o.address).size;
    let s1 = promotion_noted(s, o, copied, los, depth);
    let s2 = if los {
        s1
    } else {
        let told = if !copied && s1.in_nursery(o) {
            s1.with_effect(Effect::InPlacePromoted { block: s1.args.block_of(o.address) })
        } else {
            s1
        };
        told.with_effect(Effect::PromoteWithSize { object: o, size })
    };
    let p2 = if !los && copied {
        IncsState { copied_sizes: p.copied_sizes.push(size), ..p }
    } else {
        p
    };
    let s3 = rearmed(s2, o, los, !copied, size);
    let shape = s2.shape(o.address);
    let in_defrag = !los && s2.in_defrag_block(o.address);
    lemma_children_keep_stats(p2, s3, o, in_defrag, shape.fields);
    if let ObjectKind::ObjArray(data) = shape.kind {
        lemma_slices_keep_stats(p2, s3, data.chunks(s2.args.buffer_size as int));
    }
}

/// The increment of an object that has a count is counted once, with the size of
/// the object where it is found; an object without a count is not counted.
#[verifier::rlimit(40)]
pub proof fn increment_is_counted(p: IncsState, s: State, o: ObjectReference, depth: u32)
    ensures
        ({
            let (_, t, _) = inc_processed(p, s, o, depth);
            let moved = s.args.rc_nursery_evacuation && !s.los.has(o.address);
            let at = if moved {
                forwarded_to(claim_settled(s, o), o)
            } else {
                o
            };
            t.diag.stats.inc == (if s.is_managed(o) && s.has_rc(o) {
                s.diag.stats.inc.plus(s.shape(at.address).size)
            } else {
                s.diag.stats.inc
            })
        }),
{
    reveal(inc_processed);
    reveal(moved_or_kept);
    reveal(object_copied);
    let los = s.los.has(o.address);
    let found = claim_settled(s, o);
    let settled = increment_counted(found, forwarded_to(found, o));
    promotion_is_counted(p, inc_traced(settled, o), o, false, los, depth);
    let noted = increment_counted(s, o);
    promotion_is_counted(p, inc_traced(noted, o), o, false, los, depth);
    let claimed = noted.with_forwarding(o, Forwarding::BeingForwarded(None));
    promotion_is_counted(p, claim_dropped(claimed, o), o, false, los, depth);
    let answered = answer_taken(claimed);
    let full = answered.with_event(Event::ToSpaceOverflow);
    promotion_is_counted(p, claim_dropped(full, o), o, false, los, depth);
    if let Some(new) = copy_answer(claimed) {
        let copied = inc_traced(object_copied(answered, o, new), new);
        promotion_is_counted(p, copied, new, true, false, depth);
    }
}

/// A death costs the undercount detector one scan while it is on and has scans
/// left, and none otherwise. It counts as an undercount just where a live word
/// still refers to the object.
pub proof fn death_is_checked_within_budget(s: State, o: ObjectReference)
    ensures
        ({
            let t = death_noted(s, o);
            let checked = s.diag.rc_trace && undercount_checked(s);
            &&& t.diag.undercount_budget == s.diag.undercount_budget - (if checked {
                1int
            } else {
                0int
            })
            &&& t.diag.undercount_found == (if checked && live_referrers(s, o.address).len() > 0 {
                counted(s.diag.undercount_found)
            } else {
                s.diag.undercount_found
            })
        }),
{
    reveal(death_noted);
    reveal(death_checked);
    reveal(death_logged);
    let reported = if s.is_traced(o) {
        referrers_reported(
            s.with_event(
                Event::Death {
                    gc: s.diag.gc_count,
                    object: o.address,
                    tag: s.tag_word(o.address, crate::trace::NO_TAG),
                    size: crate::referrers::reported_size(s, o),
                },
            ),
            o,
        )
    } else {
        s
    };
    let spent = State {
        diag: DiagView {
            undercount_budget: (reported.diag.undercount_budget - 1) as usize,
            ..reported.diag
        },
        ..reported
    };
    live_referrers_ignore_diagnostics(s, spent, o.address);
}

/// Either setting of the detector switches it on, and is taken over; without a budget
/// of its own it has the default one. That it is on is logged.
pub proof fn either_setting_enables_the_detector(
    s: State,
    budget: Option<Seq<char>>,
    from_gc: Option<Seq<char>>,
)
    ensures
        ({
            let t = undercount_initialised(s, budget, from_gc);
            &&& setting(budget) is Some || setting(from_gc) is Some ==> t.diag.undercount_enabled
            &&& setting(budget) is None && setting(from_gc) is None ==> t.diag.undercount_enabled
                == s.diag.undercount_enabled
            &&& setting(budget) is None ==> t.diag.undercount_budget == 200
            &&& setting(budget) matches Some(n) ==> t.diag.undercount_budget == n
            &&& setting(from_gc) is None ==> t.diag.undercount_from_gc
                == s.diag.undercount_from_gc
            &&& setting(from_gc) matches Some(n) ==> t.diag.undercount_from_gc == n
            &&& t.diag.log == (if setting(budget) is Some || setting(from_gc) is Some {
                s.diag.log.push(
                    Event::UndercountEnabled {
                        budget: t.diag.undercount_budget,
                        from_gc: t.diag.undercount_from_gc,
                    },
                )
            } else {
                s.diag.log
            })
            &&& t == (State { diag: t.diag, ..s })
        }),
{
}

// Rate limits.

/// Corrupt references are counted without end, but logged only up to a limit.
pub proof fn corruption_log_is_limited(s: State, o: ObjectReference, event: Event)
    ensures
        ({
            let t = corruption_reported(s, o, event);
            &&& t.diag.corrupt_count == counted(s.diag.corrupt_count)
            &&& s.diag.corrupt_count >= CORRUPT_LOG_LIMIT ==> t.diag.log == s.diag.log
            &&& s.diag.corrupt_count < CORRUPT_LOG_LIMIT ==> t.diag.log.len() > s.diag.log.len()
                && t.diag.log[s.diag.log.len() as int] == event
        }),
{
}

/// Deaths are counted without end, but logged only up to a limit, and the line
/// that says so comes once.
pub proof fn death_log_is_limited(s: State, o: ObjectReference)
    ensures
        ({
            let t = death_logged(s, o);
            &&& t.diag.death_count == counted(s.diag.death_count)
            &&& s.diag.death_count > DEATH_LOG_LIMIT ==> t.diag.log == s.diag.log
            &&& s.diag.death_count == DEATH_LOG_LIMIT ==> t.diag.log == s.diag.log.push(
                Event::RcDeathSuppressed { gc: s.diag.gc_cycle },
            )
        }),
{
    reveal(death_logged);
}

// Numbers.

/// A digit that is written is read back, and is neither white space nor a comma
/// nor a sign.
proof fn lemma_digit(value: int, radix: int)
    requires
        0 <= value < radix <= 16,
    ensures
        digit_value(digit(value), radix) == Some(value),
        !is_space(digit(value)),
        digit(value) != ',',
        digit(value) != '+',
        digit(value) != 'x',
        digit(value) != 'X',
{
}

/// Digits that are written are read back.
proof fn lemma_digits(n: int, radix: int)
    requires
        0 <= n <= usize::MAX,
        2 <= radix <= 16,
    ensures
        digits_value(digits(n, radix), radix) == Ok::<int, NumberError>(n),
        digits(n, radix).len() > 0,
        forall|i: int|
            0 <= i < digits(n, radix).len() ==> plain(#[trigger] digits(n, radix)[i]),
    decreases n,
{
    let text = digits(n, radix);
    if n < radix {
        lemma_digit(n, radix);
        assert(text =~= seq![digit(n)]);
        assert(text.drop_last() =~= Seq::<char>::empty());
        assert(digits_value(text.drop_last(), radix) == Ok::<int, NumberError>(0));
        assert(0 * radix == 0) by (nonlinear_arith);
        assert(text.last() == digit(n));
    } else {
        assert(0 <= n / radix < n) by (nonlinear_arith)
            requires
                n >= radix,
                radix >= 2,
        ;
        assert(n / radix * radix + n % radix == n) by (nonlinear_arith)
            requires
                radix >= 2,
        ;
        assert(0 <= n % radix < radix) by (nonlinear_arith)
            requires
                radix >= 2,
        ;
        lemma_digits(n / radix, radix);
        lemma_digit(n % radix, radix);
        assert(text.drop_last() =~= digits(n / radix, radix));
        assert(text.last() == digit(n % radix));
        assert forall|i: int| 0 <= i < text.len() implies plain(#[trigger] text[i]) by {
            if i < text.len() - 1 {
                assert(text[i] == digits(n / radix, radix)[i]);
            }
        }
    }
}

/// A character that is neither white space nor a comma nor a sign.
spec fn plain(c: char) -> bool {
    !is_space(c) && c != ',' && c != '+' && c != 'x' && c != 'X'
}

/// Text without white space at its ends is left alone.
proof fn lemma_trimmed(s: Seq<char>)
    requires
        s.len() > 0,
        !is_space(s[0]),
        !is_space(s.last()),
    ensures
        trimmed(s) == s,
{
    assert(trimmed_start(s) == s);
    assert(trimmed_end(s) == s);
}

/// Text without commas is one part.
proof fn lemma_one_part(s: Seq<char>)
    requires
        forall|i: int| 0 <= i < s.len() ==> #[trigger] s[i] != ',',
    ensures
        comma_parts(s) == seq![s],
    decreases s.len(),
{
    if s.len() == 0 {
        assert(s =~= Seq::<char>::empty());
    } else {
        assert forall|i: int| 0 <= i < s.drop_last().len() implies #[trigger] s.drop_last()[i]
            != ',' by {
            assert(s.drop_last()[i] == s[i]);
        }
        lemma_one_part(s.drop_last());
        let parts = seq![s.drop_last()];
        assert(s.last() == s[s.len() - 1]);
        assert(s.drop_last().push(s.last()) =~= s);
        assert(parts.drop_last().push(parts.last().push(s.last())) =~= seq![s]);
    }
}

/// A number that is written in hexadecimal is read back.
pub proof fn hexadecimal_is_read_back(n: int)
    requires
        0 <= n <= usize::MAX,
    ensures
        hex_number(hexadecimal(n)) == Ok::<int, NumberError>(n),
        trimmed(hexadecimal(n)) == hexadecimal(n),
        comma_parts(hexadecimal(n)) == seq![hexadecimal(n)],
{
    let text = hexadecimal(n);
    let rest = digits(n, 16);
    reveal_strlit("0x");
    lemma_digits(n, 16);
    assert(text.len() == rest.len() + 2);
    assert(text[0] == '0' && text[1] == 'x');
    assert(text.skip(2) =~= rest);
    assert(plain(rest[0]));
    assert(number(rest, 16) == digits_value(rest, 16));
    assert(text.last() == rest[rest.len() - 1]);
    lemma_trimmed(text);
    assert forall|i: int| 0 <= i < text.len() implies #[trigger] text[i] != ',' by {
        if i >= 2 {
            assert(text[i] == rest[i - 2]);
        }
    }
    lemma_one_part(text);
}

/// An address that was printed in hexadecimal can be traced: given as the list of
/// addresses, it joins the trace set.
pub proof fn printed_address_can_be_traced(s: State, address: usize)
    ensures
        trace_initialised(s, Some(hexadecimal(address as int)), None) == address_added(s, address),
{
    let text = hexadecimal(address as int);
    hexadecimal_is_read_back(address as int);
    let parts = comma_parts(text);
    assert(parts.drop_last() =~= Seq::<Seq<char>>::empty());
    assert(parts_added(s, parts.drop_last()) == s);
    assert(parts.last() == text);
    reveal_strlit("0x");
    assert(trimmed(text).len() > 0);
    assert(part_added(s, text, 0) == address_added(s, address));
}

/// A setting that was written in decimal is read back.
pub proof fn decimal_setting_is_read_back(n: usize)
    ensures
        setting(Some(decimal(n as int))) == Some(n),
{
    let text = decimal(n as int);
    lemma_digits(n as int, 10);
    assert(plain(text[0]));
    assert(text.last() == text[text.len() - 1]);
    lemma_trimmed(text);
}

} // verus!
