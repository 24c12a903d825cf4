//! What holds of the trace and of the statistics: what is logged and counted, and when.

use crate::decrements::dec_processed;
use crate::decrements::decs_begun;
use crate::decrements::lowered_or_died;
use crate::increments::answer_taken;
use crate::increments::child_scanned;
use crate::increments::children_scanned;
use crate::increments::claim_dropped;
use crate::increments::inc_processed;
use crate::increments::moved_or_kept;
use crate::increments::nursery_object_scanned;
use crate::increments::promoted;
use crate::increments::rearmed;
use crate::increments::slices_added;
use crate::increments::slot_traced;
use crate::increments::target_traced;
use crate::laws::copying::moves;
use crate::laws::deaths::decrements;
use crate::laws::deaths::meant;
use crate::object::Field;
use crate::object::MemorySlice;
use crate::object::ObjectKind;
use crate::object::ObjectReference;
use crate::object::Slot;
use crate::progress::bounded;
use crate::referrers::corruption_reported;
use crate::referrers::death_checked;
use crate::referrers::death_logged;
use crate::referrers::death_noted;
use crate::referrers::heap_scanned;
use crate::referrers::live_referrers;
use crate::referrers::referrers_reported;
use crate::referrers::scan_events;
use crate::state::DecsState;
use crate::state::Effect;
use crate::state::Event;
use crate::state::Forwarding;
use crate::state::IncsState;
use crate::state::SpaceName;
use crate::state::State;
use crate::stats::promotion_noted;
use crate::stats::Stats;
use crate::stats::Tally;
use vstd::prelude::*;

verus! {

// What is traced.

/// An object is traced by its address, or by the word before it, whose low four bits make
/// no difference, where a tag is set.
pub proof fn traced_by_address_or_tag(s: State, o: ObjectReference)
    ensures
        s.is_traced(o) == (s.diag.addresses.contains(o.address) || (s.diag.tag != 0 && o.address
            >= 8 && s.words.contains_key((o.address - 8) as usize) && s.words[(o.address
            - 8) as usize] as int / 16 * 16 == s.diag.tag)),
{
    if o.address >= 8 && s.words.contains_key((o.address - 8) as usize) {
        let raw = s.words[(o.address - 8) as usize] as int;
        assert(raw - raw % 16 == raw / 16 * 16);
    }
}

/// Whether an operation on `o` is logged.
pub open spec fn logs(s: State, o: ObjectReference) -> bool {
    s.diag.rc_trace && s.is_traced(o)
}

/// The count of an object for a report: -1 where it has none.
pub open spec fn shown_count(s: State, o: ObjectReference) -> int {
    if s.immix.has(o.address) || s.los.has(o.address) {
        s.count(o) as int
    } else {
        -1
    }
}

/// An increment of a mature object that has not moved is logged just where the object is
/// traced, with the count that it had, and as stuck where the count does not change.
pub proof fn traced_increment_is_logged(p: IncsState, s: State, o: ObjectReference, depth: u32)
    requires
        bounded(s),
        s.has_rc(o),
        s.count(o) > 0,
        s.forwarding_of(o) == Forwarding::Untouched,
    ensures
        ({
            let (_, t, _) = inc_processed(p, s, o, depth);
            let gc = s.diag.gc_count;
            let object = o.address;
            let old = s.count(o);
            t.diag.log == (if !logs(s, o) {
                s.diag.log
            } else if old == s.args.max_ref_count {
                s.diag.log.push(Event::IncStuck { gc, object, old })
            } else {
                s.diag.log.push(Event::Inc { gc, object, old })
            })
        }),
{
    reveal(inc_processed);
    let noted = crate::stats::increment_counted(s, o);
    assert(noted.count(o) == s.count(o));
    assert(noted.is_traced(o) == s.is_traced(o));
    let counted = noted.incremented(o);
    assert(counted.is_traced(o) == s.is_traced(o));
}

/// The increment of a slot starts with the log of the slot, where its address is traced, and
/// of its object, where that is traced.
pub proof fn traced_slot_is_logged(s: State, kind: u8, slot: Slot, depth: u32, o: ObjectReference)
    ensures
        ({
            let t = slot_traced(s, kind, slot, depth);
            let traced = s.diag.rc_trace && s.diag.addresses.contains(slot.address);
            let loaded = s.word(slot.address);
            &&& t == (State { diag: t.diag, ..s })
            &&& !traced ==> t == s
            &&& traced ==> t.diag.log.len() == s.diag.log.len() + 1 && t.diag.log.drop_last()
                == s.diag.log && (t.diag.log.last() matches Event::ProcessSlot {
                gc,
                slot: at,
                kind: k,
                loaded: word,
                reported_rc,
                depth: d,
            } && gc == s.diag.gc_count && at == slot.address && k == kind && word == loaded && d
                == depth && reported_rc == (if loaded == 0 {
                -2
            } else {
                shown_count(s, ObjectReference { address: loaded })
            }))
        }),
        !s.diag.rc_trace ==> target_traced(s, kind, slot, depth, o) == s,
        ({
            let t = target_traced(s, kind, slot, depth, o);
            let n = s.diag.log.len() as int;
            logs(s, o) ==> t.diag.log.len() > n && (t.diag.log[n] matches Event::IncSlot {
                gc,
                object,
                slot: at,
                kind: k,
                rc_before,
                depth: d,
            } && gc == s.diag.gc_count && object == o.address && at == slot.address && k == kind
                && d == depth && rc_before == shown_count(s, o))
        }),
        !s.diag.rc_trace || (s.tag_is_valid(o) && !s.is_traced(o)) ==> target_traced(
            s,
            kind,
            slot,
            depth,
            o,
        ).diag.log == s.diag.log,
{
    let t = slot_traced(s, kind, slot, depth);
    if s.diag.rc_trace && s.diag.addresses.contains(slot.address) {
        assert(t.diag.log.drop_last() =~= s.diag.log);
    }
}

/// A reference to an object whose tag denotes no type is counted, and logged with the object,
/// its tag, its count and the slot while fewer than fifty were found, whatever the kind of
/// the slot.
pub proof fn bad_tag_is_logged(s: State, kind: u8, slot: Slot, depth: u32, o: ObjectReference)
    requires
        s.diag.rc_trace,
        !s.shape(o.address).tag_valid,
        s.diag.corrupt_count < 50,
        !s.is_traced(o),
    ensures
        ({
            let t = target_traced(s, kind, slot, depth, o);
            let n = s.diag.log.len() as int;
            &&& t.diag.corrupt_count == s.diag.corrupt_count + 1
            &&& t.diag.log.len() > n
            &&& t.diag.log[n] matches Event::CorruptInc {
                gc,
                number,
                object,
                tag,
                reported_rc,
                from_slot,
                kind: k,
                depth: d,
            } && gc == s.diag.gc_count && number == s.diag.corrupt_count && object == o.address
                && tag == s.tag_word(o.address, 0) && reported_rc == shown_count(s, o)
                && from_slot == slot && k == kind && d == depth
        }),
{
}

/// A field of a promoted object that refers to an object whose tag denotes no type is logged
/// with both objects, the tag and the slot while fewer than fifty bad tags were found.
pub proof fn bad_child_is_logged(
    p: IncsState,
    s: State,
    o: ObjectReference,
    in_defrag: bool,
    slot: Slot,
    child: ObjectReference,
)
    requires
        s.diag.rc_trace,
        s.load(slot) == Some(child),
        !s.shape(child.address).tag_valid,
        s.diag.corrupt_count < 50,
    ensures
        ({
            let (_, t) = child_scanned(p, s, o, in_defrag, slot);
            let n = s.diag.log.len() as int;
            &&& t.diag.corrupt_count == s.diag.corrupt_count + 1
            &&& t.diag.log.len() > n
            &&& t.diag.log[n] == (Event::CorruptChild {
                gc: s.diag.gc_count,
                number: s.diag.corrupt_count,
                child: child.address,
                tag: s.tag_word(child.address, 0),
                slot: slot.address,
                parent: o.address,
            })
        }),
{
    reveal(child_scanned);
}

/// A bad tag is counted in any case. Of the first five the referrers are reported, behind
/// the line of the bad tag; of the first fifty there is that line alone; of others nothing.
pub proof fn bad_tags_are_limited(s: State, o: ObjectReference, event: Event)
    ensures
        ({
            let t = corruption_reported(s, o, event);
            let n = s.diag.corrupt_count;
            &&& t == (State { diag: t.diag, ..s })
            &&& n < usize::MAX ==> t.diag.corrupt_count == n + 1
            &&& n >= 50 ==> t.diag.log == s.diag.log
            &&& 5 <= n < 50 ==> t.diag.log == s.diag.log.push(event)
            &&& n < 5 ==> {
                &&& t.diag.log.len() >= s.diag.log.len() + 2
                &&& t.diag.log[s.diag.log.len() as int] == event
                &&& t.diag.log.last() matches Event::ReferrerScanDone { gc, target, .. } && gc
                    == s.diag.gc_count && target == o.address
            }
        }),
{
}

/// The report of the referrers of an object ends with how many words were looked at, and
/// how many of those that refer to the object have a live owner.
pub proof fn scan_ends_with_its_result(s: State, o: ObjectReference)
    ensures
        ({
            let t = referrers_reported(s, o);
            &&& t.diag.log.last() == (Event::ReferrerScanDone {
                gc: s.diag.gc_count,
                target: o.address,
                words: heap_scanned(s, o.address).words,
                matches: live_referrers(s, o.address).len() as usize,
            })
            &&& t.diag.log.drop_last() == s.diag.log + scan_events(s, o.address)
            &&& t == (State { diag: t.diag, ..s })
        }),
{
    let t = referrers_reported(s, o);
    assert(t.diag.log.drop_last() =~= s.diag.log + scan_events(s, o.address));
}

/// A promotion is logged just where the object is traced.
pub proof fn traced_promotion_is_logged(
    s: State,
    o: ObjectReference,
    copied: bool,
    los: bool,
    depth: u32,
)
    ensures
        ({
            let t = promotion_noted(s, o, copied, los, depth);
            &&& t.diag.log == (if logs(s, o) {
                s.diag.log.push(
                    Event::Promote {
                        gc: s.diag.gc_count,
                        object: o.address,
                        copied,
                        los,
                        depth,
                    },
                )
            } else {
                s.diag.log
            })
            &&& t == (State { diag: t.diag, ..s })
        }),
{
}

/// What a field of a promoted object says of its object, where that is traced and its tag is
/// valid: that it has no count, that it was queued, or that it was counted; nothing of a
/// stuck one.
pub proof fn traced_child_is_logged(
    p: IncsState,
    s: State,
    o: ObjectReference,
    in_defrag: bool,
    slot: Slot,
    child: ObjectReference,
)
    requires
        s.load(slot) == Some(child),
        s.tag_is_valid(child) || !s.diag.rc_trace,
    ensures
        ({
            let (_, t) = child_scanned(p, s, o, in_defrag, slot);
            let gc = s.diag.gc_count;
            let object = child.address;
            let parent = o.address;
            let at = slot.address;
            t.diag.log == (if !logs(s, child) {
                s.diag.log
            } else if !s.has_rc(child) {
                s.diag.log.push(Event::IncPromoSkip { gc, object, parent, slot: at })
            } else if s.count(child) == 0 {
                s.diag.log.push(Event::IncPromo { gc, object, parent, slot: at })
            } else if s.count(child) == s.args.max_ref_count {
                s.diag.log
            } else {
                s.diag.log.push(
                    Event::IncPromoDirect { gc, object, parent, slot: at, rc: s.count(child) },
                )
            })
        }),
{
    reveal(child_scanned);
}

/// A decrement that takes no last reference is logged just where its object is traced: as
/// dropped, with the reason, or with the count that the object had.
pub proof fn traced_decrement_is_logged(p: DecsState, s: State, o: ObjectReference)
    requires
        bounded(s),
        s.count(meant(s, o)) != 1 || !decrements(p, s, o),
    ensures
        ({
            let (_, t) = dec_processed(p, s, o);
            let gc = s.diag.gc_count;
            let x = meant(s, o);
            let old = s.count(x);
            let stuck = old == 0 || old == s.args.max_ref_count;
            &&& !s.has_rc(o) ==> t.diag.log == (if logs(s, o) {
                s.diag.log.push(Event::DecSkipSpace { gc, object: o.address })
            } else {
                s.diag.log
            })
            &&& s.has_rc(o) && !decrements(p, s, o) ==> t.diag.log == (if logs(s, o) {
                s.diag.log.push(
                    Event::DecSkip {
                        gc,
                        object: o.address,
                        rc: s.count(o),
                        dead_or_stuck: s.count(o) == 0 || s.count(o) == s.args.max_ref_count,
                        unmarked: p.mature_sweeping_in_progress && !s.marks.contains(o.address),
                    },
                )
            } else {
                s.diag.log
            })
            &&& decrements(p, s, o) ==> t.diag.log == (if !logs(s, x) {
                s.diag.log
            } else if stuck {
                s.diag.log.push(Event::DecStuck { gc, object: x.address, old, dead: false })
            } else {
                s.diag.log.push(Event::Dec { gc, object: x.address, old, dead: false })
            })
        }),
{
    reveal(dec_processed);
    reveal(lowered_or_died);
    if decrements(p, s, o) {
        let x = meant(s, o);
        assert(crate::decrements::dec_target(s, o) == x);
        let lower = s.with_count(x, (s.count(x) - 1) as u8);
        assert(lower.is_traced(x) == s.is_traced(x));
    }
}

// The log of an increment.

/// What was logged before is still there, in the same order.
pub open spec fn log_kept(s: State, t: State) -> bool {
    &&& s.diag.log.len() <= t.diag.log.len()
    &&& forall|i: int| 0 <= i < s.diag.log.len() ==> #[trigger] t.diag.log[i] == s.diag.log[i]
}

proof fn lemma_children_log(
    p: IncsState,
    s: State,
    o: ObjectReference,
    in_defrag: bool,
    fields: Seq<Field>,
)
    ensures
        log_kept(s, children_scanned(p, s, o, in_defrag, fields).1),
    decreases fields.len(),
{
    if fields.len() > 0 {
        lemma_children_log(p, s, o, in_defrag, fields.drop_last());
        reveal(child_scanned);
    }
}

proof fn lemma_slices_log(p: IncsState, s: State, slices: Seq<MemorySlice>)
    ensures
        slices_added(p, s, slices).1.diag == s.diag,
    decreases slices.len(),
{
    if slices.len() > 0 {
        lemma_slices_log(p, s, slices.drop_last());
    }
}

/// A promotion takes nothing out of the log.
pub proof fn promotion_keeps_the_log(
    p: IncsState,
    s: State,
    o: ObjectReference,
    copied: bool,
    los: bool,
    depth: u32,
)
    ensures
        log_kept(s, promoted(p, s, o, copied, los, depth).1),
{
    reveal(promoted);
    reveal(nursery_object_scanned);
    reveal(rearmed);
    let size = s.shape(o.address).size;
    let s1 = promotion_noted(s, o, copied, los, depth);
    let s2 = if los {
        s1
    } else {
        let told = if !copied && s1.in_nursery(o) {
            s1.with_effect(Effect::InPlacePromoted { block: s1.args.block_of(o.address) })
        } else {
            s1
        };
        told.with_effect(Effect::PromoteWithSize { object: o, size })
    };
    let p2 = if !los && copied {
        IncsState { copied_sizes: p.copied_sizes.push(size), ..p }
    } else {
        p
    };
    let s3 = rearmed(s2, o, los, !copied, size);
    assert(log_kept(s, s3));
    let shape = s2.shape(o.address);
    let in_defrag = !los && s2.in_defrag_block(o.address);
    lemma_children_log(p2, s3, o, in_defrag, shape.fields);
    if let ObjectKind::ObjArray(data) = shape.kind {
        lemma_slices_log(p2, s3, data.chunks(s2.args.buffer_size as int));
    }
}

/// Where the copy allocator has no room for an object that qualifies, the log says so before
/// anything else.
pub proof fn lack_of_room_is_logged(p: IncsState, s: State, o: ObjectReference, depth: u32)
    requires
        moves(p, s, o, depth),
        s.copies.len() == 0 || s.copies.last() is None,
    ensures
        ({
            let (_, t, _) = inc_processed(p, s, o, depth);
            let n = s.diag.log.len() as int;
            &&& log_kept(s, t)
            &&& t.diag.log.len() > n
            &&& t.diag.log[n] == Event::ToSpaceOverflow
        }),
{
    reveal(inc_processed);
    reveal(moved_or_kept);
    let noted = crate::stats::increment_counted(s, o);
    assert(noted.forwarding_of(o) == s.forwarding_of(o));
    assert(noted.count(o) == s.count(o));
    let claimed = noted.with_forwarding(o, Forwarding::BeingForwarded(None));
    let full = answer_taken(claimed).with_event(Event::ToSpaceOverflow);
    let left = claim_dropped(full, o);
    let los = s.los.has(o.address);
    promotion_keeps_the_log(p, left, o, false, los, depth);
    let n = s.diag.log.len() as int;
    assert(full.diag.log[n] == Event::ToSpaceOverflow);
    assert(left.diag.log[n] == full.diag.log[n]);
    let (_, t, _) = inc_processed(p, s, o, depth);
    let s1 = promoted(p, left, o, false, los, depth).1;
    assert(t.diag == s1.diag);
    assert forall|i: int| 0 <= i < n implies #[trigger] t.diag.log[i] == s.diag.log[i] by {
        assert(left.diag.log[i] == s.diag.log[i]);
    }
    assert(t.diag.log[n] == left.diag.log[n]);
}

// Deaths.

/// The death of a traced object is reported: the object with its tag and its size, and
/// after it the result of a scan for its referrers.
pub proof fn traced_death_is_reported(s: State, o: ObjectReference)
    requires
        logs(s, o),
    ensures
        ({
            let t = death_noted(s, o);
            let n = s.diag.log.len() as int;
            &&& t.diag.log.len() > n + 1
            &&& t.diag.log[n] == (Event::Death {
                gc: s.diag.gc_count,
                object: o.address,
                tag: (if o.address >= 8 && s.mapped((o.address - 8) as usize) {
                    s.word((o.address - 8) as usize)
                } else {
                    0xDEAD
                }),
                size: (if s.mapped(o.address) {
                    s.shape(o.address).size
                } else {
                    0
                }),
            })
            &&& exists|i: int|
                n < i < t.diag.log.len() && ((
                #[trigger] t.diag.log[i]) matches Event::ReferrerScanDone {
                    gc,
                    target,
                    words,
                    matches: live,
                } && gc == s.diag.gc_count && target == o.address && words == heap_scanned(
                    s,
                    o.address,
                ).words && live == live_referrers(s, o.address).len() as usize)
        }),
{
    reveal(death_noted);
    reveal(death_checked);
    reveal(death_logged);
    let e = Event::Death {
        gc: s.diag.gc_count,
        object: o.address,
        tag: s.tag_word(o.address, crate::trace::NO_TAG),
        size: crate::referrers::reported_size(s, o),
    };
    let said = s.with_event(e);
    let reported = referrers_reported(said, o);
    crate::laws::diagnostics::live_referrers_ignore_diagnostics(s, said, o.address);
    let i = reported.diag.log.len() - 1;
    let t = death_noted(s, o);
    assert(t.diag.log[i] == reported.diag.log[i]);
    assert(t.diag.log[s.diag.log.len() as int] == e);
}

/// The detector checks a death just where it is on, its collection has come and it has scans
/// left. Where a live word still refers to the object, the log says so, for the first twenty,
/// with the number of live referrers.
pub proof fn detector_reports_undercounts(s: State, o: ObjectReference)
    ensures
        ({
            let t = death_checked(s, o);
            let checks = s.diag.undercount_enabled && s.diag.gc_count >= s.diag.undercount_from_gc
                && s.diag.undercount_budget > 0;
            let live = live_referrers(s, o.address).len();
            &&& !checks ==> t == s
            &&& checks ==> {
                &&& t.diag.undercount_budget == s.diag.undercount_budget - 1
                &&& live == 0 ==> t.diag.undercount_found == s.diag.undercount_found
                    && t.diag.log == s.diag.log
                &&& live > 0 && s.diag.undercount_found < 20 ==> {
                    &&& t.diag.undercount_found == s.diag.undercount_found + 1
                    &&& t.diag.log.last() matches Event::Undercount {
                        gc,
                        number,
                        freed,
                        tag,
                        size,
                        live_referrers: found,
                        marked,
                    } && gc == s.diag.gc_count && number == s.diag.undercount_found && freed
                        == o.address && tag == s.tag_word(o.address, 0) && size == (if s.mapped(
                        o.address,
                    ) {
                        s.shape(o.address).size
                    } else {
                        0
                    }) && found == live as usize && marked == s.marks.contains(o.address)
                }
                &&& live > 0 && s.diag.undercount_found >= 20 ==> t.diag.log == s.diag.log
                    + scan_events(s, o.address)
            }
            &&& t == (State { diag: t.diag, ..s })
        }),
{
    reveal(death_checked);
    let spent = State {
        diag: crate::state::DiagView {
            undercount_budget: (s.diag.undercount_budget - 1) as usize,
            ..s.diag
        },
        ..s
    };
    crate::laws::diagnostics::live_referrers_ignore_diagnostics(s, spent, o.address);
    lemma_scan_events_read(s, spent, o.address);
    if live_referrers(s, o.address).len() == 0 {
        crate::laws::diagnostics::nothing_is_reported_without_a_live_referrer(spent, o.address);
        assert(s.diag.log + Seq::<Event>::empty() =~= s.diag.log);
    }
}

proof fn lemma_scan_events_read(a: State, b: State, target: usize)
    requires
        crate::referrers::same_but_diag(a, b),
    ensures
        scan_events(a, target) == scan_events(b, target),
{
    reveal(scan_events);
    crate::laws::diagnostics::live_referrers_ignore_diagnostics(a, b, target);
    lemma_hits_read(a, b, target, heap_scanned(a, target).hits);
}

proof fn lemma_hits_read(a: State, b: State, target: usize, hits: Seq<usize>)
    requires
        crate::referrers::same_but_diag(a, b),
    ensures
        crate::referrers::hits_events(a, target, hits) == crate::referrers::hits_events(
            b,
            target,
            hits,
        ),
    decreases hits.len(),
{
    if hits.len() > 0 {
        lemma_hits_read(a, b, target, hits.drop_last());
        crate::referrers::lemma_hit_ignores_log(a, b, target, hits.last());
    }
}

/// Deaths are counted, and the first five hundred are logged, each with its number, its tag,
/// its size and its space; after that one line says that no more are.
pub proof fn first_deaths_are_logged(s: State, o: ObjectReference)
    ensures
        ({
            let t = death_logged(s, o);
            let n = s.diag.death_count;
            let at = s.diag.log.len() as int;
            &&& n < usize::MAX ==> t.diag.death_count == n + 1
            &&& n < 500 ==> t.diag.log.len() > at && t.diag.log[at] == (Event::RcDeath {
                number: n,
                gc: s.diag.gc_cycle,
                object: o.address,
                tag: (if o.address >= 8 && s.mapped((o.address - 8) as usize) {
                    s.word((o.address - 8) as usize)
                } else {
                    0xDEAD
                }),
                size: (if s.mapped(o.address) {
                    s.shape(o.address).size
                } else {
                    0
                }),
                space: (if s.immix.has(o.address) {
                    SpaceName::Immix
                } else if s.los.has(o.address) {
                    SpaceName::Los
                } else {
                    SpaceName::Other
                }),
            })
            &&& n < 500 && s.mapped(o.address) && s.shape(o.address).size == 48 && o.address + 32
                <= usize::MAX ==> t.diag.log.len() == at + 2 && (t.diag.log[at + 1]
                matches Event::RcDeathFields {
                restriction,
                restriction_rc,
                partition_kind,
                min_world,
                max_world,
                next,
                next_rc,
            } && restriction == s.word(o.address) && min_world == s.word((o.address + 8) as usize)
                && max_world == s.word((o.address + 16) as usize) && next == s.word(
                (o.address + 24) as usize,
            ) && partition_kind == s.word((o.address + 32) as usize) && restriction_rc == (
            if restriction == 0 {
                -2
            } else {
                shown_count(s, ObjectReference { address: restriction })
            }) && next_rc == (if next == 0 {
                -2
            } else {
                shown_count(s, ObjectReference { address: next })
            }))
            &&& n < 500 && !(s.mapped(o.address) && s.shape(o.address).size == 48)
                ==> t.diag.log.len() == at + 1
            &&& n == 500 ==> t.diag.log == s.diag.log.push(
                Event::RcDeathSuppressed { gc: s.diag.gc_cycle },
            )
            &&& n > 500 ==> t.diag.log == s.diag.log
            &&& t == (State { diag: t.diag, ..s })
        }),
{
    reveal(death_logged);
}

/// A packet of decrements counts a collection for the trace where tracing is built in, and
/// for the death log where that is, and nothing else.
pub proof fn packet_counts_a_collection(p: DecsState, s: State)
    ensures
        ({
            let (_, t) = decs_begun(p, s);
            &&& s.diag.gc_count < usize::MAX ==> t.diag.gc_count == s.diag.gc_count + (
            if s.diag.rc_trace {
                1int
            } else {
                0int
            })
            &&& s.diag.gc_cycle < usize::MAX ==> t.diag.gc_cycle == s.diag.gc_cycle + (
            if s.diag.death_diag {
                1int
            } else {
                0int
            })
            &&& t.diag == (crate::state::DiagView {
                gc_count: t.diag.gc_count,
                gc_cycle: t.diag.gc_cycle,
                ..s.diag
            })
            &&& t == (State { diag: t.diag, ..s })
        }),
{
}

// Statistics.

/// Whether a tally has one more object, of `size` bytes, as far as its counters go.
pub open spec fn one_more(before: Tally, after: Tally, size: usize) -> bool {
    &&& before.objects < usize::MAX ==> after.objects == before.objects + 1
    &&& before.volume + size <= usize::MAX ==> after.volume == before.volume + size
}

/// What the statistics count: a promotion, for large objects and for copies once more; an
/// increment; a death, twice, and for large objects twice more. Nothing else changes.
pub proof fn statistics_count_what_happens(stats: Stats, size: usize, large: bool, copied: bool)
    ensures
        ({
            let t = stats.promotion(size, large, copied);
            &&& one_more(stats.promoted, t.promoted, size)
            &&& large ==> one_more(stats.promoted_los, t.promoted_los, size)
            &&& !large ==> t.promoted_los == stats.promoted_los
            &&& copied ==> one_more(stats.promoted_copy, t.promoted_copy, size)
            &&& !copied ==> t.promoted_copy == stats.promoted_copy
            &&& t == (Stats {
                promoted: t.promoted,
                promoted_los: t.promoted_los,
                promoted_copy: t.promoted_copy,
                ..stats
            })
        }),
        ({
            let t = stats.increment(size);
            &&& one_more(stats.inc, t.inc, size)
            &&& t == (Stats { inc: t.inc, ..stats })
        }),
        ({
            let t = stats.death(size, large);
            &&& one_more(stats.dead_mature, t.dead_mature, size)
            &&& one_more(stats.dead_mature_rc, t.dead_mature_rc, size)
            &&& large ==> one_more(stats.dead_mature_los, t.dead_mature_los, size) && one_more(
                stats.dead_mature_rc_los,
                t.dead_mature_rc_los,
                size,
            )
            &&& !large ==> t.dead_mature_los == stats.dead_mature_los && t.dead_mature_rc_los
                == stats.dead_mature_rc_los
            &&& t == (Stats {
                dead_mature: t.dead_mature,
                dead_mature_rc: t.dead_mature_rc,
                dead_mature_los: t.dead_mature_los,
                dead_mature_rc_los: t.dead_mature_rc_los,
                ..stats
            })
        }),
{
}

} // verus!
