//! What holds of the owners of words, and of the reports of referring words.

use crate::object::ObjectReference;
use crate::referrers::dumped;
use crate::referrers::hit_events;
use crate::state::Event;
use crate::state::SpaceName;
use crate::state::State;
use crate::state::LOGGED_VALUE;
use crate::text::decimal;
use crate::text::hexadecimal;
use crate::trace::candidates_from;
use crate::trace::first_candidate;
use crate::trace::nearest_owner;
use crate::trace::owner_candidates;
use crate::trace::owner_is_live;
use crate::trace::owner_text;
use crate::trace::owners_line;
use crate::trace::owners_text;
use crate::trace::search_limit;
use crate::trace::OwnerCandidate;
use crate::trace::OwnerDetails;
use vstd::prelude::*;

verus! {

/// Whether an object that may own the word at `slot` starts at `c`: in the 4096 bytes
/// before the word, at a word of its own, and its word and the word before it, which holds
/// a valid tag, are mapped.
pub open spec fn may_own(s: State, slot: usize, c: usize) -> bool {
    &&& c % 8 == 0
    &&& c + 8 <= slot - slot % 8
    &&& slot <= c + 4096
    &&& s.mapped(c)
    &&& 8 <= c
    &&& s.mapped((c - 8) as usize)
    &&& s.shape(c).tag_valid
}

/// Whether an object keeps what it refers to alive: it is counted or marked, or lies
/// outside the Immix and the large object space.
pub open spec fn keeps_alive(s: State, c: usize) -> bool {
    ||| !s.immix.has(c) && !s.los.has(c)
    ||| s.count(ObjectReference { address: c }) > 0
    ||| s.marks.contains(c)
}

proof fn lemma_nearest(s: State, slot: usize, candidate: usize, lo: usize, c: usize)
    requires
        candidate % 8 == 0,
        lo == search_limit(slot),
        candidate <= first_candidate(slot),
        may_own(s, slot, c),
        c <= candidate,
    ensures
        nearest_owner(s, candidate, lo) matches Some(owner) && c <= owner,
    decreases candidate,
{
    if !crate::trace::plausible_owner(s, candidate) {
        assert(c != candidate);
        assert(c + 8 <= candidate);
        lemma_nearest(s, slot, (candidate - 8) as usize, lo, c);
    }
}

proof fn lemma_owner(s: State, slot: usize, candidate: usize, lo: usize)
    requires
        candidate % 8 == 0,
        lo == search_limit(slot),
        candidate <= first_candidate(slot),
    ensures
        nearest_owner(s, candidate, lo) matches Some(owner) ==> owner <= candidate && may_own(
            s,
            slot,
            owner,
        ),
    decreases candidate,
{
    if candidate >= lo {
        if crate::trace::plausible_owner(s, candidate) {
            assert(candidate >= 8);
        } else if candidate >= 8 {
            lemma_owner(s, slot, (candidate - 8) as usize, lo);
        }
    }
}

/// The owner of a word is live just where some object may own the word, and the nearest
/// of those keeps what it refers to alive.
pub proof fn nearest_owner_decides(s: State, slot: usize, c: usize)
    ensures
        may_own(s, slot, c) && (forall|d: usize| #[trigger]
            may_own(s, slot, d) ==> d <= c) ==> owner_is_live(s, slot) == keeps_alive(s, c),
        (forall|d: usize| !#[trigger] may_own(s, slot, d)) ==> !owner_is_live(s, slot),
{
    let first = first_candidate(slot);
    let lo = search_limit(slot);
    assert(first % 8 == 0);
    lemma_owner(s, slot, first, lo);
    if may_own(s, slot, c) {
        assert(c <= first);
        lemma_nearest(s, slot, first, lo, c);
    }
}

/// What the search for owners has found so far: objects that may own the word and that
/// have a type, the nearest first, with how far into them the word lies.
spec fn found_well(s: State, slot: usize, found: Seq<OwnerCandidate>) -> bool {
    &&& found.len() <= 4
    &&& forall|i: int|
        0 <= i < found.len() ==> {
            &&& may_own(s, slot, (#[trigger] found[i]).owner)
            &&& s.shape(found[i].owner).class_name.len() > 0
            &&& found[i].field_offset == slot - found[i].owner
        }
    &&& forall|i: int, j: int|
        0 <= i < j < found.len() ==> (#[trigger] found[j]).owner < (#[trigger] found[i]).owner
}

proof fn lemma_candidates(
    s: State,
    slot: usize,
    candidate: usize,
    lo: usize,
    found: Seq<OwnerCandidate>,
    c: usize,
)
    requires
        candidate % 8 == 0,
        lo == search_limit(slot),
        candidate <= first_candidate(slot),
        found_well(s, slot, found),
        forall|i: int| 0 <= i < found.len() ==> candidate < (#[trigger] found[i]).owner,
    ensures
        ({
            let list = candidates_from(s, slot, candidate, lo, found);
            &&& found_well(s, slot, list)
            &&& found.len() <= list.len()
            &&& forall|i: int| 0 <= i < found.len() ==> list[i] == #[trigger] found[i]
            &&& may_own(s, slot, c) && s.shape(c).class_name.len() > 0 && c <= candidate ==> {
                ||| exists|i: int| 0 <= i < list.len() && (#[trigger] list[i]).owner == c
                ||| list.len() == 4 && forall|i: int|
                    0 <= i < list.len() ==> c < (#[trigger] list[i]).owner
            }
        }),
    decreases candidate,
{
    let list = candidates_from(s, slot, candidate, lo, found);
    if candidate < lo || found.len() >= 4 {
        assert(list == found);
    } else {
        let hit = crate::trace::plausible_owner(s, candidate) && s.shape(
            candidate,
        ).class_name.len() != 0;
        let entry = OwnerCandidate {
            owner: candidate,
            field_offset: (slot - candidate) as usize,
        };
        let next = if hit {
            found.push(entry)
        } else {
            found
        };
        if hit {
            assert(candidate >= 8);
            assert(may_own(s, slot, candidate));
        }
        assert(found_well(s, slot, next));
        if candidate >= 8 {
            let lower = (candidate - 8) as usize;
            assert forall|i: int| 0 <= i < next.len() implies lower < (
            #[trigger] next[i]).owner by {
                if i < found.len() {
                    assert(next[i] == found[i]);
                }
            }
            lemma_candidates(s, slot, lower, lo, next, c);
            assert forall|i: int| 0 <= i < found.len() implies list[i] == #[trigger] found[i] by {
                assert(next[i] == found[i]);
            }
            if may_own(s, slot, c) && s.shape(c).class_name.len() > 0 && c <= candidate {
                if c == candidate {
                    assert(next[found.len() as int] == entry);
                    assert(list[found.len() as int].owner == c);
                } else {
                    assert(c <= lower);
                }
            }
        }
    }
}

/// The possible owners of a word that are named: up to four, the nearest first, each an
/// object with a type that may own the word, with how far into it the word lies. An object
/// with a type that may own the word is left out only where four nearer ones are named.
pub proof fn nearest_owners_are_named(s: State, slot: usize, c: usize, i: int, j: int)
    ensures
        ({
            let list = owner_candidates(s, slot);
            &&& list.len() <= 4
            &&& 0 <= i < list.len() ==> {
                &&& may_own(s, slot, list[i].owner)
                &&& s.shape(list[i].owner).class_name.len() > 0
                &&& list[i].owner + list[i].field_offset == slot
            }
            &&& 0 <= i < j < list.len() ==> list[j].owner < list[i].owner
            &&& may_own(s, slot, c) && s.shape(c).class_name.len() > 0 ==> {
                ||| exists|k: int| 0 <= k < list.len() && (#[trigger] list[k]).owner == c
                ||| list.len() == 4 && forall|k: int|
                    0 <= k < list.len() ==> c < (#[trigger] list[k]).owner
            }
        }),
{
    let first = first_candidate(slot);
    assert(first % 8 == 0);
    lemma_candidates(s, slot, first, search_limit(slot), Seq::empty(), c);
    let list = owner_candidates(s, slot);
    if 0 <= i < j < list.len() {
        assert(list[j].owner < list[i].owner);
    }
}

/// A possible owner as text: where it is, how far into it the word lies, what it is, and its
/// count, space and mark, or question marks.
pub proof fn owner_is_described(
    owner: usize,
    field_offset: usize,
    class_name: Seq<char>,
    details: OwnerDetails,
)
    ensures
        owner_text(owner, field_offset, class_name, None) == "cand_owner="@ + hexadecimal(
            owner as int,
        ) + " field_off="@ + decimal(field_offset as int) + " type="@ + class_name + " owner_rc="@
            + "?"@ + " owner_space="@ + "?"@ + " owner_marked="@ + "?"@,
        owner_text(owner, field_offset, class_name, Some(details)) == "cand_owner="@
            + hexadecimal(owner as int) + " field_off="@ + decimal(field_offset as int)
            + " type="@ + class_name + " owner_rc="@ + (if details.reported_rc >= 0 {
            decimal(details.reported_rc as int)
        } else {
            "-"@ + decimal(0 - details.reported_rc)
        }) + " owner_space="@ + (match details.space {
            SpaceName::Immix => "immix"@,
            SpaceName::Los => "los"@,
            SpaceName::Immortal => "immortal"@,
            SpaceName::Other => "other"@,
        }) + " owner_marked="@ + (if details.marked {
            "true"@
        } else {
            "false"@
        }),
{
}

/// The owners of a word in one line: each as text, the nearest first, with bars between
/// them, or a remark where there are none.
pub proof fn owners_are_listed(first: Seq<Seq<char>>, last: Seq<char>)
    ensures
        owners_line(Seq::empty()) == "<owner-not-found>"@,
        owners_line(seq![last]) == last,
        first.len() > 0 ==> owners_line(first.push(last)) == owners_line(first) + " | "@ + last,
{
    assert(first.push(last).drop_last() =~= first);
}

/// What is said of the owners of a word speaks of all possible owners that are named, in
/// order; with details it shows their counts, spaces and marks.
pub proof fn all_owners_are_described(s: State, slot: usize, details: bool, i: int)
    requires
        0 <= i < owner_candidates(s, slot).len(),
    ensures
        exists|texts: Seq<Seq<char>>|
            {
                let c = owner_candidates(s, slot)[i];
                let o = ObjectReference { address: c.owner };
                &&& owners_text(s, slot, details) == #[trigger] owners_line(texts)
                &&& texts.len() == owner_candidates(s, slot).len()
                &&& texts[i] == owner_text(
                    c.owner,
                    c.field_offset,
                    s.shape(c.owner).class_name,
                    if details {
                        Some(
                            OwnerDetails {
                                reported_rc: (if s.immix.has(c.owner) || s.los.has(c.owner) {
                                    s.count(o) as i16
                                } else {
                                    (-1) as i16
                                }),
                                space: (if s.immix.has(c.owner) {
                                    SpaceName::Immix
                                } else if s.los.has(c.owner) {
                                    SpaceName::Los
                                } else {
                                    SpaceName::Other
                                }),
                                marked: s.marks.contains(c.owner),
                            },
                        )
                    } else {
                        None
                    },
                )
            },
{
    let texts = owner_candidates(s, slot).map_values(
        |c: OwnerCandidate| crate::trace::candidate_text(s, c, details),
    );
    assert(owners_text(s, slot, details) == owners_line(texts));
}

proof fn lemma_dumped(s: State, at: usize, count: int, k: int)
    requires
        0 <= k < count,
        8 * k <= at,
        s.mapped((at - 8 * k) as usize),
    ensures
        dumped(s, at, count).contains(
            Event::DumpWord {
                at: (at - 8 * k) as usize,
                value: s.word((at - 8 * k) as usize),
            },
        ),
    decreases count,
{
    let a = (at - 8 * k) as usize;
    let word = Event::DumpWord { at: a, value: s.word(a) };
    let list = dumped(s, at, count);
    if k == count - 1 {
        assert(list[0] == word);
    } else {
        lemma_dumped(s, at, count - 1, k);
        let rest = dumped(s, at, count - 1);
        let i = choose|i: int| 0 <= i < rest.len() && rest[i] == word;
        if list.len() > rest.len() {
            assert(list[i + 1] == word);
        } else {
            assert(list[i] == word);
        }
    }
}

/// The report of a referring word: it starts with the word, its space, whether its owner
/// is live and whether its slot is logged; it names the possible owners; and it shows each
/// mapped word of the sixteen that end at the word.
pub proof fn report_shows_the_word(s: State, target: usize, at: usize, k: int)
    ensures
        ({
            let events = hit_events(s, target, at);
            let space = if s.immix.has(at) {
                SpaceName::Immix
            } else if s.los.has(at) {
                SpaceName::Los
            } else if s.immortal.has(at) {
                SpaceName::Immortal
            } else {
                SpaceName::Other
            };
            let owners = owner_candidates(s, at);
            &&& events.len() > owners.len()
            &&& events[0] == (Event::ReferrerWord {
                at,
                space,
                owner_live: owner_is_live(s, at),
                field_logged: s.logging_state(at) == LOGGED_VALUE,
                target,
            })
            &&& forall|i: int|
                0 <= i < owners.len() ==> {
                    let o = ObjectReference { address: (#[trigger] owners[i]).owner };
                    events[i + 1] == (Event::OwnerCandidate {
                        owner: owners[i].owner,
                        field_offset: owners[i].field_offset,
                        reported_rc: (if s.immix.has(o.address) || s.los.has(o.address) {
                            s.count(o) as i16
                        } else {
                            (-1) as i16
                        }),
                        space: (if s.immix.has(o.address) {
                            SpaceName::Immix
                        } else if s.los.has(o.address) {
                            SpaceName::Los
                        } else {
                            SpaceName::Other
                        }),
                        marked: s.marks.contains(o.address),
                    })
                }
            &&& 0 <= k < 16 && 8 * k <= at && s.mapped((at - 8 * k) as usize) ==> events.contains(
                Event::DumpWord {
                    at: (at - 8 * k) as usize,
                    value: s.word((at - 8 * k) as usize),
                },
            )
        }),
{
    let events = hit_events(s, target, at);
    let owners = owner_candidates(s, at);
    let words = dumped(s, at, 16);
    if 0 <= k < 16 && 8 * k <= at && s.mapped((at - 8 * k) as usize) {
        lemma_dumped(s, at, 16, k);
        let word = Event::DumpWord {
            at: (at - 8 * k) as usize,
            value: s.word((at - 8 * k) as usize),
        };
        let i = choose|i: int| 0 <= i < words.len() && words[i] == word;
        assert(events[1 + owners.len() + i] == word);
    }
}

} // verus!
