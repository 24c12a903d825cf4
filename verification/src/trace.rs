//! Diagnostics.

use crate::object::ObjectReference;
use crate::plan::Lxr;
use crate::state::DiagView;
use crate::state::Event;
use crate::state::SpaceName;
use crate::state::State;
use crate::stats::Stats;
use crate::text::append_decimal;
use crate::text::append_hexadecimal;
use crate::text::decimal;
use crate::text::hexadecimal;
use vstd::prelude::*;
use vstd::string::StringExecFns;

verus! {

/// The most addresses that are traced at a time.
pub const RC_TRACE_MAX_ADDRS: usize = 16;

/// How many bad tags are logged.
pub const CORRUPT_LOG_LIMIT: usize = 50;

/// How many bad tags start a scan for referrers.
pub const CORRUPT_SCAN_LIMIT: usize = 5;

/// How many undercounts are reported.
pub const UNDERCOUNT_FOUND_LIMIT: usize = 20;

/// How many deaths are logged.
pub const DEATH_LOG_LIMIT: usize = 500;

/// How far before a word its owner is searched.
pub const MAX_BACK: usize = 4096;

/// How many possible owners of a word are reported.
pub const MAX_CANDS: usize = 4;

/// The bytes of a page.
pub const PAGE_BYTES: usize = 4096;

/// The tag that a report shows where none can be read.
pub const NO_TAG: usize = 0xDEAD;

/// The size of a binding partition.
pub const PARTITION_BYTES: usize = 48;

/// The diagnostics: what is traced, the counters, and the log.
pub struct Diagnostics {
    /// Whether tracing is built in.
    pub rc_trace: bool,
    /// Whether deaths are logged.
    pub death_diag: bool,
    /// The traced addresses.
    pub addresses: Vec<usize>,
    /// The tag of the traced objects, or zero.
    pub tag: usize,
    /// The collections so far, as the trace counts them.
    pub gc_count: usize,
    /// How often a slot referred to an object without a type.
    pub corrupt_count: usize,
    /// Whether deaths are checked for live referrers.
    pub undercount_enabled: bool,
    /// How many deaths may still be checked.
    pub undercount_budget: usize,
    /// The collection from which on deaths are checked.
    pub undercount_from_gc: usize,
    /// How many deaths had a live referrer.
    pub undercount_found: usize,
    /// The deaths so far.
    pub death_count: usize,
    /// The collections so far, as the death log counts them.
    pub gc_cycle: usize,
    /// What the packets have done so far.
    pub stats: Stats,
    pub log: Vec<Event>,
}

impl View for Diagnostics {
    type V = DiagView;

    open spec fn view(&self) -> DiagView {
        DiagView {
            rc_trace: self.rc_trace,
            death_diag: self.death_diag,
            addresses: self.addresses@,
            tag: self.tag,
            gc_count: self.gc_count,
            corrupt_count: self.corrupt_count,
            undercount_enabled: self.undercount_enabled,
            undercount_budget: self.undercount_budget,
            undercount_from_gc: self.undercount_from_gc,
            undercount_found: self.undercount_found,
            death_count: self.death_count,
            gc_cycle: self.gc_cycle,
            stats: self.stats,
            log: self.log@,
        }
    }
}

/// Diagnostics that are switched off.
pub open spec fn no_diagnostics() -> DiagView {
    DiagView {
        rc_trace: false,
        death_diag: false,
        addresses: Seq::empty(),
        tag: 0,
        gc_count: 0,
        corrupt_count: 0,
        undercount_enabled: false,
        undercount_budget: 0,
        undercount_from_gc: 0,
        undercount_found: 0,
        death_count: 0,
        gc_cycle: 0,
        stats: Stats::zero(),
        log: Seq::empty(),
    }
}

impl Diagnostics {
    /// Diagnostics that are switched off.
    pub fn new() -> (diag: Self)
        ensures
            diag@ == no_diagnostics(),
    {
        Diagnostics {
            rc_trace: false,
            death_diag: false,
            addresses: Vec::new(),
            tag: 0,
            gc_count: 0,
            corrupt_count: 0,
            undercount_enabled: false,
            undercount_budget: 0,
            undercount_from_gc: 0,
            undercount_found: 0,
            death_count: 0,
            gc_cycle: 0,
            stats: Stats::none(),
            log: Vec::new(),
        }
    }
}

/// `n` after one more event; the counter wraps.
pub open spec fn counted(n: usize) -> usize {
    if n == usize::MAX {
        0
    } else {
        (n + 1) as usize
    }
}

/// Adds one to a counter that wraps.
pub fn count_up(n: usize) -> (next: usize)
    ensures
        next == counted(n),
{
    if n == usize::MAX {
        0
    } else {
        n + 1
    }
}

// The trace set.

/// Adds an address to the trace set. Returns true if the address was added,
/// false if the set is full.
pub fn rc_trace_add_addr(lxr: &mut Lxr, addr: usize) -> (added: bool)
    requires
        old(lxr)@.wf(),
    ensures
        added == (old(lxr)@.diag.addresses.len() < RC_TRACE_MAX_ADDRS),
        final(lxr)@ == address_added(old(lxr)@, addr),
        final(lxr)@.wf(),
{
    let index: usize = lxr.diag.addresses.len();
    if index < RC_TRACE_MAX_ADDRS {
        lxr.diag.addresses.push(addr);
        lxr.log(Event::TracingAddress { address: addr, index });
        true
    } else {
        lxr.log(Event::TraceSetFull { address: addr });
        false
    }
}

/// The state after an address was offered to the trace set.
pub open spec fn address_added(s: State, addr: usize) -> State {
    if s.diag.addresses.len() < RC_TRACE_MAX_ADDRS {
        State {
            diag: DiagView { addresses: s.diag.addresses.push(addr), ..s.diag },
            ..s
        }.with_event(
            Event::TracingAddress { address: addr, index: s.diag.addresses.len() as usize },
        )
    } else {
        s.with_event(Event::TraceSetFull { address: addr })
    }
}

/// Counts a collection for the trace. Every packet of decrements calls this, so that
/// the count is approximate: a collection with several packets counts several times.
pub fn rc_trace_inc_gc_count(lxr: &mut Lxr)
    ensures
        final(lxr)@ == gc_counted(old(lxr)@),
        old(lxr)@.wf() ==> final(lxr)@.wf(),
{
    lxr.diag.gc_count = count_up(lxr.diag.gc_count);
}

/// The state after a collection was counted.
pub open spec fn gc_counted(s: State) -> State {
    State { diag: DiagView { gc_count: counted(s.diag.gc_count), ..s.diag }, ..s }
}

/// The current collection, for the trace log.
pub fn rc_trace_gc(lxr: &Lxr) -> (gc: usize)
    ensures
        gc == lxr@.diag.gc_count,
{
    lxr.diag.gc_count
}

/// Whether a raw address, such as that of a slot, is in the trace set.
pub fn is_rc_traced_addr(lxr: &Lxr, addr: usize) -> (traced: bool)
    ensures
        traced == lxr@.is_traced_address(addr),
{
    let mut i: usize = 0;
    while i < lxr.diag.addresses.len()
        invariant
            i <= lxr.diag.addresses.len(),
            forall|j: int| 0 <= j < i ==> lxr.diag.addresses@[j] != addr,
        decreases lxr.diag.addresses.len() - i,
    {
        if lxr.diag.addresses[i] == addr {
            assert(lxr@.diag.addresses[i as int] == addr);
            return true;
        }
        i += 1;
    }
    false
}

/// Whether an object is in the trace set: by its address, or by the word before
/// it with the low four bits masked out.
pub fn is_rc_traced(lxr: &Lxr, o: ObjectReference) -> (traced: bool)
    ensures
        traced == lxr@.is_traced(o),
{
    if is_rc_traced_addr(lxr, o.address) {
        return true;
    }
    if lxr.diag.tag != 0 {
        if o.address >= 8 && lxr.is_mapped(o.address - 8) {
            let raw: usize = lxr.load_word(o.address - 8);
            if raw - raw % 16 == lxr.diag.tag {
                return true;
            }
        }
    }
    false
}

/// Logs `event` where tracing is built in and `o` is traced.
pub fn trace(lxr: &mut Lxr, o: ObjectReference, event: Event)
    ensures
        final(lxr)@ == old(lxr)@.traced(o, event),
        old(lxr)@.wf() ==> final(lxr)@.wf(),
{
    if lxr.diag.rc_trace && is_rc_traced(lxr, o) {
        lxr.log(event);
    }
}

/// The count of an object for a report: -1 where it has none.
pub fn reported_rc(lxr: &Lxr, o: ObjectReference) -> (rc: i16)
    ensures
        rc == lxr@.reported_rc(o),
{
    if lxr.immix.in_space(o) || lxr.los.in_space(o) {
        lxr.count(o) as i16
    } else {
        -1
    }
}

// The owner of a word.

/// Whether an object seems to start at `address`: its word and the word before
/// it are mapped, and its tag denotes a type.
pub open spec fn plausible_owner(s: State, address: usize) -> bool {
    &&& s.mapped(address)
    &&& s.tag_mapped(address)
    &&& s.tag_is_valid(ObjectReference { address })
}

/// The last word before the word at `slot`.
pub open spec fn first_candidate(slot: usize) -> usize {
    if slot - slot % 8 < 8 {
        0
    } else {
        (slot - slot % 8 - 8) as usize
    }
}

/// The lowest address at which the owner of `slot` may start.
pub open spec fn search_limit(slot: usize) -> usize {
    if slot < MAX_BACK {
        0
    } else {
        (slot - MAX_BACK) as usize
    }
}

/// The nearest plausible owner at or before `candidate`, in steps of a word
/// and not below `lo`.
pub open spec fn nearest_owner(s: State, candidate: usize, lo: usize) -> Option<usize>
    decreases candidate,
{
    if candidate < lo {
        None
    } else if plausible_owner(s, candidate) {
        Some(candidate)
    } else if candidate < 8 {
        None
    } else {
        nearest_owner(s, (candidate - 8) as usize, lo)
    }
}

/// Whether the object that owns the word at `slot` is live: its count is not
/// zero, or it is marked, or it lies in a space without counts. A word without
/// an owner is not live.
pub open spec fn owner_is_live(s: State, slot: usize) -> bool {
    match nearest_owner(s, first_candidate(slot), search_limit(slot)) {
        None => false,
        Some(owner) => {
            let o = ObjectReference { address: owner };
            !s.has_rc(o) || s.count(o) > 0 || s.is_marked(o)
        },
    }
}

/// The last word before the word at `slot_addr`.
fn last_word_before(slot_addr: usize) -> (candidate: usize)
    ensures
        candidate == first_candidate(slot_addr),
{
    let aligned: usize = slot_addr - slot_addr % 8;
    if aligned < 8 {
        0
    } else {
        aligned - 8
    }
}

/// The lowest address at which the owner of `slot_addr` may start.
fn search_from(slot_addr: usize) -> (lo: usize)
    ensures
        lo == search_limit(slot_addr),
{
    if slot_addr < MAX_BACK {
        0
    } else {
        slot_addr - MAX_BACK
    }
}

/// Whether an object seems to start at `address`.
fn is_plausible_owner(lxr: &Lxr, address: usize) -> (plausible: bool)
    ensures
        plausible == plausible_owner(lxr@, address),
{
    lxr.is_mapped(address) && address >= 8 && lxr.is_mapped(address - 8)
        && lxr.debug_object_tag_is_valid(ObjectReference { address })
}

/// Whether the nearest object before the word at `slot_addr` is live.
pub fn referrer_owner_is_live(lxr: &Lxr, slot_addr: usize) -> (live: bool)
    ensures
        live == owner_is_live(lxr@, slot_addr),
{
    let mut cand: usize = last_word_before(slot_addr);
    let lo: usize = search_from(slot_addr);
    while cand >= lo
        invariant
            nearest_owner(lxr@, cand, lo) == nearest_owner(
                lxr@,
                first_candidate(slot_addr),
                search_limit(slot_addr),
            ),
            lo == search_limit(slot_addr),
        ensures
            nearest_owner(lxr@, first_candidate(slot_addr), search_limit(slot_addr)) is None,
        decreases cand,
    {
        if is_plausible_owner(lxr, cand) {
            let o = ObjectReference { address: cand };
            let counted_space: bool = lxr.immix.in_space(o) || lxr.los.in_space(o);
            if counted_space {
                return lxr.count(o) > 0 || lxr.is_marked(o);
            } else {
                return true;
            }
        }
        if cand < 8 {
            break;
        }
        cand -= 8;
    }
    false
}

/// An object that may own a word, and how far into it the word lies.
#[derive(Clone, Copy, Debug, PartialEq, Eq, Structural)]
pub struct OwnerCandidate {
    pub owner: usize,
    pub field_offset: usize,
}

/// The possible owners of the word at `slot`, from `candidate` downwards,
/// behind those already found.
pub open spec fn candidates_from(
    s: State,
    slot: usize,
    candidate: usize,
    lo: usize,
    found: Seq<OwnerCandidate>,
) -> Seq<OwnerCandidate>
    decreases candidate,
{
    if candidate < lo || found.len() >= MAX_CANDS {
        found
    } else {
        let next = if plausible_owner(s, candidate) && s.shape(candidate).class_name.len() != 0 {
            found.push(
                OwnerCandidate {
                    owner: candidate,
                    field_offset: (slot - candidate) as usize,
                },
            )
        } else {
            found
        };
        if candidate < 8 {
            next
        } else {
            candidates_from(s, slot, (candidate - 8) as usize, lo, next)
        }
    }
}

/// The possible owners of the word at `slot`, the nearest first.
pub open spec fn owner_candidates(s: State, slot: usize) -> Seq<OwnerCandidate> {
    candidates_from(s, slot, first_candidate(slot), search_limit(slot), Seq::empty())
}

/// The possible owners of the word at `slot_addr`, the nearest first.
pub fn find_owner_candidates(lxr: &Lxr, slot_addr: usize) -> (found: Vec<OwnerCandidate>)
    ensures
        found@ == owner_candidates(lxr@, slot_addr),
{
    let mut cand: usize = last_word_before(slot_addr);
    let lo: usize = search_from(slot_addr);
    let mut found: Vec<OwnerCandidate> = Vec::new();
    while cand >= lo && found.len() < MAX_CANDS
        invariant
            cand <= slot_addr,
            candidates_from(lxr@, slot_addr, cand, lo, found@) == owner_candidates(lxr@, slot_addr),
            lo == search_limit(slot_addr),
        ensures
            found@ == owner_candidates(lxr@, slot_addr),
        decreases cand,
    {
        if is_plausible_owner(lxr, cand) && has_class_name(lxr, cand) {
            found.push(OwnerCandidate { owner: cand, field_offset: slot_addr - cand });
        }
        if cand < 8 {
            break;
        }
        cand -= 8;
    }
    found
}

/// Whether the type of the object has a name.
fn has_class_name(lxr: &Lxr, address: usize) -> (named: bool)
    ensures
        named == (lxr@.shape(address).class_name.len() != 0),
{
    match lxr.objects.get(address) {
        Some(shape) => shape.class_name.as_str().unicode_len() != 0,
        None => false,
    }
}

/// The space of an owner, for a report.
pub open spec fn owner_space(s: State, address: usize) -> SpaceName {
    if s.immix.has(address) {
        SpaceName::Immix
    } else if s.los.has(address) {
        SpaceName::Los
    } else {
        SpaceName::Other
    }
}

/// The space of an owner, for a report.
fn name_owner_space(lxr: &Lxr, address: usize) -> (space: SpaceName)
    ensures
        space == owner_space(lxr@, address),
{
    if lxr.immix.address_in_space(address) {
        SpaceName::Immix
    } else if lxr.los.address_in_space(address) {
        SpaceName::Los
    } else {
        SpaceName::Other
    }
}

/// The space that a word lies in, for a report.
pub open spec fn space_name(s: State, address: usize) -> SpaceName {
    if s.immix.has(address) {
        SpaceName::Immix
    } else if s.los.has(address) {
        SpaceName::Los
    } else if s.immortal.has(address) {
        SpaceName::Immortal
    } else {
        SpaceName::Other
    }
}

/// Names the space that a word lies in.
pub fn referrer_space_name(lxr: &Lxr, a: usize) -> (space: SpaceName)
    ensures
        space == space_name(lxr@, a),
{
    if lxr.immix.address_in_space(a) {
        SpaceName::Immix
    } else if lxr.los.address_in_space(a) {
        SpaceName::Los
    } else if lxr.immortal.address_in_space(a) {
        SpaceName::Immortal
    } else {
        SpaceName::Other
    }
}

impl SpaceName {
    /// The name as text.
    pub open spec fn name(self) -> Seq<char> {
        match self {
            SpaceName::Immix => "immix"@,
            SpaceName::Los => "los"@,
            SpaceName::Immortal => "immortal"@,
            SpaceName::Other => "other"@,
        }
    }

    /// The name as text.
    pub fn as_text(&self) -> (text: &'static str)
        ensures
            text@ == self.name(),
    {
        match self {
            SpaceName::Immix => "immix",
            SpaceName::Los => "los",
            SpaceName::Immortal => "immortal",
            SpaceName::Other => "other",
        }
    }
}

/// `true` or `false`.
pub open spec fn truth(b: bool) -> Seq<char> {
    if b {
        "true"@
    } else {
        "false"@
    }
}

/// What is reported of a possible owner beside its place and its type.
#[derive(Clone, Copy, Debug, PartialEq, Eq, Structural)]
pub struct OwnerDetails {
    /// The count; -1 where there is none.
    pub reported_rc: i16,
    pub space: SpaceName,
    pub marked: bool,
}

/// `n` in decimal, with its sign where it is negative.
pub open spec fn signed(n: i16) -> Seq<char> {
    if n < 0 {
        "-"@ + decimal(-n)
    } else {
        decimal(n as int)
    }
}

/// A possible owner as text. Details that are missing are shown as question marks.
pub open spec fn owner_text(
    owner: usize,
    field_offset: usize,
    class_name: Seq<char>,
    details: Option<OwnerDetails>,
) -> Seq<char> {
    let (rc, space, marked) = match details {
        Some(d) => (signed(d.reported_rc), d.space.name(), truth(d.marked)),
        None => ("?"@, "?"@, "?"@),
    };
    "cand_owner="@ + hexadecimal(owner as int) + " field_off="@ + decimal(field_offset as int)
        + " type="@ + class_name + " owner_rc="@ + rc + " owner_space="@ + space
        + " owner_marked="@ + marked
}

/// A possible owner as text.
pub fn describe_owner(
    owner: usize,
    field_offset: usize,
    class_name: &str,
    details: Option<OwnerDetails>,
) -> (out: String)
    ensures
        out@ == owner_text(owner, field_offset, class_name@, details),
{
    let mut out: String = String::from_str("cand_owner=");
    append_hexadecimal(&mut out, owner);
    out.append(" field_off=");
    append_decimal(&mut out, field_offset);
    out.append(" type=");
    out.append(class_name);
    out.append(" owner_rc=");
    match details {
        Some(d) => {
            append_signed(&mut out, d.reported_rc);
            out.append(" owner_space=");
            out.append(d.space.as_text());
            out.append(" owner_marked=");
            if d.marked {
                out.append("true");
            } else {
                out.append("false");
            }
        },
        None => {
            out.append("?");
            out.append(" owner_space=");
            out.append("?");
            out.append(" owner_marked=");
            out.append("?");
        },
    }
    out
}

/// Appends `n` in decimal, with its sign where it is negative.
fn append_signed(out: &mut String, n: i16)
    ensures
        final(out)@ == old(out)@ + signed(n),
{
    if n < 0 {
        out.append("-");
        let size: i32 = -(n as i32);
        append_decimal(out, size as usize);
        proof {
            assert(out@ =~= old(out)@ + signed(n));
        }
    } else {
        append_decimal(out, n as usize);
    }
}

/// Texts with bars between them.
pub open spec fn barred(texts: Seq<Seq<char>>) -> Seq<char>
    decreases texts.len(),
{
    if texts.len() == 0 {
        Seq::empty()
    } else if texts.len() == 1 {
        texts.last()
    } else {
        barred(texts.drop_last()) + " | "@ + texts.last()
    }
}

/// Possible owners in one line; a remark where there are none.
pub open spec fn owners_line(owners: Seq<Seq<char>>) -> Seq<char> {
    if owners.len() == 0 {
        "<owner-not-found>"@
    } else {
        barred(owners)
    }
}

/// The values of texts.
pub open spec fn text_values(texts: Seq<String>) -> Seq<Seq<char>> {
    texts.map_values(|text: String| text@)
}

/// Possible owners in one line.
pub fn join_owners(owners: &Vec<String>) -> (line: String)
    ensures
        line@ == owners_line(text_values(owners@)),
{
    if owners.len() == 0 {
        return String::from_str("<owner-not-found>");
    }
    let ghost texts = text_values(owners@);
    let mut line: String = String::new();
    let mut i: usize = 0;
    proof {
        assert(line@ =~= barred(texts.take(0)));
    }
    while i < owners.len()
        invariant
            i <= owners.len(),
            texts == text_values(owners@),
            line@ == barred(texts.take(i as int)),
        decreases owners.len() - i,
    {
        let ghost before = line@;
        if i > 0 {
            line.append(" | ");
        }
        line.append(owners[i].as_str());
        i += 1;
        proof {
            assert(texts.take(i as int).drop_last() =~= texts.take(i - 1));
            assert(texts.take(i as int).last() == texts[i - 1]);
            if i == 1 {
                assert(texts.take(0).len() == 0);
                assert(line@ =~= texts[0]);
            }
        }
    }
    proof {
        assert(texts.take(i as int) =~= texts);
    }
    line
}

/// What is reported of a possible owner; with `details` also its count, its space
/// and its mark.
pub open spec fn candidate_text(s: State, c: OwnerCandidate, details: bool) -> Seq<char> {
    let o = ObjectReference { address: c.owner };
    owner_text(
        c.owner,
        c.field_offset,
        s.shape(c.owner).class_name,
        if details {
            Some(
                OwnerDetails {
                    reported_rc: s.reported_rc(o),
                    space: owner_space(s, c.owner),
                    marked: s.is_marked(o),
                },
            )
        } else {
            None
        },
    )
}

/// What is reported of the owners of the word at `slot`.
pub open spec fn owners_text(s: State, slot: usize, details: bool) -> Seq<char> {
    owners_line(
        owner_candidates(s, slot).map_values(|c: OwnerCandidate| candidate_text(s, c, details)),
    )
}

/// What is reported of a possible owner.
fn describe_candidate(lxr: &Lxr, c: OwnerCandidate, details: bool) -> (out: String)
    ensures
        out@ == candidate_text(lxr@, c, details),
{
    let o = ObjectReference { address: c.owner };
    let shown: Option<OwnerDetails> = if details {
        let space = name_owner_space(lxr, c.owner);
        let marked: bool = lxr.is_marked(o);
        Some(OwnerDetails { reported_rc: reported_rc(lxr, o), space, marked })
    } else {
        None
    };
    match lxr.objects.get(c.owner) {
        Some(shape) => describe_owner(
            c.owner,
            c.field_offset,
            shape.class_name.as_str(),
            shown,
        ),
        None => {
            proof {
                reveal_strlit("");
                assert(""@ =~= lxr@.shape(c.owner).class_name);
            }
            describe_owner(c.owner, c.field_offset, "", shown)
        },
    }
}

/// Describes the objects that may own the word at `slot_addr`: for up to four
/// of them the address, how far into it the word lies, and the type; with
/// `details` also the count, the space and the mark.
pub fn describe_referrer_owner_with_lxr(lxr: &Lxr, slot_addr: usize, details: bool) -> (text:
    String)
    ensures
        text@ == owners_text(lxr@, slot_addr, details),
{
    let found: Vec<OwnerCandidate> = find_owner_candidates(lxr, slot_addr);
    let mut owners: Vec<String> = Vec::new();
    let mut i: usize = 0;
    while i < found.len()
        invariant
            i <= found.len(),
            owners@.len() == i,
            forall|j: int|
                0 <= j < i ==> (#[trigger] owners@[j])@ == candidate_text(lxr@, found@[j], details),
        decreases found.len() - i,
    {
        owners.push(describe_candidate(lxr, found[i], details));
        i += 1;
    }
    proof {
        assert(text_values(owners@) =~= found@.map_values(
            |c: OwnerCandidate| candidate_text(lxr@, c, details),
        ));
    }
    join_owners(&owners)
}

/// Describes the objects that may own the word at `slot_addr`.
pub fn describe_referrer_owner(lxr: &Lxr, slot_addr: usize) -> (text: String)
    ensures
        text@ == owners_text(lxr@, slot_addr, false),
{
    describe_referrer_owner_with_lxr(lxr, slot_addr, false)
}

} // verus!
