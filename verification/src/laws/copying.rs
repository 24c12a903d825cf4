//! What holds of objects that move: a copy is the whole object.

use crate::increments::answer_taken;
use crate::increments::copy_answer;
use crate::increments::inc_processed;
use crate::increments::inc_traced;
use crate::increments::moved_or_kept;
use crate::increments::object_copied;
use crate::increments::promoted;
use crate::increments::slots_covered;
use crate::increments::words_copied;
use crate::object::ObjectKind;
use crate::object::ObjectReference;
use crate::progress::bounded;
use crate::progress::lemma_inc_traced;
use crate::progress::lemma_increment_counted;
use crate::progress::lemma_promoted;
use crate::progress::lemma_wf_bounded;
use crate::state::Forwarding;
use crate::state::IncsState;
use crate::state::State;
use crate::stats::increment_counted;
use vstd::prelude::*;

verus! {

/// The bytes of a reference slot.
pub open spec fn slot_width(s: State) -> int {
    if s.args.compressed_pointers {
        4
    } else {
        8
    }
}

/// Whether `size` bytes at `a` and at `b` do not overlap.
pub open spec fn apart(a: usize, b: usize, size: usize) -> bool {
    a + size <= b || b + size <= a
}

/// Copied words that lie apart from the copy.
proof fn lemma_words(
    words: Map<usize, usize>,
    from: usize,
    to: usize,
    granule: usize,
    count: int,
    size: usize,
    i: int,
)
    requires
        0 <= i < count,
        0 < granule,
        (count - 1) * granule < size,
        from + size <= usize::MAX,
        to + size <= usize::MAX,
        apart(from, to, size),
    ensures
        ({
            let copied = words_copied(words, from, to, granule, count);
            let source = (from + i * granule) as usize;
            let target = (to + i * granule) as usize;
            words.contains_key(source) ==> copied.contains_key(target) && copied[target]
                == words[source]
        }),
    decreases count,
{
    let before = words_copied(words, from, to, granule, count - 1);
    let source = (from + i * granule) as usize;
    let target = (to + i * granule) as usize;
    assert(0 <= i * granule && i * granule <= (count - 1) * granule) by (nonlinear_arith)
        requires
            0 <= i < count,
            0 < granule,
    ;
    assert((count - 1) * granule == (count - 2) * granule + granule) by (nonlinear_arith);
    if i < count - 1 {
        lemma_words(words, from, to, granule, count - 1, size, i);
        assert(i * granule <= (count - 2) * granule) by (nonlinear_arith)
            requires
                i < count - 1,
                0 < granule,
        ;
        assert((to + (count - 1) * granule) as usize != target);
    } else {
        lemma_beside(words, from, to, granule, count - 1, size, source);
    }
}

/// What a copy leaves alone: the words that lie outside.
proof fn lemma_beside(
    words: Map<usize, usize>,
    from: usize,
    to: usize,
    granule: usize,
    count: int,
    size: usize,
    address: usize,
)
    requires
        0 <= count,
        0 < granule,
        (count - 1) * granule < size,
        to + size <= usize::MAX,
        address < to || to + size <= address,
    ensures
        ({
            let copied = words_copied(words, from, to, granule, count);
            &&& copied.contains_key(address) == words.contains_key(address)
            &&& words.contains_key(address) ==> copied[address] == words[address]
        }),
    decreases count,
{
    if count > 0 {
        assert((count - 1) * granule == (count - 2) * granule + granule) by (nonlinear_arith);
        assert(0 <= (count - 1) * granule) by (nonlinear_arith)
            requires
                0 < count,
                0 < granule,
        ;
        lemma_beside(words, from, to, granule, count - 1, size, address);
    }
}

/// A copy holds every word of the object: whatever is mapped at a slot inside it,
/// from its first byte to its last, is mapped as far into the copy, with the same
/// word. Object and copy do not overlap. What lies outside the copy stays as it is.
pub proof fn copy_holds_every_word(
    s: State,
    o: ObjectReference,
    new: ObjectReference,
    k: int,
    other: usize,
)
    requires
        0 <= k < s.shape(o.address).size,
        k % slot_width(s) == 0,
        o.address + s.shape(o.address).size <= usize::MAX,
        new.address + s.shape(o.address).size <= usize::MAX,
        apart(o.address, new.address, s.shape(o.address).size),
    ensures
        ({
            let t = object_copied(s, o, new);
            let source = (o.address + k) as usize;
            let target = (new.address + k) as usize;
            &&& s.mapped(source) ==> t.mapped(target) && t.word(target) == s.word(source)
            &&& other < new.address || new.address + s.shape(o.address).size <= other ==> {
                &&& t.mapped(other) == s.mapped(other)
                &&& t.word(other) == s.word(other)
            }
        }),
{
    reveal(object_copied);
    let size = s.shape(o.address).size;
    let granule = s.args.granule();
    let count = slots_covered(size, granule);
    let i = k / (granule as int);
    assert(granule == slot_width(s));
    assert(i * granule == k) by (nonlinear_arith)
        requires
            i == k / (granule as int),
            k % (granule as int) == 0,
            granule > 0,
    ;
    assert(0 <= i < count && (count - 1) * granule < size) by (nonlinear_arith)
        requires
            i * granule == k,
            0 <= k < size,
            granule > 0,
            count == (size + granule - 1) / granule as int,
    ;
    lemma_words(s.words, o.address, new.address, granule, count, size, i);
    if other < new.address || new.address + size <= other {
        lemma_beside(s.words, o.address, new.address, granule, count, size, other);
    }
}

/// A copy has the shape of the object: its size, its type, and its fields in their
/// order. A field inside the object lies as far into the copy; one elsewhere is
/// shared. What a field is stays the same. The elements of an array that lie in the
/// object lie in the copy.
pub proof fn copy_has_the_shape(s: State, o: ObjectReference, new: ObjectReference, i: int)
    requires
        s.objects.contains_key(o.address),
        new.address + s.shape(o.address).size <= usize::MAX,
        0 <= i < s.shape(o.address).fields.len(),
    ensures
        ({
            let t = object_copied(s, o, new);
            let object = s.shape(o.address);
            let copy = t.shape(new.address);
            let field = object.fields[i];
            let moved = copy.fields[i];
            let inside = o.address <= field.slot.address < o.address + object.size;
            &&& copy.size == object.size
            &&& copy.tag_valid == object.tag_valid
            &&& copy.class_name == object.class_name
            &&& copy.fields.len() == object.fields.len()
            &&& moved.out_of_heap == field.out_of_heap
            &&& moved.slot.type_tag == field.slot.type_tag
            &&& inside ==> moved.slot.address - new.address == field.slot.address - o.address
            &&& !inside ==> moved.slot.address == field.slot.address
            &&& match object.kind {
                ObjectKind::ObjArray(data) => copy.kind matches ObjectKind::ObjArray(slots)
                    && slots.len == data.len && slots.slot_bytes == data.slot_bytes && (
                o.address <= data.start && data.start + data.len * data.slot_bytes <= o.address
                    + object.size ==> slots.start - new.address == data.start - o.address),
                kind => copy.kind == kind,
            }
            &&& forall|a: usize|
                a != new.address ==> #[trigger] t.shape(a) == s.shape(a)
        }),
{
    reveal(object_copied);
    let t = object_copied(s, o, new);
    let object = s.shape(o.address);
    if let ObjectKind::ObjArray(data) = object.kind {
        assert(data.len * data.slot_bytes >= 0) by (nonlinear_arith);
    }
    assert forall|a: usize| a != new.address implies #[trigger] t.shape(a) == s.shape(a) by {}
}

/// Nursery evacuation moves the object.
pub open spec fn moves(p: IncsState, s: State, o: ObjectReference, depth: u32) -> bool {
    &&& s.args.rc_nursery_evacuation
    &&& !p.no_evac
    &&& !(s.args.inc_max_copy_depth && depth > 16)
    &&& s.immix.has(o.address)
    &&& !s.los.has(o.address)
    &&& s.forwarding_of(o) == Forwarding::Untouched
    &&& s.count(o) == 0
    &&& s.nursery.contains((o.address - o.address % s.args.block_bytes) as usize)
    &&& s.shape(o.address).size < s.args.max_young_evac_size
}

/// What becomes of an object that qualifies, where the copy allocator has room.
pub proof fn lemma_evacuated(p: IncsState, s: State, o: ObjectReference, depth: u32)
    requires
        s.wf(),
        moves(p, s, o, depth),
        s.copies.len() > 0,
        s.copies.last() is Some,
    ensures
        ({
            let new = s.copies.last()->0;
            let (q, t, at) = inc_processed(p, s, o, depth);
            let noted = increment_counted(s, o);
            let claimed = noted.with_forwarding(o, Forwarding::BeingForwarded(None));
            let c = object_copied(answer_taken(claimed), o, new);
            let (p1, s1) = promoted(p, inc_traced(c, new), new, true, false, depth);
            &&& at == new
            &&& (q, t) == (p1, s1)
            &&& bounded(c)
            &&& c.words == object_copied(s, o, new).words
            &&& c.objects == object_copied(s, o, new).objects
            &&& t.words == c.words
            &&& t.objects == c.objects
            &&& t.forwarding == c.forwarding
            &&& t.copies == s.copies.drop_last()
            &&& inc_traced(c, new).count(new) <= t.count(new)
            &&& c.counts == s.counts
        }),
{
    reveal(inc_processed);
    reveal(moved_or_kept);
    reveal(object_copied);
    lemma_wf_bounded(s);
    let new = s.copies.last()->0;
    let noted = increment_counted(s, o);
    lemma_increment_counted(p, s, o);
    let claimed = noted.with_forwarding(o, Forwarding::BeingForwarded(None));
    assert(noted.forwarding_of(o) == s.forwarding_of(o));
    assert(noted.count(o) == s.count(o));
    assert(copy_answer(claimed) == Some(new));
    let answered = answer_taken(claimed);
    let c = object_copied(answered, o, new);
    assert(answered.shape(o.address) == s.shape(o.address));
    assert forall|x: ObjectReference| #[trigger] c.count(x) == s.count(x) by {}
    assert(c.objects.dom() =~= if s.objects.contains_key(o.address) {
        s.objects.dom().insert(new.address)
    } else {
        s.objects.dom()
    });
    assert(bounded(c));
    lemma_inc_traced(c, new);
    lemma_promoted(p, inc_traced(c, new), new, true, false, depth);
}

/// An object that qualifies moves to where the copy allocator has room: the whole
/// object is there afterwards, the object says where it went, and the copy is
/// counted. One answer of the copy allocator was used.
pub proof fn qualified_object_moves(
    p: IncsState,
    s: State,
    o: ObjectReference,
    depth: u32,
    k: int,
    i: int,
)
    requires
        s.wf(),
        moves(p, s, o, depth),
        s.copies.len() > 0,
        s.copies.last() is Some,
    ensures
        ({
            let new = s.copies.last()->0;
            let size = s.shape(o.address).size;
            let (q, t, at) = inc_processed(p, s, o, depth);
            &&& at == new
            &&& t.copies == s.copies.drop_last()
            &&& t.forwarding_of(o) == Forwarding::Forwarded(new)
            &&& t.count(new) > s.count(new) || t.count(new) == s.args.max_ref_count
            &&& s.objects.contains_key(o.address) ==> t.shape(new.address).size == size
            &&& s.objects.contains_key(o.address) && 0 <= i < s.shape(o.address).fields.len() ==> {
                let from = s.shape(o.address).fields[i].slot.address;
                let to = t.shape(new.address).fields[i].slot.address;
                if o.address <= from < o.address + size {
                    to - new.address == from - o.address
                } else {
                    to == from
                }
            }
            &&& apart(o.address, new.address, size) && 0 <= k < size && k % slot_width(s) == 0
                && s.mapped((o.address + k) as usize) ==> {
                &&& t.mapped((new.address + k) as usize)
                &&& t.word((new.address + k) as usize) == s.word((o.address + k) as usize)
            }
        }),
{
    let new = s.copies.last()->0;
    let size = s.shape(o.address).size;
    lemma_evacuated(p, s, o, depth);
    lemma_wf_bounded(s);
    assert(s.copies[s.copies.len() - 1] == s.copies.last());
    let (q, t, at) = inc_processed(p, s, o, depth);
    let noted = increment_counted(s, o);
    let claimed = noted.with_forwarding(o, Forwarding::BeingForwarded(None));
    let c = object_copied(answer_taken(claimed), o, new);
    assert(t.forwarding_of(o) == Forwarding::Forwarded(new)) by {
        reveal(object_copied);
    }
    assert(t.count(new) > s.count(new) || t.count(new) == s.args.max_ref_count) by {
        reveal(object_copied);
        assert(c.count(new) == s.count(new));
        assert(t.args == s.args) by {
            crate::progress::lemma_inc_processed(p, s, o, depth);
        }
        assert(t.count(new) <= t.args.max_ref_count) by {
            crate::progress::lemma_inc_processed(p, s, o, depth);
        }
        assert(c.count(new) <= c.args.max_ref_count);
    }
    if s.objects.contains_key(o.address) {
        reveal(object_copied);
        if 0 <= i < s.shape(o.address).fields.len() {
            copy_has_the_shape(s, o, new, i);
            assert(t.shape(new.address) == object_copied(s, o, new).shape(new.address));
        }
    } else {
        assert(size == 0);
    }
    if s.objects.contains_key(o.address) && apart(o.address, new.address, size) && 0 <= k < size
        && k % slot_width(s) == 0 {
        assert(s.objects[o.address].wf_at(o.address));
        copy_holds_every_word(s, o, new, k, o.address);
        let u = object_copied(s, o, new);
        let target = (new.address + k) as usize;
        assert(t.word(target) == u.word(target));
    }
}

/// Where the copy allocator has no room for an object that qualifies, the object
/// stays where it is, nobody has claimed it afterwards, it is counted, and evacuation
/// stops for the packet and for the collector.
pub proof fn no_room_stops_evacuation(p: IncsState, s: State, o: ObjectReference, depth: u32)
    requires
        s.wf(),
        moves(p, s, o, depth),
        s.copies.len() == 0 || s.copies.last() is None,
    ensures
        ({
            let (q, t, at) = inc_processed(p, s, o, depth);
            &&& at == o
            &&& q.no_evac
            &&& t.no_evac
            &&& t.forwarding_of(o) == Forwarding::Untouched
            &&& t.count(o) > 0
            &&& t.words == s.words
            &&& t.objects == s.objects
            &&& t.copies == (if s.copies.len() == 0 {
                s.copies
            } else {
                s.copies.drop_last()
            })
        }),
{
    reveal(inc_processed);
    reveal(moved_or_kept);
    lemma_wf_bounded(s);
    let noted = increment_counted(s, o);
    lemma_increment_counted(p, s, o);
    assert(noted.forwarding_of(o) == s.forwarding_of(o));
    assert(noted.count(o) == s.count(o));
    let claimed = noted.with_forwarding(o, Forwarding::BeingForwarded(None));
    let answered = answer_taken(claimed).with_event(crate::state::Event::ToSpaceOverflow);
    assert forall|x: ObjectReference| #[trigger] answered.count(x) == s.count(x) by {}
    let counted = inc_traced(answered, o);
    lemma_inc_traced(answered, o);
    let kept = counted.with_forwarding(o, Forwarding::Untouched);
    crate::progress::lemma_forwarding_bounded(counted, kept);
    lemma_promoted(p, kept, o, false, s.los.has(o.address), depth);
    let (p1, s1) = promoted(p, kept, o, false, s.los.has(o.address), depth);
    assert(kept.count(o) <= s1.count(o));
    let (_, t, _) = inc_processed(p, s, o, depth);
    assert(t.count(o) == s1.count(o));
}

} // verus!
