//! Moving objects.

use crate::increments::answer_taken;
use crate::increments::claim_settled;
use crate::increments::copy_answer;
use crate::increments::object_copied;
use crate::increments::slots_covered;
use crate::increments::words_copied;
use crate::object::Field;
use crate::object::MemorySlice;
use crate::object::ObjectKind;
use crate::object::ObjectReference;
use crate::object::Shape;
use crate::object::ShapeView;
use crate::object::Slot;
use crate::plan::Lxr;
use crate::state::Forwarding;
use crate::state::State;
use vstd::prelude::*;

verus! {

/// The copy of a shape, for an object that moves.
fn relocate(shape: &Shape, from: usize, to: usize) -> (copy: Shape)
    requires
        shape@.wf_at(from),
        to + shape.size <= usize::MAX,
    ensures
        copy@ == shape@.relocated(from, to),
{
    let size: usize = shape.size;
    let mut fields: Vec<Field> = Vec::new();
    let ghost moved = shape@.relocated(from, to).fields;
    let mut i: usize = 0;
    while i < shape.fields.len()
        invariant
            i <= shape.fields.len(),
            size == shape.size,
            to + shape.size <= usize::MAX,
            moved == shape@.relocated(from, to).fields,
            fields@ == moved.take(i as int),
        decreases shape.fields.len() - i,
    {
        let field: Field = shape.fields[i];
        let address: usize = if from <= field.slot.address && field.slot.address - from < size {
            field.slot.address - from + to
        } else {
            field.slot.address
        };
        fields.push(
            Field {
                slot: Slot { address, type_tag: field.slot.type_tag },
                out_of_heap: field.out_of_heap,
            },
        );
        i += 1;
        proof {
            assert(fields@ =~= moved.take(i as int));
        }
    }
    let kind: ObjectKind = match shape.kind {
        ObjectKind::ObjArray(slice) => {
            if from <= slice.start && slice.start - from <= size && slice.len
                * slice.slot_bytes <= size - (slice.start - from) {
                ObjectKind::ObjArray(
                    MemorySlice {
                        start: slice.start - from + to,
                        len: slice.len,
                        slot_bytes: slice.slot_bytes,
                    },
                )
            } else {
                ObjectKind::ObjArray(slice)
            }
        },
        ObjectKind::Plain => ObjectKind::Plain,
        ObjectKind::ValArray => ObjectKind::ValArray,
    };
    proof {
        assert(moved.take(i as int) =~= moved);
    }
    Shape { size, kind, fields, tag_valid: shape.tag_valid, class_name: shape.class_name.clone() }
}

/// A shape that fits at one address fits, moved along, at another with as much
/// room above it.
pub proof fn lemma_relocated_fits(shape: ShapeView, from: usize, to: usize)
    requires
        shape.wf_at(from),
        0 < to,
        to + shape.size + crate::args::ADDRESS_SLACK <= usize::MAX,
    ensures
        shape.relocated(from, to).wf_at(to),
{
    if let ObjectKind::ObjArray(slice) = shape.kind {
        assert(slice.bytes() >= 0) by (nonlinear_arith)
            requires
                slice.bytes() == slice.len * slice.slot_bytes,
        ;
    }
}

impl Lxr {
    /// Waits for another worker that has claimed the object.
    pub fn await_claim(&mut self, o: ObjectReference)
        ensures
            final(self)@ == claim_settled(old(self)@, o),
            !(final(self)@.forwarding_of(o) is BeingForwarded),
            old(self)@.wf() ==> final(self)@.wf(),
    {
        match self.forwarding_of(o) {
            Forwarding::BeingForwarded(Some(new)) => {
                self.set_forwarding(o, Forwarding::Forwarded(new));
            },
            Forwarding::BeingForwarded(None) => {
                self.set_forwarding(o, Forwarding::Untouched);
            },
            _ => {},
        }
    }

    /// Asks the copy allocator for room.
    pub fn alloc_copy(&mut self) -> (new: Option<ObjectReference>)
        requires
            old(self)@.wf(),
        ensures
            new == copy_answer(old(self)@),
            final(self)@ == answer_taken(old(self)@),
            final(self)@.wf(),
            new matches Some(n) ==> 0 < n.address && n.address
                + old(self)@.args.max_young_evac_size + crate::args::ADDRESS_SLACK <= usize::MAX,
    {
        let ghost s0 = self@;
        let answer: Option<Option<ObjectReference>> = self.copies.pop();
        proof {
            if s0.copies.len() > 0 {
                assert(s0.copies[s0.copies.len() - 1] == s0.copies.last());
                assert(self@.copies =~= s0.copies.drop_last());
                assert forall|i: int| 0 <= i < self@.copies.len() implies #[trigger] self@.copies[i]
                    == s0.copies[i] by {}
            } else {
                assert(self@.copies =~= s0.copies);
            }
        }
        match answer {
            Some(new) => new,
            None => None,
        }
    }

    /// Copies the words of an object.
    fn copy_words(&mut self, from: usize, to: usize, size: usize)
        requires
            old(self)@.wf(),
            from + size + crate::args::ADDRESS_SLACK <= usize::MAX,
            to + size + crate::args::ADDRESS_SLACK <= usize::MAX,
        ensures
            final(self)@ == (State {
                words: words_copied(
                    old(self)@.words,
                    from,
                    to,
                    old(self)@.args.granule(),
                    slots_covered(size, old(self)@.args.granule()),
                ),
                ..old(self)@
            }),
            final(self)@.wf(),
    {
        let granule: usize = self.args.slot_bytes();
        let count: usize = (size + granule - 1) / granule;
        let mut i: usize = 0;
        while i < count
            invariant
                i <= count,
                self@.wf(),
                granule == old(self)@.args.granule(),
                granule == 4 || granule == 8,
                count == slots_covered(size, granule),
                from + size + crate::args::ADDRESS_SLACK <= usize::MAX,
                to + size + crate::args::ADDRESS_SLACK <= usize::MAX,
                self@ == (State {
                    words: words_copied(old(self)@.words, from, to, granule, i as int),
                    ..old(self)@
                }),
            decreases count - i,
        {
            proof {
                assert(i * granule < size + granule) by (nonlinear_arith)
                    requires
                        i < count,
                        count == (size + granule - 1) / granule as int,
                        granule > 0,
                ;
                assert(0 <= i * granule) by (nonlinear_arith);
            }
            let source: usize = from + i * granule;
            let target: usize = to + i * granule;
            if self.is_mapped(source) {
                let word: usize = self.load_word(source);
                self.store_word(target, word);
            }
            i += 1;
        }
    }

    /// Copies an object, and leaves behind where it went.
    pub fn forward_object(&mut self, o: ObjectReference, new: ObjectReference)
        requires
            old(self)@.wf(),
            o.address + old(self)@.shape(o.address).size + crate::args::ADDRESS_SLACK
                <= usize::MAX,
            0 < new.address,
            new.address + old(self)@.shape(o.address).size + crate::args::ADDRESS_SLACK
                <= usize::MAX,
        ensures
            final(self)@ == object_copied(old(self)@, o, new),
            final(self)@.wf(),
    {
        proof {
            reveal(object_copied);
        }
        let ghost s0 = self@;
        let size: usize = self.get_size(o);
        self.copy_words(o.address, new.address, size);
        let copy: Option<Shape> = match self.objects.get(o.address) {
            Some(shape) => {
                proof {
                    assert(s0.objects.contains_key(o.address));
                    lemma_relocated_fits(shape@, o.address, new.address);
                }
                Some(relocate(shape, o.address, new.address))
            },
            None => None,
        };
        match copy {
            Some(shape) => {
                let ghost moved = shape@;
                self.objects.set(new.address, shape);
                proof {
                    assert(self@.objects =~= s0.objects.insert(new.address, moved));
                }
            },
            None => {},
        }
        self.set_forwarding(o, Forwarding::Forwarded(new));
    }
}

} // verus!
