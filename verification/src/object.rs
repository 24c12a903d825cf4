//! Objects, the slots that refer to them, and what a scan sees of them.

use vstd::prelude::*;

verus! {

/// A reference to an object, by its address.
#[derive(Clone, Copy, Debug, PartialEq, Eq, Structural)]
pub struct ObjectReference {
    pub address: usize,
}

/// A place that holds a reference.
#[derive(Clone, Copy, Debug, PartialEq, Eq, Structural)]
pub struct Slot {
    /// Where the reference is stored.
    pub address: usize,
    /// Whether the slot is an object's type tag.
    pub type_tag: bool,
}

/// A run of adjacent slots.
#[derive(Clone, Copy, Debug, PartialEq, Eq, Structural)]
pub struct MemorySlice {
    /// The address of the first slot.
    pub start: usize,
    /// How many slots there are.
    pub len: usize,
    /// The width of a slot.
    pub slot_bytes: usize,
}

impl MemorySlice {
    /// The bytes that the slots cover.
    pub open spec fn bytes(self) -> int {
        self.len * self.slot_bytes
    }

    /// The slice ends inside the address space and does not start at address 0,
    /// and its slots have a width.
    pub open spec fn wf(self) -> bool {
        &&& 0 < self.start
        &&& 0 < self.slot_bytes
        &&& self.start + self.bytes() <= usize::MAX
    }

    /// The slot at `index`.
    pub open spec fn slot_at(self, index: int) -> Slot {
        Slot { address: (self.start + index * self.slot_bytes) as usize, type_tag: false }
    }

    /// The slots of the slice.
    pub open spec fn slots(self) -> Seq<Slot> {
        Seq::new(self.len as nat, |i: int| self.slot_at(i))
    }

    /// The part of the slice that starts at slot `from` and has `count` slots.
    pub open spec fn part(self, from: int, count: int) -> MemorySlice {
        MemorySlice {
            start: (self.start + from * self.slot_bytes) as usize,
            len: count as usize,
            slot_bytes: self.slot_bytes,
        }
    }

    /// The slice cut into consecutive parts of `size` slots, the last one
    /// shorter where the length is no multiple of `size`.
    pub open spec fn chunks(self, size: int) -> Seq<MemorySlice> {
        Seq::new(
            ((self.len + size - 1) / size) as nat,
            |i: int|
                self.part(
                    i * size,
                    if self.len - i * size < size {
                        self.len - i * size
                    } else {
                        size
                    },
                ),
        )
    }

    /// The slot at `index`.
    pub fn get(&self, index: usize) -> (slot: Slot)
        requires
            self.wf(),
            index < self.len,
        ensures
            slot == self.slots()[index as int],
    {
        proof {
            vstd::arithmetic::mul::lemma_mul_inequality(
                index as int,
                self.len as int,
                self.slot_bytes as int,
            );
        }
        Slot { address: self.start + index * self.slot_bytes, type_tag: false }
    }
}

/// A slot of an object, as a scan of the object visits it.
#[derive(Clone, Copy, Debug, PartialEq, Eq, Structural)]
pub struct Field {
    pub slot: Slot,
    /// Whether the slot belongs to the object but lies outside the heap.
    pub out_of_heap: bool,
}

/// What kind of object it is, to a scan.
#[derive(Clone, Copy, Debug, PartialEq, Eq, Structural)]
pub enum ObjectKind {
    /// An object with fields.
    Plain,
    /// An array of values: it holds no references.
    ValArray,
    /// An array of references, with its elements.
    ObjArray(MemorySlice),
}

/// What the runtime knows of an object: its size and its slots.
#[derive(Debug)]
pub struct Shape {
    pub size: usize,
    pub kind: ObjectKind,
    /// The slots that a scan of the object visits, in order.
    pub fields: Vec<Field>,
    /// Whether the object's tag denotes a type.
    pub tag_valid: bool,
    /// The name of the type; empty where there is none.
    pub class_name: String,
}

/// The value of a [`Shape`].
pub struct ShapeView {
    pub size: usize,
    pub kind: ObjectKind,
    pub fields: Seq<Field>,
    pub tag_valid: bool,
    pub class_name: Seq<char>,
}

impl View for Shape {
    type V = ShapeView;

    open spec fn view(&self) -> ShapeView {
        ShapeView {
            size: self.size,
            kind: self.kind,
            fields: self.fields@,
            tag_valid: self.tag_valid,
            class_name: self.class_name@,
        }
    }
}

/// What is known of an address at which no object was laid out.
pub open spec fn no_shape() -> ShapeView {
    ShapeView {
        size: 0,
        kind: ObjectKind::Plain,
        fields: Seq::empty(),
        tag_valid: false,
        class_name: Seq::empty(),
    }
}

/// Where `address` lies after the object at `from`, of `size` bytes, was copied
/// to `to`: inside the object it moves along, elsewhere it stays.
pub open spec fn moved_address(address: usize, from: usize, to: usize, size: usize) -> usize {
    if from <= address && address - from < size {
        (address - from + to) as usize
    } else {
        address
    }
}

/// `slot` after the object around it was copied.
pub open spec fn moved_slot(slot: Slot, from: usize, to: usize, size: usize) -> Slot {
    Slot { address: moved_address(slot.address, from, to, size), type_tag: slot.type_tag }
}

/// `slice` after the object at `from` was copied: it moves where all of it lies
/// in the object.
pub open spec fn moved_slice(slice: MemorySlice, from: usize, to: usize, size: usize) -> MemorySlice {
    if from <= slice.start && slice.start - from + slice.bytes() <= size {
        MemorySlice { start: (slice.start - from + to) as usize, ..slice }
    } else {
        slice
    }
}

impl ShapeView {
    /// The shape of the copy at `to` of an object at `from`.
    pub open spec fn relocated(self, from: usize, to: usize) -> ShapeView {
        ShapeView {
            kind: match self.kind {
                ObjectKind::ObjArray(slice) => ObjectKind::ObjArray(
                    moved_slice(slice, from, to, self.size),
                ),
                other => other,
            },
            fields: self.fields.map_values(
                |f: Field|
                    Field {
                        slot: moved_slot(f.slot, from, to, self.size),
                        out_of_heap: f.out_of_heap,
                    },
            ),
            ..self
        }
    }

    /// An object at `address` with this shape ends well inside the address
    /// space, and so do the elements of an array.
    pub open spec fn wf_at(self, address: usize) -> bool {
        &&& address + self.size + crate::args::ADDRESS_SLACK <= usize::MAX
        &&& self.kind matches ObjectKind::ObjArray(slice) ==> slice.wf()
    }
}

} // verus!
