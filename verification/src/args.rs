//! The collector's configuration.

use vstd::prelude::*;

verus! {

/// The bytes of a machine word.
pub const WORD_BYTES: usize = 8;

/// The room that is left above every object and every space, so that an
/// address inside them can be rounded up.
pub const ADDRESS_SLACK: usize = 4096;

/// What is fixed when the collector starts.
#[derive(Clone, Copy, Debug, PartialEq, Eq)]
pub struct Args {
    /// How many entries a buffer holds before it is handed to the scheduler.
    pub buffer_size: usize,
    /// The count at which an object's reference count sticks.
    pub max_ref_count: u8,
    /// Objects of this size and above are not evacuated from the nursery.
    pub max_young_evac_size: usize,
    /// The pause time after which nursery evacuation stops, in milliseconds.
    pub max_pause_millis: Option<usize>,
    /// Whether decrements are processed after the pause.
    pub lazy_decrements: bool,
    /// Whether surviving nursery objects are moved.
    pub rc_nursery_evacuation: bool,
    /// Whether mature objects in fragmented blocks are moved.
    pub rc_mature_evacuation: bool,
    /// Whether objects found deep in the graph are kept in place.
    pub inc_max_copy_depth: bool,
    /// Whether reference slots are half a word wide.
    pub compressed_pointers: bool,
    /// Whether the roots are kept for a sanity collection.
    pub sanity: bool,
    /// Whether the first word of a dead object is overwritten.
    pub poison_dead_objects: bool,
    /// The first address of the managed heap.
    pub heap_start: usize,
    /// The address behind the managed heap.
    pub heap_end: usize,
    /// The address of the metadata byte that holds the unlog bits of address 0.
    pub unlog_base: usize,
    /// The bytes of a block.
    pub block_bytes: usize,
}

impl Args {
    /// What a configuration must satisfy: buffers are not empty and their
    /// counts fit the packets' counters, a count of one is not stuck, and the
    /// metadata lies low enough for every address to have its byte.
    pub open spec fn wf(self) -> bool {
        &&& 0 < self.buffer_size <= u32::MAX
        &&& 2 <= self.max_ref_count
        &&& 0 < self.block_bytes
        &&& self.unlog_base <= usize::MAX / 2
    }

    /// Whether the configuration can be used.
    pub fn is_valid(&self) -> (valid: bool)
        ensures
            valid == self.wf(),
    {
        0 < self.buffer_size && self.buffer_size <= u32::MAX as usize && 2 <= self.max_ref_count
            && 0 < self.block_bytes && self.unlog_base <= usize::MAX / 2
    }

    /// The heap bytes whose unlog bits share a metadata byte.
    pub open spec fn unlog_span(self) -> usize {
        if self.compressed_pointers {
            32
        } else {
            64
        }
    }

    /// The heap bytes that share an unlog bit: the width of a slot.
    pub open spec fn granule(self) -> usize {
        if self.compressed_pointers {
            4
        } else {
            8
        }
    }

    /// The bytes of an object's header.
    pub open spec fn header_bytes(self) -> usize {
        if self.compressed_pointers {
            12
        } else {
            16
        }
    }

    /// Whether `address` lies in the managed heap.
    pub open spec fn in_heap(self, address: usize) -> bool {
        self.heap_start <= address < self.heap_end
    }

    /// The metadata byte that holds the unlog bit of `address`.
    pub open spec fn meta_address(self, address: usize) -> usize {
        (self.unlog_base + address / self.unlog_span()) as usize
    }

    /// Which bit of its metadata byte is the unlog bit of `address`.
    pub open spec fn unlog_bit(self, address: usize) -> u8 {
        (address % self.unlog_span() / self.granule()) as u8
    }

    /// The block that contains `address`, by its first address.
    pub open spec fn block_of(self, address: usize) -> usize {
        (address - address % self.block_bytes) as usize
    }

    /// The heap bytes whose unlog bits share a metadata byte.
    pub fn heap_bytes_per_unlog_byte(&self) -> (bytes: usize)
        ensures
            bytes == self.unlog_span(),
    {
        if self.compressed_pointers {
            32
        } else {
            64
        }
    }

    /// The width of a reference slot.
    pub fn slot_bytes(&self) -> (bytes: usize)
        ensures
            bytes == self.granule(),
    {
        if self.compressed_pointers {
            4
        } else {
            8
        }
    }

    /// The bytes of an object's header.
    pub fn header_size(&self) -> (bytes: usize)
        ensures
            bytes == self.header_bytes(),
    {
        if self.compressed_pointers {
            12
        } else {
            16
        }
    }

    /// Whether `address` lies in the managed heap.
    pub fn contains_address(&self, address: usize) -> (inside: bool)
        ensures
            inside == self.in_heap(address),
    {
        address >= self.heap_start && address < self.heap_end
    }

    /// The metadata byte that holds the unlog bit of `address`.
    pub fn address_to_meta_address(&self, address: usize) -> (meta: usize)
        requires
            self.wf(),
        ensures
            meta == self.meta_address(address),
            meta == self.unlog_base + address / self.unlog_span(),
    {
        let span: usize = self.heap_bytes_per_unlog_byte();
        self.unlog_base + address / span
    }

    /// Which bit of its metadata byte is the unlog bit of `address`.
    pub fn bit_of(&self, address: usize) -> (bit: u8)
        ensures
            bit == self.unlog_bit(address),
            bit < 8,
    {
        let span: usize = self.heap_bytes_per_unlog_byte();
        let granule: usize = self.slot_bytes();
        let bit: usize = address % span / granule;
        bit as u8
    }

    /// The block that contains `address`.
    pub fn block_containing(&self, address: usize) -> (block: usize)
        requires
            self.wf(),
        ensures
            block == self.block_of(address),
    {
        proof {
            vstd::arithmetic::div_mod::lemma_mod_decreases(address as nat, self.block_bytes as nat);
        }
        address - address % self.block_bytes
    }
}

/// `address` rounded down to a multiple of `align`.
pub open spec fn align_down(address: int, align: int) -> int {
    address - address % align
}

/// `address` rounded up to a multiple of `align`.
pub open spec fn align_up(address: int, align: int) -> int {
    align_down(address + align - 1, align)
}

/// Rounds `address` down to a multiple of `align`.
pub fn round_down(address: usize, align: usize) -> (rounded: usize)
    requires
        align > 0,
    ensures
        rounded == align_down(address as int, align as int),
{
    proof {
        vstd::arithmetic::div_mod::lemma_mod_decreases(address as nat, align as nat);
    }
    address - address % align
}

/// Rounds `address` up to a multiple of `align`.
pub fn round_up(address: usize, align: usize) -> (rounded: usize)
    requires
        align > 0,
        address + align - 1 <= usize::MAX,
    ensures
        rounded == align_up(address as int, align as int),
{
    let raised: usize = address + (align - 1);
    proof {
        vstd::arithmetic::div_mod::lemma_mod_decreases(raised as nat, align as nat);
    }
    raised - raised % align
}

} // verus!
