//! Facts about unlog bits.

use crate::args::Args;
use crate::state::State;
use crate::state::LOGGED_VALUE;
use crate::state::UNLOGGED_VALUE;
use vstd::prelude::*;

verus! {

/// Whether two addresses share an unlog bit.
pub open spec fn share_unlog_bit(args: Args, a: usize, b: usize) -> bool {
    args.meta_address(a) == args.meta_address(b) && args.unlog_bit(a) == args.unlog_bit(b)
}

/// No unlog bit was cleared.
pub open spec fn armed_kept(s: State, t: State) -> bool {
    forall|a: usize|
        s.logging_state(a) == UNLOGGED_VALUE ==> #[trigger] t.logging_state(a) == UNLOGGED_VALUE
}

/// A metadata byte has eight bits.
proof fn lemma_bit_in_byte(args: Args, a: usize)
    ensures
        args.unlog_bit(a) < 8,
{
    if args.compressed_pointers {
        assert(a % 32usize / 4usize < 8);
    } else {
        assert(a % 64usize / 8usize < 8);
    }
}

/// The unlog bit of an address is the one that was stored, and no other bit
/// changes.
pub proof fn lemma_stored_bit(s: State, a: usize, bit: u8, x: usize)
    requires
        bit == LOGGED_VALUE || bit == UNLOGGED_VALUE,
    ensures
        s.with_logging_state(a, bit).logging_state(x) == (if share_unlog_bit(s.args, a, x) {
            bit
        } else {
            s.logging_state(x)
        }),
{
    let t = s.with_logging_state(a, bit);
    let byte = s.unlog_byte(s.args.meta_address(a));
    let i = s.args.unlog_bit(a);
    let j = s.args.unlog_bit(x);
    lemma_bit_in_byte(s.args, a);
    lemma_bit_in_byte(s.args, x);
    assert(((byte | (1u8 << i)) >> i) & 1 == 1) by (bit_vector)
        requires
            i < 8,
    ;
    assert(((byte & !(1u8 << i)) >> i) & 1 == 0) by (bit_vector)
        requires
            i < 8,
    ;
    assert(i != j ==> ((byte | (1u8 << i)) >> j) & 1 == (byte >> j) & 1) by (bit_vector)
        requires
            i < 8,
            j < 8,
    ;
    assert(i != j ==> ((byte & !(1u8 << i)) >> j) & 1 == (byte >> j) & 1) by (bit_vector)
        requires
            i < 8,
            j < 8,
    ;
    if s.args.meta_address(a) == s.args.meta_address(x) {
        if bit == LOGGED_VALUE {
            assert(t.unlog_byte(s.args.meta_address(x)) == byte & !(1u8 << i));
        } else {
            assert(t.unlog_byte(s.args.meta_address(x)) == byte | (1u8 << i));
        }
    } else {
        assert(t.unlog_byte(s.args.meta_address(x)) == s.unlog_byte(s.args.meta_address(x)));
    }
}

/// Filling metadata bytes arms the addresses that they cover, and changes no
/// other unlog bit.
pub proof fn lemma_filled_bytes(s: State, lo: int, hi: int, x: usize)
    ensures
        s.with_unlogged(lo, hi).logging_state(x) == (if lo <= s.args.meta_address(x) < hi {
            UNLOGGED_VALUE
        } else {
            s.logging_state(x)
        }),
{
    let t = s.with_unlogged(lo, hi);
    let j = s.args.unlog_bit(x);
    lemma_bit_in_byte(s.args, x);
    assert((0xffu8 >> j) & 1 == 1) by (bit_vector)
        requires
            j < 8,
    ;
    let meta = s.args.meta_address(x);
    if lo <= meta < hi {
        assert(t.unlog_byte(meta) == 0xffu8);
    } else {
        assert(t.unlog_byte(meta) == s.unlog_byte(meta));
    }
}

/// A metadata byte that is zero has logged addresses only.
pub proof fn lemma_zero_byte(s: State, x: usize)
    requires
        s.unlog_byte(s.args.meta_address(x)) == 0,
    ensures
        s.logging_state(x) == LOGGED_VALUE,
{
    let j = s.args.unlog_bit(x);
    assert((0u8 >> j) & 1 == 0) by (bit_vector);
}

} // verus!
