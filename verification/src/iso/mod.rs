//! The disc format around the file system: where the header fields stand, how
//! addresses are aligned and scaled, and the entries of the file system table.

pub mod consts;
pub mod fst;

use vstd::prelude::*;
use vstd::arithmetic::power2::{lemma2_to64, lemma_pow2_pos, lemma_pow2_strictly_increases, pow2};
use vstd::arithmetic::div_mod::{lemma_fundamental_div_mod, lemma_fundamental_div_mod_converse};
use vstd::arithmetic::mul::{lemma_mul_is_commutative, lemma_mul_is_distributive_add_other_way};
use vstd::bits::lemma_u64_shl_is_mul;

pub use fst::{FstEntry, FstEntryView, FstNodeType};

verus! {

/// The least multiple of `2^bit` that is not below `val`.
pub open spec fn align_up(val: int, bit: u8) -> int {
    (val + pow2(bit as nat) - 1) / (pow2(bit as nat) as int) * pow2(bit as nat)
}

/// The alignments that the disc format uses, in bytes.
pub(crate) proof fn lemma_alignments()
    ensures
        pow2(2) == 4,
        pow2(5) == 32,
        pow2(8) == 256,
        pow2(10) == 1024,
{
    lemma2_to64();
}

/// Aligning moves an address up by less than the alignment, to a multiple of it.
pub proof fn law_align_up(val: int, bit: u8)
    ensures
        val <= align_up(val, bit) < val + pow2(bit as nat),
        align_up(val, bit) % (pow2(bit as nat) as int) == 0,
{
    let unit = pow2(bit as nat) as int;
    lemma_pow2_pos(bit as nat);
    let q = (val + unit - 1) / unit;
    lemma_fundamental_div_mod(val + unit - 1, unit);
    lemma_mul_is_commutative(unit, q);
    lemma_fundamental_div_mod_converse(q * unit, unit, q, 0);
}

/// An aligned address stays where it is.
pub proof fn law_align_up_fixed(val: int, bit: u8)
    requires
        val % (pow2(bit as nat) as int) == 0,
    ensures
        align_up(val, bit) == val,
{
    let unit = pow2(bit as nat) as int;
    lemma_pow2_pos(bit as nat);
    lemma_fundamental_div_mod(val, unit);
    lemma_mul_is_commutative(unit, val / unit);
    lemma_fundamental_div_mod_converse(val + unit - 1, unit, val / unit, unit - 1);
}

/// Moves `val` up to the next multiple of `2^bit`, if that is a number of 64 bits.
pub fn checked_align_addr(val: u64, bit: u8) -> (r: Option<u64>)
    requires
        bit < 64,
    ensures
        match r {
            Some(n) => n == align_up(val as int, bit),
            None => align_up(val as int, bit) > u64::MAX,
        },
{
    proof {
        lemma2_to64();
        lemma_pow2_strictly_increases(bit as nat, 64);
        lemma_u64_shl_is_mul(1, bit as u64);
        lemma_pow2_pos(bit as nat);
    }
    let unit: u64 = 1u64 << (bit as u64);
    let over: u64 = val % unit;
    if over == 0 {
        proof {
            law_align_up_fixed(val as int, bit);
        }
        Some(val)
    } else {
        proof {
            let u = unit as int;
            let q = val as int / u;
            lemma_fundamental_div_mod(val as int, u);
            lemma_mul_is_commutative(u, q);
            lemma_mul_is_distributive_add_other_way(u, q, 1);
            lemma_fundamental_div_mod_converse(val + u - 1, u, q + 1, over - 1);
        }
        if val > u64::MAX - (unit - over) {
            None
        } else {
            Some(val + (unit - over))
        }
    }
}

/// Moves `val` up to the next multiple of `2^bit`.
pub fn align_addr(val: u64, bit: u8) -> (r: u64)
    requires
        bit < 64,
        align_up(val as int, bit) <= u64::MAX,
    ensures
        r == align_up(val as int, bit),
{
    checked_align_addr(val, bit).unwrap()
}

/// The bytes that `n` units of a disc's offsets are: Wii discs count in words of
/// four bytes.
pub open spec fn in_bytes(n: int, is_wii: bool) -> int {
    if is_wii {
        n * 4
    } else {
        n
    }
}

/// The units of a disc's offsets that `n` bytes are, rounded down.
pub open spec fn in_units(n: int, is_wii: bool) -> int {
    if is_wii {
        n / 4
    } else {
        n
    }
}

/// Whether `n` bytes are a whole number of units.
pub open spec fn is_whole(n: int, is_wii: bool) -> bool {
    is_wii ==> n % 4 == 0
}

/// How far a disc offset is shifted to give bytes.
pub(crate) fn offset_shift(is_wii: bool) -> (s: u8)
    ensures
        s == if is_wii { 2u8 } else { 0u8 },
{
    if is_wii {
        2
    } else {
        0
    }
}

/// The byte offset that the word `w` of a disc stands for, as far as an address
/// of this machine can hold it.
pub open spec fn scale_up(w: u32, is_wii: bool) -> usize {
    in_bytes(w as int, is_wii) as usize
}

/// The word that stands for the byte offset `n` on a disc, cut to 32 bits.
pub open spec fn scale_down(n: usize, is_wii: bool) -> u32 {
    in_units(n as int, is_wii) as u32
}

/// Turns a word of a disc into a byte offset.
pub(crate) fn to_bytes_offset(w: u32, is_wii: bool) -> (n: usize)
    ensures
        n == scale_up(w, is_wii),
{
    let v: usize = w as usize;
    proof {
        assert(v << 2u8 == (v * 4) as usize) by (bit_vector);
        assert(v << 0u8 == v) by (bit_vector);
    }
    v << offset_shift(is_wii)
}

/// Turns a byte offset into a word of a disc.
pub(crate) fn to_disc_offset(n: usize, is_wii: bool) -> (w: u32)
    ensures
        w == scale_down(n, is_wii),
{
    proof {
        assert(n >> 2u8 == n / 4) by (bit_vector);
        assert(n >> 0u8 == n) by (bit_vector);
    }
    (n >> offset_shift(is_wii)) as u32
}

/// What does not fit 32 bits is cut to them, on a Wii disc after the division into
/// words of four bytes.
pub proof fn law_offset_cut(n: usize)
    ensures
        scale_down(n, false) as int == n as int % 0x1_0000_0000,
        scale_down(n, true) as int == n as int / 4 % 0x1_0000_0000,
        n as u32 as int == n as int % 0x1_0000_0000,
{
    let m = n as u64;
    assert(m as u32 == m % 0x1_0000_0000u64) by (bit_vector);
    let q = (n / 4) as u64;
    assert(q as u32 == q % 0x1_0000_0000u64) by (bit_vector);
}

/// A byte offset that the disc can hold comes back from the word written for it.
pub proof fn law_offset_round_trip(n: usize, is_wii: bool)
    requires
        is_whole(n as int, is_wii),
        in_units(n as int, is_wii) <= u32::MAX,
    ensures
        scale_up(scale_down(n, is_wii), is_wii) == n,
{
}

} // verus!
