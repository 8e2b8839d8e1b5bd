//! The bit-field layout of a packed board: where in the word each of the
//! sixteen positions keeps its field, and how wide that field is.

use vstd::prelude::*;

verus! {

/// The first word that needs more than fifty bits.
pub const HASH_LIMIT: u64 = 0x4_0000_0000_0000;

/// The mask of each position's field, lowest bit at bit 0.
pub const INT_POS_WIDTHS: [u64; 16] = [15, 15, 15, 15, 15, 15, 15, 15, 7, 7, 7, 7, 3, 3, 1, 0];

/// The bit at which each position's field starts.
pub const INT_POS_SHIFTS: [u64; 16] = [0, 4, 8, 12, 16, 20, 24, 28, 32, 35, 38, 41, 44, 46, 48, 49];

/// Width in bits of the field of position `i`.
pub open spec fn field_bits(i: int) -> int {
    if i < 8 {
        4
    } else if i < 12 {
        3
    } else if i < 14 {
        2
    } else if i < 15 {
        1
    } else {
        0
    }
}

/// First bit of the field of position `i`: the widths of the positions
/// before it, added up. At 16 it is the width of all the fields together.
pub open spec fn field_shift(i: int) -> int {
    if i <= 8 {
        4 * i
    } else if i <= 12 {
        32 + 3 * (i - 8)
    } else if i <= 14 {
        44 + 2 * (i - 12)
    } else {
        49
    }
}

/// Mask of the field of position `i`, before it is shifted into place.
pub open spec fn field_mask(i: int) -> u64 {
    if i < 8 {
        15
    } else if i < 12 {
        7
    } else if i < 14 {
        3
    } else if i < 15 {
        1
    } else {
        0
    }
}

/// The value that the packed word `h` keeps in the field of position `i`.
pub open spec fn field(h: u64, i: int) -> int {
    ((h >> (field_shift(i) as u64)) & field_mask(i)) as int
}

proof fn lemma_widths_as_shifts()
    by (bit_vector)
    ensures
        1u64 << 0u64 == 1,
        1u64 << 1u64 == 2,
        1u64 << 2u64 == 4,
        1u64 << 3u64 == 8,
        1u64 << 4u64 == 16,
{
}

/// Each field starts where the field before it ends, the first at bit 0.
pub proof fn lemma_shift_is_running_sum(i: int)
    requires
        0 <= i < 16,
    ensures
        field_shift(0) == 0,
        field_shift(i + 1) == field_shift(i) + field_bits(i),
{
}

/// The mask of a field is all ones over the width of the field.
pub proof fn lemma_mask_is_width(i: int)
    requires
        0 <= i < 16,
    ensures
        (1u64 << (field_bits(i) as u64)) == field_mask(i) + 1,
{
    lemma_widths_as_shifts();
}

/// Looks up the first bit of a position's field.
pub fn shift(i: usize) -> (sh: u64)
    requires
        i < 16,
    ensures
        sh == field_shift(i as int),
{
    INT_POS_SHIFTS[i]
}

/// Looks up the mask of a position's field.
pub fn width_mask(i: usize) -> (m: u64)
    requires
        i < 16,
    ensures
        m == field_mask(i as int),
{
    INT_POS_WIDTHS[i]
}

} // verus!
