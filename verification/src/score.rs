//! Similarity scores as integers.

use vstd::prelude::*;

verus! {

/// Where the 32-bit float with bit pattern `bits` stands among all floats: a
/// greater float has a greater rank, the two zeros share rank 0, and a NaN
/// stands beyond the infinity of its sign.
pub open spec fn score_rank(bits: u32) -> int {
    if bits >= 0x8000_0000u32 {
        0x8000_0000 - bits
    } else {
        bits as int
    }
}

/// Computes [`score_rank`].
pub fn score_key(bits: u32) -> (key: i64)
    ensures
        key == score_rank(bits),
{
    if bits >= 0x8000_0000u32 {
        0x8000_0000i64 - (bits as i64)
    } else {
        bits as i64
    }
}

} // verus!
