//! Vectors as sequences of single-precision bit patterns.
use vstd::prelude::*;

verus! {

/// Bit pattern of 2^-75, the largest magnitude whose single-precision square
/// rounds to zero (round to nearest, ties to even).
pub const SQUARE_UNDERFLOW_BITS: u32 = 0x1A00_0000;

/// Mask that clears the sign bit of a single-precision bit pattern.
pub const MAGNITUDE_MASK: u32 = 0x7FFF_FFFF;

/// The component squares to zero in single precision. NaN patterns have a
/// magnitude above the bound and so never do.
pub open spec fn squares_to_zero(bits: u32) -> bool {
    bits & MAGNITUDE_MASK <= SQUARE_UNDERFLOW_BITS
}

/// The squared norm, summed in single precision, is zero: every square
/// underflows to zero, and a sum of non-negative terms is zero only then.
pub open spec fn is_degenerate(v: Seq<u32>) -> bool {
    forall|i: int| 0 <= i < v.len() ==> #[trigger] squares_to_zero(v[i])
}

/// Whether cosine similarity is undefined for `values`.
pub fn degenerate(values: &[u32]) -> (r: bool)
    ensures
        r == is_degenerate(values@),
{
    let mut i: usize = 0;
    while i < values.len()
        invariant
            i <= values@.len(),
            forall|j: int| 0 <= j < i ==> #[trigger] squares_to_zero(values@[j]),
        decreases values@.len() - i,
    {
        if values[i] & MAGNITUDE_MASK > SQUARE_UNDERFLOW_BITS {
            assert(!squares_to_zero(values@[i as int]));
            return false;
        }
        i = i + 1;
    }
    true
}

} // verus!
