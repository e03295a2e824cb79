//! The scaling of integer samples from one width to another.

use vstd::prelude::*;

verus! {

/// A sample of the range `0..=max_in` brought to the range `0..=max_out`:
/// scaled linearly and rounded down, with no rounding to the nearest and no
/// dithering.
pub open spec fn rescale(v: int, max_out: int, max_in: int) -> int {
    v * max_out / max_in
}

/// Scaling keeps a sample within its range and its order among the samples.
pub proof fn lemma_rescale_bounds(v: int, w: int, max_out: int, max_in: int)
    requires
        0 <= v <= w <= max_in,
        0 <= max_out,
        0 < max_in,
    ensures
        0 <= rescale(v, max_out, max_in) <= rescale(w, max_out, max_in) <= max_out,
        rescale(0, max_out, max_in) == 0,
        rescale(max_in, max_out, max_in) == max_out,
{
    assert(0 <= v * max_out <= w * max_out <= max_in * max_out) by (nonlinear_arith)
        requires
            0 <= v <= w <= max_in,
            0 <= max_out,
    ;
    vstd::arithmetic::div_mod::lemma_div_is_ordered(v * max_out, w * max_out, max_in);
    vstd::arithmetic::div_mod::lemma_div_is_ordered(w * max_out, max_in * max_out, max_in);
    vstd::arithmetic::div_mod::lemma_div_is_ordered(0, v * max_out, max_in);
    vstd::arithmetic::div_mod::lemma_div_multiples_vanish(max_out, max_in);
    vstd::arithmetic::mul::lemma_mul_is_commutative(max_in, max_out);
}

} // verus!
