//! Membership in the multiplicative group of integers modulo `n`.
use vstd::prelude::*;

verus! {

/// `abs(x)` is in `Z*_n` when its GCD with `n` is 1; the sign of `x` plays no part.
pub fn in_mult_group_abs(gcd_is_one: bool) -> (r: bool)
    ensures
        r == gcd_is_one,
{
    gcd_is_one
}

/// `x` is in `Z*_n` when `x >= 0` and its GCD with `n` is 1.
pub fn in_mult_group(x_nonnegative: bool, gcd_is_one: bool) -> (r: bool)
    ensures
        r == (x_nonnegative && gcd_is_one),
{
    x_nonnegative && in_mult_group_abs(gcd_is_one)
}

/// One draw of the rejection sampler over `Z*_n`: a draw `x` in `[0, n)` is
/// kept exactly when it lies in the group.
pub fn sample_accepts(draw_below_n: bool, gcd_is_one: bool) -> (r: bool)
    ensures
        r == (draw_below_n && gcd_is_one),
{
    draw_below_n && in_mult_group(true, gcd_is_one)
}

} // verus!
