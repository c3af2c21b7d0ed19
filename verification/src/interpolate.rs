use vstd::arithmetic::div_mod::{
    lemma_div_is_ordered, lemma_div_multiples_vanish, lemma_div_of0, lemma_div_pos_is_pos,
};
use vstd::arithmetic::mul::{lemma_mul_inequality, lemma_mul_nonnegative};
use vstd::prelude::*;

verus! {

/// Mathematical form of the interpolation arithmetic: the value at `x` on the
/// straight segment from `(x0, y0)` to `(x1, y1)`, with the quotient truncated
/// toward zero. The falling and rising cases are written separately so that
/// each stays within the unsigned range.
pub open spec fn spec_interpolate(x0: int, x1: int, y0: int, y1: int, x: int) -> int {
    if y0 > y1 {
        y0 - (x - x0) * (y0 - y1) / (x1 - x0)
    } else {
        y0 + (x - x0) * (y1 - y0) / (x1 - x0)
    }
}

/// Linear interpolation between the points `(x0, y0)` and `(x1, y1)`,
/// evaluated at `x` with truncating integer division.
///
/// The endpoints must satisfy `x0 < x1`, the query must lie within the
/// segment, and the numerator product must fit in `u32`.
pub fn interpolate(x0: u32, x1: u32, y0: u32, y1: u32, x: u32) -> (r: u32)
    requires
        x0 < x1,
        x0 <= x <= x1,
        (x - x0) * (if y0 > y1 { y0 - y1 } else { y1 - y0 }) <= u32::MAX,
    ensures
        r == spec_interpolate(x0 as int, x1 as int, y0 as int, y1 as int, x as int),
        y0 > y1 ==> y1 <= r <= y0,
        y0 <= y1 ==> y0 <= r <= y1,
{
    let dx: u32 = x1 - x0;
    let off: u32 = x - x0;
    if y0 > y1 {
        let dy: u32 = y0 - y1;
        proof {
            lemma_mul_nonnegative(off as int, dy as int);
            lemma_mul_inequality(off as int, dx as int, dy as int);
            lemma_div_is_ordered(off as int * dy as int, dx as int * dy as int, dx as int);
            lemma_div_multiples_vanish(dy as int, dx as int);
            lemma_div_pos_is_pos(off as int * dy as int, dx as int);
        }
        let q: u32 = off * dy / dx;
        y0 - q
    } else {
        let dy: u32 = y1 - y0;
        proof {
            lemma_mul_nonnegative(off as int, dy as int);
            lemma_mul_inequality(off as int, dx as int, dy as int);
            lemma_div_is_ordered(off as int * dy as int, dx as int * dy as int, dx as int);
            lemma_div_multiples_vanish(dy as int, dx as int);
            lemma_div_pos_is_pos(off as int * dy as int, dx as int);
        }
        let q: u32 = off * dy / dx;
        y0 + q
    }
}

/// The interpolated value never leaves the band spanned by the segment's two
/// endpoint values.
pub proof fn lemma_interpolate_bounds(x0: int, x1: int, y0: int, y1: int, x: int)
    requires
        x0 < x1,
        x0 <= x <= x1,
    ensures
        y0 > y1 ==> y1 <= spec_interpolate(x0, x1, y0, y1, x) <= y0,
        y0 <= y1 ==> y0 <= spec_interpolate(x0, x1, y0, y1, x) <= y1,
{
    if y0 > y1 {
        lemma_mul_nonnegative(x - x0, y0 - y1);
        lemma_mul_inequality(x - x0, x1 - x0, y0 - y1);
        lemma_div_is_ordered((x - x0) * (y0 - y1), (x1 - x0) * (y0 - y1), x1 - x0);
        lemma_div_multiples_vanish(y0 - y1, x1 - x0);
        lemma_div_pos_is_pos((x - x0) * (y0 - y1), x1 - x0);
    } else {
        lemma_mul_nonnegative(x - x0, y1 - y0);
        lemma_mul_inequality(x - x0, x1 - x0, y1 - y0);
        lemma_div_is_ordered((x - x0) * (y1 - y0), (x1 - x0) * (y1 - y0), x1 - x0);
        lemma_div_multiples_vanish(y1 - y0, x1 - x0);
        lemma_div_pos_is_pos((x - x0) * (y1 - y0), x1 - x0);
    }
}

/// At the segment's endpoints the interpolation is exact: it reproduces `y0`
/// at `x0` and `y1` at `x1`, the truncating division notwithstanding.
pub proof fn lemma_interpolate_endpoints(x0: int, x1: int, y0: int, y1: int)
    requires
        x0 < x1,
    ensures
        spec_interpolate(x0, x1, y0, y1, x0) == y0,
        spec_interpolate(x0, x1, y0, y1, x1) == y1,
{
    lemma_div_of0(x1 - x0);
    if y0 > y1 {
        lemma_div_multiples_vanish(y0 - y1, x1 - x0);
    } else {
        lemma_div_multiples_vanish(y1 - y0, x1 - x0);
    }
}

/// Monotonicity of the interpolation arithmetic across one segment: a rising
/// segment yields a non-decreasing value, a falling segment a non-increasing
/// one, as the query moves right.
pub proof fn lemma_interpolate_monotone(x0: int, x1: int, y0: int, y1: int, xa: int, xb: int)
    requires
        x0 < x1,
        x0 <= xa <= xb <= x1,
    ensures
        y0 <= y1 ==> spec_interpolate(x0, x1, y0, y1, xa) <= spec_interpolate(x0, x1, y0, y1, xb),
        y0 > y1 ==> spec_interpolate(x0, x1, y0, y1, xa) >= spec_interpolate(x0, x1, y0, y1, xb),
{
    if y0 <= y1 {
        lemma_mul_inequality(xa - x0, xb - x0, y1 - y0);
        lemma_div_is_ordered((xa - x0) * (y1 - y0), (xb - x0) * (y1 - y0), x1 - x0);
    } else {
        lemma_mul_inequality(xa - x0, xb - x0, y0 - y1);
        lemma_div_is_ordered((xa - x0) * (y0 - y1), (xb - x0) * (y0 - y1), x1 - x0);
    }
}

} // verus!
