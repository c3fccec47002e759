use crate::random::sample_inclusive;
use rand::rngs::StdRng;
use vstd::prelude::*;

verus! {

/// `a / b` rounded up: the smallest `q` with `q * b >= a`.
pub fn div_ceil(a: u32, b: u32) -> (r: u32)
    requires
        b > 0,
        a + b - 1 <= u32::MAX,
    ensures
        r == (a + b - 1) as int / (b as int),
        r * b >= a,
        (r - 1) * b < a,
{
    let r = (a + (b - 1)) / b;
    assert(r * b >= a && (r - 1) * b < a) by (nonlinear_arith)
        requires
            r == (a + b - 1) as int / (b as int),
            b > 0,
    ;
    r
}

/// A random multiplier `m` with `a * m` inside `start..=end`.
pub fn rand_product_in_range(a: u32, start: u32, end: u32, rng: &mut StdRng) -> (r: u32)
    requires
        a > 0,
        start + a - 1 <= u32::MAX,
        (start + a - 1) as int / (a as int) <= end as int / (a as int),
    ensures
        start <= a * r <= end,
{
    let lower = div_ceil(start, a);
    let upper = end / a;
    let r = sample_inclusive(lower, upper, rng);
    assert(start <= a * r <= end) by (nonlinear_arith)
        requires
            lower <= r <= upper,
            lower * a >= start,
            upper == end as int / (a as int),
            a > 0,
    ;
    r
}

} // verus!
