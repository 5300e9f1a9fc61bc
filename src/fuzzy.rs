//! Fixed-point numbers and the tolerant comparisons shared by every pass.

use vstd::prelude::*;

verus! {

/// Number of fixed-point units in one user unit: every coordinate, length and
/// transform entry is a count of thousandths.
pub const UNITS_PER_ONE: i64 = 1000;

/// The one absolute tolerance, in fixed-point units, used by every geometric
/// comparison.
pub const EPSILON: i64 = 1;

/// `a` and `b` differ by at most the tolerance.
pub open spec fn approx_eq(a: int, b: int) -> bool {
    -EPSILON <= a - b <= EPSILON
}

/// `a` is not below `b`, up to the tolerance.
pub open spec fn approx_ge(a: int, b: int) -> bool {
    a >= b - EPSILON
}

/// `a` is not above `b`, up to the tolerance.
pub open spec fn approx_le(a: int, b: int) -> bool {
    a <= b + EPSILON
}

/// `v` lies between `a` and `b` (in either order), up to the tolerance.
pub open spec fn approx_between(v: int, a: int, b: int) -> bool {
    (approx_ge(v, a) && approx_le(v, b)) || (approx_ge(v, b) && approx_le(v, a))
}

pub fn fuzzy_eq(a: i32, b: i32) -> (r: bool)
    ensures
        r == approx_eq(a as int, b as int),
{
    let d: i64 = a as i64 - b as i64;
    -EPSILON <= d && d <= EPSILON
}

pub fn fuzzy_ge(a: i32, b: i32) -> (r: bool)
    ensures
        r == approx_ge(a as int, b as int),
{
    a as i64 >= b as i64 - EPSILON
}

pub fn fuzzy_le(a: i32, b: i32) -> (r: bool)
    ensures
        r == approx_le(a as int, b as int),
{
    a as i64 <= b as i64 + EPSILON
}

pub fn fuzzy_between(v: i32, a: i32, b: i32) -> (r: bool)
    ensures
        r == approx_between(v as int, a as int, b as int),
{
    (fuzzy_ge(v, a) && fuzzy_le(v, b)) || (fuzzy_ge(v, b) && fuzzy_le(v, a))
}

} // verus!
