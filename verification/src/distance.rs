//! Manhattan distance between grid coordinates.

use vstd::prelude::*;

verus! {

/// Absolute difference of two coordinates along one axis.
pub open spec fn axis_gap(x: usize, y: usize) -> int {
    if x >= y {
        x - y
    } else {
        y - x
    }
}

/// Manhattan distance between `a` and `b`, each given as `(row, col)`: the
/// sum of the absolute row difference and the absolute column difference.
pub open spec fn manhattan(a: (usize, usize), b: (usize, usize)) -> int {
    axis_gap(a.0, b.0) + axis_gap(a.1, b.1)
}

/// Manhattan distance does not depend on the order of its arguments.
pub proof fn lemma_manhattan_symmetric(a: (usize, usize), b: (usize, usize))
    ensures
        manhattan(a, b) == manhattan(b, a),
{
}

/// A coordinate is at distance zero from itself, and from no other.
pub proof fn lemma_manhattan_zero(a: (usize, usize), b: (usize, usize))
    ensures
        manhattan(a, a) == 0,
        manhattan(a, b) >= 0,
        manhattan(a, b) == 0 <==> a == b,
{
}

/// Computes the absolute difference of two coordinates along one axis.
pub fn gap(x: usize, y: usize) -> (d: usize)
    ensures
        d == axis_gap(x, y),
{
    if x >= y {
        x - y
    } else {
        y - x
    }
}

/// Computes the Manhattan distance between `a` and `b`.
///
/// The distance must be representable: the row gap and the column gap sum to
/// at most `usize::MAX`.
pub fn manhattan_distance(a: (usize, usize), b: (usize, usize)) -> (d: usize)
    requires
        manhattan(a, b) <= usize::MAX,
    ensures
        d == manhattan(a, b),
{
    gap(a.0, b.0) + gap(a.1, b.1)
}

/// Computes the Manhattan distance between `a` and `b` in a type wide enough
/// for any two coordinates.
pub fn wide_manhattan_distance(a: (usize, usize), b: (usize, usize)) -> (d: u128)
    ensures
        d == manhattan(a, b),
{
    gap(a.0, b.0) as u128 + gap(a.1, b.1) as u128
}

} // verus!
