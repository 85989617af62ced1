//! Rectangular character matrices: the board and the piece.
//!
//! Both are held as a vector of rows.  Contracts speak of them through their
//! deep view, a sequence of sequences of characters.

use vstd::prelude::*;

verus! {

/// Number of rows of a matrix.
pub open spec fn height(m: Seq<Seq<char>>) -> nat {
    m.len()
}

/// Number of columns of a matrix: the length of its first row, and zero for
/// a matrix without rows.
pub open spec fn width(m: Seq<Seq<char>>) -> nat {
    if m.len() == 0 {
        0
    } else {
        m[0].len()
    }
}

/// Every row has exactly `width(m)` cells.
pub open spec fn rectangular(m: Seq<Seq<char>>) -> bool {
    forall|r: int| 0 <= r < m.len() ==> (#[trigger] m[r]).len() == width(m)
}

/// The deep view of a vector of rows is cell for cell the vector itself.
pub proof fn lemma_deep_view_cells(m: &Vec<Vec<char>>)
    ensures
        m.deep_view().len() == m@.len(),
        forall|r: int| 0 <= r < m@.len() ==> (#[trigger] m.deep_view()[r]) == m@[r]@,
{
    assert forall|r: int| 0 <= r < m@.len() implies (#[trigger] m.deep_view()[r]) == m@[r]@ by {
        assert(m.deep_view()[r] =~= m@[r]@);
    }
}

/// Number of columns of `m`.
pub fn matrix_width(m: &Vec<Vec<char>>) -> (w: usize)
    ensures
        w == width(m.deep_view()),
{
    proof {
        lemma_deep_view_cells(m);
    }
    if m.len() == 0 {
        0
    } else {
        m[0].len()
    }
}

/// Tells whether all rows of `m` have the same length.
pub fn is_rectangular(m: &Vec<Vec<char>>) -> (ok: bool)
    ensures
        ok == rectangular(m.deep_view()),
{
    proof {
        lemma_deep_view_cells(m);
    }
    let w: usize = matrix_width(m);
    let mut r: usize = 0;
    while r < m.len()
        invariant
            r <= m.len(),
            w == width(m.deep_view()),
            m.deep_view().len() == m@.len(),
            forall|k: int| 0 <= k < m@.len() ==> (#[trigger] m.deep_view()[k]) == m@[k]@,
            forall|k: int| 0 <= k < r ==> (#[trigger] m.deep_view()[k]).len() == w,
        decreases m.len() - r,
    {
        if m[r].len() != w {
            assert(m.deep_view()[r as int].len() != w);
            return false;
        }
        r += 1;
    }
    true
}

} // verus!
