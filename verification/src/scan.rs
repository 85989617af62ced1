//! Row-major scan order on grid coordinates.
//!
//! A coordinate is a pair `(row, col)`.  The board is scanned row by row from
//! the top, and each row from the left; lists of coordinates are given in
//! that order.

use vstd::prelude::*;

verus! {

/// `a` is met strictly before `b` when the board is scanned row by row.
pub open spec fn scan_before(a: (usize, usize), b: (usize, usize)) -> bool {
    a.0 < b.0 || (a.0 == b.0 && a.1 < b.1)
}

/// The coordinates of `s` appear in strictly increasing scan order.  Such a
/// list holds no coordinate twice.
pub open spec fn in_scan_order(s: Seq<(usize, usize)>) -> bool {
    forall|i: int, j: int| 0 <= i < j < s.len() ==> scan_before(#[trigger] s[i], #[trigger] s[j])
}

/// A list in scan order is determined by the coordinates it holds: two such
/// lists with the same members are the same list.
pub proof fn lemma_scan_order_unique(s: Seq<(usize, usize)>, t: Seq<(usize, usize)>)
    requires
        in_scan_order(s),
        in_scan_order(t),
        forall|a: (usize, usize)| s.contains(a) <==> t.contains(a),
    ensures
        s == t,
    decreases s.len(),
{
    if s.len() == 0 {
        if t.len() > 0 {
            assert(t.contains(t[0]));
        }
        assert(s =~= t);
    } else {
        let top = s.last();
        assert(s.contains(top));
        assert(t.contains(top));
        let k = choose|k: int| 0 <= k < t.len() && t[k] == top;
        // Nothing follows `top` in `t`: it would be a member of `s` beyond its last.
        if k < t.len() - 1 {
            let extra = t.last();
            assert(scan_before(t[k], extra));
            assert(t.contains(extra));
            let m = choose|m: int| 0 <= m < s.len() && s[m] == extra;
            if m < s.len() - 1 {
                assert(scan_before(s[m], s[s.len() - 1]));
            }
        }
        assert(t.last() == top);
        let s0 = s.drop_last();
        let t0 = t.drop_last();
        assert forall|a: (usize, usize)| s0.contains(a) <==> t0.contains(a) by {
            if s0.contains(a) {
                let i = choose|i: int| 0 <= i < s0.len() && s0[i] == a;
                assert(s[i] == a);
                assert(scan_before(s[i], s[s.len() - 1]));
                assert(s.contains(a));
                let j = choose|j: int| 0 <= j < t.len() && t[j] == a;
                assert(t0[j] == a);
            }
            if t0.contains(a) {
                let i = choose|i: int| 0 <= i < t0.len() && t0[i] == a;
                assert(t[i] == a);
                assert(scan_before(t[i], t[t.len() - 1]));
                assert(t.contains(a));
                let j = choose|j: int| 0 <= j < s.len() && s[j] == a;
                assert(s0[j] == a);
            }
        }
        assert(in_scan_order(s0)) by {
            assert forall|i: int, j: int| 0 <= i < j < s0.len() implies scan_before(
                #[trigger] s0[i],
                #[trigger] s0[j],
            ) by {
                assert(scan_before(s[i], s[j]));
            }
        }
        assert(in_scan_order(t0)) by {
            assert forall|i: int, j: int| 0 <= i < j < t0.len() implies scan_before(
                #[trigger] t0[i],
                #[trigger] t0[j],
            ) by {
                assert(scan_before(t[i], t[j]));
            }
        }
        lemma_scan_order_unique(s0, t0);
        assert(s =~= s0.push(top));
        assert(t =~= t0.push(top));
    }
}

} // verus!
