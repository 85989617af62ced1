//! The move selector: which legal placement to play.
//!
//! Each candidate anchor is scored by its Manhattan distance to the nearest
//! opponent cell.  The candidate with the lowest score is played; among
//! candidates with the same score the one that comes first in the list wins.

use vstd::prelude::*;
use crate::distance::{manhattan, wide_manhattan_distance};
use crate::scan::{scan_before, in_scan_order};
use crate::symbols::symbol_in;

verus! {

/// The board has a cell at coordinate `c`, and that cell holds one of `syms`.
pub open spec fn holds_symbol(grid: Seq<Seq<char>>, syms: Seq<char>, c: (usize, usize)) -> bool {
    &&& c.0 < grid.len()
    &&& c.1 < grid[c.0 as int].len()
    &&& syms.contains(grid[c.0 as int][c.1 as int])
}

/// The opponent cell set: every coordinate of the board that holds one of
/// the opponent's symbols.
pub open spec fn opponent_cell_set(grid: Seq<Seq<char>>, opp_syms: Seq<char>) -> Set<
    (usize, usize),
> {
    Set::new(|c: (usize, usize)| holds_symbol(grid, opp_syms, c))
}

/// Lists the coordinates of all cells of `anfield` that hold one of
/// `opp_syms`, row by row from the top and each row from the left.
pub fn find_opponent_cells(anfield: &Vec<Vec<char>>, opp_syms: &[char]) -> (cells: Vec<
    (usize, usize),
>)
    ensures
        in_scan_order(cells@),
        cells@.to_set() == opponent_cell_set(anfield.deep_view(), opp_syms@),
{
    let ghost g = anfield.deep_view();
    let mut cells: Vec<(usize, usize)> = Vec::new();
    let mut y: usize = 0;
    while y < anfield.len()
        invariant
            y <= anfield@.len(),
            g == anfield.deep_view(),
            in_scan_order(cells@),
            forall|i: int|
                0 <= i < cells@.len() ==> (#[trigger] cells@[i]).0 < y && holds_symbol(
                    g,
                    opp_syms@,
                    cells@[i],
                ),
            forall|c: (usize, usize)| #[trigger]
                holds_symbol(g, opp_syms@, c) && c.0 < y ==> cells@.contains(c),
        decreases anfield@.len() - y,
    {
        let row = &anfield[y];
        let mut x: usize = 0;
        while x < row.len()
            invariant
                y < anfield@.len(),
                x <= row@.len(),
                row@ == anfield@[y as int]@,
                g == anfield.deep_view(),
                in_scan_order(cells@),
                forall|i: int|
                    0 <= i < cells@.len() ==> scan_before(#[trigger] cells@[i], (y, x))
                        && holds_symbol(g, opp_syms@, cells@[i]),
                forall|c: (usize, usize)| #[trigger]
                    holds_symbol(g, opp_syms@, c) && scan_before(c, (y, x)) ==> cells@.contains(
                        c,
                    ),
            decreases row@.len() - x,
        {
            let ghost earlier = cells@;
            assert(g[y as int] =~= row@);
            if symbol_in(opp_syms, row[x]) {
                cells.push((y, x));
                assert(cells@[earlier.len() as int] == (y, x));
            }
            proof {
                assert forall|c: (usize, usize)| #[trigger]
                    holds_symbol(g, opp_syms@, c) && (scan_before(c, (y, x)) || c == (
                        y,
                        x,
                    )) implies cells@.contains(c) by {
                    if c == (y, x) {
                        assert(cells@[earlier.len() as int] == c);
                    } else {
                        let i = choose|i: int| 0 <= i < earlier.len() && earlier[i] == c;
                        assert(cells@[i] == c);
                    }
                }
            }
            x += 1;
        }
        proof {
            assert(g[y as int] =~= row@);
        }
        y += 1;
    }
    proof {
        assert forall|c: (usize, usize)|
            cells@.to_set().contains(c) == opponent_cell_set(g, opp_syms@).contains(c) by {
            if cells@.contains(c) {
                let i = choose|i: int| 0 <= i < cells@.len() && cells@[i] == c;
                assert(holds_symbol(g, opp_syms@, cells@[i]));
            }
        }
        assert(cells@.to_set() =~= opponent_cell_set(g, opp_syms@));
    }
    cells
}

/// `d` is the distance from `a` to the nearest of `cells`: some cell lies at
/// that distance and none lies closer.
pub open spec fn is_nearest_distance(cells: Set<(usize, usize)>, a: (usize, usize), d: int) -> bool {
    &&& exists|c: (usize, usize)| #[trigger] cells.contains(c) && manhattan(a, c) == d
    &&& forall|c: (usize, usize)| #[trigger] cells.contains(c) ==> d <= manhattan(a, c)
}

/// The score of a candidate anchor `a`: its distance to the nearest of
/// `cells`.  With no cell to measure against, every anchor scores
/// `usize::MAX`; that value stands in for a distance only where all anchors
/// share it.
pub open spec fn score(cells: Set<(usize, usize)>, a: (usize, usize)) -> int {
    if forall|c: (usize, usize)| !cells.contains(c) {
        usize::MAX as int
    } else {
        choose|d: int| is_nearest_distance(cells, a, d)
    }
}

/// The nearest distance, where there is one, is the score.
pub proof fn lemma_nearest_distance_is_score(cells: Set<(usize, usize)>, a: (usize, usize), d: int)
    requires
        is_nearest_distance(cells, a, d),
    ensures
        score(cells, a) == d,
{
    let chosen = choose|d: int| is_nearest_distance(cells, a, d);
    assert(is_nearest_distance(cells, a, chosen));
}

/// Computes the score of the anchor `a` against the listed opponent cells.
pub fn anchor_score(cells: &[(usize, usize)], a: (usize, usize)) -> (s: u128)
    ensures
        s == score(cells@.to_set(), a),
{
    if cells.len() == 0 {
        return usize::MAX as u128;
    }
    let mut best: u128 = wide_manhattan_distance(a, cells[0]);
    let mut i: usize = 1;
    while i < cells.len()
        invariant
            1 <= i <= cells@.len(),
            exists|k: int| 0 <= k < i && manhattan(a, #[trigger] cells@[k]) == best,
            forall|k: int| 0 <= k < i ==> best <= manhattan(a, #[trigger] cells@[k]),
        decreases cells@.len() - i,
    {
        let d: u128 = wide_manhattan_distance(a, cells[i]);
        if d < best {
            best = d;
        }
        i += 1;
    }
    proof {
        let k = choose|k: int| 0 <= k < cells@.len() && manhattan(a, #[trigger] cells@[k]) == best;
        assert(cells@.contains(cells@[k]));
        assert(cells@.to_set().contains(cells@[k]));
        assert forall|c: (usize, usize)| #[trigger]
            cells@.to_set().contains(c) implies best <= manhattan(a, c) by {
            let j = choose|j: int| 0 <= j < cells@.len() && cells@[j] == c;
            assert(best <= manhattan(a, cells@[j]));
        }
        lemma_nearest_distance_is_score(cells@.to_set(), a, best as int);
    }
    best
}

/// The candidate at index `i` has the lowest score, and every candidate
/// before it scores strictly higher.
pub open spec fn is_best_at(
    cells: Set<(usize, usize)>,
    candidates: Seq<(usize, usize)>,
    i: int,
) -> bool {
    &&& 0 <= i < candidates.len()
    &&& forall|j: int|
        0 <= j < candidates.len() ==> score(cells, candidates[i]) <= score(
            cells,
            #[trigger] candidates[j],
        )
    &&& forall|j: int|
        0 <= j < i ==> score(cells, candidates[i]) < score(cells, #[trigger] candidates[j])
}

/// `choice` is the selector's answer for `candidates` against the opponent
/// cells `cells`: no move when there is no candidate, else the first of the
/// candidates with the lowest score.
pub open spec fn is_selection(
    cells: Set<(usize, usize)>,
    candidates: Seq<(usize, usize)>,
    choice: Option<(usize, usize)>,
) -> bool {
    match choice {
        None => candidates.len() == 0,
        Some(c) => exists|i: int| #[trigger] is_best_at(cells, candidates, i) && candidates[i] == c,
    }
}

/// Selection is deterministic: for one board, one set of opponent symbols and
/// one list of candidates the selector admits one answer only, so two runs
/// on the same inputs choose the same placement.
pub proof fn lemma_selection_deterministic(
    grid: Seq<Seq<char>>,
    opp_syms: Seq<char>,
    candidates: Seq<(usize, usize)>,
    first: Option<(usize, usize)>,
    second: Option<(usize, usize)>,
)
    requires
        is_selection(opponent_cell_set(grid, opp_syms), candidates, first),
        is_selection(opponent_cell_set(grid, opp_syms), candidates, second),
    ensures
        first == second,
{
    let cells = opponent_cell_set(grid, opp_syms);
    if first is Some && second is Some {
        let i = choose|i: int| #[trigger]
            is_best_at(cells, candidates, i) && candidates[i] == first->Some_0;
        let j = choose|j: int| #[trigger]
            is_best_at(cells, candidates, j) && candidates[j] == second->Some_0;
        if i < j {
            assert(score(cells, candidates[j]) < score(cells, candidates[i]));
            assert(score(cells, candidates[i]) <= score(cells, candidates[j]));
        }
        if j < i {
            assert(score(cells, candidates[i]) < score(cells, candidates[j]));
            assert(score(cells, candidates[j]) <= score(cells, candidates[i]));
        }
    }
}

/// Picks the move to play among `candidates`.
///
/// Returns no move exactly when there is no candidate.  Otherwise the
/// opponent cells of `anfield` are those that hold one of `opp_syms`, and the
/// answer is the first candidate whose score against them is lowest.  On a
/// board without opponent cells all scores are equal and the first candidate
/// is returned.
pub fn select_move(
    anfield: &Vec<Vec<char>>,
    opp_syms: &[char],
    candidates: &[(usize, usize)],
) -> (choice: Option<(usize, usize)>)
    ensures
        is_selection(
            opponent_cell_set(anfield.deep_view(), opp_syms@),
            candidates@,
            choice,
        ),
        choice is None <==> candidates@.len() == 0,
        choice is Some ==> candidates@.contains(choice->Some_0),
        candidates@.len() > 0 && (forall|c: (usize, usize)|
            !opponent_cell_set(anfield.deep_view(), opp_syms@).contains(c)) ==> choice == Some(
            candidates@[0],
        ),
{
    if candidates.len() == 0 {
        return None;
    }
    let opponent_cells = find_opponent_cells(anfield, opp_syms);
    let ghost cells = opponent_cell_set(anfield.deep_view(), opp_syms@);
    let mut best: usize = 0;
    let mut best_score: u128 = anchor_score(opponent_cells.as_slice(), candidates[0]);
    let mut i: usize = 1;
    while i < candidates.len()
        invariant
            0 <= best < i <= candidates@.len(),
            cells == opponent_cells@.to_set(),
            best_score == score(cells, candidates@[best as int]),
            forall|j: int| 0 <= j < i ==> best_score <= score(cells, #[trigger] candidates@[j]),
            forall|j: int| 0 <= j < best ==> best_score < score(cells, #[trigger] candidates@[j]),
        decreases candidates@.len() - i,
    {
        let s: u128 = anchor_score(opponent_cells.as_slice(), candidates[i]);
        if s < best_score {
            best = i;
            best_score = s;
        }
        i += 1;
    }
    assert(is_best_at(cells, candidates@, best as int));
    Some(candidates[best])
}

} // verus!
