//! One turn of play: find the legal placements, then select among them.

use vstd::prelude::*;
use crate::grid::rectangular;
use crate::placement::{
    find_valid_placements,
    is_legal,
    is_placement_list,
    lemma_placement_list_unique,
};
use crate::selector::{
    is_selection,
    lemma_selection_deterministic,
    opponent_cell_set,
    select_move,
};
use crate::symbols::{opponent_symbols, own_symbols, player_symbols};

verus! {

/// `choice` is the move of `player_num` for this turn: the selector's answer
/// for the list of legal placements, scored against the cells of the
/// opponent.
pub open spec fn is_decision(
    grid: Seq<Seq<char>>,
    piece: Seq<Seq<char>>,
    player_num: usize,
    choice: Option<(usize, usize)>,
) -> bool {
    exists|valid: Seq<(usize, usize)>|
        {
            &&& #[trigger] is_placement_list(
                grid,
                piece,
                own_symbols(player_num),
                opponent_symbols(player_num),
                valid,
            )
            &&& is_selection(
                opponent_cell_set(grid, opponent_symbols(player_num)),
                valid,
                choice,
            )
        }
}

/// A turn has one outcome: the same board, piece and player always lead to
/// the same decision.
pub proof fn lemma_decision_unique(
    grid: Seq<Seq<char>>,
    piece: Seq<Seq<char>>,
    player_num: usize,
    first: Option<(usize, usize)>,
    second: Option<(usize, usize)>,
)
    requires
        is_decision(grid, piece, player_num, first),
        is_decision(grid, piece, player_num, second),
    ensures
        first == second,
{
    let cells = opponent_cell_set(grid, opponent_symbols(player_num));
    let v1 = choose|valid: Seq<(usize, usize)>|
        {
            &&& #[trigger] is_placement_list(
                grid,
                piece,
                own_symbols(player_num),
                opponent_symbols(player_num),
                valid,
            )
            &&& is_selection(cells, valid, first)
        };
    let v2 = choose|valid: Seq<(usize, usize)>|
        {
            &&& #[trigger] is_placement_list(
                grid,
                piece,
                own_symbols(player_num),
                opponent_symbols(player_num),
                valid,
            )
            &&& is_selection(cells, valid, second)
        };
    lemma_placement_list_unique(
        grid,
        piece,
        own_symbols(player_num),
        opponent_symbols(player_num),
        v1,
        v2,
    );
    lemma_selection_deterministic(grid, opponent_symbols(player_num), v1, first, second);
}

/// Decides the move of `player_num` for `piece` on `anfield`.
///
/// The answer is the selector's choice among the legal placements.  It is no
/// move exactly when the piece has no legal placement; any move it names is
/// a legal placement.
pub fn decide_move(anfield: &Vec<Vec<char>>, piece: &Vec<Vec<char>>, player_num: usize) -> (choice:
    Option<(usize, usize)>)
    requires
        rectangular(anfield.deep_view()),
        rectangular(piece.deep_view()),
    ensures
        is_decision(anfield.deep_view(), piece.deep_view(), player_num, choice),
        choice is None <==> forall|a: (usize, usize)|
            !is_legal(
                anfield.deep_view(),
                piece.deep_view(),
                own_symbols(player_num),
                opponent_symbols(player_num),
                a,
            ),
        choice is Some ==> is_legal(
            anfield.deep_view(),
            piece.deep_view(),
            own_symbols(player_num),
            opponent_symbols(player_num),
            choice->Some_0,
        ),
{
    let valid = find_valid_placements(anfield, piece, player_num);
    let syms = player_symbols(player_num);
    let choice = select_move(anfield, syms.1.as_slice(), valid.as_slice());
    proof {
        let g = anfield.deep_view();
        let p = piece.deep_view();
        let own = own_symbols(player_num);
        let opp = opponent_symbols(player_num);
        assert(is_placement_list(g, p, own, opp, valid@));
        if valid@.len() > 0 {
            assert(valid@.contains(valid@[0]));
            assert(is_legal(g, p, own, opp, valid@[0]));
        } else {
            assert forall|a: (usize, usize)| !is_legal(g, p, own, opp, a) by {
                if is_legal(g, p, own, opp, a) {
                    assert(valid@.contains(a));
                }
            }
        }
    }
    choice
}

} // verus!
