//! The placement finder: which anchors are legal for a piece on a board.
//!
//! A piece is laid on the board with its top-left cell at an anchor.  The
//! anchor is legal when the piece lies wholly on the board, exactly one of
//! its filled cells covers a cell of the placing player, and none covers a
//! cell of the opponent.  Whose cell is whose is told by two lists of
//! symbols, the player's own and the opponent's.

use vstd::prelude::*;
use vstd::set_lib::{lemma_len_subset, lemma_set_subset_finite};
use crate::grid::{height, width, rectangular, matrix_width, lemma_deep_view_cells};
use crate::scan::{scan_before, in_scan_order, lemma_scan_order_unique};
use crate::symbols::{own_symbols, opponent_symbols, player_symbols, symbol_in};

verus! {

/// The piece has a filled cell at offset `(dy, dx)`.  Every character other
/// than `.` fills a cell.
pub open spec fn is_filled(piece: Seq<Seq<char>>, dy: int, dx: int) -> bool {
    0 <= dy < piece.len() && 0 <= dx < piece[dy].len() && piece[dy][dx] != '.'
}

/// The piece anchored at `a` lies wholly on the board.
pub open spec fn fits(grid: Seq<Seq<char>>, piece: Seq<Seq<char>>, a: (usize, usize)) -> bool {
    a.0 + height(piece) <= height(grid) && a.1 + width(piece) <= width(grid)
}

/// With the piece anchored at `a`, its cell at offset `(dy, dx)` is filled
/// and lies on a board cell that holds one of `syms`.
pub open spec fn covers(
    grid: Seq<Seq<char>>,
    piece: Seq<Seq<char>>,
    syms: Seq<char>,
    a: (usize, usize),
    dy: int,
    dx: int,
) -> bool {
    is_filled(piece, dy, dx) && syms.contains(grid[a.0 + dy][a.1 + dx])
}

/// The offsets of the filled piece cells that lie on a cell holding one of
/// `syms` when the piece is anchored at `a`.
pub open spec fn cells_covered(
    grid: Seq<Seq<char>>,
    piece: Seq<Seq<char>>,
    syms: Seq<char>,
    a: (usize, usize),
) -> Set<(int, int)> {
    Set::new(|d: (int, int)| covers(grid, piece, syms, a, d.0, d.1))
}

/// The overlap of a placement: how many filled piece cells lie on the
/// player's own territory, marked by the symbols `own`.
pub open spec fn overlap(
    grid: Seq<Seq<char>>,
    piece: Seq<Seq<char>>,
    own: Seq<char>,
    a: (usize, usize),
) -> nat {
    cells_covered(grid, piece, own, a).len()
}

/// The placement intrudes on the opponent: some filled piece cell lies on
/// opponent territory, marked by the symbols `opp`.
pub open spec fn intrudes(
    grid: Seq<Seq<char>>,
    piece: Seq<Seq<char>>,
    opp: Seq<char>,
    a: (usize, usize),
) -> bool {
    exists|dy: int, dx: int| covers(grid, piece, opp, a, dy, dx)
}

/// The anchor `a` is a legal placement of the piece for the player whose
/// symbols are `own`, against the opponent whose symbols are `opp`.
pub open spec fn is_legal(
    grid: Seq<Seq<char>>,
    piece: Seq<Seq<char>>,
    own: Seq<char>,
    opp: Seq<char>,
    a: (usize, usize),
) -> bool {
    &&& fits(grid, piece, a)
    &&& overlap(grid, piece, own, a) == 1
    &&& !intrudes(grid, piece, opp, a)
}

/// One and only one filled piece cell lies on the player's own territory.
pub open spec fn touches_one_own_cell(
    grid: Seq<Seq<char>>,
    piece: Seq<Seq<char>>,
    own: Seq<char>,
    a: (usize, usize),
) -> bool {
    exists|dy: int, dx: int|
        {
            &&& #[trigger] covers(grid, piece, own, a, dy, dx)
            &&& forall|ey: int, ex: int| #[trigger]
                covers(grid, piece, own, a, ey, ex) ==> ey == dy && ex == dx
        }
}

/// `valid` is the list of legal placements: it holds every legal anchor, no
/// other coordinate, and each anchor once, in scan order.
pub open spec fn is_placement_list(
    grid: Seq<Seq<char>>,
    piece: Seq<Seq<char>>,
    own: Seq<char>,
    opp: Seq<char>,
    valid: Seq<(usize, usize)>,
) -> bool {
    &&& in_scan_order(valid)
    &&& forall|a: (usize, usize)| valid.contains(a) <==> is_legal(grid, piece, own, opp, a)
}

/// The offsets `(r, 0)` to `(r, w - 1)`.
spec fn offset_row(r: int, w: int) -> Set<(int, int)> {
    Set::new(|d: (int, int)| d.0 == r && 0 <= d.1 < w)
}

/// The offsets of a box of `h` rows and `w` columns.
spec fn offset_box(h: int, w: int) -> Set<(int, int)> {
    Set::new(|d: (int, int)| 0 <= d.0 < h && 0 <= d.1 < w)
}

proof fn lemma_offset_row_finite(r: int, w: int)
    ensures
        offset_row(r, w).finite(),
    decreases w,
{
    if w <= 0 {
        assert(offset_row(r, w) =~= Set::empty());
    } else {
        lemma_offset_row_finite(r, w - 1);
        assert(offset_row(r, w) =~= offset_row(r, w - 1).insert((r, w - 1)));
    }
}

proof fn lemma_offset_box_finite(h: int, w: int)
    ensures
        offset_box(h, w).finite(),
    decreases h,
{
    if h <= 0 {
        assert(offset_box(h, w) =~= Set::empty());
    } else {
        lemma_offset_box_finite(h - 1, w);
        lemma_offset_row_finite(h - 1, w);
        assert(offset_box(h, w) =~= offset_box(h - 1, w).union(offset_row(h - 1, w)));
    }
}

/// A piece has finitely many cells, so the overlap is a true count.
pub proof fn lemma_cells_covered_finite(
    grid: Seq<Seq<char>>,
    piece: Seq<Seq<char>>,
    syms: Seq<char>,
    a: (usize, usize),
)
    requires
        rectangular(piece),
    ensures
        cells_covered(grid, piece, syms, a).finite(),
{
    let cells = offset_box(height(piece) as int, width(piece) as int);
    lemma_offset_box_finite(height(piece) as int, width(piece) as int);
    assert(cells_covered(grid, piece, syms, a).subset_of(cells));
    lemma_set_subset_finite(cells, cells_covered(grid, piece, syms, a));
}

/// The overlap is one exactly when one and only one filled piece cell lies on
/// the player's own territory.
pub proof fn lemma_overlap_one(
    grid: Seq<Seq<char>>,
    piece: Seq<Seq<char>>,
    own: Seq<char>,
    a: (usize, usize),
)
    requires
        rectangular(piece),
    ensures
        overlap(grid, piece, own, a) == 1 <==> touches_one_own_cell(grid, piece, own, a),
{
    let covered = cells_covered(grid, piece, own, a);
    lemma_cells_covered_finite(grid, piece, own, a);
    Set::lemma_is_singleton(covered);
    if covered.len() == 1 {
        let d = covered.choose();
        assert(covered.contains(d));
        assert(covers(grid, piece, own, a, d.0, d.1));
        assert forall|ey: int, ex: int| #[trigger]
            covers(grid, piece, own, a, ey, ex) implies ey == d.0 && ex == d.1 by {
            assert(covered.contains((ey, ex)));
        }
    }
    if touches_one_own_cell(grid, piece, own, a) {
        let (dy, dx) = choose|dy: int, dx: int|
            {
                &&& #[trigger] covers(grid, piece, own, a, dy, dx)
                &&& forall|ey: int, ex: int| #[trigger]
                    covers(grid, piece, own, a, ey, ex) ==> ey == dy && ex == dx
            };
        assert(covered =~= set![(dy, dx)]);
    }
}

/// Laying the piece at a legal anchor touches exactly one cell of the
/// player's own and no cell of the opponent: one and only one filled piece
/// cell lies on a cell of the player, and no filled piece cell lies on a cell
/// of the opponent.  On the board, these two conditions make an anchor legal.
pub proof fn lemma_legal_touches_exactly_one(
    grid: Seq<Seq<char>>,
    piece: Seq<Seq<char>>,
    own: Seq<char>,
    opp: Seq<char>,
    a: (usize, usize),
)
    requires
        rectangular(piece),
    ensures
        is_legal(grid, piece, own, opp, a) <==> {
            &&& fits(grid, piece, a)
            &&& touches_one_own_cell(grid, piece, own, a)
            &&& forall|dy: int, dx: int| #[trigger]
                is_filled(piece, dy, dx) ==> !opp.contains(grid[a.0 + dy][a.1 + dx])
        },
{
    lemma_overlap_one(grid, piece, own, a);
    if !intrudes(grid, piece, opp, a) {
        assert forall|dy: int, dx: int| #[trigger] is_filled(piece, dy, dx) implies !opp.contains(
            grid[a.0 + dy][a.1 + dx],
        ) by {
            assert(!covers(grid, piece, opp, a, dy, dx));
        }
    }
}

/// The list of legal placements is unique: whatever satisfies the finder's
/// contract is the same list.
pub proof fn lemma_placement_list_unique(
    grid: Seq<Seq<char>>,
    piece: Seq<Seq<char>>,
    own: Seq<char>,
    opp: Seq<char>,
    first: Seq<(usize, usize)>,
    second: Seq<(usize, usize)>,
)
    requires
        is_placement_list(grid, piece, own, opp, first),
        is_placement_list(grid, piece, own, opp, second),
    ensures
        first == second,
{
    lemma_scan_order_unique(first, second);
}

/// Where every placement on the board intrudes on the opponent, the list of
/// legal placements is empty.
pub proof fn lemma_blocked_everywhere(
    grid: Seq<Seq<char>>,
    piece: Seq<Seq<char>>,
    own: Seq<char>,
    opp: Seq<char>,
    valid: Seq<(usize, usize)>,
)
    requires
        is_placement_list(grid, piece, own, opp, valid),
        forall|a: (usize, usize)| #[trigger] fits(grid, piece, a) ==> intrudes(grid, piece, opp, a),
    ensures
        valid.len() == 0,
{
    if valid.len() > 0 {
        assert(valid.contains(valid[0]));
        assert(fits(grid, piece, valid[0]));
    }
}

/// The own cells covered by the part of the piece that comes before offset
/// `(dy, dx)` in scan order.
spec fn own_cells_scanned(
    grid: Seq<Seq<char>>,
    piece: Seq<Seq<char>>,
    own: Seq<char>,
    a: (usize, usize),
    dy: int,
    dx: int,
) -> Set<(int, int)> {
    Set::new(
        |d: (int, int)|
            covers(grid, piece, own, a, d.0, d.1) && (d.0 < dy || (d.0 == dy && d.1 < dx)),
    )
}

/// Decides whether the anchor `(row, col)` is a legal placement for the
/// player whose symbols are `own`, against the opponent whose symbols are
/// `opp`.
///
/// The scan of the piece stops at the first cell that settles the answer: a
/// cell on opponent territory, or a second cell on the player's own.
#[verifier::loop_isolation(false)]
pub fn is_legal_placement(
    anfield: &Vec<Vec<char>>,
    piece: &Vec<Vec<char>>,
    own: &[char],
    opp: &[char],
    row: usize,
    col: usize,
) -> (legal: bool)
    requires
        rectangular(anfield.deep_view()),
        rectangular(piece.deep_view()),
    ensures
        legal == is_legal(anfield.deep_view(), piece.deep_view(), own@, opp@, (row, col)),
{
    let h: usize = anfield.len();
    let w: usize = matrix_width(anfield);
    let ph: usize = piece.len();
    let pw: usize = matrix_width(piece);
    let ghost g = anfield.deep_view();
    let ghost p = piece.deep_view();
    let ghost a = (row, col);
    proof {
        lemma_deep_view_cells(anfield);
        lemma_deep_view_cells(piece);
    }
    if ph > h || pw > w || row > h - ph || col > w - pw {
        return false;
    }
    proof {
        lemma_cells_covered_finite(g, p, own@, a);
        assert(own_cells_scanned(g, p, own@, a, 0, 0) =~= Set::empty());
    }
    let mut touched = false;
    let mut dy: usize = 0;
    while dy < ph
        invariant
            dy <= ph,
            own_cells_scanned(g, p, own@, a, dy as int, 0).finite(),
            own_cells_scanned(g, p, own@, a, dy as int, 0).len() == if touched {
                1nat
            } else {
                0nat
            },
            forall|ey: int, ex: int| covers(g, p, opp@, a, ey, ex) ==> ey >= dy,
        decreases ph - dy,
    {
        let mut dx: usize = 0;
        while dx < pw
            invariant
                dx <= pw,
                own_cells_scanned(g, p, own@, a, dy as int, dx as int).finite(),
                own_cells_scanned(g, p, own@, a, dy as int, dx as int).len() == if touched {
                    1nat
                } else {
                    0nat
                },
                forall|ey: int, ex: int|
                    covers(g, p, opp@, a, ey, ex) ==> ey > dy || (ey == dy && ex >= dx),
            decreases pw - dx,
        {
            let ghost before = own_cells_scanned(g, p, own@, a, dy as int, dx as int);
            let ghost after = own_cells_scanned(g, p, own@, a, dy as int, dx + 1);
            assert(p[dy as int].len() == pw);
            assert(g[row + dy].len() == w);
            if piece[dy][dx] != '.' {
                let cell = anfield[row + dy][col + dx];
                if symbol_in(opp, cell) {
                    assert(covers(g, p, opp@, a, dy as int, dx as int));
                    return false;
                }
                if symbol_in(own, cell) {
                    proof {
                        assert(covers(g, p, own@, a, dy as int, dx as int));
                        assert(after =~= before.insert((dy as int, dx as int)));
                    }
                    if touched {
                        proof {
                            // Two own cells are covered, and maybe more.
                            assert(after.subset_of(cells_covered(g, p, own@, a)));
                            lemma_len_subset(after, cells_covered(g, p, own@, a));
                        }
                        return false;
                    }
                    touched = true;
                } else {
                    assert(after =~= before);
                }
            } else {
                assert(after =~= before);
            }
            dx += 1;
        }
        proof {
            let next = own_cells_scanned(g, p, own@, a, dy + 1, 0);
            assert(next =~= own_cells_scanned(g, p, own@, a, dy as int, pw as int));
        }
        dy += 1;
    }
    proof {
        let all = cells_covered(g, p, own@, a);
        assert(all =~= own_cells_scanned(g, p, own@, a, ph as int, 0));
    }
    touched
}

/// Lists the legal placements of `piece` on `anfield` for `player_num`, row
/// by row from the top and each row from the left.
///
/// Every listed anchor keeps the piece on the board, has an overlap of one
/// and does not intrude on the opponent.  A piece taller or wider than the
/// board has no placement, and neither has a piece that would intrude on the
/// opponent wherever it is laid.
pub fn find_valid_placements(
    anfield: &Vec<Vec<char>>,
    piece: &Vec<Vec<char>>,
    player_num: usize,
) -> (valid: Vec<(usize, usize)>)
    requires
        rectangular(anfield.deep_view()),
        rectangular(piece.deep_view()),
    ensures
        is_placement_list(
            anfield.deep_view(),
            piece.deep_view(),
            own_symbols(player_num),
            opponent_symbols(player_num),
            valid@,
        ),
        forall|i: int|
            0 <= i < valid@.len() ==> {
                &&& (#[trigger] valid@[i]).0 + height(piece.deep_view()) <= height(
                    anfield.deep_view(),
                )
                &&& valid@[i].1 + width(piece.deep_view()) <= width(anfield.deep_view())
            },
        forall|i: int|
            0 <= i < valid@.len() ==> {
                &&& overlap(
                    anfield.deep_view(),
                    piece.deep_view(),
                    own_symbols(player_num),
                    #[trigger] valid@[i],
                ) == 1
                &&& !intrudes(
                    anfield.deep_view(),
                    piece.deep_view(),
                    opponent_symbols(player_num),
                    valid@[i],
                )
            },
        (forall|a: (usize, usize)| #[trigger]
            fits(anfield.deep_view(), piece.deep_view(), a) ==> intrudes(
                anfield.deep_view(),
                piece.deep_view(),
                opponent_symbols(player_num),
                a,
            )) ==> valid@.len() == 0,
{
    let h: usize = anfield.len();
    let w: usize = matrix_width(anfield);
    let ph: usize = piece.len();
    let pw: usize = matrix_width(piece);
    let syms = player_symbols(player_num);
    let ghost g = anfield.deep_view();
    let ghost p = piece.deep_view();
    let ghost own = own_symbols(player_num);
    let ghost opp = opponent_symbols(player_num);
    let mut valid: Vec<(usize, usize)> = Vec::new();
    if ph > h || pw > w {
        return valid;
    }
    let last_row: usize = h - ph;
    let last_col: usize = w - pw;
    let mut row: usize = 0;
    loop
        invariant_except_break
            row <= last_row,
            forall|i: int| 0 <= i < valid@.len() ==> (#[trigger] valid@[i]).0 < row,
            forall|a: (usize, usize)| #[trigger]
                is_legal(g, p, own, opp, a) && a.0 < row ==> valid@.contains(a),
        invariant
            g == anfield.deep_view(),
            p == piece.deep_view(),
            own == syms.0@,
            opp == syms.1@,
            rectangular(g),
            rectangular(p),
            last_row == height(g) - height(p),
            last_col == width(g) - width(p),
            in_scan_order(valid@),
            forall|i: int| 0 <= i < valid@.len() ==> is_legal(g, p, own, opp, #[trigger] valid@[i]),
        ensures
            forall|a: (usize, usize)| #[trigger] is_legal(g, p, own, opp, a) ==> valid@.contains(a),
        decreases last_row - row,
    {
        let mut col: usize = 0;
        loop
            invariant_except_break
                col <= last_col,
                forall|i: int|
                    0 <= i < valid@.len() ==> scan_before(#[trigger] valid@[i], (row, col)),
                forall|a: (usize, usize)| #[trigger]
                    is_legal(g, p, own, opp, a) && scan_before(a, (row, col)) ==> valid@.contains(
                        a,
                    ),
            invariant
                row <= last_row,
                g == anfield.deep_view(),
                p == piece.deep_view(),
                own == syms.0@,
                opp == syms.1@,
                rectangular(g),
                rectangular(p),
                last_row == height(g) - height(p),
                last_col == width(g) - width(p),
                in_scan_order(valid@),
                forall|i: int|
                    0 <= i < valid@.len() ==> is_legal(g, p, own, opp, #[trigger] valid@[i]),
            ensures
                forall|i: int| 0 <= i < valid@.len() ==> (#[trigger] valid@[i]).0 <= row,
                forall|a: (usize, usize)| #[trigger]
                    is_legal(g, p, own, opp, a) && a.0 <= row ==> valid@.contains(a),
            decreases last_col - col,
        {
            let ghost earlier = valid@;
            if is_legal_placement(anfield, piece, syms.0.as_slice(), syms.1.as_slice(), row, col) {
                valid.push((row, col));
                assert(valid@[earlier.len() as int] == (row, col));
            }
            proof {
                assert forall|a: (usize, usize)| #[trigger]
                    is_legal(g, p, own, opp, a) && (scan_before(a, (row, col)) || a == (
                        row,
                        col,
                    )) implies valid@.contains(a) by {
                    if a == (row, col) {
                        assert(valid@[earlier.len() as int] == a);
                    } else {
                        let i = choose|i: int| 0 <= i < earlier.len() && earlier[i] == a;
                        assert(valid@[i] == a);
                    }
                }
            }
            if col == last_col {
                break ;
            }
            col += 1;
        }
        if row == last_row {
            break ;
        }
        row += 1;
    }
    proof {
        if valid@.len() > 0 {
            assert(fits(g, p, valid@[0]));
        }
    }
    valid
}

} // verus!
