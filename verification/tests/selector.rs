use anfield::symbols::symbol_in;
use anfield::{
    anchor_score, decide_move, find_opponent_cells, find_valid_placements, player_symbols,
    select_move,
};

fn rows(lines: &[&str]) -> Vec<Vec<char>> {
    lines.iter().map(|l| l.chars().collect()).collect()
}

#[test]
fn test_find_opponent_cells() {
    let anfield = vec![
        vec!['.', '$', '.', '.', '.'],
        vec!['.', '.', 's', '.', '.'],
        vec!['.', '.', '.', '.', '.'],
    ];
    let opp_syms = vec!['$', 's'];
    let cells = find_opponent_cells(&anfield, &opp_syms);
    assert!(cells.contains(&(0, 1)));
    assert!(cells.contains(&(1, 2)));
    assert_eq!(cells.len(), 2);
}

#[test]
fn test_find_opponent_cells_empty_board() {
    let anfield = vec![vec!['.', '.', '.'], vec!['.', '.', '.']];
    let opp_syms = vec!['$', 's'];
    let cells = find_opponent_cells(&anfield, &opp_syms);
    assert!(cells.is_empty());
}

#[test]
fn test_find_opponent_cells_all_opponents() {
    let anfield = vec![vec!['$', 's'], vec!['$', 's']];
    let opp_syms = vec!['$', 's'];
    let cells = find_opponent_cells(&anfield, &opp_syms);
    assert_eq!(cells.len(), 4);
    assert!(cells.contains(&(0, 0)));
    assert!(cells.contains(&(0, 1)));
    assert!(cells.contains(&(1, 0)));
    assert!(cells.contains(&(1, 1)));
}

#[test]
fn opponent_cells_come_in_scan_order() {
    let anfield = rows(&["..s", "$@.", "a$s"]);
    let cells = find_opponent_cells(&anfield, &['$', 's']);
    assert_eq!(cells, vec![(0, 2), (1, 0), (2, 1), (2, 2)]);
}

#[test]
fn opponent_cells_of_the_second_player() {
    let anfield = rows(&["..s", "$@.", "a$s"]);
    let (_, opp) = player_symbols(2);
    assert_eq!(find_opponent_cells(&anfield, &opp), vec![(1, 1), (2, 0)]);
}

#[test]
fn opponent_cells_without_symbols_or_rows() {
    let anfield = rows(&["$s", "@a"]);
    assert!(find_opponent_cells(&anfield, &[]).is_empty());
    assert!(find_opponent_cells(&Vec::new(), &['$', 's']).is_empty());
}

#[test]
fn opponent_cells_of_uneven_rows() {
    let anfield = rows(&["$", "..s", ""]);
    assert_eq!(find_opponent_cells(&anfield, &['$', 's']), vec![(0, 0), (1, 2)]);
}

#[test]
fn score_is_the_distance_to_the_nearest_cell() {
    let cells = [(0usize, 1usize), (1, 2), (9, 9)];
    assert_eq!(anchor_score(&cells, (0, 0)), 1);
    assert_eq!(anchor_score(&cells, (1, 2)), 0);
    assert_eq!(anchor_score(&cells, (5, 5)), 7);
    assert_eq!(anchor_score(&cells, (9, 0)), 9);
    assert_eq!(anchor_score(&[(3, 4)], (0, 0)), 7);
}

#[test]
fn score_without_cells_is_the_sentinel() {
    assert_eq!(anchor_score(&[], (0, 0)), usize::MAX as u128);
    assert_eq!(anchor_score(&[], (17, 4)), usize::MAX as u128);
}

#[test]
fn score_may_exceed_the_sentinel() {
    let cells = [(usize::MAX, usize::MAX)];
    assert_eq!(anchor_score(&cells, (0, 0)), 2 * (usize::MAX as u128));
}

#[test]
fn no_candidates_no_move() {
    let with_opponent = rows(&["$s$", "s@s", "$s$"]);
    let without_opponent = rows(&["...", ".@.", "..."]);
    let none: Vec<(usize, usize)> = Vec::new();
    assert_eq!(select_move(&with_opponent, &['$', 's'], &none), None);
    assert_eq!(select_move(&without_opponent, &['$', 's'], &none), None);
    assert_eq!(select_move(&Vec::new(), &['$', 's'], &none), None);
    assert_eq!(select_move(&with_opponent, &[], &none), None);
}

#[test]
fn selector_picks_the_candidate_nearest_to_the_opponent() {
    let anfield = rows(&[".....", ".....", "....$"]);
    let candidates = vec![(0, 0), (0, 3), (1, 1), (2, 2)];
    assert_eq!(select_move(&anfield, &['$', 's'], &candidates), Some((2, 2)));
    let candidates = vec![(2, 2), (0, 0), (0, 3), (1, 1)];
    assert_eq!(select_move(&anfield, &['$', 's'], &candidates), Some((2, 2)));
}

#[test]
fn selector_measures_against_the_nearest_opponent_cell() {
    let anfield = rows(&["s......", ".......", "......$"]);
    // (0, 2) is 2 from the cell at (0, 0); (1, 4) is 3 from the cell at (2, 6).
    assert_eq!(select_move(&anfield, &['$', 's'], &[(1, 4), (0, 2)]), Some((0, 2)));
    assert_eq!(select_move(&anfield, &['$', 's'], &[(1, 4), (1, 3)]), Some((1, 4)));
}

#[test]
fn selector_breaks_ties_by_list_order() {
    let anfield = rows(&[".....", "..$..", "....."]);
    assert_eq!(select_move(&anfield, &['$', 's'], &[(1, 0), (1, 4)]), Some((1, 0)));
    assert_eq!(select_move(&anfield, &['$', 's'], &[(1, 4), (1, 0)]), Some((1, 4)));
    // Scores: 3, 2, 2, 2.
    assert_eq!(select_move(&anfield, &['$', 's'], &[(0, 0), (0, 1), (2, 3), (1, 0)]), Some((0, 1)));
}

#[test]
fn selector_without_opponent_takes_the_first_candidate() {
    let anfield = rows(&[".....", ".@...", "....."]);
    assert_eq!(select_move(&anfield, &['$', 's'], &[(1, 1), (0, 0), (1, 0)]), Some((1, 1)));
    assert_eq!(select_move(&anfield, &[], &[(2, 2), (0, 0)]), Some((2, 2)));
}

#[test]
fn selector_accepts_candidates_off_the_board() {
    let anfield = rows(&["$"]);
    let far = (usize::MAX, usize::MAX);
    assert_eq!(select_move(&anfield, &['$'], &[far, (usize::MAX, 0)]), Some((usize::MAX, 0)));
    assert_eq!(select_move(&anfield, &['$'], &[far]), Some(far));
}

#[test]
fn selection_is_deterministic() {
    let anfield = rows(&["..s...", "......", ".@....", "....$."]);
    // Scores: 2, 2, 1, 3, 1, 2.
    let candidates = vec![(0, 0), (1, 4), (3, 3), (3, 1), (0, 3), (2, 5)];
    let first = select_move(&anfield, &['$', 's'], &candidates);
    let second = select_move(&anfield, &['$', 's'], &candidates);
    assert_eq!(first, second);
    assert_eq!(first, Some((3, 3)));
}

#[test]
fn turn_plays_the_legal_placement_nearest_to_the_opponent() {
    let anfield = rows(&[".....", ".@...", ".....", "....$"]);
    let piece = rows(&["OO", ".O"]);
    let valid = find_valid_placements(&anfield, &piece, 1);
    assert_eq!(valid, vec![(0, 0), (1, 0), (1, 1)]);
    assert_eq!(decide_move(&anfield, &piece, 1), Some((1, 1)));
    assert_eq!(decide_move(&anfield, &piece, 1), select_move(&anfield, &['$', 's'], &valid));
}

#[test]
fn turn_of_the_second_player() {
    let anfield = rows(&["@....", ".....", "...$."]);
    let piece = rows(&["OO"]);
    assert_eq!(decide_move(&anfield, &piece, 2), Some((2, 2)));
}

#[test]
fn turn_without_legal_placement_is_no_move() {
    let anfield = rows(&["...", "...", "..$"]);
    let piece = rows(&["O"]);
    assert_eq!(decide_move(&anfield, &piece, 1), None);
    let anfield = rows(&["@$", "$$"]);
    let piece = rows(&["OO", "OO"]);
    assert_eq!(decide_move(&anfield, &piece, 1), None);
}

#[test]
fn turn_without_opponent_plays_the_first_placement() {
    let anfield = rows(&[".....", ".@...", "....."]);
    let piece = rows(&["OO", ".O"]);
    assert_eq!(decide_move(&anfield, &piece, 1), Some((0, 0)));
}

#[test]
fn symbols_of_each_player() {
    assert_eq!(player_symbols(1), (vec!['@', 'a'], vec!['$', 's']));
    assert_eq!(player_symbols(2), (vec!['$', 's'], vec!['@', 'a']));
    assert_eq!(player_symbols(0), player_symbols(2));
}

#[test]
fn symbol_lookup() {
    assert!(symbol_in(&['$', 's'], 's'));
    assert!(symbol_in(&['$', 's'], '$'));
    assert!(!symbol_in(&['$', 's'], '@'));
    assert!(!symbol_in(&[], '@'));
}
