//! The two players and the board symbols bound to each of them.
//!
//! Player 1 owns `@` (claimed) and `a` (placed last turn); every other player
//! number denotes the second player, who owns `$` and `s`.  What one player
//! owns is the other player's opponent territory.  The binding is resolved
//! once to a pair of symbol lists, and the lists are handed on to the
//! placement finder and the move selector.

use vstd::prelude::*;

verus! {

/// The symbols that mark the territory of `player_num`.
pub open spec fn own_symbols(player_num: usize) -> Seq<char> {
    if player_num == 1 {
        seq!['@', 'a']
    } else {
        seq!['$', 's']
    }
}

/// The symbols that mark the territory of the player facing `player_num`.
pub open spec fn opponent_symbols(player_num: usize) -> Seq<char> {
    if player_num == 1 {
        seq!['$', 's']
    } else {
        seq!['@', 'a']
    }
}

/// Tells whether `c` occurs in `syms`.
pub fn symbol_in(syms: &[char], c: char) -> (found: bool)
    ensures
        found == syms@.contains(c),
{
    let mut i: usize = 0;
    while i < syms.len()
        invariant
            i <= syms@.len(),
            forall|k: int| 0 <= k < i ==> syms@[k] != c,
        decreases syms@.len() - i,
    {
        if syms[i] == c {
            return true;
        }
        i += 1;
    }
    false
}

/// Resolves a player number to its pair of symbol lists: first the player's
/// own symbols, then the opponent's.
pub fn player_symbols(player_num: usize) -> (syms: (Vec<char>, Vec<char>))
    ensures
        syms.0@ == own_symbols(player_num),
        syms.1@ == opponent_symbols(player_num),
{
    if player_num == 1 {
        (vec!['@', 'a'], vec!['$', 's'])
    } else {
        (vec!['$', 's'], vec!['@', 'a'])
    }
}

} // verus!
