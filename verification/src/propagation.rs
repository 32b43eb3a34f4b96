//! The rounds of propagation: peer elimination, then naked singles, then
//! hidden singles, until the grid is full or a round places nothing.

use crate::board::{initial_grid, Board};
use crate::elimination::{
    lemma_peer_elimination_idempotent, lemma_peers_same_symbols, lemma_peers_well_formed,
    peers_eliminated,
};
use crate::grid::{
    keeps_symbols, lemma_same_symbols_unassigned, lemma_settles_unassigned, lemma_unassigned,
    on_grid, settles, solved, unassigned, well_formed, Grid,
};
use crate::singles::{
    hidden_singles_placed, lemma_hidden_singles_placed, lemma_naked_singles,
    naked_singles_resolved,
};
use vstd::prelude::*;

verus! {

/// The grid after one round: peer elimination over all units, then the
/// naked singles, or, where there is none, the hidden singles of all units.
pub open spec fn round(g: Grid) -> Grid {
    let eliminated = peers_eliminated(g);
    let naked = naked_singles_resolved(eliminated);
    if naked != eliminated {
        naked
    } else {
        hidden_singles_placed(eliminated)
    }
}

/// Whether a round on `g` places a symbol anywhere.
pub open spec fn productive(g: Grid) -> bool {
    round(g) != peers_eliminated(g)
}

/// The grid after rounds are run until it is solved or a round places
/// nothing, `rounds` productive ones at most.
pub open spec fn propagated(g: Grid, rounds: nat) -> Grid
    decreases rounds,
{
    if rounds == 0 || solved(g) {
        g
    } else if productive(g) {
        propagated(round(g), (rounds - 1) as nat)
    } else {
        round(g)
    }
}

/// What a round does: it keeps every square's invariant, it only places
/// symbols in squares that were blank, and, where it places any, it leaves
/// fewer blanks than there were.
pub proof fn lemma_round(g: Grid)
    requires
        well_formed(g),
    ensures
        well_formed(peers_eliminated(g)),
        well_formed(round(g)),
        settles(peers_eliminated(g), round(g)),
        keeps_symbols(g, round(g)),
        unassigned(peers_eliminated(g)) == unassigned(g),
        solved(peers_eliminated(g)) == solved(g),
        unassigned(round(g)) <= unassigned(g),
        productive(g) ==> unassigned(round(g)) < unassigned(g),
{
    let e = peers_eliminated(g);
    let r = round(g);
    lemma_peers_well_formed(g);
    lemma_peers_same_symbols(g);
    lemma_same_symbols_unassigned(g, e);
    lemma_naked_singles(e);
    lemma_hidden_singles_placed(e);
    lemma_settles_unassigned(e, r);
    assert forall|row: int, column: int|
        on_grid(row, column) && g[row][column].final_value != 0 implies (
    #[trigger] r[row][column]).final_value == g[row][column].final_value by {
        assert(e[row][column].final_value == g[row][column].final_value);
        assert(r[row][column] == e[row][column] || (e[row][column].final_value == 0
            && r[row][column].final_value != 0));
    }
}

/// A grid in which every square holds a symbol is left as it is, whatever
/// the symbols are.
pub proof fn lemma_full_grid_left_alone(g: Grid, rounds: nat)
    requires
        solved(g),
    ensures
        propagated(g, rounds) == g,
{
}

/// The board made from 81 symbols, none of them blank, is solved as it
/// stands: propagation leaves it as it is.
pub proof fn lemma_full_clues_left_alone(array: [[u8; 9]; 9], rounds: nat)
    requires
        forall|row: int, column: int|
            on_grid(row, column) ==> #[trigger] array[row][column] != 0,
    ensures
        solved(initial_grid(array)),
        propagated(initial_grid(array), rounds) == initial_grid(array),
{
    let g = initial_grid(array);
    assert forall|row: int, column: int| on_grid(row, column) implies (
    #[trigger] g[row][column]).final_value != 0 by {
        assert(array[row][column] != 0);
    }
}

/// Propagation keeps every square's invariant.
pub proof fn lemma_propagation_well_formed(g: Grid, rounds: nat)
    requires
        well_formed(g),
    ensures
        well_formed(propagated(g, rounds)),
    decreases rounds,
{
    lemma_round(g);
    if rounds != 0 && !solved(g) && productive(g) {
        lemma_propagation_well_formed(round(g), (rounds - 1) as nat);
    }
}

/// Propagation removes no symbol and moves none: a symbol, once placed,
/// stays where it is.
pub proof fn lemma_propagation_keeps_symbols(g: Grid, rounds: nat)
    requires
        well_formed(g),
    ensures
        keeps_symbols(g, propagated(g, rounds)),
    decreases rounds,
{
    lemma_round(g);
    if rounds != 0 && !solved(g) && productive(g) {
        let next = round(g);
        let end = propagated(next, (rounds - 1) as nat);
        lemma_propagation_keeps_symbols(next, (rounds - 1) as nat);
        assert forall|row: int, column: int|
            on_grid(row, column) && g[row][column].final_value != 0 implies (
        #[trigger] end[row][column]).final_value == g[row][column].final_value by {
            assert(next[row][column].final_value == g[row][column].final_value);
        }
    }
}

/// Propagation halts within as many productive rounds as there are blank
/// squares: any two allowances of rounds that are not below that number
/// give the same grid.
pub proof fn lemma_propagation_bounded_by_blanks(g: Grid, rounds: nat, more: nat)
    requires
        well_formed(g),
        unassigned(g) <= rounds,
        unassigned(g) <= more,
    ensures
        propagated(g, rounds) == propagated(g, more),
    decreases rounds,
{
    lemma_unassigned(g);
    lemma_round(g);
    if !solved(g) && productive(g) {
        lemma_propagation_bounded_by_blanks(round(g), (rounds - 1) as nat, (more - 1) as nat);
    }
}

/// Propagation halts after at most 81 productive rounds, whatever the grid:
/// allowing more rounds than 81 gives the same result.
pub proof fn lemma_propagation_halts(g: Grid, rounds: nat)
    requires
        well_formed(g),
        rounds >= 81,
    ensures
        propagated(g, rounds) == propagated(g, 81),
{
    lemma_unassigned(g);
    lemma_propagation_bounded_by_blanks(g, rounds, 81);
}

/// Once a round places nothing, none ever will: the grid stays as that
/// round leaves it.
pub proof fn lemma_stuck_stays_stuck(g: Grid)
    requires
        well_formed(g),
        !productive(g),
    ensures
        round(round(g)) == round(g),
        !productive(round(g)),
{
    lemma_peer_elimination_idempotent(g);
    lemma_round(g);
    lemma_hidden_singles_placed(peers_eliminated(g));
}

/// Propagation ends, within 81 productive rounds, in a grid that is solved
/// or on which a round places nothing.
pub proof fn lemma_propagation_settles(g: Grid)
    requires
        well_formed(g),
    ensures
        solved(propagated(g, 81)) || !productive(propagated(g, 81)),
{
    lemma_unassigned(g);
    lemma_settles_within(g, 81);
}

proof fn lemma_settles_within(g: Grid, rounds: nat)
    requires
        well_formed(g),
        unassigned(g) <= rounds,
    ensures
        solved(propagated(g, rounds)) || !productive(propagated(g, rounds)),
    decreases rounds,
{
    lemma_unassigned(g);
    lemma_round(g);
    if !solved(g) {
        if productive(g) {
            lemma_settles_within(round(g), (rounds - 1) as nat);
        } else {
            lemma_stuck_stays_stuck(g);
        }
    }
}

impl Board {
    /// Runs rounds of propagation until every square holds a symbol or a
    /// round places nothing, and says whether every square holds a symbol.
    /// A round is peer elimination over all units, then the naked-single
    /// pass, then, if that placed nothing, the hidden-single pass over all
    /// units. Every round but the last places a symbol, so there are at most
    /// 81 of them.
    pub fn solve(&mut self) -> (outcome: bool)
        requires
            old(self).wf(),
        ensures
            final(self)@ == propagated(old(self)@, 81),
            outcome == solved(final(self)@),
            keeps_symbols(old(self)@, final(self)@),
            final(self).wf(),
    {
        let ghost mut left: nat = 81;
        proof {
            lemma_unassigned(self@);
            lemma_propagation_keeps_symbols(self@, 81);
        }
        while !self.is_solved()
            invariant
                self.wf(),
                unassigned(self@) <= left,
                propagated(old(self)@, 81) == propagated(self@, left),
                keeps_symbols(old(self)@, propagated(old(self)@, 81)),
            decreases left,
        {
            let ghost before = self@;
            proof {
                lemma_unassigned(before);
                lemma_round(before);
                lemma_hidden_singles_placed(peers_eliminated(before));
            }
            self.annotate_all_lines();
            self.annotate_all_box();
            if !self.check_possibilities() {
                if !self.check_all_units_possibilities() {
                    return false;
                }
            }
            assert(self@ == round(before));
            proof {
                left = (left - 1) as nat;
            }
        }
        true
    }
}

} // verus!
