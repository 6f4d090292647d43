//! One turn of a match: the rules that a driver applies between asking for a
//! move and showing the board.

use vstd::prelude::*;
use crate::board::{
    accepts, after_move, empty_cells, full, lemma_empty_cells, winner, Board, Cell, Player,
};
use crate::rng::{lcg_next, SimpleRNG};

verus! {

/// What a turn leads to.
#[derive(Copy, Clone, Debug, PartialEq, Eq, Structural)]
pub enum TurnResult {
    /// The move was not accepted; the same side moves again.
    Rejected,
    /// The move completed a line for the given mark.
    Won(Cell),
    /// The move filled the board and no line is complete.
    Draw,
    /// The game goes on, and the side with the given mark moves next.
    Next(Cell),
}

/// The cell that the computer takes on `cells` when the generator has just
/// been advanced to `state`.
pub open spec fn computer_choice(cells: Seq<Cell>, state: u64) -> usize
    recommends
        empty_cells(cells).len() > 0,
{
    empty_cells(cells)[state as int % empty_cells(cells).len() as int]
}

/// The mark of the side that moves after `current`.
pub open spec fn other_side(current: Cell, human: Cell, computer: Cell) -> Cell {
    if current == human {
        computer
    } else {
        human
    }
}

/// What the turn leads to when `current` tries `position` on `cells`: a
/// rejected move changes nothing; after an accepted one a complete line
/// decides before a full board does.
pub open spec fn turn_result(
    cells: Seq<Cell>,
    position: int,
    current: Cell,
    human: Cell,
    computer: Cell,
) -> TurnResult {
    if !accepts(cells, position) {
        TurnResult::Rejected
    } else {
        let played = cells.update(position, current);
        match winner(played) {
            Some(mark) => TurnResult::Won(mark),
            None => if full(played) {
                TurnResult::Draw
            } else {
                TurnResult::Next(other_side(current, human, computer))
            },
        }
    }
}

/// Plays `position` for the side `current` and says what follows.
pub fn play_turn(
    board: &mut Board,
    position: usize,
    current: Cell,
    human: &Player,
    computer: &Player,
) -> (result: TurnResult)
    ensures
        final(board)@ == after_move(old(board)@, position as int, current),
        result == turn_result(
            old(board)@,
            position as int,
            current,
            human.symbol,
            computer.symbol,
        ),
{
    if !board.make_move(position, current) {
        return TurnResult::Rejected;
    }
    match board.check_winner() {
        Some(mark) => TurnResult::Won(mark),
        None => {
            if board.is_full() {
                TurnResult::Draw
            } else if current == human.symbol {
                TurnResult::Next(computer.symbol)
            } else {
                TurnResult::Next(human.symbol)
            }
        },
    }
}

/// Picks the computer's cell: one draw from the generator selects among the
/// empty cells, so the choice is always a cell at which a move is accepted.
pub fn get_computer_move(board: &Board, rng: &mut SimpleRNG) -> (choice: usize)
    requires
        !full(board@),
    ensures
        final(rng).state == lcg_next(old(rng).state),
        choice == computer_choice(board@, final(rng).state),
        accepts(board@, choice as int),
{
    let empty: Vec<usize> = board.get_empty_cells();
    proof {
        lemma_empty_cells(board@);
    }
    let index: usize = rng.rand_range(0, empty.len() - 1);
    empty[index]
}

} // verus!
