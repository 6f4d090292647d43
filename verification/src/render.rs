//! The board as text, for a console.

use vstd::prelude::*;
use vstd::string::*;
use crate::board::{Board, Cell};
use crate::record::{byte_text, ZERO};

verus! {

/// What is shown for cell `i`: its mark, or its index while it is `Empty`.
pub open spec fn cell_text(cells: Seq<Cell>, i: int) -> Seq<char> {
    match cells[i] {
        Cell::Empty => seq![((ZERO + i) as u8) as char],
        Cell::Z => seq!['Z'],
        Cell::K => seq!['K'],
    }
}

/// One row of the board: its three cells with `|` between them, and a line
/// break.
pub open spec fn row_text(cells: Seq<Cell>, row: int) -> Seq<char> {
    cell_text(cells, 3 * row).add(seq!['|']).add(cell_text(cells, 3 * row + 1)).add(seq!['|']).add(
        cell_text(cells, 3 * row + 2),
    ).add(seq!['\n'])
}

/// The line drawn between two rows.
pub open spec fn rule_text() -> Seq<char> {
    seq!['-', '+', '-', '+', '-', '\n']
}

/// The whole board: three rows with a rule between them, and an empty line
/// below.
pub open spec fn board_text(cells: Seq<Cell>) -> Seq<char> {
    row_text(cells, 0).add(rule_text()).add(row_text(cells, 1)).add(rule_text()).add(
        row_text(cells, 2),
    ).add(seq!['\n'])
}

/// The text of one cell.
fn cell_str(board: &Board, i: usize) -> (s: &'static str)
    requires
        i < 9,
    ensures
        s@ == cell_text(board@, i as int),
{
    proof {
        reveal_strlit("Z");
        reveal_strlit("K");
    }
    let s: &'static str = match board.cells[i] {
        Cell::Z => "Z",
        Cell::K => "K",
        Cell::Empty => byte_text(ZERO + i as u8),
    };
    assert(s@ =~= cell_text(board@, i as int));
    s
}

/// Appends one row of the board.
fn push_row(text: &mut String, board: &Board, row: usize)
    requires
        row < 3,
    ensures
        final(text)@ == old(text)@.add(row_text(board@, row as int)),
{
    proof {
        reveal_strlit("|");
        reveal_strlit("\n");
    }
    text.append(cell_str(board, 3 * row));
    text.append("|");
    text.append(cell_str(board, 3 * row + 1));
    text.append("|");
    text.append(cell_str(board, 3 * row + 2));
    text.append("\n");
    assert(text@ =~= old(text)@.add(row_text(board@, row as int)));
}

/// Draws the board as text: every cell shows its mark, or its own index while
/// it is free.
pub fn render_board(board: &Board) -> (text: String)
    ensures
        text@ == board_text(board@),
{
    proof {
        reveal_strlit("-+-+-\n");
        reveal_strlit("\n");
    }
    let mut text: String = String::new();
    push_row(&mut text, board, 0);
    text.append("-+-+-\n");
    push_row(&mut text, board, 1);
    text.append("-+-+-\n");
    push_row(&mut text, board, 2);
    text.append("\n");
    assert(text@ =~= board_text(board@));
    text
}

} // verus!
