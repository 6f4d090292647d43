//! The 3x3 board: cells, validated moves, win detection.

use vstd::prelude::*;

verus! {

/// What one of the nine positions holds: nothing, the human's mark `Z`, or the
/// computer's mark `K`.
#[derive(Copy, Clone, Debug, PartialEq, Eq, Structural)]
pub enum Cell {
    Empty,
    Z,
    K,
}

/// Nine cells in row-major order.
pub struct Board {
    pub cells: [Cell; 9],
}

/// A participant, known by the mark it places.
pub struct Player {
    pub symbol: Cell,
}

/// The three positions of winning line `k`: rows first, then columns, then the
/// two diagonals.
pub open spec fn line(k: int) -> (int, int, int) {
    if k == 0 {
        (0, 1, 2)
    } else if k == 1 {
        (3, 4, 5)
    } else if k == 2 {
        (6, 7, 8)
    } else if k == 3 {
        (0, 3, 6)
    } else if k == 4 {
        (1, 4, 7)
    } else if k == 5 {
        (2, 5, 8)
    } else if k == 6 {
        (0, 4, 8)
    } else {
        (2, 4, 6)
    }
}

/// Line `k` holds three equal marks, none of them `Empty`.
pub open spec fn line_complete(cells: Seq<Cell>, k: int) -> bool {
    let (a, b, c) = line(k);
    cells[a] != Cell::Empty && cells[a] == cells[b] && cells[b] == cells[c]
}

/// The mark on the first complete line among lines `k..8`, if there is one.
pub open spec fn winner_from(cells: Seq<Cell>, k: int) -> Option<Cell>
    decreases 8 - k,
{
    if k >= 8 {
        None
    } else if line_complete(cells, k) {
        Some(cells[line(k).0])
    } else {
        winner_from(cells, k + 1)
    }
}

/// The mark on the first complete line in the fixed scan order.
pub open spec fn winner(cells: Seq<Cell>) -> Option<Cell> {
    winner_from(cells, 0)
}

/// No cell is `Empty`.
pub open spec fn full(cells: Seq<Cell>) -> bool {
    forall|i: int| 0 <= i < cells.len() ==> cells[i] != Cell::Empty
}

/// The indices below `n` whose cell is `Empty`, in ascending order.
pub open spec fn empty_below(cells: Seq<Cell>, n: int) -> Seq<usize>
    decreases n,
{
    if n <= 0 {
        Seq::empty()
    } else if cells[n - 1] == Cell::Empty {
        empty_below(cells, n - 1).push((n - 1) as usize)
    } else {
        empty_below(cells, n - 1)
    }
}

/// All indices whose cell is `Empty`, in ascending order.
pub open spec fn empty_cells(cells: Seq<Cell>) -> Seq<usize> {
    empty_below(cells, cells.len() as int)
}

/// A move is accepted when it names a cell of the board that is still `Empty`.
pub open spec fn accepts(cells: Seq<Cell>, position: int) -> bool {
    0 <= position < cells.len() && cells[position] == Cell::Empty
}

/// The cells after an attempt to place `mark` at `position`: changed at that
/// position if the move is accepted, and not at all otherwise.
pub open spec fn after_move(cells: Seq<Cell>, position: int, mark: Cell) -> Seq<Cell> {
    if accepts(cells, position) {
        cells.update(position, mark)
    } else {
        cells
    }
}

/// The exec counterpart of `line`.
fn line_at(k: usize) -> (t: (usize, usize, usize))
    requires
        k < 8,
    ensures
        (t.0 as int, t.1 as int, t.2 as int) == line(k as int),
        t.0 < 9 && t.1 < 9 && t.2 < 9,
{
    match k {
        0 => (0, 1, 2),
        1 => (3, 4, 5),
        2 => (6, 7, 8),
        3 => (0, 3, 6),
        4 => (1, 4, 7),
        5 => (2, 5, 8),
        6 => (0, 4, 8),
        _ => (2, 4, 6),
    }
}

impl View for Board {
    type V = Seq<Cell>;

    open spec fn view(&self) -> Seq<Cell> {
        self.cells@
    }
}

impl Board {
    /// A board with every cell `Empty`.
    pub fn new() -> (board: Board)
        ensures
            board@ == Seq::new(9, |i: int| Cell::Empty),
    {
        let board = Board { cells: [Cell::Empty; 9] };
        assert(board@ =~= Seq::new(9, |i: int| Cell::Empty));
        board
    }

    /// Places `player` at `position` if that is a cell of the board and it is
    /// `Empty`; otherwise changes nothing. Says whether the mark was placed.
    pub fn make_move(&mut self, position: usize, player: Cell) -> (placed: bool)
        ensures
            placed == accepts(old(self)@, position as int),
            final(self)@ == after_move(old(self)@, position as int, player),
            !placed ==> *final(self) == *old(self),
    {
        if position < 9 && self.cells[position] == Cell::Empty {
            self.cells[position] = player;
            assert(self@ =~= old(self)@.update(position as int, player));
            true
        } else {
            false
        }
    }

    /// Whether no cell is `Empty`.
    pub fn is_full(&self) -> (r: bool)
        ensures
            r == full(self@),
    {
        let mut i: usize = 0;
        while i < 9
            invariant
                i <= 9,
                forall|j: int| 0 <= j < i ==> self@[j] != Cell::Empty,
            decreases 9 - i,
        {
            if self.cells[i] == Cell::Empty {
                return false;
            }
            i += 1;
        }
        true
    }

    /// The mark on the first complete line, scanning rows, columns and then
    /// diagonals.
    pub fn check_winner(&self) -> (r: Option<Cell>)
        ensures
            r == winner(self@),
    {
        let mut k: usize = 0;
        while k < 8
            invariant
                k <= 8,
                winner(self@) == winner_from(self@, k as int),
            decreases 8 - k,
        {
            let (a, b, c) = line_at(k);
            if self.cells[a] != Cell::Empty && self.cells[a] == self.cells[b] && self.cells[b]
                == self.cells[c] {
                return Some(self.cells[a]);
            }
            k += 1;
        }
        None
    }

    /// The indices of the `Empty` cells, in ascending order.
    pub fn get_empty_cells(&self) -> (r: Vec<usize>)
        ensures
            r@ == empty_cells(self@),
    {
        let mut r: Vec<usize> = Vec::new();
        let mut i: usize = 0;
        while i < 9
            invariant
                i <= 9,
                r@ == empty_below(self@, i as int),
            decreases 9 - i,
        {
            if self.cells[i] == Cell::Empty {
                r.push(i);
            }
            i += 1;
        }
        r
    }
}

/// What `empty_below` holds: indices below `n`, each of an `Empty` cell, in
/// strictly ascending order, and every such index.
pub proof fn lemma_empty_below(cells: Seq<Cell>, n: int)
    requires
        0 <= n <= cells.len() <= usize::MAX,
    ensures
        empty_below(cells, n).len() <= n,
        forall|i: int|
            0 <= i < empty_below(cells, n).len() ==> (#[trigger] empty_below(cells, n)[i]) < n
                && cells[empty_below(cells, n)[i] as int] == Cell::Empty,
        forall|i: int, j: int|
            0 <= i < j < empty_below(cells, n).len() ==> (#[trigger] empty_below(cells, n)[i])
                < (#[trigger] empty_below(cells, n)[j]),
        forall|p: int|
            0 <= p < n && cells[p] == Cell::Empty ==> empty_below(cells, n).contains(p as usize),
    decreases n,
{
    if n > 0 {
        lemma_empty_below(cells, n - 1);
        let before = empty_below(cells, n - 1);
        let now = empty_below(cells, n);
        assert forall|p: int| 0 <= p < n && cells[p] == Cell::Empty implies now.contains(
            p as usize,
        ) by {
            if p < n - 1 {
                let i = choose|i: int| 0 <= i < before.len() && before[i] == p as usize;
                assert(now[i] == p as usize);
            } else {
                assert(now[now.len() - 1] == p as usize);
            }
        }
    }
}

/// The empty cells of a board are exactly the positions at which a move is
/// accepted, listed once each in ascending order; there is none exactly when
/// the board is full.
pub proof fn lemma_empty_cells(cells: Seq<Cell>)
    requires
        cells.len() <= usize::MAX,
    ensures
        empty_cells(cells).len() <= cells.len(),
        forall|i: int|
            0 <= i < empty_cells(cells).len() ==> accepts(
                cells,
                (#[trigger] empty_cells(cells)[i]) as int,
            ),
        forall|i: int, j: int|
            0 <= i < j < empty_cells(cells).len() ==> (#[trigger] empty_cells(cells)[i])
                < (#[trigger] empty_cells(cells)[j]),
        forall|p: int| accepts(cells, p) ==> empty_cells(cells).contains(p as usize),
        empty_cells(cells).len() == 0 <==> full(cells),
{
    lemma_empty_below(cells, cells.len() as int);
    let e = empty_cells(cells);
    if e.len() == 0 {
        assert forall|p: int| 0 <= p < cells.len() implies cells[p] != Cell::Empty by {
            if cells[p] == Cell::Empty {
                assert(e.contains(p as usize));
            }
        }
    } else {
        assert(accepts(cells, e[0] as int));
    }
}

/// From line `from` on, the scan finds `mark` when line `k` holds it three
/// times and no complete line holds another mark.
proof fn lemma_winner_from(cells: Seq<Cell>, from: int, k: int, mark: Cell)
    requires
        0 <= from <= k < 8,
        mark != Cell::Empty,
        cells[line(k).0] == mark && cells[line(k).1] == mark && cells[line(k).2] == mark,
        forall|j: int| 0 <= j < 8 && line_complete(cells, j) ==> cells[line(j).0] == mark,
    ensures
        winner_from(cells, from) == Some(mark),
    decreases k - from,
{
    if !line_complete(cells, from) {
        assert(from < k);
        lemma_winner_from(cells, from + 1, k, mark);
    }
}

/// Whichever of the eight lines holds `mark` three times, the scan reports
/// `mark`, whatever the other cells hold, as long as no line is complete with
/// another mark.
pub proof fn lemma_winner_complete(cells: Seq<Cell>, k: int, mark: Cell)
    requires
        cells.len() == 9,
        0 <= k < 8,
        mark != Cell::Empty,
        cells[line(k).0] == mark && cells[line(k).1] == mark && cells[line(k).2] == mark,
        forall|j: int| 0 <= j < 8 && line_complete(cells, j) ==> cells[line(j).0] == mark,
    ensures
        winner(cells) == Some(mark),
{
    lemma_winner_from(cells, 0, k, mark);
}

/// The scan reports a mark only from a complete line, and reports nothing only
/// when no line is complete.
pub proof fn lemma_winner_sound(cells: Seq<Cell>, from: int)
    requires
        0 <= from <= 8,
    ensures
        match winner_from(cells, from) {
            Some(mark) => exists|k: int|
                from <= k < 8 && line_complete(cells, k) && cells[line(k).0] == mark,
            None => forall|k: int| from <= k < 8 ==> !line_complete(cells, k),
        },
    decreases 8 - from,
{
    if from < 8 {
        if line_complete(cells, from) {
        } else {
            lemma_winner_sound(cells, from + 1);
        }
    }
}

/// A rejected move leaves every cell as it was, and an accepted one changes
/// only an `Empty` cell: no mark is ever overwritten.
pub proof fn lemma_move_exclusive(before: Seq<Cell>, position: int, mark: Cell, i: int)
    requires
        0 <= i < before.len(),
        before[i] != Cell::Empty,
    ensures
        after_move(before, position, mark)[i] == before[i],
        !accepts(before, position) ==> after_move(before, position, mark) == before,
{
}

/// On a board without a complete line, a move completes a line only for the
/// mark that it places.
pub proof fn lemma_only_mover_wins(cells: Seq<Cell>, position: int, mark: Cell)
    requires
        cells.len() == 9,
        winner(cells) is None,
        accepts(cells, position),
    ensures
        winner(cells.update(position, mark)) is None || winner(cells.update(position, mark))
            == Some(mark),
{
    let played = cells.update(position, mark);
    lemma_winner_sound(cells, 0);
    lemma_winner_sound(played, 0);
    if let Some(found) = winner(played) {
        let k = choose|k: int| 0 <= k < 8 && line_complete(played, k) && played[line(k).0] == found;
        assert(!line_complete(cells, k));
        let (a, b, c) = line(k);
        assert(0 <= a < 9 && 0 <= b < 9 && 0 <= c < 9);
        assert(a == position || b == position || c == position);
    }
}

/// Below `n`, an accepted move leaves one empty cell fewer once `n` is past
/// the position played, and as many before.
proof fn lemma_empty_below_after(cells: Seq<Cell>, position: int, mark: Cell, n: int)
    requires
        0 <= n <= cells.len(),
        accepts(cells, position),
        mark != Cell::Empty,
    ensures
        empty_below(cells.update(position, mark), n).len() == empty_below(cells, n).len() - (
        if n > position {
            1int
        } else {
            0int
        }),
    decreases n,
{
    if n > 0 {
        lemma_empty_below_after(cells, position, mark, n - 1);
    }
}

/// An accepted move leaves exactly one empty cell fewer.
pub proof fn lemma_move_takes_one_empty(cells: Seq<Cell>, position: int, mark: Cell)
    requires
        accepts(cells, position),
        mark != Cell::Empty,
    ensures
        empty_cells(cells.update(position, mark)).len() == empty_cells(cells).len() - 1,
{
    lemma_empty_below_after(cells, position, mark, cells.len() as int);
}

} // verus!
