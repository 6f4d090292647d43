use zikzakzoo::{Board, Cell};

const LINES: [[usize; 3]; 8] = [
    [0, 1, 2],
    [3, 4, 5],
    [6, 7, 8],
    [0, 3, 6],
    [1, 4, 7],
    [2, 5, 8],
    [0, 4, 8],
    [2, 4, 6],
];

#[test]
fn new_board_is_empty() {
    let board = Board::new();
    assert_eq!(board.cells, [Cell::Empty; 9]);
    assert!(!board.is_full());
    assert_eq!(board.check_winner(), None);
    assert_eq!(board.get_empty_cells(), vec![0, 1, 2, 3, 4, 5, 6, 7, 8]);
}

#[test]
fn make_move_places_mark_on_empty_cell() {
    let mut board = Board::new();
    assert!(board.make_move(4, Cell::Z));
    let mut expected = [Cell::Empty; 9];
    expected[4] = Cell::Z;
    assert_eq!(board.cells, expected);
}

#[test]
fn make_move_rejects_occupied_cell() {
    let mut board = Board::new();
    assert!(board.make_move(4, Cell::Z));
    let before = board.cells;
    assert!(!board.make_move(4, Cell::K));
    assert_eq!(board.cells, before);
    assert!(!board.make_move(4, Cell::Z));
    assert_eq!(board.cells, before);
}

#[test]
fn make_move_rejects_out_of_range() {
    let mut board = Board::new();
    assert!(board.make_move(0, Cell::K));
    let before = board.cells;
    assert!(!board.make_move(9, Cell::Z));
    assert!(!board.make_move(usize::MAX, Cell::Z));
    assert_eq!(board.cells, before);
}

#[test]
fn is_full_only_when_no_cell_is_empty() {
    let mut board = Board::new();
    for i in 0..8 {
        assert!(board.make_move(i, if i % 2 == 0 { Cell::Z } else { Cell::K }));
        assert!(!board.is_full());
    }
    assert!(board.make_move(8, Cell::Z));
    assert!(board.is_full());
    assert_eq!(board.get_empty_cells(), Vec::<usize>::new());
}

#[test]
fn every_line_wins_for_either_mark() {
    for mark in [Cell::Z, Cell::K] {
        for line in LINES.iter() {
            let mut board = Board::new();
            for &i in line.iter() {
                assert!(board.make_move(i, mark));
            }
            assert_eq!(board.check_winner(), Some(mark));
        }
    }
}

#[test]
fn line_wins_with_other_cells_taken() {
    let other = |m: Cell| if m == Cell::Z { Cell::K } else { Cell::Z };
    for mark in [Cell::Z, Cell::K] {
        for line in LINES.iter() {
            // Fill the line, then give the opponent two cells off the line
            // that cannot make a line of their own.
            let mut board = Board::new();
            for &i in line.iter() {
                assert!(board.make_move(i, mark));
            }
            let free = board.get_empty_cells();
            assert_eq!(free.len(), 6);
            assert!(board.make_move(free[0], other(mark)));
            assert!(board.make_move(free[5], other(mark)));
            assert_eq!(board.check_winner(), Some(mark));
        }
    }
}

#[test]
fn no_winner_without_complete_line() {
    let mut board = Board::new();
    board.make_move(0, Cell::Z);
    board.make_move(1, Cell::Z);
    board.make_move(2, Cell::K);
    assert_eq!(board.check_winner(), None);
}

#[test]
fn scan_order_decides_between_two_lines() {
    // Not reachable in play: the top row is K and the middle row is Z.
    let board = Board {
        cells: [
            Cell::K,
            Cell::K,
            Cell::K,
            Cell::Z,
            Cell::Z,
            Cell::Z,
            Cell::Empty,
            Cell::Empty,
            Cell::Empty,
        ],
    };
    assert_eq!(board.check_winner(), Some(Cell::K));
    let board = Board {
        cells: [
            Cell::Z,
            Cell::K,
            Cell::Empty,
            Cell::Z,
            Cell::K,
            Cell::Empty,
            Cell::Z,
            Cell::K,
            Cell::Empty,
        ],
    };
    assert_eq!(board.check_winner(), Some(Cell::Z));
}

#[test]
fn empty_cells_are_ascending() {
    let mut board = Board::new();
    board.make_move(7, Cell::Z);
    board.make_move(0, Cell::K);
    board.make_move(3, Cell::Z);
    assert_eq!(board.get_empty_cells(), vec![1, 2, 4, 5, 6, 8]);
}

#[test]
fn empty_board_shows_indices() {
    assert_eq!(
        zikzakzoo::render_board(&Board::new()),
        "0|1|2\n-+-+-\n3|4|5\n-+-+-\n6|7|8\n\n"
    );
}

#[test]
fn marks_replace_indices() {
    let mut board = Board::new();
    board.make_move(0, Cell::Z);
    board.make_move(4, Cell::K);
    board.make_move(8, Cell::Z);
    board.make_move(5, Cell::K);
    assert_eq!(
        zikzakzoo::render_board(&board),
        "Z|1|2\n-+-+-\n3|K|K\n-+-+-\n6|7|Z\n\n"
    );
}
