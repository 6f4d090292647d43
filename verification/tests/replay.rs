use zikzakzoo::{format_seed_and_moves, replay, verify_player_win, Outcome};

#[test]
fn no_moves_is_incomplete() {
    assert!(!verify_player_win("0"));
    assert_eq!(replay(b"0"), Outcome::Invalid);
}

#[test]
fn move_out_of_range_is_invalid() {
    assert!(!verify_player_win("1,9"));
    assert_eq!(replay(b"1,9"), Outcome::Invalid);
}

#[test]
fn reused_cell_is_invalid() {
    assert!(!verify_player_win("1,0,0"));
    assert_eq!(replay(b"1,0,0"), Outcome::Invalid);
}

#[test]
fn top_row_wins() {
    // With seed 0 the computer answers 8 and 6; with seed 1, 5 and 8.
    assert!(verify_player_win("0,0,1,2"));
    assert!(verify_player_win("1,0,1,2"));
    assert_eq!(replay(b"0,0,1,2"), Outcome::HumanWon);
}

#[test]
fn other_lines_win() {
    assert!(verify_player_win("3,4,0,8"));
    assert!(verify_player_win("18446744073709551615,2,4,6"));
    assert!(verify_player_win("18446744073709551615,6,7,8"));
}

#[test]
fn full_board_without_line_is_draw() {
    // The computer answers 8, 6, 4, 1.
    assert!(!verify_player_win("0,0,2,3,5,7"));
    assert_eq!(replay(b"0,0,2,3,5,7"), Outcome::Draw);
}

#[test]
fn computer_win_is_false() {
    // The computer answers 8, 5, 2: the right column.
    assert!(!verify_player_win("0,0,6,4"));
    assert_eq!(replay(b"0,0,6,4"), Outcome::OpponentWon);
}

#[test]
fn human_move_onto_computer_cell_is_invalid() {
    // With seed 2 the computer's first answer is cell 2.
    assert!(!verify_player_win("2,0,1,2"));
    assert_eq!(replay(b"2,0,1,2"), Outcome::Invalid);
    // With seed 5 the computer takes cell 1 first.
    assert_eq!(replay(b"5,0,1,2"), Outcome::Invalid);
}

#[test]
fn unfinished_game_is_invalid() {
    assert!(!verify_player_win("1,0"));
    assert!(!verify_player_win("1,0,1"));
    assert_eq!(replay(b"1,0,1"), Outcome::Invalid);
}

#[test]
fn malformed_seed_is_invalid() {
    for record in ["", ",0,1,2", "x,0,1,2", "-1,0,1,2", "18446744073709551616,0,1,2", " 1,0,1,2", "1 ,0,1,2", "1.5,0,1,2"] {
        assert!(!verify_player_win(record), "{:?}", record);
        assert_eq!(replay(record.as_bytes()), Outcome::Invalid, "{:?}", record);
    }
}

#[test]
fn malformed_move_is_invalid() {
    for record in ["1,", "1,0,,1,2", "1,0,1,x", "1,0, 1,2", "1,0,1 ,2", "1,0,-1,2", "1,0,1,2.0", "1,0,1,99999999999999999999999", "1,0,1,é"] {
        assert!(!verify_player_win(record), "{:?}", record);
        assert_eq!(replay(record.as_bytes()), Outcome::Invalid, "{:?}", record);
    }
}

#[test]
fn plus_sign_and_leading_zeros_are_numbers() {
    assert!(verify_player_win("+1,+0,01,002"));
}

#[test]
fn tokens_after_the_deciding_move_are_not_read() {
    assert!(verify_player_win("1,0,1,2,"));
    assert!(verify_player_win("1,0,1,2,junk"));
    assert!(verify_player_win("1,0,1,2,9,9"));
    assert_eq!(replay(b"0,0,6,4,zzz"), Outcome::OpponentWon);
    assert_eq!(replay(b"0,0,2,3,5,7,0"), Outcome::Draw);
}

#[test]
fn same_record_same_verdict() {
    for record in ["0", "1,9", "1,0,0", "0,0,1,2", "0,0,2,3,5,7", "0,0,6,4", "junk"] {
        assert_eq!(verify_player_win(record), verify_player_win(record));
        assert_eq!(replay(record.as_bytes()), replay(record.as_bytes()));
    }
}

#[test]
fn verdict_is_true_only_for_human_win() {
    let records = ["0", "1,9", "1,0,0", "0,0,1,2", "0,0,2,3,5,7", "0,0,6,4", "", "3,4,0,8"];
    for record in records {
        assert_eq!(
            verify_player_win(record),
            replay(record.as_bytes()) == Outcome::HumanWon
        );
    }
}

#[test]
fn formatted_record_is_verified() {
    assert!(verify_player_win(&format_seed_and_moves(0, &[0, 1, 2])));
    assert!(!verify_player_win(&format_seed_and_moves(0, &[0, 2, 3, 5, 7])));
    assert!(!verify_player_win(&format_seed_and_moves(1, &[9])));
}
