use zikzakzoo::{encode_record, format_seed_and_moves, parse_move, parse_seed, GameRound};

#[test]
fn parse_seed_reads_decimal() {
    assert_eq!(parse_seed(b"0"), Some(0));
    assert_eq!(parse_seed(b"1234567890"), Some(1234567890));
    assert_eq!(parse_seed(b"007"), Some(7));
    assert_eq!(parse_seed(b"+15"), Some(15));
    assert_eq!(parse_seed(b"18446744073709551615"), Some(u64::MAX));
}

#[test]
fn parse_seed_agrees_with_std() {
    let tokens = [
        "", "+", "-", "-1", "+0", "++1", "1+", " 1", "1 ", "0x10", "1_000", "12a", "a12",
        "18446744073709551615", "18446744073709551616", "99999999999999999999999", "000000000000000000000001",
        "+18446744073709551615", "1.0", "١", "é",
    ];
    for token in tokens {
        assert_eq!(parse_seed(token.as_bytes()), token.parse::<u64>().ok(), "{:?}", token);
    }
}

#[test]
fn parse_seed_rejects_malformed() {
    assert_eq!(parse_seed(b""), None);
    assert_eq!(parse_seed(b"+"), None);
    assert_eq!(parse_seed(b"-3"), None);
    assert_eq!(parse_seed(b" 3"), None);
    assert_eq!(parse_seed(b"3 "), None);
    assert_eq!(parse_seed(b"3x"), None);
    assert_eq!(parse_seed(b"18446744073709551616"), None);
    assert_eq!(parse_seed(b"184467440737095516150"), None);
}

#[test]
fn parse_move_accepts_cell_indices_only() {
    for i in 0..9usize {
        assert_eq!(parse_move(i.to_string().as_bytes()), Some(i));
    }
    assert_eq!(parse_move(b"+8"), Some(8));
    assert_eq!(parse_move(b"08"), Some(8));
    assert_eq!(parse_move(b"9"), None);
    assert_eq!(parse_move(b"10"), None);
    assert_eq!(parse_move(b""), None);
    assert_eq!(parse_move(b"-1"), None);
    assert_eq!(parse_move(b"4294967296"), None);
    assert_eq!(parse_move(b"18446744073709551616"), None);
    assert_eq!(parse_move(b"x"), None);
}

#[test]
fn format_writes_seed_then_moves() {
    assert_eq!(format_seed_and_moves(0, &[]), "0");
    assert_eq!(format_seed_and_moves(17, &[4]), "17,4");
    assert_eq!(format_seed_and_moves(1700000000, &[0, 1, 2]), "1700000000,0,1,2");
    assert_eq!(
        format_seed_and_moves(u64::MAX, &[8, 7, 6, 5, 4]),
        "18446744073709551615,8,7,6,5,4"
    );
    assert_eq!(format_seed_and_moves(10, &[10, 100]), "10,10,100");
}

#[test]
fn encode_record_gives_the_bytes_of_the_text() {
    assert_eq!(encode_record(905, &[3, 0]), b"905,3,0".to_vec());
    for seed in [0u64, 9, 10, 99, 100, 12345678901234567890] {
        let moves = [0usize, 8, 4];
        assert_eq!(
            encode_record(seed, &moves),
            format_seed_and_moves(seed, &moves).into_bytes()
        );
        assert_eq!(format_seed_and_moves(seed, &[]), seed.to_string());
    }
}

#[test]
fn game_round_holds_seed_and_moves() {
    let round = GameRound { seed: 3, player_moves: vec![4, 0, 8] };
    assert_eq!(format_seed_and_moves(round.seed, &round.player_moves), "3,4,0,8");
}
