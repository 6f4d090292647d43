//! Replaying a game record to decide whether the human won.

use vstd::prelude::*;
use vstd::slice::slice_subrange;
use vstd::string::*;
use crate::board::{
    accepts, after_move, empty_cells, full, lemma_empty_cells, lemma_move_takes_one_empty,
    lemma_only_mover_wins, winner, Board, Cell,
};
use crate::game::{computer_choice, turn_result, TurnResult};
use crate::record::{
    lemma_first_comma, move_of, parse_move, parse_seed, seed_of, split, token_end, token_len,
    tokens_after,
};
use crate::rng::{lcg_next, SimpleRNG};

verus! {

/// How a replay ends.
#[derive(Copy, Clone, Debug, PartialEq, Eq, Structural)]
pub enum Outcome {
    /// Every move was legal and the human completed a line.
    HumanWon,
    /// Every move was legal and the computer completed a line.
    OpponentWon,
    /// Every move was legal and the board filled up with no line complete.
    Draw,
    /// The record is malformed, names an illegal move, or stops before the game
    /// is decided.
    Invalid,
}

/// The cells of a fresh board.
pub open spec fn empty_board() -> Seq<Cell> {
    Seq::new(9, |i: int| Cell::Empty)
}

/// Replays the human's moves `tokens` from the position `cells`, with the
/// generator at `state`. Each round places the human's mark, stops if that wins
/// or fills the board, and only then advances the generator for the computer's
/// reply.
pub open spec fn replay_moves(cells: Seq<Cell>, state: u64, tokens: Seq<Seq<u8>>) -> Outcome
    decreases tokens.len(),
{
    if tokens.len() == 0 {
        Outcome::Invalid
    } else {
        match move_of(tokens[0]) {
            None => Outcome::Invalid,
            Some(position) => {
                if !accepts(cells, position as int) {
                    Outcome::Invalid
                } else {
                    let played = cells.update(position as int, Cell::Z);
                    if winner(played) == Some(Cell::Z) {
                        Outcome::HumanWon
                    } else if empty_cells(played).len() == 0 {
                        Outcome::Draw
                    } else {
                        let drawn = lcg_next(state);
                        let answered = played.update(
                            computer_choice(played, drawn) as int,
                            Cell::K,
                        );
                        if winner(answered) == Some(Cell::K) {
                            Outcome::OpponentWon
                        } else {
                            replay_moves(answered, drawn, tokens.skip(1))
                        }
                    }
                }
            },
        }
    }
}

/// How the replay of a record ends: its first token is the seed, the others
/// are the human's moves.
pub open spec fn replay_outcome(record: Seq<u8>) -> Outcome {
    let tokens = split(record);
    match seed_of(tokens[0]) {
        None => Outcome::Invalid,
        Some(seed) => replay_moves(empty_board(), seed, tokens.skip(1)),
    }
}

/// The verdict on a record: whether its replay ends with the human's win.
pub open spec fn record_verdict(record: Seq<u8>) -> bool {
    replay_outcome(record) == Outcome::HumanWon
}

/// The first token of a text ends at its first comma, and the others are the
/// tokens after that comma.
pub proof fn lemma_split_first(s: Seq<u8>)
    ensures
        split(s).len() > 0,
        split(s)[0] == s.take(token_len(s)),
        split(s).skip(1) == tokens_after(s, token_len(s)),
{
    lemma_first_comma(s);
    let k = token_len(s);
    if k < s.len() {
        assert(split(s).skip(1) =~= split(s.skip(k + 1)));
    } else {
        assert(s.take(k) =~= s);
        assert(split(s).skip(1) =~= Seq::<Seq<u8>>::empty());
    }
}

/// After a comma at `at` comes a token that runs to the next comma or the end,
/// and then the tokens after that place.
pub proof fn lemma_tokens_after(s: Seq<u8>, at: int)
    requires
        0 <= at < s.len(),
    ensures
        tokens_after(s, at).len() > 0,
        at + 1 + token_len(s.skip(at + 1)) <= s.len(),
        tokens_after(s, at)[0] == s.subrange(at + 1, at + 1 + token_len(s.skip(at + 1))),
        tokens_after(s, at).skip(1) == tokens_after(s, at + 1 + token_len(s.skip(at + 1))),
{
    let t = s.skip(at + 1);
    let k = token_len(t);
    lemma_first_comma(t);
    lemma_split_first(t);
    assert(t.take(k) =~= s.subrange(at + 1, at + 1 + k));
    if k < t.len() {
        assert(t.skip(k + 1) =~= s.skip(at + 1 + k + 1));
    }
}

/// Replays a record and says how the game it describes ends.
pub fn replay(record: &[u8]) -> (outcome: Outcome)
    ensures
        outcome == replay_outcome(record@),
{
    let n: usize = record.len();
    let seed_end: usize = token_end(record, 0);
    proof {
        lemma_split_first(record@);
        assert(record@.skip(0) =~= record@);
        assert(record@.take(seed_end as int) =~= record@.subrange(0, seed_end as int));
    }
    let seed: u64 = match parse_seed(slice_subrange(record, 0, seed_end)) {
        Some(seed) => seed,
        None => {
            return Outcome::Invalid;
        },
    };
    let mut rng = SimpleRNG::new(seed);
    let mut board = Board::new();
    let mut at: usize = seed_end;
    while at < n
        invariant
            n == record@.len(),
            at <= n,
            board@.len() == 9,
            replay_outcome(record@) == replay_moves(
                board@,
                rng.state,
                tokens_after(record@, at as int),
            ),
        decreases n - at,
    {
        let start: usize = at + 1;
        let end: usize = token_end(record, start);
        proof {
            lemma_tokens_after(record@, at as int);
        }
        let position: usize = match parse_move(slice_subrange(record, start, end)) {
            Some(position) => position,
            None => {
                return Outcome::Invalid;
            },
        };
        if !board.make_move(position, Cell::Z) {
            return Outcome::Invalid;
        }
        if is_mark(board.check_winner(), Cell::Z) {
            return Outcome::HumanWon;
        }
        let empties: Vec<usize> = board.get_empty_cells();
        if empties.len() == 0 {
            return Outcome::Draw;
        }
        proof {
            lemma_empty_cells(board@);
        }
        let choice: usize = empties[rng.rand_range(0, empties.len() - 1)];
        let placed: bool = board.make_move(choice, Cell::K);
        assert(placed);
        if is_mark(board.check_winner(), Cell::K) {
            return Outcome::OpponentWon;
        }
        at = end;
    }
    Outcome::Invalid
}

/// Whether a scan result is the given mark.
fn is_mark(found: Option<Cell>, mark: Cell) -> (r: bool)
    ensures
        r == (found == Some(mark)),
{
    match found {
        Some(cell) => cell == mark,
        None => false,
    }
}

/// Decides whether a record describes a legal game that the human won. Draws,
/// the computer's wins and every kind of bad record all give `false`.
pub fn verify_player_win(input: &str) -> (verdict: bool)
    ensures
        verdict == record_verdict(input.spec_bytes()),
{
    match replay(input.as_bytes()) {
        Outcome::HumanWon => true,
        _ => false,
    }
}

/// The verdict depends on the text of the record alone: two records with the
/// same bytes get the same verdict, and their replays end the same way.
pub proof fn lemma_verdict_deterministic(first: Seq<u8>, second: Seq<u8>)
    requires
        first.len() == second.len(),
        forall|i: int| 0 <= i < first.len() ==> first[i] == second[i],
    ensures
        replay_outcome(first) == replay_outcome(second),
        record_verdict(first) == record_verdict(second),
{
    assert(first =~= second);
}

/// A round ends the replay as invalid when no token is left, when the token is
/// no cell index, and when the cell it names is not free.
pub proof fn lemma_round_invalid(cells: Seq<Cell>, state: u64, tokens: Seq<Seq<u8>>)
    ensures
        tokens.len() == 0 ==> replay_moves(cells, state, tokens) == Outcome::Invalid,
        tokens.len() > 0 && move_of(tokens[0]) is None ==> replay_moves(cells, state, tokens)
            == Outcome::Invalid,
        tokens.len() > 0 && move_of(tokens[0]) is Some && !accepts(
            cells,
            move_of(tokens[0])->0 as int,
        ) ==> replay_moves(cells, state, tokens) == Outcome::Invalid,
{
}

/// Only the human's win gives `true`: a draw, the computer's win and an
/// invalid record each give `false`. A record is invalid, in particular, when
/// its seed is no 64-bit number, when it holds no move, and when its first move
/// is no cell index.
pub proof fn lemma_verdict_collapses(record: Seq<u8>)
    ensures
        replay_outcome(record) == Outcome::Draw ==> !record_verdict(record),
        replay_outcome(record) == Outcome::OpponentWon ==> !record_verdict(record),
        replay_outcome(record) == Outcome::Invalid ==> !record_verdict(record),
        seed_of(split(record)[0]) is None ==> replay_outcome(record) == Outcome::Invalid,
        split(record).len() == 1 ==> replay_outcome(record) == Outcome::Invalid,
        split(record).len() > 1 && move_of(split(record)[1]) is None ==> replay_outcome(record)
            == Outcome::Invalid,
{
    lemma_split_first(record);
    let tokens = split(record);
    if tokens.len() > 1 {
        assert(tokens.skip(1)[0] == tokens[1]);
    }
}

/// A round of the replay is a turn of the human followed by a turn of the
/// computer, decided as a match decides them. On a board without a complete
/// line where the human is to move (an odd number of cells is free): a rejected
/// move makes the record invalid; a win after the human's move is the human's;
/// a draw comes only with the human's move; a win after the computer's answer
/// is the computer's; and otherwise the replay goes on with the next token from
/// a board that again has no complete line and an odd number of free cells.
pub proof fn lemma_round_follows_turns(cells: Seq<Cell>, state: u64, tokens: Seq<Seq<u8>>)
    requires
        cells.len() == 9,
        winner(cells) is None,
        empty_cells(cells).len() % 2 == 1,
        tokens.len() > 0,
        move_of(tokens[0]) is Some,
    ensures
        ({
            let position = move_of(tokens[0])->0 as int;
            let played = after_move(cells, position, Cell::Z);
            let drawn = lcg_next(state);
            let choice = computer_choice(played, drawn) as int;
            let answered = after_move(played, choice, Cell::K);
            let outcome = replay_moves(cells, state, tokens);
            match turn_result(cells, position, Cell::Z, Cell::Z, Cell::K) {
                TurnResult::Rejected => outcome == Outcome::Invalid,
                TurnResult::Won(mark) => mark == Cell::Z && outcome == Outcome::HumanWon,
                TurnResult::Draw => outcome == Outcome::Draw,
                TurnResult::Next(_) => match turn_result(
                    played,
                    choice,
                    Cell::K,
                    Cell::Z,
                    Cell::K,
                ) {
                    TurnResult::Won(mark) => mark == Cell::K && outcome == Outcome::OpponentWon,
                    TurnResult::Next(_) => {
                        &&& outcome == replay_moves(answered, drawn, tokens.skip(1))
                        &&& winner(answered) is None
                        &&& empty_cells(answered).len() % 2 == 1
                    },
                    TurnResult::Rejected => false,
                    TurnResult::Draw => false,
                },
            }
        }),
{
    let position = move_of(tokens[0])->0 as int;
    if accepts(cells, position) {
        let played = cells.update(position, Cell::Z);
        lemma_only_mover_wins(cells, position, Cell::Z);
        lemma_move_takes_one_empty(cells, position, Cell::Z);
        lemma_empty_cells(played);
        if winner(played) is None && !full(played) {
            let drawn = lcg_next(state);
            let free = empty_cells(played);
            let choice = computer_choice(played, drawn) as int;
            assert(0 <= (drawn as int) % (free.len() as int) < free.len());
            assert(accepts(played, choice));
            let answered = played.update(choice, Cell::K);
            lemma_only_mover_wins(played, choice, Cell::K);
            lemma_move_takes_one_empty(played, choice, Cell::K);
            lemma_empty_cells(answered);
        }
    }
}

} // verus!
