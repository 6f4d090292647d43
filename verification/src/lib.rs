//! A tic-tac-toe engine with a replay verifier.
//!
//! A match is played between a human and a computer that picks uniformly among
//! the empty cells with a small linear congruential generator. A finished match
//! is written down as a seed and the human's moves; `verify_player_win` replays
//! such a record and says whether the human won.

pub mod board;
pub mod game;
pub mod record;
pub mod render;
pub mod replay;
pub mod rng;

pub use board::{Board, Cell, Player};
pub use game::{get_computer_move, play_turn, TurnResult};
pub use record::{encode_record, format_seed_and_moves, parse_move, parse_seed, GameRound};
pub use render::render_board;
pub use replay::{replay, verify_player_win, Outcome};
pub use rng::SimpleRNG;
