//! An Othello engine on bitboards: move generation, move application, scoring and an
//! alpha-beta search, each with its behaviour stated and proved.
pub mod alphabeta;
pub mod othello;
pub mod terminal;
pub mod types;

pub use alphabeta::{alphabeta, evaluate, evaluate_end, move_value, pick_best, AlphaBetaPlayer};
pub use othello::Othello;
pub use terminal::{no_screen_play, parse_square, side_to_move, winner, TerminalPlayer};
pub use types::{BitBoard, BitBoardTrait, Color, Player, Score, Square};
