//! Players: the searches and the scoring functions they are given.

pub mod alphabeta;
pub mod clock;
pub mod iterativedeepening;
pub mod minimax;
pub mod player;
pub mod scoring;

pub use alphabeta::AlphaBetaPlayer;
pub use iterativedeepening::IterativeDeepening;
pub use minimax::MiniMaxPlayer;
pub use player::basic_move_ordering;
pub use player::Player;
pub use scoring::advanced_eval;
pub use scoring::basic_eval;
pub use scoring::{LOSE_SCORE, MAX_SCORE, MIN_SCORE, WIN_SCORE};
