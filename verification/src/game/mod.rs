//! The game: men, squares, moves, the board and the move generator, with the
//! laws that are proved of them.

pub mod accepted;
pub mod analysis;
pub mod board;
pub mod check;
pub mod chess_util;
pub mod double;
pub mod exact;
pub mod fen;
pub mod fen_laws;
pub mod mask;
pub mod movegen;
pub mod moves;
pub mod notation;
pub mod piece;
pub mod position;
pub mod rules;
pub mod safety;
pub mod text;

pub use analysis::get_position_info;
pub use analysis::PositionInfo;
pub use board::Board;
pub use fen::FenError;
pub use mask::SquareSet;
pub use movegen::get_num_moves;
pub use movegen::get_possible_moves;
pub use movegen::is_back_rank;
pub use movegen::is_back_two_ranks;
pub use moves::Move;
pub use moves::MoveType;
pub use chess_util::an_to_square;
pub use chess_util::get_king_move_board;
pub use chess_util::get_knight_move_board;
pub use chess_util::square_is_on_board;
pub use chess_util::square_to_an;
pub use chess_util::CastlingRights;
pub use chess_util::Square;
pub use piece::Colour;
pub use piece::Piece;
pub use piece::{BISHOP, BLACK, KING, KNIGHT, PAWN, QUEEN, ROOK, WHITE};
pub use position::Position;
