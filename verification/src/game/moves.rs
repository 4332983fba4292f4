//! Moves as records that can be applied and taken back.

use vstd::prelude::*;
use crate::game::board::Board;
use crate::game::chess_util::CastlingRights;
use crate::game::chess_util::Square;
use crate::game::piece::Piece;

verus! {

/// What a move does besides carrying one man from its start to its end.
#[derive(Clone, Copy, PartialEq, Eq, Structural, Debug)]
pub enum MoveType {
    Normal,
    PawnDouble,
    Promotion(Piece),
    EnPassant,
    Castle,
}

/// A move together with all that is needed to take it back: the man that
/// moved, what stood on the end square, and the castling rights and the
/// en-passant target of the position it was made for.
#[derive(Clone, Copy, Debug)]
pub struct Move {
    pub start_square: Square,
    pub end_square: Square,
    pub moved_piece: Piece,
    pub replaced_piece: Piece,
    pub old_castling_rights: CastlingRights,
    pub old_en_passant: Option<Square>,
    pub move_type: MoveType,
}

impl Default for Move {
    fn default() -> (r: Move)
        ensures
            r == (Move {
                start_square: 0,
                end_square: 0,
                moved_piece: Piece::Empty,
                replaced_piece: Piece::Empty,
                old_castling_rights: 0,
                old_en_passant: None,
                move_type: MoveType::Normal,
            }),
    {
        Move {
            start_square: 0,
            end_square: 0,
            moved_piece: Piece::Empty,
            replaced_piece: Piece::Empty,
            old_castling_rights: 0,
            old_en_passant: None,
            move_type: MoveType::Normal,
        }
    }
}

impl Move {
    /// The move of the given kind between two squares of `board`, with the
    /// men and the rights read off the board.
    pub open spec fn spec_create(
        board: &Board,
        start_square: Square,
        end_square: Square,
        move_type: MoveType,
    ) -> Move {
        board@.new_move(start_square, end_square, move_type)
    }

    /// Whether two moves are the same move in long algebraic notation: the
    /// same start and end, and the same man promoted to where one is.
    pub open spec fn same_identity(self, other: Move) -> bool {
        &&& self.start_square == other.start_square
        &&& self.end_square == other.end_square
        &&& (self.move_type is Promotion || other.move_type is Promotion) ==> self.move_type
            == other.move_type
    }

    /// The move of the given kind between two squares of `board`.
    pub fn create_move(
        board: &Board,
        start_square: Square,
        end_square: Square,
        move_type: MoveType,
    ) -> (r: Move)
        ensures
            r == Move::spec_create(board, start_square, end_square, move_type),
    {
        Move {
            start_square,
            end_square,
            moved_piece: board.get_piece(start_square),
            replaced_piece: board.get_piece(end_square),
            old_castling_rights: board.castling_rights,
            old_en_passant: board.en_passant_chance,
            move_type,
        }
    }

    /// A move that carries one man to another square.
    pub fn new(board: &Board, start_square: Square, end_square: Square) -> (r: Move)
        ensures
            r == Move::spec_create(board, start_square, end_square, MoveType::Normal),
    {
        Move::create_move(board, start_square, end_square, MoveType::Normal)
    }

    /// A pawn's step of two squares.
    pub fn new_pawn_double(board: &Board, start_square: Square, end_square: Square) -> (r: Move)
        ensures
            r == Move::spec_create(board, start_square, end_square, MoveType::PawnDouble),
    {
        Move::create_move(board, start_square, end_square, MoveType::PawnDouble)
    }

    /// A pawn's capture in passing.
    pub fn new_en_passant(board: &Board, start_square: Square, end_square: Square) -> (r: Move)
        ensures
            r == Move::spec_create(board, start_square, end_square, MoveType::EnPassant),
    {
        Move::create_move(board, start_square, end_square, MoveType::EnPassant)
    }

    /// A pawn's arrival on the last rank as `promote_piece`.
    pub fn new_promotion(
        board: &Board,
        start_square: Square,
        end_square: Square,
        promote_piece: Piece,
    ) -> (r: Move)
        ensures
            r == Move::spec_create(
                board,
                start_square,
                end_square,
                MoveType::Promotion(promote_piece),
            ),
    {
        Move::create_move(board, start_square, end_square, MoveType::Promotion(promote_piece))
    }

    /// The king's part of castling; the rook follows when the move is made.
    pub fn new_castle(board: &Board, start_square: Square, end_square: Square) -> (r: Move)
        ensures
            r == Move::spec_create(board, start_square, end_square, MoveType::Castle),
    {
        Move::create_move(board, start_square, end_square, MoveType::Castle)
    }
}

} // verus!
