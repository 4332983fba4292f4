//! The board: the position in arrays and lists, kept in step by every
//! move made and taken back.

use vstd::prelude::*;
use crate::game::chess_util::on_board;
use crate::game::chess_util::CastlingRights;
use crate::game::chess_util::Square;
use crate::game::chess_util::{A1, A8, H1, H8};
use crate::game::chess_util::{BLACK_KINGSIDE, BLACK_QUEENSIDE, WHITE_KINGSIDE, WHITE_QUEENSIDE};
use crate::game::moves::Move;
use crate::game::moves::MoveType;
use crate::game::piece::Colour;
use crate::game::piece::Piece;
use crate::game::piece::{BISHOP, KNIGHT, PAWN, QUEEN, ROOK};
use crate::game::position::increasing;
use crate::game::position::lemma_list_unique;
use crate::game::position::lemma_apply_ok;
use crate::game::position::lemma_apply_then_unapply;
use crate::game::position::Position;

verus! {

/// A chess position with the moves that led to it: a bordered board, a list
/// of squares for every kind of man, and the state that the rules need.
pub struct Board {
    pub board: [Piece; 128],
    pub side_to_move: Colour,
    pub turns_taken: u32,
    pub previous_moves: Vec<Move>,
    pub en_passant_chance: Option<Square>,
    pub castling_rights: CastlingRights,
    pub piece_positions: [Vec<Square>; 16],
    pub white_king: Square,
    pub black_king: Square,
}

impl View for Board {
    type V = Position;

    open spec fn view(&self) -> Position {
        Position {
            squares: self.board@,
            side_to_move: self.side_to_move,
            castling_rights: self.castling_rights,
            en_passant: self.en_passant_chance,
            white_king: self.white_king,
            black_king: self.black_king,
            turns_taken: self.turns_taken,
            history: self.previous_moves@,
        }
    }
}

/// The index of a square in a list that holds it.
fn find_square(list: &Vec<Square>, square: Square) -> (r: usize)
    requires
        list@.contains(square),
    ensures
        r < list.len(),
        list@[r as int] == square,
{
    let mut i: usize = 0;
    while i < list.len() && list[i] != square
        invariant
            i <= list.len(),
            list@.contains(square),
            forall|j: int| 0 <= j < i ==> list@[j] != square,
        decreases list.len() - i,
    {
        i += 1;
    }
    i
}

/// Puts a square into an increasing list that lacks it, at its place.
fn insert_sorted(list: &mut Vec<Square>, square: Square) -> (idx: usize)
    requires
        increasing(old(list)@),
        !old(list)@.contains(square),
    ensures
        idx <= old(list)@.len(),
        final(list)@ == old(list)@.insert(idx as int, square),
        increasing(final(list)@),
{
    let mut i: usize = 0;
    while i < list.len() && list[i] < square
        invariant
            i <= list.len(),
            list@ == old(list)@,
            forall|j: int| 0 <= j < i ==> list@[j] < square,
        decreases list.len() - i,
    {
        i += 1;
    }
    assert(i < list.len() ==> list@[i as int] > square) by {
        if i < list.len() {
            assert(list@.contains(list@[i as int]));
        }
    }
    list.insert(i, square);
    assert forall|a: int, b: int| 0 <= a < b < list@.len() implies list@[a] < list@[b] by {
        let before = old(list)@;
        if a < i && b < i {
            assert(list@[a] == before[a] && list@[b] == before[b]);
        } else if a < i && b == i {
        } else if a < i && b > i {
            assert(list@[a] == before[a] && list@[b] == before[b - 1]);
            assert(before[i as int] <= before[b - 1]) by {
                if i < b - 1 {
                    assert(before[i as int] < before[b - 1]);
                }
            }
        } else if a == i {
            assert(list@[b] == before[b - 1]);
            assert(before[i as int] <= before[b - 1]) by {
                if i < b - 1 {
                    assert(before[i as int] < before[b - 1]);
                }
            }
        } else {
            assert(list@[a] == before[a - 1] && list@[b] == before[b - 1]);
        }
    }
    i
}

/// A list of distinct indices below 128 has at most 128 entries.
pub proof fn lemma_square_list_len(list: Seq<u8>)
    requires
        list.no_duplicates(),
        forall|i: int| 0 <= i < list.len() ==> list[i] < 128,
    ensures
        list.len() <= 128,
{
    let f = |x: u8| x as int;
    let mapped = list.map_values(f);
    assert forall|x: u8, y: u8| x != y implies #[trigger] f(x) != #[trigger] f(y) by {}
    vstd::relations::injective(f);
    assert(vstd::relations::injective(f));
    list.lemma_no_duplicates_injective(f);
    mapped.unique_seq_to_set();
    vstd::set_lib::lemma_int_range(0, 128);
    assert forall|x: int| mapped.to_set().contains(x) implies vstd::set_lib::set_int_range(
        0,
        128,
    ).contains(x) by {
        let i = choose|i: int| 0 <= i < mapped.len() && mapped[i] == x;
        assert(mapped[i] == list[i] as int);
    }
    vstd::set_lib::lemma_len_subset(mapped.to_set(), vstd::set_lib::set_int_range(0, 128));
}

impl Board {
    /// Every entry of a list is a square of the field that holds a man with
    /// the list's code.
    pub open spec fn lists_sound(&self) -> bool {
        forall|c: int, i: int|
            0 <= c < 16 && 0 <= i < self.piece_positions@[c]@.len() ==> {
                let sq = #[trigger] self.piece_positions@[c]@[i];
                &&& on_board(sq as int)
                &&& self.board@[sq as int].is_man()
                &&& self.board@[sq as int].spec_code() == c
            }
    }

    /// Every list is in increasing order.
    pub open spec fn lists_sorted(&self) -> bool {
        forall|c: int| 0 <= c < 16 ==> increasing((#[trigger] self.piece_positions@[c])@)
    }

    /// Every man on the board is in the list of its code.
    pub open spec fn lists_complete(&self) -> bool {
        forall|sq: int|
            0 <= sq < 128 && (#[trigger] self.board@[sq]).is_man() ==> self.piece_positions@[self.board@[sq].spec_code() as int]@.contains(
                sq as u8,
            )
    }

    /// The board array and the position lists say the same.
    pub open spec fn sync(&self) -> bool {
        &&& self@.bordered()
        &&& self.lists_sound()
        &&& self.lists_sorted()
        &&& self.lists_complete()
    }

    /// The invariant of a board: array and lists agree, the position is one
    /// of chess, and every move of its history can be taken back.
    pub open spec fn wf(&self) -> bool {
        self.sync() && self@.wf()
    }

    /// Everything but the men is the same in both boards.
    pub open spec fn same_state(&self, other: &Board) -> bool {
        &&& self.side_to_move == other.side_to_move
        &&& self.turns_taken == other.turns_taken
        &&& self.previous_moves == other.previous_moves
        &&& self.en_passant_chance == other.en_passant_chance
        &&& self.castling_rights == other.castling_rights
        &&& self.white_king == other.white_king
        &&& self.black_king == other.black_king
    }

    /// What stands on a square; the border on every index off the field.
    pub fn get_piece(&self, square: Square) -> (r: Piece)
        ensures
            r == self@.piece_at(square as int),
    {
        if square < 128 {
            self.board[square as usize]
        } else {
            Piece::Border
        }
    }

    /// What stands on a rank (0 for rank 8) and a column of the bordered
    /// board.
    pub fn get_piece_rc(&self, row: usize, col: usize) -> (r: Piece)
        requires
            row < 8,
            col < 16,
        ensures
            r == self@.squares[row * 16 + col],
    {
        self.board[row * 16 + col]
    }

    /// Overwrites one entry of the board array and nothing else: the lists
    /// are left as they are.
    pub fn set_piece(&mut self, square: Square, piece: Piece)
        requires
            square < 128,
        ensures
            final(self).board@ == old(self).board@.update(square as int, piece),
            final(self).piece_positions == old(self).piece_positions,
            final(self).same_state(old(self)),
    {
        self.board[square as usize] = piece;
    }

    /// On a board whose array and lists agree, the list of a man is the one
    /// list that its squares have.
    pub proof fn lemma_list_of(&self, piece: Piece)
        requires
            self.sync(),
            piece.is_man(),
        ensures
            self@.squares_of(piece) == self.piece_positions@[piece.spec_code() as int]@,
            self@.lists(piece, self@.squares_of(piece)),
    {
        let c = piece.spec_code() as int;
        let list = self.piece_positions@[c]@;
        assert(increasing(self.piece_positions@[c]@));
        assert forall|i: int| 0 <= i < list.len() implies on_board(#[trigger] list[i] as int)
            && self@.squares[list[i] as int] == piece by {
            let sq = self.piece_positions@[c]@[i];
            assert(self.board@[sq as int].spec_code() == c);
        }
        assert forall|sq: int| on_board(sq) && #[trigger] self@.squares[sq] == piece implies list.contains(
            sq as u8,
        ) by {
            assert(self.board@[sq].is_man());
        }
        lemma_list_unique(self@, piece, list);
    }

    /// The squares on which the given man stands, in increasing order.
    pub fn get_piece_position(&self, piece: Piece) -> (r: &Vec<Square>)
        requires
            self.sync(),
            piece.is_man(),
        ensures
            r@ == self@.squares_of(piece),
            self@.lists(piece, r@),
    {
        proof {
            self.lemma_list_of(piece);
        }
        &self.piece_positions[piece.code() as usize]
    }

    /// Takes the man on `square` off the board.
    fn lift(&mut self, square: Square)
        requires
            old(self).sync(),
            on_board(square as int),
            old(self).board@[square as int].is_man(),
        ensures
            final(self).sync(),
            final(self).board@ == old(self).board@.update(square as int, Piece::Empty),
            final(self).same_state(old(self)),
    {
        let piece = self.board[square as usize];
        let code = piece.code() as usize;
        let idx = find_square(&self.piece_positions[code], square);
        let ghost before = self.piece_positions@[code as int]@;
        self.piece_positions[code].remove(idx);
        self.board[square as usize] = Piece::Empty;
        proof {
            let after = self.piece_positions@[code as int]@;
            assert(after == before.remove(idx as int));
            assert forall|i: int| 0 <= i < after.len() implies after[i] != square && before.contains(
                #[trigger] after[i],
            ) by {
                assert(increasing(old(self).piece_positions@[code as int]@));
                if i < idx {
                    assert(after[i] == before[i]);
                    assert(before[i] < before[idx as int]);
                } else {
                    assert(after[i] == before[i + 1]);
                    assert(before[idx as int] < before[i + 1]);
                }
            }
            assert forall|c: int, i: int|
                0 <= c < 16 && 0 <= i < self.piece_positions@[c]@.len() implies {
                let sq = #[trigger] self.piece_positions@[c]@[i];
                &&& on_board(sq as int)
                &&& self.board@[sq as int].is_man()
                &&& self.board@[sq as int].spec_code() == c
            } by {
                if c == code {
                    let j = if i < idx {
                        i
                    } else {
                        i + 1
                    };
                    assert(after[i] == old(self).piece_positions@[c]@[j]);
                } else {
                    assert(self.piece_positions@[c]@[i] == old(self).piece_positions@[c]@[i]);
                }
            }
            assert forall|sq: int| 0 <= sq < 128 && (#[trigger] self.board@[sq]).is_man() implies self.piece_positions@[self.board@[sq].spec_code() as int]@.contains(
            sq as u8) by {
                assert(old(self).board@[sq].is_man());
                let c = self.board@[sq].spec_code() as int;
                let j = choose|j: int|
                    0 <= j < old(self).piece_positions@[c]@.len() && old(
                        self,
                    ).piece_positions@[c]@[j] == sq as u8;
                if c == code {
                    if j < idx {
                        assert(after[j] == sq as u8);
                    } else {
                        assert(after[j - 1] == sq as u8);
                    }
                } else {
                    assert(self.piece_positions@[c]@[j] == sq as u8);
                }
            }
            assert forall|c: int| 0 <= c < 16 implies increasing(
                (#[trigger] self.piece_positions@[c])@,
            ) by {
                assert(increasing(old(self).piece_positions@[c]@));
            }
        }
    }

    /// Puts a man on an empty square.
    pub(crate) fn place(&mut self, square: Square, piece: Piece)
        requires
            old(self).sync(),
            on_board(square as int),
            old(self).board@[square as int] == Piece::Empty,
            piece.is_man(),
        ensures
            final(self).sync(),
            final(self).board@ == old(self).board@.update(square as int, piece),
            final(self).same_state(old(self)),
    {
        let code = piece.code() as usize;
        let ghost before = self.piece_positions@[code as int]@;
        proof {
            if before.contains(square) {
                let j = choose|j: int| 0 <= j < before.len() && before[j] == square;
                assert(self.board@[self.piece_positions@[code as int]@[j] as int].is_man());
            }
        }
        let idx = insert_sorted(&mut self.piece_positions[code], square);
        self.board[square as usize] = piece;
        proof {
            let after = self.piece_positions@[code as int]@;
            assert(after == before.insert(idx as int, square));
            assert forall|c: int, i: int|
                0 <= c < 16 && 0 <= i < self.piece_positions@[c]@.len() implies {
                let sq = #[trigger] self.piece_positions@[c]@[i];
                &&& on_board(sq as int)
                &&& self.board@[sq as int].is_man()
                &&& self.board@[sq as int].spec_code() == c
            } by {
                if c == code {
                    if i < idx {
                        assert(after[i] == old(self).piece_positions@[c]@[i]);
                    } else if i > idx {
                        assert(after[i] == old(self).piece_positions@[c]@[i - 1]);
                    }
                } else {
                    assert(self.piece_positions@[c]@[i] == old(self).piece_positions@[c]@[i]);
                }
            }
            assert forall|sq: int| 0 <= sq < 128 && (#[trigger] self.board@[sq]).is_man() implies self.piece_positions@[self.board@[sq].spec_code() as int]@.contains(
            sq as u8) by {
                let c = self.board@[sq].spec_code() as int;
                if sq == square {
                    assert(after[idx as int] == square);
                } else {
                    assert(old(self).board@[sq].is_man());
                    let j = choose|j: int|
                        0 <= j < old(self).piece_positions@[c]@.len() && old(
                            self,
                        ).piece_positions@[c]@[j] == sq as u8;
                    if c == code {
                        if j < idx {
                            assert(after[j] == sq as u8);
                        } else {
                            assert(after[j + 1] == sq as u8);
                        }
                    } else {
                        assert(self.piece_positions@[c]@[j] == sq as u8);
                    }
                }
            }
            assert forall|c: int| 0 <= c < 16 implies increasing(
                (#[trigger] self.piece_positions@[c])@,
            ) by {
                assert(increasing(old(self).piece_positions@[c]@));
            }
        }
    }

    /// Carries the man on `from` to the empty square `to`.
    fn relocate(&mut self, from: Square, to: Square)
        requires
            old(self).sync(),
            on_board(from as int),
            on_board(to as int),
            old(self).board@[from as int].is_man(),
            old(self).board@[to as int] == Piece::Empty,
        ensures
            final(self).sync(),
            final(self).board@ == old(self).board@.update(
                to as int,
                old(self).board@[from as int],
            ).update(from as int, Piece::Empty),
            final(self).same_state(old(self)),
    {
        let piece = self.board[from as usize];
        self.lift(from);
        self.place(to, piece);
        assert(self.board@ =~= old(self).board@.update(to as int, piece).update(
            from as int,
            Piece::Empty,
        ));
    }

    /// On a board whose array and lists agree no list is longer than the
    /// board.
    pub proof fn lemma_count_bound(&self, piece: Piece)
        requires
            self.sync(),
            piece.is_man(),
        ensures
            self@.count(piece) <= 128,
            self@.count(piece) == self.piece_positions@[piece.spec_code() as int]@.len(),
    {
        self.lemma_list_of(piece);
        let c = piece.spec_code() as int;
        let list = self.piece_positions@[c]@;
        assert forall|i: int| 0 <= i < list.len() implies list[i] < 128 by {
            assert(on_board(self.piece_positions@[c]@[i] as int));
        }
        assert(increasing(self.piece_positions@[c]@));
        assert forall|i: int, j: int|
            0 <= i < list.len() && 0 <= j < list.len() && i != j implies list[i] != list[j] by {
            if i < j {
                assert(list[i] < list[j]);
            } else {
                assert(list[j] < list[i]);
            }
        }
        lemma_square_list_len(list);
    }

    fn count(&self, piece: Piece) -> (r: u32)
        requires
            self.sync(),
            piece.is_man(),
        ensures
            r == self@.count(piece),
            r <= 128,
    {
        proof {
            self.lemma_count_bound(piece);
        }
        self.piece_positions[piece.code() as usize].len() as u32
    }

    /// How many pawns, knights, bishops, rooks and queens a side has, in that
    /// order, followed by its one king.
    pub fn get_piece_counts(&self, colour: Colour) -> (r: [u32; 6])
        requires
            self.sync(),
        ensures
            r@[0] == self@.count(Piece::spec_of(colour, PAWN)),
            r@[1] == self@.count(Piece::spec_of(colour, KNIGHT)),
            r@[2] == self@.count(Piece::spec_of(colour, BISHOP)),
            r@[3] == self@.count(Piece::spec_of(colour, ROOK)),
            r@[4] == self@.count(Piece::spec_of(colour, QUEEN)),
            r@[5] == 1,
            forall|k: int| 0 <= k < 6 ==> r@[k] <= 128,
    {
        [
            self.count(Piece::of(colour, PAWN)),
            self.count(Piece::of(colour, KNIGHT)),
            self.count(Piece::of(colour, BISHOP)),
            self.count(Piece::of(colour, ROOK)),
            self.count(Piece::of(colour, QUEEN)),
            1,
        ]
    }

    /// Whether neither side has the men to mate.
    pub fn is_draw_by_insufficient_material(&self) -> (r: bool)
        requires
            self.sync(),
        ensures
            r == self@.insufficient_material(),
    {
        self.count(Piece::WhitePawn) == 0 && self.count(Piece::WhiteRook) == 0 && self.count(
            Piece::WhiteQueen,
        ) == 0 && self.count(Piece::WhiteBishop) + self.count(Piece::WhiteKnight) <= 1
            && self.count(Piece::BlackPawn) == 0 && self.count(Piece::BlackRook) == 0
            && self.count(Piece::BlackQueen) == 0 && self.count(Piece::BlackBishop) + self.count(
            Piece::BlackKnight,
        ) <= 1
    }

    /// Makes a move that the position accepts: the men move on the board and
    /// in the lists, the rights and the en-passant target follow, the other
    /// side is to move, and the move is kept so that it can be taken back.
    pub fn make_move(&mut self, move_to_make: &Move)
        requires
            old(self).wf(),
            old(self)@.accepts(*move_to_make),
            old(self).turns_taken < u32::MAX,
        ensures
            final(self).wf(),
            final(self)@ == old(self)@.apply(*move_to_make),
    {
        let m = *move_to_make;
        let move_colour = self.side_to_move;
        let opp_colour = move_colour.opposite();
        match m.move_type {
            MoveType::EnPassant => {
                let captured_square = opp_colour.offset_rank(m.end_square);
                self.lift(captured_square);
                self.relocate(m.start_square, m.end_square);
            },
            MoveType::Promotion(promote_to) => {
                if m.replaced_piece != Piece::Empty {
                    self.lift(m.end_square);
                }
                self.lift(m.start_square);
                self.place(m.end_square, promote_to);
            },
            MoveType::Castle => {
                let (rook_start_square, rook_end_square) = if m.end_square % 16 < 4 {
                    (m.end_square - 2, m.end_square + 1)
                } else {
                    (m.end_square + 1, m.end_square - 1)
                };
                self.relocate(m.start_square, m.end_square);
                self.relocate(rook_start_square, rook_end_square);
            },
            _ => {
                if m.replaced_piece != Piece::Empty {
                    self.lift(m.end_square);
                }
                self.relocate(m.start_square, m.end_square);
            },
        }
        assert(self.board@ =~= old(self)@.squares_after(m));
        let mut rights = self.castling_rights;
        if m.moved_piece == Piece::WhiteRook && m.start_square == H1 {
            rights = rights & !WHITE_KINGSIDE;
        } else if m.moved_piece == Piece::WhiteRook && m.start_square == A1 {
            rights = rights & !WHITE_QUEENSIDE;
        } else if m.moved_piece == Piece::BlackRook && m.start_square == H8 {
            rights = rights & !BLACK_KINGSIDE;
        } else if m.moved_piece == Piece::BlackRook && m.start_square == A8 {
            rights = rights & !BLACK_QUEENSIDE;
        } else if m.moved_piece == Piece::WhiteKing {
            rights = rights & !12u8;
            self.white_king = m.end_square;
        } else if m.moved_piece == Piece::BlackKing {
            rights = rights & !3u8;
            self.black_king = m.end_square;
        }
        if m.end_square == H1 {
            rights = rights & !WHITE_KINGSIDE;
        } else if m.end_square == A1 {
            rights = rights & !WHITE_QUEENSIDE;
        } else if m.end_square == H8 {
            rights = rights & !BLACK_KINGSIDE;
        } else if m.end_square == A8 {
            rights = rights & !BLACK_QUEENSIDE;
        }
        self.castling_rights = rights;
        self.en_passant_chance = if m.move_type == MoveType::PawnDouble {
            Some(opp_colour.offset_rank(m.end_square))
        } else {
            None
        };
        self.side_to_move = opp_colour;
        self.previous_moves.push(m);
        self.turns_taken += 1;
        proof {
            lemma_apply_ok(old(self)@, m);
            lemma_apply_then_unapply(old(self)@, m);
            assert(self@ == old(self)@.apply(m));
            assert(self@.history.len() > 0);
            assert(self@.history.last() == m);
        }
    }

    /// Takes the last move back: the exact inverse of `make_move`.
    #[verifier::rlimit(60)]
    pub fn undo_move(&mut self)
        requires
            old(self).wf(),
            old(self).previous_moves.len() > 0,
        ensures
            final(self).wf(),
            final(self)@ == old(self)@.unapply(),
    {
        let ghost before = self@.unapply();
        let ghost last = self@.history.last();
        assert(before.ok() && before.accepts(last) && before.apply(last) == self@
            && before.history_ok() && before.turns_taken < u32::MAX);
        let popped = self.previous_moves.pop();
        let m = match popped {
            Some(m) => m,
            None => Move::default(),
        };
        assert(m == last);
        assert(self.board@ == before.squares_after(m));
        let opp_colour = self.side_to_move;
        let move_colour = opp_colour.opposite();
        match m.move_type {
            MoveType::EnPassant => {
                self.relocate(m.end_square, m.start_square);
                let captured_square = opp_colour.offset_rank(m.end_square);
                self.place(captured_square, Piece::of(opp_colour, PAWN));
            },
            MoveType::Promotion(_) => {
                self.lift(m.end_square);
                self.place(m.start_square, Piece::of(move_colour, PAWN));
                if m.replaced_piece != Piece::Empty {
                    self.place(m.end_square, m.replaced_piece);
                }
            },
            MoveType::Castle => {
                let (rook_start_square, rook_end_square) = if m.end_square % 16 < 4 {
                    (m.end_square - 2, m.end_square + 1)
                } else {
                    (m.end_square + 1, m.end_square - 1)
                };
                self.relocate(m.end_square, m.start_square);
                self.relocate(rook_end_square, rook_start_square);
            },
            _ => {
                self.relocate(m.end_square, m.start_square);
                if m.replaced_piece != Piece::Empty {
                    self.place(m.end_square, m.replaced_piece);
                }
            },
        }
        if m.moved_piece == Piece::WhiteKing {
            self.white_king = m.start_square;
        } else if m.moved_piece == Piece::BlackKing {
            self.black_king = m.start_square;
        }
        self.en_passant_chance = m.old_en_passant;
        self.castling_rights = m.old_castling_rights;
        self.side_to_move = move_colour;
        self.turns_taken -= 1;
        proof {
            assert(self.board@ =~= old(self)@.squares_before(m));
            assert(self@ == old(self)@.unapply());
        }
    }
}

} // verus!
