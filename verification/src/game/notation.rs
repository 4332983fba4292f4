//! Moves in long and in short algebraic notation.

use vstd::prelude::*;
use crate::game::board::Board;
use crate::game::chess_util::file_char;
use crate::game::chess_util::file_letter;
use crate::game::chess_util::on_board;
use crate::game::chess_util::rank_char;
use crate::game::chess_util::rank_digit;
use crate::game::movegen::get_possible_moves;
use crate::game::movegen::legal_moves;
use crate::game::moves::Move;
use crate::game::moves::MoveType;
use crate::game::piece::Piece;
use crate::game::text::chars_of;
use crate::game::text::string_of;

verus! {

/// The lower-case letter of a man's kind.
pub open spec fn kind_letter(piece: Piece) -> char {
    match piece {
        Piece::WhitePawn | Piece::BlackPawn => 'p',
        Piece::WhiteKnight | Piece::BlackKnight => 'n',
        Piece::WhiteBishop | Piece::BlackBishop => 'b',
        Piece::WhiteRook | Piece::BlackRook => 'r',
        Piece::WhiteQueen | Piece::BlackQueen => 'q',
        Piece::WhiteKing | Piece::BlackKing => 'k',
        Piece::Empty => ' ',
        Piece::Border => '#',
    }
}

/// A move in long algebraic notation: the names of its start and its end,
/// and behind them the letter of the man a pawn is promoted to.
pub open spec fn long_an_text(m: Move) -> Seq<char> {
    let squares = seq![
        file_char(m.start_square),
        rank_char(m.start_square),
        file_char(m.end_square),
        rank_char(m.end_square),
    ];
    match m.move_type {
        MoveType::Promotion(piece) => squares.push(kind_letter(piece)),
        _ => squares,
    }
}

/// Whether `other` moves the same kind of man as `m` to the same square
/// from another one.
pub open spec fn is_rival(m: Move, other: Move) -> bool {
    other.moved_piece == m.moved_piece && other.end_square == m.end_square && other.start_square
        != m.start_square
}

/// Whether one of the first `n` moves of a list is a rival of `m`.
pub open spec fn has_rival(moves: Seq<Move>, m: Move, n: int) -> bool
    decreases n,
{
    n > 0 && (has_rival(moves, m, n - 1) || is_rival(m, moves[n - 1]))
}

/// Whether one of the first `n` moves of a list is a rival of `m` that
/// starts on the same file.
pub open spec fn has_file_rival(moves: Seq<Move>, m: Move, n: int) -> bool
    decreases n,
{
    n > 0 && (has_file_rival(moves, m, n - 1) || (is_rival(m, moves[n - 1])
        && moves[n - 1].start_square % 16 == m.start_square % 16))
}

/// Whether one of the first `n` moves of a list is a rival of `m` that
/// starts on the same rank.
pub open spec fn has_rank_rival(moves: Seq<Move>, m: Move, n: int) -> bool
    decreases n,
{
    n > 0 && (has_rank_rival(moves, m, n - 1) || (is_rival(m, moves[n - 1])
        && moves[n - 1].start_square / 16 == m.start_square / 16))
}

/// What is written of the start square of a man that is no pawn: nothing
/// without a rival, the file if no rival shares it, else the rank if no
/// rival shares that, else both.
pub open spec fn origin_text(m: Move, moves: Seq<Move>) -> Seq<char> {
    let n = moves.len() as int;
    if !has_rival(moves, m, n) {
        Seq::empty()
    } else if !has_file_rival(moves, m, n) {
        seq![file_char(m.start_square)]
    } else if !has_rank_rival(moves, m, n) {
        seq![rank_char(m.start_square)]
    } else {
        seq![file_char(m.start_square), rank_char(m.start_square)]
    }
}

/// Whether a move takes a man.
pub open spec fn is_capture(m: Move) -> bool {
    m.replaced_piece != Piece::Empty || m.move_type == MoveType::EnPassant
}

/// A move in short algebraic notation, among the moves that can be made:
/// castling as `O-O` and `O-O-O`; else the letter of the man unless it is a
/// pawn, what tells it from its rivals, an `x` for a capture (for a pawn
/// behind its file), the end square, and `=` with the man promoted to.
pub open spec fn an_text(m: Move, moves: Seq<Move>) -> Seq<char> {
    if m.move_type == MoveType::Castle {
        if m.end_square % 16 < 4 {
            seq!['O', '-', 'O', '-', 'O']
        } else {
            seq!['O', '-', 'O']
        }
    } else {
        let mover = if m.moved_piece.spec_is_pawn() {
            if is_capture(m) {
                seq![file_char(m.start_square)]
            } else {
                Seq::empty()
            }
        } else {
            seq![m.moved_piece.spec_to_an_char()] + origin_text(m, moves)
        };
        let takes = if is_capture(m) {
            seq!['x']
        } else {
            Seq::empty()
        };
        let promotion = match m.move_type {
            MoveType::Promotion(piece) => seq!['=', piece.spec_to_an_char()],
            _ => Seq::empty(),
        };
        mover + takes + seq![file_char(m.end_square), rank_char(m.end_square)] + promotion
    }
}

/// A move text without the one mark of check or mate at its end.
pub open spec fn without_check_mark(text: Seq<char>) -> Seq<char> {
    if text.len() > 0 && (text.last() == '+' || text.last() == '#') {
        text.drop_last()
    } else {
        text
    }
}

/// Whether `found` is the first move of a list whose text, as `text_of`
/// gives it, is `text`; or that there is none.
pub open spec fn is_first_match(
    moves: Seq<Move>,
    text_of: spec_fn(Move) -> Seq<char>,
    text: Seq<char>,
    found: Option<Move>,
) -> bool {
    match found {
        Some(m) => exists|k: int|
            0 <= k < moves.len() && #[trigger] moves[k] == m && text_of(m) == text && forall|j: int|
                0 <= j < k ==> text_of(#[trigger] moves[j]) != text,
        None => forall|j: int| 0 <= j < moves.len() ==> text_of(#[trigger] moves[j]) != text,
    }
}

fn same_chars(a: &Vec<char>, b: &Vec<char>) -> (r: bool)
    ensures
        r == (a@ == b@),
{
    if a.len() != b.len() {
        return false;
    }
    let mut i: usize = 0;
    while i < a.len()
        invariant
            i <= a.len(),
            a.len() == b.len(),
            forall|j: int| 0 <= j < i ==> a@[j] == b@[j],
        decreases a.len() - i,
    {
        if a[i] != b[i] {
            return false;
        }
        i += 1;
    }
    assert(a@ =~= b@);
    true
}

fn lower_kind_letter(piece: Piece) -> (r: char)
    ensures
        r == kind_letter(piece),
{
    match piece {
        Piece::WhitePawn | Piece::BlackPawn => 'p',
        Piece::WhiteKnight | Piece::BlackKnight => 'n',
        Piece::WhiteBishop | Piece::BlackBishop => 'b',
        Piece::WhiteRook | Piece::BlackRook => 'r',
        Piece::WhiteQueen | Piece::BlackQueen => 'q',
        Piece::WhiteKing | Piece::BlackKing => 'k',
        Piece::Empty => ' ',
        Piece::Border => '#',
    }
}

impl Move {
    /// Whether both squares of the move are on the board.
    pub open spec fn on_board(self) -> bool {
        on_board(self.start_square as int) && on_board(self.end_square as int)
    }

    fn long_an_chars(&self) -> (r: Vec<char>)
        requires
            self.on_board(),
        ensures
            r@ == long_an_text(*self),
    {
        let mut out: Vec<char> = Vec::new();
        out.push(file_letter(self.start_square));
        out.push(rank_digit(self.start_square));
        out.push(file_letter(self.end_square));
        out.push(rank_digit(self.end_square));
        match self.move_type {
            MoveType::Promotion(piece) => {
                out.push(lower_kind_letter(piece));
            },
            _ => {},
        }
        assert(out@ =~= long_an_text(*self));
        out
    }

    /// The move in long algebraic notation.
    pub fn as_long_an(&self) -> (r: String)
        requires
            self.on_board(),
        ensures
            r@ == long_an_text(*self),
    {
        string_of(&self.long_an_chars())
    }

    /// The move in long algebraic notation.
    pub fn to_long_an(&self) -> (r: String)
        requires
            self.on_board(),
        ensures
            r@ == long_an_text(*self),
    {
        self.as_long_an()
    }

    /// The legal move of the board that `long_an` writes in long algebraic
    /// notation, if there is one.
    pub fn from_long_an(long_an: &str, board: &Board) -> (r: Option<Move>)
        requires
            board.wf(),
        ensures
            is_first_match(legal_moves(board@), |m: Move| long_an_text(m), long_an@, r),
    {
        let text = chars_of(long_an);
        let legal = get_possible_moves(board);
        let mut i: usize = 0;
        while i < legal.len()
            invariant
                i <= legal.len(),
                text@ == long_an@,
                legal@ == legal_moves(board@),
                forall|k: int| 0 <= k < legal@.len() ==> (#[trigger] legal@[k]).on_board(),
                forall|j: int| 0 <= j < i ==> long_an_text(#[trigger] legal@[j]) != text@,
            decreases legal.len() - i,
        {
            if same_chars(&legal[i].long_an_chars(), &text) {
                return Some(legal[i]);
            }
            i += 1;
        }
        None
    }

    fn an_chars(&self, possible_moves: &[Move]) -> (r: Vec<char>)
        requires
            self.on_board(),
        ensures
            r@ == an_text(*self, possible_moves@),
    {
        let mut out: Vec<char> = Vec::new();
        if self.move_type == MoveType::Castle {
            out.push('O');
            out.push('-');
            out.push('O');
            if self.end_square % 16 < 4 {
                out.push('-');
                out.push('O');
            }
            assert(out@ =~= an_text(*self, possible_moves@));
            return out;
        }
        let capture = self.replaced_piece != Piece::Empty || self.move_type == MoveType::EnPassant;
        if self.moved_piece.is_pawn() {
            if capture {
                out.push(file_letter(self.start_square));
            }
        } else {
            out.push(self.moved_piece.to_an_char());
            let mut rival = false;
            let mut file_rival = false;
            let mut rank_rival = false;
            let mut i: usize = 0;
            while i < possible_moves.len()
                invariant
                    i <= possible_moves.len(),
                    rival == has_rival(possible_moves@, *self, i as int),
                    file_rival == has_file_rival(possible_moves@, *self, i as int),
                    rank_rival == has_rank_rival(possible_moves@, *self, i as int),
                decreases possible_moves.len() - i,
            {
                let other = &possible_moves[i];
                if other.moved_piece == self.moved_piece && other.end_square == self.end_square
                    && other.start_square != self.start_square {
                    rival = true;
                    if other.start_square % 16 == self.start_square % 16 {
                        file_rival = true;
                    }
                    if other.start_square / 16 == self.start_square / 16 {
                        rank_rival = true;
                    }
                }
                i += 1;
            }
            if !rival {
            } else if !file_rival {
                out.push(file_letter(self.start_square));
            } else if !rank_rival {
                out.push(rank_digit(self.start_square));
            } else {
                out.push(file_letter(self.start_square));
                out.push(rank_digit(self.start_square));
            }
            assert(out@ =~= seq![self.moved_piece.spec_to_an_char()] + origin_text(
                *self,
                possible_moves@,
            ));
        }
        if capture {
            out.push('x');
        }
        out.push(file_letter(self.end_square));
        out.push(rank_digit(self.end_square));
        match self.move_type {
            MoveType::Promotion(piece) => {
                out.push('=');
                out.push(piece.to_an_char());
            },
            _ => {},
        }
        assert(out@ =~= an_text(*self, possible_moves@));
        out
    }

    /// The move in short algebraic notation, told from the other moves of
    /// `possible_moves` where it must be.
    pub fn as_an(&self, possible_moves: &[Move]) -> (r: String)
        requires
            self.on_board(),
        ensures
            r@ == an_text(*self, possible_moves@),
    {
        string_of(&self.an_chars(possible_moves))
    }

    /// The legal move of the board that `an` writes in short algebraic
    /// notation, a mark of check or mate at its end left aside, if there is
    /// one.
    pub fn from_an(an: &str, board: &Board) -> (r: Option<Move>)
        requires
            board.wf(),
        ensures
            is_first_match(
                legal_moves(board@),
                |m: Move| an_text(m, legal_moves(board@)),
                without_check_mark(an@),
                r,
            ),
    {
        let mut text = chars_of(an);
        if text.len() > 0 && (text[text.len() - 1] == '+' || text[text.len() - 1] == '#') {
            text.pop();
        }
        let legal = get_possible_moves(board);
        let mut i: usize = 0;
        while i < legal.len()
            invariant
                i <= legal.len(),
                text@ == without_check_mark(an@),
                legal@ == legal_moves(board@),
                forall|k: int| 0 <= k < legal@.len() ==> (#[trigger] legal@[k]).on_board(),
                forall|j: int| 0 <= j < i ==> an_text(#[trigger] legal@[j], legal@) != text@,
            decreases legal.len() - i,
        {
            if same_chars(&legal[i].an_chars(legal.as_slice()), &text) {
                return Some(legal[i]);
            }
            i += 1;
        }
        None
    }
}

} // verus!
