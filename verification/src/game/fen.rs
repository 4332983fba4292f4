//! Positions as text: reading, with the reasons for refusing, and writing.

use vstd::prelude::*;
use crate::game::board::Board;
use crate::game::chess_util::file_char;
use crate::game::chess_util::file_letter;
use crate::game::chess_util::is_square_name;
use crate::game::chess_util::named_square;
use crate::game::chess_util::on_board;
use crate::game::chess_util::rank_char;
use crate::game::chess_util::rank_digit;
use crate::game::chess_util::square_from_chars;
use crate::game::chess_util::Square;
use crate::game::chess_util::{A1, A8, E1, E8, H1, H8};
use crate::game::chess_util::{BLACK_KINGSIDE, BLACK_QUEENSIDE, WHITE_KINGSIDE, WHITE_QUEENSIDE};
use crate::game::fen_laws::lemma_fen_round_trip;
use crate::game::fen_laws::without_history;
use crate::game::moves::Move;
use crate::game::piece::Colour;
use crate::game::piece::Piece;
use crate::game::piece::PAWN;
use crate::game::position::has_right;
use crate::game::position::Position;
use crate::game::text::chars_of;
use crate::game::text::string_of;

verus! {

/// Why a position string was not accepted.
#[derive(Clone, Copy, PartialEq, Eq, Structural, Debug)]
pub enum FenError {
    /// The text ends before the en-passant field is read.
    Truncated,
    /// The placement holds a character that is neither a man's letter, a
    /// digit from 1 to 8 nor a slash, or a rank that is not eight squares
    /// long.
    Placement,
    /// The placement is not followed by a blank, `w` or `b`, and a blank.
    Side,
    /// The castling field holds a character other than `K`, `Q`, `k`, `q`
    /// and `-`.
    Castling,
    /// The en-passant field is neither `-` nor the name of a square.
    EnPassant,
    /// A side has no king, or more than one.
    Kings,
    /// A castling right is claimed whose king or rook is not on its square.
    CastlingRights,
    /// The en-passant target is not an empty square behind a pawn of the
    /// side that moved last.
    EnPassantTarget,
}

/// The kinds of the men on a side's first rank, from the a-file on.
pub const BACK_RANK: [u8; 8] = [3, 1, 2, 4, 5, 2, 1, 3];

/// What stands on an index of the board before the first move.
pub open spec fn start_piece(sq: int) -> Piece {
    if !on_board(sq) {
        Piece::Border
    } else if sq / 16 == 0 {
        Piece::spec_of(Colour::Black, BACK_RANK@[sq % 16])
    } else if sq / 16 == 1 {
        Piece::BlackPawn
    } else if sq / 16 == 6 {
        Piece::WhitePawn
    } else if sq / 16 == 7 {
        Piece::spec_of(Colour::White, BACK_RANK@[sq % 16])
    } else {
        Piece::Empty
    }
}

/// The position before the first move.
pub open spec fn start_position() -> Position {
    Position {
        squares: Seq::new(128, |sq: int| start_piece(sq)),
        side_to_move: Colour::White,
        castling_rights: 15,
        en_passant: None,
        white_king: E1,
        black_king: E8,
        turns_taken: 0,
        history: Seq::empty(),
    }
}

/// The board without men: empty on the field, border around it.
pub open spec fn blank_squares() -> Seq<Piece> {
    Seq::new(
        128,
        |i: int|
            if on_board(i) {
                Piece::Empty
            } else {
                Piece::Border
            },
    )
}

/// Whether a character is the letter of a man.
pub open spec fn is_man_char(c: char) -> bool {
    Piece::is_piece_char(c) && c != ' '
}

/// The man that a letter names.
pub open spec fn man_of_char(c: char) -> Piece {
    if c == 'P' {
        Piece::WhitePawn
    } else if c == 'N' {
        Piece::WhiteKnight
    } else if c == 'B' {
        Piece::WhiteBishop
    } else if c == 'R' {
        Piece::WhiteRook
    } else if c == 'Q' {
        Piece::WhiteQueen
    } else if c == 'K' {
        Piece::WhiteKing
    } else if c == 'p' {
        Piece::BlackPawn
    } else if c == 'n' {
        Piece::BlackKnight
    } else if c == 'b' {
        Piece::BlackBishop
    } else if c == 'r' {
        Piece::BlackRook
    } else if c == 'q' {
        Piece::BlackQueen
    } else {
        Piece::BlackKing
    }
}

/// Reads the placement field from `text[i..]` onto `squares`, the next
/// square to fill being `at`: a letter puts a man, a digit skips that many
/// squares of the rank, a slash after eight squares goes to the next rank.
/// Gives the board and the index behind the field.
pub open spec fn read_placement(text: Seq<char>, i: int, at: int, squares: Seq<Piece>) -> Result<
    (Seq<Piece>, int),
    FenError,
>
    decreases text.len() - i,
{
    if at > H1 {
        Ok((squares, i))
    } else if i < 0 || i >= text.len() {
        Err(FenError::Truncated)
    } else {
        let c = text[i];
        if is_man_char(c) && on_board(at) {
            read_placement(text, i + 1, at + 1, squares.update(at, man_of_char(c)))
        } else if '1' <= c <= '8' && at % 16 + (c as int - '0' as int) <= 8 {
            read_placement(text, i + 1, at + (c as int - '0' as int), squares)
        } else if c == '/' && at % 16 == 8 {
            read_placement(text, i + 1, at + 8, squares)
        } else {
            Err(FenError::Placement)
        }
    }
}

/// Reads the castling field from `text[i..]` up to the blank that ends it.
/// Gives the rights and the index behind the blank.
pub open spec fn read_castling(text: Seq<char>, i: int, rights: u8) -> Result<(u8, int), FenError>
    decreases text.len() - i,
{
    if i < 0 || i >= text.len() {
        Err(FenError::Truncated)
    } else {
        let c = text[i];
        if c == ' ' {
            Ok((rights, i + 1))
        } else if c == 'K' {
            read_castling(text, i + 1, rights | WHITE_KINGSIDE)
        } else if c == 'Q' {
            read_castling(text, i + 1, rights | WHITE_QUEENSIDE)
        } else if c == 'k' {
            read_castling(text, i + 1, rights | BLACK_KINGSIDE)
        } else if c == 'q' {
            read_castling(text, i + 1, rights | BLACK_QUEENSIDE)
        } else if c == '-' {
            read_castling(text, i + 1, rights)
        } else {
            Err(FenError::Castling)
        }
    }
}

/// Reads the en-passant field at `text[i..]`: a dash, or the name of a
/// square. Gives the target and the index behind the field.
pub open spec fn read_en_passant(text: Seq<char>, i: int) -> Result<(Option<u8>, int), FenError> {
    if i < 0 || i >= text.len() {
        Err(FenError::Truncated)
    } else if text[i] == '-' {
        Ok((None, i + 1))
    } else if i + 1 < text.len() && is_square_name(text[i], text[i + 1]) {
        Ok((Some(named_square(text[i], text[i + 1]) as u8), i + 2))
    } else {
        Err(FenError::EnPassant)
    }
}

/// The index of the first blank in `text[i..]`, or the length of the text.
pub open spec fn field_end(text: Seq<char>, i: int) -> int
    decreases text.len() - i,
{
    if i < 0 || i >= text.len() || text[i] == ' ' {
        i
    } else {
        field_end(text, i + 1)
    }
}

/// The number that the digits `text[from..to]` write, if they are digits,
/// at least one, and the number is below `2^32`.
pub open spec fn read_number(text: Seq<char>, from: int, to: int) -> Option<nat>
    decreases to - from,
{
    if from >= to || from < 0 || to > text.len() {
        None
    } else if !('0' <= text[to - 1] <= '9') {
        None
    } else {
        let digit = (text[to - 1] as int - '0' as int) as nat;
        if to - 1 == from {
            Some(digit)
        } else {
            match read_number(text, from, to - 1) {
                Some(high) => if high * 10 + digit <= u32::MAX {
                    Some(high * 10 + digit)
                } else {
                    None
                },
                None => None,
            }
        }
    }
}

/// The number of half moves played before a position with the given
/// full-move number and side to move; nothing where the number is missing,
/// zero or too large.
pub open spec fn turns_of(number: Option<nat>, side: Colour) -> u32 {
    let extra: nat = if side == Colour::White {
        0
    } else {
        1
    };
    match number {
        Some(n) => if n >= 1 && 2 * n - 2 + extra <= u32::MAX {
            (2 * n - 2 + extra) as u32
        } else {
            0
        },
        None => 0,
    }
}

/// The half moves that the counters behind the en-passant field tell,
/// `text[i]` being the blank before them: the half-move clock is passed
/// over, the full-move number is read.
pub open spec fn read_turns(text: Seq<char>, i: int, side: Colour) -> u32 {
    let clock_end = field_end(text, i + 1);
    let number_end = field_end(text, clock_end + 1);
    turns_of(read_number(text, clock_end + 1, number_end), side)
}

/// The position that a string describes, or why it describes none.
pub open spec fn fen_position(text: Seq<char>) -> Result<Position, FenError> {
    match read_placement(text, 0, 0, blank_squares()) {
        Err(e) => Err(e),
        Ok((squares, i)) => if i + 2 >= text.len() {
            Err(FenError::Truncated)
        } else if text[i] != ' ' || (text[i + 1] != 'w' && text[i + 1] != 'b') || text[i + 2]
            != ' ' {
            Err(FenError::Side)
        } else {
            let side = if text[i + 1] == 'w' {
                Colour::White
            } else {
                Colour::Black
            };
            match read_castling(text, i + 3, 0) {
                Err(e) => Err(e),
                Ok((rights, j)) => match read_en_passant(text, j) {
                    Err(e) => Err(e),
                    Ok((target, k)) => {
                        let placed = Position {
                            squares,
                            side_to_move: side,
                            castling_rights: rights,
                            en_passant: target,
                            white_king: 0,
                            black_king: 0,
                            turns_taken: read_turns(text, k, side),
                            history: Seq::empty(),
                        };
                        let white = placed.squares_of(Piece::WhiteKing);
                        let black = placed.squares_of(Piece::BlackKing);
                        if white.len() != 1 || black.len() != 1 {
                            Err(FenError::Kings)
                        } else {
                            let pos = Position {
                                white_king: white[0],
                                black_king: black[0],
                                ..placed
                            };
                            if !pos.rights_ok() {
                                Err(FenError::CastlingRights)
                            } else if !pos.en_passant_ok() {
                                Err(FenError::EnPassantTarget)
                            } else {
                                Ok(pos)
                            }
                        }
                    },
                },
            }
        },
    }
}

/// The character of a digit.
pub open spec fn digit_char(d: int) -> char {
    ('0' as int + d) as char
}

/// How a run of empty squares is written: its length, or nothing if there
/// is none.
pub open spec fn run_text(spaces: int) -> Seq<char> {
    if spaces > 0 {
        seq![digit_char(spaces)]
    } else {
        Seq::empty()
    }
}

/// The text of a rank from column `col` on, after `spaces` empty squares.
pub open spec fn rank_text(squares: Seq<Piece>, row: int, col: int, spaces: int) -> Seq<char>
    decreases 8 - col,
{
    if col >= 8 {
        run_text(spaces)
    } else if squares[row * 16 + col] == Piece::Empty {
        rank_text(squares, row, col + 1, spaces + 1)
    } else {
        run_text(spaces).push(squares[row * 16 + col].spec_to_char()) + rank_text(
            squares,
            row,
            col + 1,
            0,
        )
    }
}

/// The text of the first `rows` ranks, slashes between them.
pub open spec fn placement_text(squares: Seq<Piece>, rows: int) -> Seq<char>
    decreases rows,
{
    if rows <= 0 {
        Seq::empty()
    } else if rows == 1 {
        rank_text(squares, 0, 0, 0)
    } else {
        placement_text(squares, rows - 1).push('/') + rank_text(squares, rows - 1, 0, 0)
    }
}

/// One letter if a right is held, nothing if not.
pub open spec fn right_text(rights: u8, flag: u8, letter: char) -> Seq<char> {
    if has_right(rights, flag) {
        seq![letter]
    } else {
        Seq::empty()
    }
}

/// The castling field: a dash for no rights, else the letters of the rights
/// held, in the order `KQkq`.
pub open spec fn castling_text(rights: u8) -> Seq<char> {
    if rights == 0 {
        seq!['-']
    } else {
        right_text(rights, WHITE_KINGSIDE, 'K') + right_text(rights, WHITE_QUEENSIDE, 'Q')
            + right_text(rights, BLACK_KINGSIDE, 'k') + right_text(rights, BLACK_QUEENSIDE, 'q')
    }
}

/// The en-passant field: a dash, or the name of the target.
pub open spec fn en_passant_text(target: Option<u8>) -> Seq<char> {
    match target {
        Some(square) => seq![file_char(square), rank_char(square)],
        None => seq!['-'],
    }
}

/// A number in decimal digits.
pub open spec fn number_text(n: nat) -> Seq<char>
    decreases n,
{
    if n < 10 {
        seq![digit_char(n as int)]
    } else {
        number_text(n / 10).push(digit_char((n % 10) as int))
    }
}

/// The description of a position: the six fields, the half-move clock
/// always written as zero.
pub open spec fn fen_text(pos: Position) -> Seq<char> {
    placement_text(pos.squares, 8) + seq![' ', pos.side_to_move.to_char(), ' '] + castling_text(
        pos.castling_rights,
    ) + seq![' '] + en_passant_text(pos.en_passant) + seq![' ', '0', ' '] + number_text(
        (pos.turns_taken / 2 + 1) as nat,
    )
}

/// A position's description is the same again when a move is made and taken
/// back.
pub proof fn lemma_fen_after_undo(p: Position, m: Move)
    requires
        p.ok(),
        p.accepts(m),
        p.turns_taken < u32::MAX,
    ensures
        fen_text(p.apply(m).unapply()) == fen_text(p),
{
    crate::game::position::lemma_apply_then_unapply(p, m);
}

fn push_run(out: &mut Vec<char>, spaces: u8)
    requires
        spaces <= 8,
    ensures
        final(out)@ == old(out)@ + run_text(spaces as int),
{
    if spaces > 0 {
        out.push((48u8 + spaces) as char);
    }
    assert(out@ =~= old(out)@ + run_text(spaces as int));
}

fn push_number(out: &mut Vec<char>, n: u32)
    ensures
        final(out)@ == old(out)@ + number_text(n as nat),
    decreases n,
{
    if n >= 10 {
        push_number(out, n / 10);
    }
    out.push((48u8 + (n % 10) as u8) as char);
    assert(out@ =~= old(out)@ + number_text(n as nat));
}

fn push_right(out: &mut Vec<char>, rights: u8, flag: u8, letter: char)
    ensures
        final(out)@ == old(out)@ + right_text(rights, flag, letter),
{
    if rights & flag != 0 {
        out.push(letter);
    }
    assert(out@ =~= old(out)@ + right_text(rights, flag, letter));
}

fn push_castling(out: &mut Vec<char>, rights: u8)
    ensures
        final(out)@ == old(out)@ + castling_text(rights),
{
    if rights == 0 {
        out.push('-');
        assert(out@ =~= old(out)@ + castling_text(rights));
    } else {
        let ghost k = right_text(rights, WHITE_KINGSIDE, 'K');
        let ghost q = right_text(rights, WHITE_QUEENSIDE, 'Q');
        let ghost bk = right_text(rights, BLACK_KINGSIDE, 'k');
        let ghost bq = right_text(rights, BLACK_QUEENSIDE, 'q');
        push_right(out, rights, WHITE_KINGSIDE, 'K');
        push_right(out, rights, WHITE_QUEENSIDE, 'Q');
        push_right(out, rights, BLACK_KINGSIDE, 'k');
        push_right(out, rights, BLACK_QUEENSIDE, 'q');
        assert(out@ =~= old(out)@ + (k + q + bk + bq));
    }
}

fn push_en_passant(out: &mut Vec<char>, target: Option<Square>)
    requires
        target is Some ==> on_board(target->0 as int),
    ensures
        final(out)@ == old(out)@ + en_passant_text(target),
{
    match target {
        Some(square) => {
            out.push(file_letter(square));
            out.push(rank_digit(square));
        },
        None => {
            out.push('-');
        },
    }
    assert(out@ =~= old(out)@ + en_passant_text(target));
}

/// Adds the fields behind the placement.
fn push_state(
    out: &mut Vec<char>,
    side: Colour,
    rights: u8,
    target: Option<Square>,
    turns_taken: u32,
)
    requires
        target is Some ==> on_board(target->0 as int),
    ensures
        final(out)@ == old(out)@ + seq![' ', side.spec_to_char(), ' '] + castling_text(rights)
            + seq![' '] + en_passant_text(target) + seq![' ', '0', ' '] + number_text(
            (turns_taken / 2 + 1) as nat,
        ),
{
    out.push(' ');
    out.push(side.to_char());
    out.push(' ');
    assert(out@ =~= old(out)@ + seq![' ', side.spec_to_char(), ' ']);
    push_castling(out, rights);
    let ghost a = out@;
    out.push(' ');
    assert(out@ =~= a + seq![' ']);
    push_en_passant(out, target);
    let ghost b = out@;
    out.push(' ');
    out.push('0');
    out.push(' ');
    assert(out@ =~= b + seq![' ', '0', ' ']);
    push_number(out, turns_taken / 2 + 1);
}

proof fn lemma_add_right(rights: u8, flag: u8)
    by (bit_vector)
    requires
        rights < 16,
        flag == 1 || flag == 2 || flag == 4 || flag == 8,
    ensures
        rights | flag < 16,
{
}

/// A list of lists of squares, all of them empty.
fn new_list() -> (r: Vec<Square>)
    ensures
        r@.len() == 0,
{
    Vec::new()
}

/// `array_init::array_init` calls its closure once for each index, in order,
/// and returns the results as an array: here sixteen lists, each as
/// `new_list` returns it, that is empty.
#[verifier::external_body]
fn empty_lists() -> (r: [Vec<Square>; 16])
    ensures
        forall|c: int| 0 <= c < 16 ==> (#[trigger] r@[c])@.len() == 0,
{
    array_init::array_init(|_| new_list())
}

fn read_digit(c: char) -> (r: Option<u8>)
    ensures
        r is Some <==> '0' <= c <= '9',
        r is Some ==> r->0 as int == c as int - '0' as int,
{
    if '0' <= c && c <= '9' {
        Some((c as u32 - '0' as u32) as u8)
    } else {
        None
    }
}

fn find_field_end(text: &Vec<char>, from: usize) -> (r: usize)
    ensures
        r as int == field_end(text@, from as int),
        from <= r,
        r <= text.len() || r == from,
{
    let mut i: usize = from;
    while i < text.len() && text[i] != ' '
        invariant
            from <= i,
            i <= text.len() || i == from,
            field_end(text@, i as int) == field_end(text@, from as int),
        decreases text.len() - i,
    {
        i += 1;
    }
    i
}

fn parse_number(text: &Vec<char>, from: usize, to: usize) -> (r: Option<u32>)
    ensures
        match r {
            Some(n) => read_number(text@, from as int, to as int) == Some(n as nat),
            None => read_number(text@, from as int, to as int) is None,
        },
{
    if from >= to || to > text.len() {
        return None;
    }
    let mut value: u32 = 0;
    let mut i: usize = from;
    let mut failed = false;
    while i < to && !failed
        invariant
            from <= i <= to,
            to <= text.len(),
            failed ==> i > from && read_number(text@, from as int, i as int) is None,
            !failed && i > from ==> read_number(text@, from as int, i as int) == Some(value as nat),
        decreases to - i + (if failed { 0int } else { 1int }),
    {
        match read_digit(text[i]) {
            Some(d) => {
                if i == from {
                    value = d as u32;
                } else if value > (u32::MAX - d as u32) / 10 {
                    failed = true;
                } else {
                    value = value * 10 + d as u32;
                }
            },
            None => {
                failed = true;
            },
        }
        i += 1;
    }
    proof {
        if failed {
            lemma_number_stays_none(text@, from as int, i as int, to as int);
        }
    }
    if failed {
        None
    } else {
        Some(value)
    }
}

proof fn lemma_number_stays_none(text: Seq<char>, from: int, mid: int, to: int)
    requires
        0 <= from < mid <= to <= text.len(),
        read_number(text, from, mid) is None,
    ensures
        read_number(text, from, to) is None,
    decreases to - mid,
{
    if mid < to {
        lemma_number_stays_none(text, from, mid, to - 1);
    }
}

impl Board {
    /// A board without men, White to move, with no rights and no history.
    fn blank() -> (r: Board)
        ensures
            r.sync(),
            r.board@ == blank_squares(),
            r.side_to_move == Colour::White,
            r.turns_taken == 0,
            r.previous_moves@.len() == 0,
            r.en_passant_chance is None,
            r.castling_rights == 0,
            r.white_king == 0,
            r.black_king == 0,
    {
        let mut squares = [Piece::Border;128];
        let mut i: usize = 0;
        while i < 128
            invariant
                i <= 128,
                forall|k: int|
                    0 <= k < 128 ==> #[trigger] squares@[k] == (if k < i && on_board(k) {
                        Piece::Empty
                    } else {
                        Piece::Border
                    }),
            decreases 128 - i,
        {
            if i % 16 < 8 {
                squares[i] = Piece::Empty;
            }
            i += 1;
        }
        assert(squares@ =~= blank_squares());
        Board {
            board: squares,
            side_to_move: Colour::White,
            turns_taken: 0,
            previous_moves: Vec::new(),
            en_passant_chance: None,
            castling_rights: 0,
            piece_positions: empty_lists(),
            white_king: 0,
            black_king: 0,
        }
    }

    /// The standard start position.
    pub fn default() -> (r: Board)
        ensures
            r.wf(),
            r@ == start_position(),
    {
        let mut board = Board::blank();
        let mut col: u8 = 0;
        while col < 8
            invariant
                col <= 8,
                board.sync(),
                board.side_to_move == Colour::White,
                board.turns_taken == 0,
                board.previous_moves@.len() == 0,
                board.en_passant_chance is None,
                board.castling_rights == 0,
                board.white_king == 0,
                board.black_king == 0,
                forall|sq: int|
                    0 <= sq < 128 ==> #[trigger] board.board@[sq] == (if sq % 16 < col {
                        start_piece(sq)
                    } else {
                        blank_squares()[sq]
                    }),
            decreases 8 - col,
        {
            let kind = BACK_RANK[col as usize];
            board.place(col, Piece::of(Colour::Black, kind));
            board.place(16 + col, Piece::BlackPawn);
            board.place(96 + col, Piece::WhitePawn);
            board.place(112 + col, Piece::of(Colour::White, kind));
            col += 1;
        }
        board.castling_rights = 15;
        board.white_king = E1;
        board.black_king = E8;
        proof {
            assert(has_right(15, 8) && has_right(15, 4) && has_right(15, 2) && has_right(15, 1))
                by (bit_vector);
            assert(board.board@ =~= start_position().squares);
            assert(board.previous_moves@ =~= Seq::<Move>::empty());
            assert(board@.kings_ok());
            assert(board@.rights_ok());
        }
        board
    }

    /// Reads a position from its description: the men rank by rank, the side
    /// to move, the castling rights, the en-passant target and, if they are
    /// there, the two counters. A description that is malformed, or that
    /// describes no position of chess, is refused with the reason.
    pub fn from_fen(f: String) -> (r: Result<Board, FenError>)
        ensures
            match r {
                Ok(board) => board.wf() && fen_position(f@) == Ok::<Position, FenError>(board@),
                Err(e) => fen_position(f@) == Err::<Position, FenError>(e),
            },
    {
        let text = chars_of(f.as_str());
        let mut board = Board::blank();
        let mut i: usize = 0;
        let mut at: usize = 0;
        let mut failure: Option<FenError> = None;
        let ghost goal = read_placement(text@, 0, 0, blank_squares());
        while at <= H1 as usize && failure.is_none()
            invariant
                i <= text.len(),
                at <= 0x78,
                at % 16 <= 8,
                board.sync(),
                board.side_to_move == Colour::White,
                board.turns_taken == 0,
                board.previous_moves@.len() == 0,
                board.en_passant_chance is None,
                board.castling_rights == 0,
                board.white_king == 0,
                board.black_king == 0,
                failure is Some ==> goal == Err::<(Seq<Piece>, int), FenError>(failure->0),
                failure is None ==> read_placement(text@, i as int, at as int, board.board@) == goal,
                forall|sq: int| at <= sq < 128 ==> #[trigger] board.board@[sq] == blank_squares()[sq],
            decreases text.len() - i + (if failure is None { 1int } else { 0int }),
        {
            if i >= text.len() {
                failure = Some(FenError::Truncated);
            } else {
                let c = text[i];
                if Piece::is_man_letter(c) && at % 16 < 8 {
                    let piece = Piece::from_char(c);
                    board.place(at as u8, piece);
                    at += 1;
                    i += 1;
                } else if '1' <= c && c <= '8' && at % 16 + (c as u32 - '0' as u32) as usize <= 8 {
                    at += (c as u32 - '0' as u32) as usize;
                    i += 1;
                } else if c == '/' && at % 16 == 8 {
                    at += 8;
                    i += 1;
                } else {
                    failure = Some(FenError::Placement);
                }
            }
        }
        match failure {
            Some(e) => {
                return Err(e);
            },
            None => {},
        }
        if text.len() - i <= 2 {
            return Err(FenError::Truncated);
        }
        if text[i] != ' ' || (text[i + 1] != 'w' && text[i + 1] != 'b') || text[i + 2] != ' ' {
            return Err(FenError::Side);
        }
        let side_to_move = Colour::from_char(text[i + 1]);
        let mut j: usize = i + 3;
        let mut rights: u8 = 0;
        let mut done = false;
        let ghost castling = read_castling(text@, i as int + 3, 0);
        while !done && failure.is_none()
            invariant
                j <= text.len(),
                rights < 16,
                failure is Some ==> castling == Err::<(u8, int), FenError>(failure->0),
                failure is None && done ==> castling == Ok::<(u8, int), FenError>(
                    (rights, j as int),
                ),
                failure is None && !done ==> read_castling(text@, j as int, rights) == castling,
            decreases text.len() - j + (if failure is None && !done { 1int } else { 0int }),
        {
            if j >= text.len() {
                failure = Some(FenError::Truncated);
            } else {
                let c = text[j];
                if c == ' ' {
                    done = true;
                } else if c == 'K' {
                    proof {
                        lemma_add_right(rights, WHITE_KINGSIDE);
                    }
                    rights = rights | WHITE_KINGSIDE;
                } else if c == 'Q' {
                    proof {
                        lemma_add_right(rights, WHITE_QUEENSIDE);
                    }
                    rights = rights | WHITE_QUEENSIDE;
                } else if c == 'k' {
                    proof {
                        lemma_add_right(rights, BLACK_KINGSIDE);
                    }
                    rights = rights | BLACK_KINGSIDE;
                } else if c == 'q' {
                    proof {
                        lemma_add_right(rights, BLACK_QUEENSIDE);
                    }
                    rights = rights | BLACK_QUEENSIDE;
                } else if c == '-' {
                } else {
                    failure = Some(FenError::Castling);
                }
                if failure.is_none() {
                    j += 1;
                }
            }
        }
        match failure {
            Some(e) => {
                return Err(e);
            },
            None => {},
        }
        if j >= text.len() {
            return Err(FenError::Truncated);
        }
        let mut k: usize = j + 1;
        let mut en_passant: Option<Square> = None;
        if text[j] != '-' {
            if j + 1 >= text.len() {
                return Err(FenError::EnPassant);
            }
            match square_from_chars(text[j], text[j + 1]) {
                Some(square) => {
                    en_passant = Some(square);
                    k = j + 2;
                },
                None => {
                    return Err(FenError::EnPassant);
                },
            }
        }
        let clock_from: usize = if k < usize::MAX {
            k + 1
        } else {
            k
        };
        let clock_end = find_field_end(&text, clock_from);
        let number_from: usize = if clock_end < usize::MAX {
            clock_end + 1
        } else {
            clock_end
        };
        let number_end = find_field_end(&text, number_from);
        let number = parse_number(&text, number_from, number_end);
        let extra: u32 = if side_to_move == Colour::White {
            0
        } else {
            1
        };
        let turns_taken: u32 = match number {
            Some(n) => if n >= 1 && n - 1 <= (u32::MAX - extra) / 2 {
                2 * (n - 1) + extra
            } else {
                0
            },
            None => 0,
        };
        board.side_to_move = side_to_move;
        board.castling_rights = rights;
        board.en_passant_chance = en_passant;
        board.turns_taken = turns_taken;
        assert(board.previous_moves@ =~= Seq::<Move>::empty());
        assert(turns_taken == read_turns(text@, k as int, side_to_move));
        let ghost placed = board@;
        let ghost white = placed.squares_of(Piece::WhiteKing);
        let ghost black = placed.squares_of(Piece::BlackKing);
        proof {
            board.lemma_list_of(Piece::WhiteKing);
            board.lemma_list_of(Piece::BlackKing);
        }
        if board.piece_positions[Piece::WhiteKing.code() as usize].len() != 1
            || board.piece_positions[Piece::BlackKing.code() as usize].len() != 1 {
            return Err(FenError::Kings);
        }
        board.white_king = board.piece_positions[Piece::WhiteKing.code() as usize][0];
        board.black_king = board.piece_positions[Piece::BlackKing.code() as usize][0];
        assert(board@ == Position { white_king: white[0], black_king: black[0], ..placed });
        if !board.rights_hold() {
            return Err(FenError::CastlingRights);
        }
        if !board.en_passant_holds() {
            return Err(FenError::EnPassantTarget);
        }
        proof {
            assert(placed.lists(Piece::WhiteKing, white));
            assert(placed.lists(Piece::BlackKing, black));
            assert(on_board(white[0] as int));
            assert(on_board(black[0] as int));
            assert forall|sq: int| 0 <= sq < 128 implies (#[trigger] board@.squares[sq]
                == Piece::WhiteKing <==> sq == board.white_king) by {
                if board@.squares[sq] == Piece::WhiteKing {
                    assert(on_board(sq));
                    assert(white.contains(sq as u8));
                }
            }
            assert forall|sq: int| 0 <= sq < 128 implies (#[trigger] board@.squares[sq]
                == Piece::BlackKing <==> sq == board.black_king) by {
                if board@.squares[sq] == Piece::BlackKing {
                    assert(on_board(sq));
                    assert(black.contains(sq as u8));
                }
            }
            assert(board.previous_moves@ =~= Seq::<Move>::empty());
        }
        Ok(board)
    }

    /// Adds the text of one rank.
    fn push_rank(&self, out: &mut Vec<char>, row: usize)
        requires
            row < 8,
        ensures
            final(out)@ == old(out)@ + rank_text(self@.squares, row as int, 0, 0),
    {
        let mut spaces: u8 = 0;
        let mut col: usize = 0;
        while col < 8
            invariant
                col <= 8,
                row < 8,
                spaces <= col,
                out@ + rank_text(self@.squares, row as int, col as int, spaces as int) == old(out)@
                    + rank_text(self@.squares, row as int, 0, 0),
            decreases 8 - col,
        {
            let piece = self.get_piece_rc(row, col);
            let ghost before = out@;
            let ghost rest = rank_text(self@.squares, row as int, col as int + 1, 0);
            let ghost run = run_text(spaces as int);
            if piece == Piece::Empty {
                spaces += 1;
            } else {
                push_run(out, spaces);
                out.push(piece.to_char());
                spaces = 0;
                assert(out@ + rest =~= before + (run.push(piece.spec_to_char()) + rest)) by {
                    assert(out@ =~= before + run.push(piece.spec_to_char()));
                }
            }
            col += 1;
        }
        push_run(out, spaces);
    }

    /// Adds the text of the eight ranks.
    fn push_placement(&self, out: &mut Vec<char>)
        requires
            old(out)@.len() == 0,
        ensures
            final(out)@ == placement_text(self@.squares, 8),
    {
        let mut row: usize = 0;
        assert(out@ =~= placement_text(self@.squares, 0));
        while row < 8
            invariant
                row <= 8,
                out@ == placement_text(self@.squares, row as int),
            decreases 8 - row,
        {
            if row != 0 {
                out.push('/');
            }
            self.push_rank(out, row);
            assert(out@ =~= placement_text(self@.squares, row as int + 1)) by {
                assert(Seq::<char>::empty() + rank_text(self@.squares, 0, 0, 0) =~= rank_text(
                    self@.squares,
                    0,
                    0,
                    0,
                ));
            }
            row += 1;
        }
    }

    /// The description of the board's position. Read again, it gives the
    /// same position without its history, as long as White is to move after
    /// an even number of half moves.
    pub fn get_fen(&self) -> (r: String)
        requires
            self.wf(),
        ensures
            r@ == fen_text(self@),
            (self.turns_taken % 2 == 0) == (self.side_to_move == Colour::White) ==> fen_position(r@)
                == Ok::<Position, FenError>(without_history(self@)),
    {
        proof {
            if (self.turns_taken % 2 == 0) == (self.side_to_move == Colour::White) {
                lemma_fen_round_trip(self@);
            }
        }
        assert(self.en_passant_chance is Some ==> on_board(self.en_passant_chance->0 as int)) by {
            assert(self@.en_passant_ok());
        }
        let mut out: Vec<char> = Vec::new();
        self.push_placement(&mut out);
        push_state(
            &mut out,
            self.side_to_move,
            self.castling_rights,
            self.en_passant_chance,
            self.turns_taken,
        );
        string_of(&out)
    }

    /// Whether every castling right of the board has its king and rook.
    fn rights_hold(&self) -> (r: bool)
        ensures
            r == self@.rights_ok(),
    {
        let e1 = self.board[E1 as usize];
        let e8 = self.board[E8 as usize];
        self.castling_rights < 16 && (self.castling_rights & WHITE_KINGSIDE == 0 || (e1
            == Piece::WhiteKing && self.board[H1 as usize] == Piece::WhiteRook)) && (
        self.castling_rights & WHITE_QUEENSIDE == 0 || (e1 == Piece::WhiteKing
            && self.board[A1 as usize] == Piece::WhiteRook)) && (self.castling_rights
            & BLACK_KINGSIDE == 0 || (e8 == Piece::BlackKing && self.board[H8 as usize]
            == Piece::BlackRook)) && (self.castling_rights & BLACK_QUEENSIDE == 0 || (e8
            == Piece::BlackKing && self.board[A8 as usize] == Piece::BlackRook))
    }

    /// Whether the en-passant target, if there is one, is an empty square
    /// behind a pawn of the side that moved last.
    fn en_passant_holds(&self) -> (r: bool)
        ensures
            r == self@.en_passant_ok(),
    {
        match self.en_passant_chance {
            None => true,
            Some(target) => {
                let victim: i16 = match self.side_to_move {
                    Colour::White => target as i16 + 16,
                    Colour::Black => target as i16 - 16,
                };
                target < 128 && target % 16 < 8 && self.board[target as usize] == Piece::Empty
                    && 0 <= victim && victim < 128 && victim % 16 < 8
                    && self.board[victim as usize] == Piece::of(
                    self.side_to_move.opposite(),
                    PAWN,
                )
            },
        }
    }
}

} // verus!
