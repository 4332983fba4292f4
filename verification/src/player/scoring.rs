//! Scoring functions: by the men alone, and by the men and their squares.

use vstd::prelude::*;
use crate::game::board::Board;
use crate::game::chess_util::on_board;
use crate::game::chess_util::Square;
use crate::game::piece::Colour;
use crate::game::piece::Piece;
use crate::game::piece::{BISHOP, KNIGHT, PAWN, QUEEN, ROOK};
use crate::game::position::Position;

verus! {

/// The least score: the least value that has a negative.
pub const MIN_SCORE: i32 = -2147483647;

/// The greatest score.
pub const MAX_SCORE: i32 = 2147483647;

/// The score of a side that is mated.
pub const LOSE_SCORE: i32 = -2147483646;

/// The score of a side that mates.
pub const WIN_SCORE: i32 = 2147483646;

/// What the men are worth, in hundredths of a pawn.
pub const PAWN_VALUE: i32 = 100;

pub const KNIGHT_VALUE: i32 = 320;

pub const BISHOP_VALUE: i32 = 330;

pub const ROOK_VALUE: i32 = 530;

pub const QUEEN_VALUE: i32 = 960;

/// What a man is worth on each square of the bordered board, seen from
/// White's side with rank 8 first; the columns off the field hold zeros.
pub const PAWN_SQUARE_VALUES: [i32; 128] = [
    100,100,100,100,100,100,100,100,  0,  0,  0,  0,  0,  0,  0,  0,
    150,150,150,150,150,150,150,150,  0,  0,  0,  0,  0,  0,  0,  0,
    110,110,120,130,130,120,110,110,  0,  0,  0,  0,  0,  0,  0,  0,
    105,105,110,125,125,110,105,105,  0,  0,  0,  0,  0,  0,  0,  0,
    100,100,100,120,120,100,100,100,  0,  0,  0,  0,  0,  0,  0,  0,
    105, 95, 90,100,100, 90, 95,105,  0,  0,  0,  0,  0,  0,  0,  0,
    105,110,110, 80, 80,110,110,105,  0,  0,  0,  0,  0,  0,  0,  0,
    100,100,100,100,100,100,100,100,  0,  0,  0,  0,  0,  0,  0,  0,
];

pub const KNIGHT_SQUARE_VALUES: [i32; 128] = [
    270,280,290,290,290,290,280,270,  0,  0,  0,  0,  0,  0,  0,  0,
    280,300,320,320,320,320,300,280,  0,  0,  0,  0,  0,  0,  0,  0,
    290,320,330,335,335,330,320,290,  0,  0,  0,  0,  0,  0,  0,  0,
    290,325,335,340,340,335,325,290,  0,  0,  0,  0,  0,  0,  0,  0,
    290,320,335,340,340,335,320,290,  0,  0,  0,  0,  0,  0,  0,  0,
    290,325,330,335,335,330,325,290,  0,  0,  0,  0,  0,  0,  0,  0,
    280,300,320,325,325,320,300,280,  0,  0,  0,  0,  0,  0,  0,  0,
    270,280,290,290,290,290,280,270,  0,  0,  0,  0,  0,  0,  0,  0,
];

pub const BISHOP_SQUARE_VALUES: [i32; 128] = [
    310,320,320,320,320,320,320,310,  0,  0,  0,  0,  0,  0,  0,  0,
    320,330,330,330,330,330,330,320,  0,  0,  0,  0,  0,  0,  0,  0,
    320,330,335,340,340,335,330,320,  0,  0,  0,  0,  0,  0,  0,  0,
    320,335,335,340,340,335,335,320,  0,  0,  0,  0,  0,  0,  0,  0,
    320,330,340,340,340,340,330,320,  0,  0,  0,  0,  0,  0,  0,  0,
    320,340,340,340,340,340,340,320,  0,  0,  0,  0,  0,  0,  0,  0,
    320,335,330,330,330,330,335,320,  0,  0,  0,  0,  0,  0,  0,  0,
    310,320,320,320,320,320,320,310,  0,  0,  0,  0,  0,  0,  0,  0,
];

pub const ROOK_SQUARE_VALUES: [i32; 128] = [
    530,530,530,530,530,530,530,530,  0,  0,  0,  0,  0,  0,  0,  0,
    535,540,540,540,540,540,540,535,  0,  0,  0,  0,  0,  0,  0,  0,
    525,530,530,530,530,530,530,525,  0,  0,  0,  0,  0,  0,  0,  0,
    525,530,530,530,530,530,530,525,  0,  0,  0,  0,  0,  0,  0,  0,
    525,530,530,530,530,530,530,525,  0,  0,  0,  0,  0,  0,  0,  0,
    525,530,530,530,530,530,530,525,  0,  0,  0,  0,  0,  0,  0,  0,
    525,530,530,530,530,530,530,525,  0,  0,  0,  0,  0,  0,  0,  0,
    530,530,530,535,535,530,530,530,  0,  0,  0,  0,  0,  0,  0,  0,
];

pub const QUEEN_SQUARE_VALUES: [i32; 128] = [
    940,950,950,955,955,950,950,940,  0,  0,  0,  0,  0,  0,  0,  0,
    950,960,960,960,960,960,960,950,  0,  0,  0,  0,  0,  0,  0,  0,
    950,960,965,965,965,965,960,950,  0,  0,  0,  0,  0,  0,  0,  0,
    955,960,965,965,965,965,960,955,  0,  0,  0,  0,  0,  0,  0,  0,
    960,960,965,965,965,965,960,955,  0,  0,  0,  0,  0,  0,  0,  0,
    950,965,965,965,965,965,960,950,  0,  0,  0,  0,  0,  0,  0,  0,
    950,960,965,960,960,960,960,950,  0,  0,  0,  0,  0,  0,  0,  0,
    940,950,950,955,955,950,950,940,  0,  0,  0,  0,  0,  0,  0,  0,
];

pub const KING_EARLY_SQUARE_VALUES: [i32; 128] = [
    -30,-40,-40,-50,-50,-40,-40,-30,  0,  0,  0,  0,  0,  0,  0,  0,
    -30,-40,-40,-50,-50,-40,-40,-30,  0,  0,  0,  0,  0,  0,  0,  0,
    -30,-40,-40,-50,-50,-40,-40,-30,  0,  0,  0,  0,  0,  0,  0,  0,
    -30,-40,-40,-50,-50,-40,-40,-30,  0,  0,  0,  0,  0,  0,  0,  0,
    -20,-30,-30,-40,-40,-30,-30,-20,  0,  0,  0,  0,  0,  0,  0,  0,
    -10,-20,-20,-20,-20,-20,-20,-10,  0,  0,  0,  0,  0,  0,  0,  0,
     20, 20,  0,  0,  0,  0, 20, 20,  0,  0,  0,  0,  0,  0,  0,  0,
     20, 30, 10,  0,  0, 10, 30, 20,  0,  0,  0,  0,  0,  0,  0,  0,
];

pub const KING_LATE_SQUARE_VALUES: [i32; 128] = [
    -50,-40,-30,-20,-20,-30,-40,-50,  0,  0,  0,  0,  0,  0,  0,  0,
    -30,-20,-10,  0,  0,-10,-20,-30,  0,  0,  0,  0,  0,  0,  0,  0,
    -30,-10, 20, 30, 30, 20,-10,-30,  0,  0,  0,  0,  0,  0,  0,  0,
    -30,-10, 30, 40, 40, 30,-10,-30,  0,  0,  0,  0,  0,  0,  0,  0,
    -30,-10, 30, 40, 40, 30,-10,-30,  0,  0,  0,  0,  0,  0,  0,  0,
    -30,-10, 20, 30, 30, 20,-10,-30,  0,  0,  0,  0,  0,  0,  0,  0,
    -30,-30,  0,  0,  0,  0,-30,-30,  0,  0,  0,  0,  0,  0,  0,  0,
    -50,-30,-30,-30,-30,-30,-30,-50,  0,  0,  0,  0,  0,  0,  0,  0,
];

/// A score seen by the side to move: White's count as it is, Black's with
/// the sign turned.
pub open spec fn for_side(score: int, side: Colour) -> int {
    match side {
        Colour::White => score,
        Colour::Black => -score,
    }
}

/// White's men minus Black's, each kind at its value.
pub open spec fn material(pos: Position) -> int {
    PAWN_VALUE * (pos.count(Piece::WhitePawn) - pos.count(Piece::BlackPawn)) + KNIGHT_VALUE * (
    pos.count(Piece::WhiteKnight) - pos.count(Piece::BlackKnight)) + BISHOP_VALUE * (pos.count(
        Piece::WhiteBishop,
    ) - pos.count(Piece::BlackBishop)) + ROOK_VALUE * (pos.count(Piece::WhiteRook) - pos.count(
        Piece::BlackRook,
    )) + QUEEN_VALUE * (pos.count(Piece::WhiteQueen) - pos.count(Piece::BlackQueen))
}

/// The value of a position by its men alone, for the side to move: nothing
/// where neither side can mate.
pub open spec fn spec_basic_eval(pos: Position) -> int {
    if pos.insufficient_material() {
        0
    } else {
        for_side(material(pos), pos.side_to_move)
    }
}

/// The square that mirrors `square` through the centre of the board.
pub open spec fn spec_flip(square: int) -> int {
    119 - square
}

/// The sum of a table's values over the first `n` squares of a list, each
/// square mirrored first if `mirrored`.
pub open spec fn table_sum(list: Seq<u8>, table: Seq<i32>, mirrored: bool, n: int) -> int
    decreases n,
{
    if n <= 0 {
        0
    } else {
        let square = if mirrored {
            spec_flip(list[n - 1] as int)
        } else {
            list[n - 1] as int
        };
        table_sum(list, table, mirrored, n - 1) + table[square]
    }
}

/// What the men of one kind are worth where they stand: White's minus
/// Black's, Black's squares mirrored.
pub open spec fn placed(pos: Position, kind: u8, table: Seq<i32>) -> int {
    let white = pos.squares_of(Piece::spec_of(Colour::White, kind));
    let black = pos.squares_of(Piece::spec_of(Colour::Black, kind));
    table_sum(white, table, false, white.len() as int) - table_sum(
        black,
        table,
        true,
        black.len() as int,
    )
}

/// Whether the game is in its late part: no queens, or at most two bishops
/// and rooks in all.
pub open spec fn in_late_game(pos: Position) -> bool {
    pos.count(Piece::WhiteQueen) + pos.count(Piece::BlackQueen) == 0 || pos.count(
        Piece::WhiteBishop,
    ) + pos.count(Piece::WhiteRook) + pos.count(Piece::BlackBishop) + pos.count(Piece::BlackRook)
        <= 2
}

/// What the kings are worth where they stand.
pub open spec fn kings_placed(pos: Position) -> int {
    let table = if in_late_game(pos) {
        KING_LATE_SQUARE_VALUES@
    } else {
        KING_EARLY_SQUARE_VALUES@
    };
    table[pos.white_king as int] - table[spec_flip(pos.black_king as int)]
}

/// The value of a position by its men and where they stand, for the side to
/// move: nothing where neither side can mate.
pub open spec fn spec_advanced_eval(pos: Position) -> int {
    if pos.insufficient_material() {
        0
    } else {
        for_side(
            placed(pos, PAWN, PAWN_SQUARE_VALUES@) + placed(pos, KNIGHT, KNIGHT_SQUARE_VALUES@)
                + placed(pos, BISHOP, BISHOP_SQUARE_VALUES@) + placed(
                pos,
                ROOK,
                ROOK_SQUARE_VALUES@,
            ) + placed(pos, QUEEN, QUEEN_SQUARE_VALUES@) + kings_placed(pos),
            pos.side_to_move,
        )
    }
}

/// The value of a board by its men alone, for the side to move.
pub fn basic_eval(board: &Board) -> (score: i32)
    requires
        board.wf(),
    ensures
        score == spec_basic_eval(board@),
        -300_000 <= score <= 300_000,
{
    if board.is_draw_by_insufficient_material() {
        return 0;
    }
    let white_pieces = board.get_piece_counts(Colour::White);
    let black_pieces = board.get_piece_counts(Colour::Black);
    let mut score: i32 = 0;
    score += PAWN_VALUE * (white_pieces[0] as i32 - black_pieces[0] as i32);
    score += KNIGHT_VALUE * (white_pieces[1] as i32 - black_pieces[1] as i32);
    score += BISHOP_VALUE * (white_pieces[2] as i32 - black_pieces[2] as i32);
    score += ROOK_VALUE * (white_pieces[3] as i32 - black_pieces[3] as i32);
    score += QUEEN_VALUE * (white_pieces[4] as i32 - black_pieces[4] as i32);
    match board.side_to_move {
        Colour::White => score,
        Colour::Black => -score,
    }
}

/// The square that mirrors `square` through the centre of the board.
pub fn flip(square: Square) -> (r: Square)
    requires
        on_board(square as int),
    ensures
        r as int == spec_flip(square as int),
        on_board(r as int),
{
    119 - square
}

/// Whether every value of a table is at most a thousand either way.
pub open spec fn small_values(table: Seq<i32>) -> bool {
    table.len() == 128 && forall|i: int| 0 <= i < 128 ==> -1000 <= #[trigger] table[i] <= 1000
}

fn sum_table(list: &Vec<Square>, table: &[i32; 128], mirrored: bool) -> (sum: i32)
    requires
        small_values(table@),
        list@.len() <= 128,
        forall|i: int| 0 <= i < list@.len() ==> on_board(#[trigger] list@[i] as int),
    ensures
        sum == table_sum(list@, table@, mirrored, list@.len() as int),
        -128_000 <= sum <= 128_000,
{
    let mut sum: i32 = 0;
    let mut i: usize = 0;
    while i < list.len()
        invariant
            i <= list.len(),
            list@.len() <= 128,
            small_values(table@),
            forall|i: int| 0 <= i < list@.len() ==> on_board(#[trigger] list@[i] as int),
            sum == table_sum(list@, table@, mirrored, i as int),
            -1000 * i <= sum <= 1000 * i,
        decreases list.len() - i,
    {
        assert(on_board(list@[i as int] as int));
        let square = if mirrored {
            flip(list[i])
        } else {
            list[i]
        };
        sum += table[square as usize];
        i += 1;
    }
    sum
}

fn sum_placed(board: &Board, kind: u8, table: &[i32; 128]) -> (sum: i32)
    requires
        board.wf(),
        kind <= QUEEN,
        small_values(table@),
    ensures
        sum == placed(board@, kind, table@),
        -256_000 <= sum <= 256_000,
{
    let white = board.get_piece_position(Piece::of(Colour::White, kind));
    let black = board.get_piece_position(Piece::of(Colour::Black, kind));
    proof {
        board.lemma_count_bound(Piece::spec_of(Colour::White, kind));
        board.lemma_count_bound(Piece::spec_of(Colour::Black, kind));
    }
    sum_table(white, table, false) - sum_table(black, table, true)
}

proof fn lemma_pawn_values()
    ensures
        small_values(PAWN_SQUARE_VALUES@),
{
}

proof fn lemma_knight_values()
    ensures
        small_values(KNIGHT_SQUARE_VALUES@),
{
}

proof fn lemma_bishop_values()
    ensures
        small_values(BISHOP_SQUARE_VALUES@),
{
}

proof fn lemma_rook_values()
    ensures
        small_values(ROOK_SQUARE_VALUES@),
{
}

proof fn lemma_queen_values()
    ensures
        small_values(QUEEN_SQUARE_VALUES@),
{
}

proof fn lemma_king_early_values()
    ensures
        small_values(KING_EARLY_SQUARE_VALUES@),
{
}

proof fn lemma_king_late_values()
    ensures
        small_values(KING_LATE_SQUARE_VALUES@),
{
}

fn sum_men(board: &Board) -> (sum: i32)
    requires
        board.wf(),
    ensures
        sum == placed(board@, PAWN, PAWN_SQUARE_VALUES@) + placed(
            board@,
            KNIGHT,
            KNIGHT_SQUARE_VALUES@,
        ) + placed(board@, BISHOP, BISHOP_SQUARE_VALUES@) + placed(
            board@,
            ROOK,
            ROOK_SQUARE_VALUES@,
        ) + placed(board@, QUEEN, QUEEN_SQUARE_VALUES@),
        -1_280_000 <= sum <= 1_280_000,
{
    proof {
        lemma_pawn_values();
        lemma_knight_values();
        lemma_bishop_values();
        lemma_rook_values();
        lemma_queen_values();
    }
    let mut score: i32 = 0;
    score += sum_placed(board, PAWN, &PAWN_SQUARE_VALUES);
    score += sum_placed(board, KNIGHT, &KNIGHT_SQUARE_VALUES);
    score += sum_placed(board, BISHOP, &BISHOP_SQUARE_VALUES);
    score += sum_placed(board, ROOK, &ROOK_SQUARE_VALUES);
    score += sum_placed(board, QUEEN, &QUEEN_SQUARE_VALUES);
    score
}

fn sum_kings(board: &Board) -> (sum: i32)
    requires
        board.wf(),
    ensures
        sum == kings_placed(board@),
        -2000 <= sum <= 2000,
{
    proof {
        lemma_king_early_values();
        lemma_king_late_values();
    }
    let white_pieces = board.get_piece_counts(Colour::White);
    let black_pieces = board.get_piece_counts(Colour::Black);
    let in_late_game = white_pieces[4] + black_pieces[4] == 0 || white_pieces[2] + white_pieces[3]
        + black_pieces[2] + black_pieces[3] <= 2;
    assert(on_board(board.white_king as int) && on_board(board.black_king as int));
    if in_late_game {
        KING_LATE_SQUARE_VALUES[board.white_king as usize] - KING_LATE_SQUARE_VALUES[flip(
            board.black_king,
        ) as usize]
    } else {
        KING_EARLY_SQUARE_VALUES[board.white_king as usize] - KING_EARLY_SQUARE_VALUES[flip(
            board.black_king,
        ) as usize]
    }
}

/// The value of a board by its men and where they stand, for the side to
/// move.
pub fn advanced_eval(board: &Board) -> (score: i32)
    requires
        board.wf(),
    ensures
        score == spec_advanced_eval(board@),
        -2_000_000 <= score <= 2_000_000,
{
    if board.is_draw_by_insufficient_material() {
        return 0;
    }
    let score = sum_men(board) + sum_kings(board);
    match board.side_to_move {
        Colour::White => score,
        Colour::Black => -score,
    }
}

} // verus!
