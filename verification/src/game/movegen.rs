//! The move generator: what the men may try, the legality test, and the
//! count of lines of play.

use vstd::prelude::*;
use crate::game::analysis::get_position_info;
use crate::game::analysis::position_info;
use crate::game::analysis::PositionInfo;
use crate::game::analysis::Sweep;
use crate::game::board::Board;
use crate::game::check::in_check;
use crate::game::chess_util::on_board;
use crate::game::exact::plays_safely;
use crate::game::chess_util::spec_step;
use crate::game::chess_util::square_is_on_board;
use crate::game::chess_util::step;
use crate::game::chess_util::Square;
use crate::game::chess_util::{A1, A2, B1, B8, C1, C8, D1, D8, F1, F8, G1, G8, H7, H8};
use crate::game::chess_util::{BLACK_KINGSIDE, BLACK_QUEENSIDE, WHITE_KINGSIDE, WHITE_QUEENSIDE};
use crate::game::chess_util::{DIAGONAL_OFFSETS, KING_OFFSETS, KNIGHT_OFFSETS, ORTHOGONAL_OFFSETS};
use crate::game::mask::SquareSet;
use crate::game::moves::Move;
use crate::game::moves::MoveType;
use crate::game::piece::Colour;
use crate::game::piece::Piece;
use crate::game::piece::{BISHOP, KING, KNIGHT, PAWN, QUEEN, ROOK};
use crate::game::position::has_right;
use crate::game::position::lemma_apply_then_unapply;
use crate::game::position::Position;
use crate::game::rules::lemma_legal_moves_are_the_rules;
use crate::game::rules::obeys_rules;
use crate::game::safety::lemma_legal_move_is_safe;

verus! {

/// Whether `square` lies on or beyond the first rank of `colour`.
pub open spec fn spec_is_back_rank(colour: Colour, square: int) -> bool {
    (colour == Colour::White && square >= A1) || (colour == Colour::Black && square <= H8)
}

/// Whether `square` lies on or beyond the second rank of `colour`.
pub open spec fn spec_is_back_two_ranks(colour: Colour, square: int) -> bool {
    (colour == Colour::White && square >= A2) || (colour == Colour::Black && square <= H7)
}

/// Whether `square` lies on or beyond the first rank of `colour`.
pub fn is_back_rank(colour: Colour, square: Square) -> (r: bool)
    ensures
        r == spec_is_back_rank(colour, square as int),
{
    (colour == Colour::White && square >= A1) || (colour == Colour::Black && square <= H8)
}

/// Whether `square` lies on or beyond the second rank of `colour`.
pub fn is_back_two_ranks(colour: Colour, square: Square) -> (r: bool)
    ensures
        r == spec_is_back_two_ranks(colour, square as int),
{
    (colour == Colour::White && square >= A2) || (colour == Colour::Black && square <= H7)
}

/// Whether a position accepts every move of a list.
pub open spec fn all_accepted(pos: Position, moves: Seq<Move>) -> bool {
    forall|i: int| 0 <= i < moves.len() ==> pos.accepts(#[trigger] moves[i])
}

/// The move from `start` by `offset`, if its end is on the board and holds
/// nothing or a man that may be taken; else no move.
pub open spec fn step_move(pos: Position, start: u8, offset: i8) -> Seq<Move> {
    let end = spec_step(start, offset);
    let target = pos.piece_at(end as int);
    if on_board(end as int) && (target == Piece::Empty || pos.capturable(target)) {
        seq![pos.new_move(start, end, MoveType::Normal)]
    } else {
        Seq::empty()
    }
}

/// Whether a slider that stepped from `start` by `offset` may go on: the end
/// is on the board and empty.
pub open spec fn step_open(pos: Position, start: u8, offset: i8) -> bool {
    let end = spec_step(start, offset);
    on_board(end as int) && pos.piece_at(end as int) == Piece::Empty
}

/// The moves of a slider on `start` along `dir` from its `k`-th step on,
/// `total` being `k` times `dir`: square after square while they are empty,
/// and the first man of the other side.
pub open spec fn ray_moves(pos: Position, start: u8, dir: int, total: int, k: int) -> Seq<Move>
    decreases 8 - k,
{
    if k < 1 || k > 7 || total < -128 || total > 127 {
        Seq::empty()
    } else if step_open(pos, start, total as i8) {
        step_move(pos, start, total as i8) + ray_moves(pos, start, dir, total + dir, k + 1)
    } else {
        step_move(pos, start, total as i8)
    }
}

/// The moves of a slider on `start` along the first `n` of `dirs`.
pub open spec fn slider_moves(pos: Position, start: u8, dirs: Seq<i8>, n: int) -> Seq<Move>
    decreases n,
{
    if n <= 0 {
        Seq::empty()
    } else {
        slider_moves(pos, start, dirs, n - 1) + ray_moves(
            pos,
            start,
            dirs[n - 1] as int,
            dirs[n - 1] as int,
            1,
        )
    }
}

/// The moves of a man on `start` by each of the first `n` of `offsets`.
pub open spec fn leaper_moves(pos: Position, start: u8, offsets: Seq<i8>, n: int) -> Seq<Move>
    decreases n,
{
    if n <= 0 {
        Seq::empty()
    } else {
        leaper_moves(pos, start, offsets, n - 1) + step_move(pos, start, offsets[n - 1])
    }
}

/// The king's moves by the first `n` of its offsets, but for those onto a
/// square that the opponent attacks.
pub open spec fn king_moves(pos: Position, start: u8, attacked: Set<u8>, n: int) -> Seq<Move>
    decreases n,
{
    if n <= 0 {
        Seq::empty()
    } else {
        let end = spec_step(start, KING_OFFSETS@[n - 1]);
        let here = if end < 128 && !attacked.contains(end) {
            step_move(pos, start, KING_OFFSETS@[n - 1])
        } else {
            Seq::empty()
        };
        king_moves(pos, start, attacked, n - 1) + here
    }
}

/// A pawn's arrival on `end`: one move, or on the last rank one promotion
/// each to queen, rook, bishop and knight.
pub open spec fn pawn_arrivals(pos: Position, start: u8, end: u8, is_promo: bool) -> Seq<Move> {
    let us = pos.side_to_move;
    if is_promo {
        seq![
            pos.new_move(start, end, MoveType::Promotion(Piece::spec_of(us, QUEEN))),
            pos.new_move(start, end, MoveType::Promotion(Piece::spec_of(us, ROOK))),
            pos.new_move(start, end, MoveType::Promotion(Piece::spec_of(us, BISHOP))),
            pos.new_move(start, end, MoveType::Promotion(Piece::spec_of(us, KNIGHT))),
        ]
    } else {
        seq![pos.new_move(start, end, MoveType::Normal)]
    }
}

/// A pawn's capture onto `target`, if a man that may be taken stands there.
pub open spec fn pawn_capture(pos: Position, start: u8, target: int, is_promo: bool) -> Seq<Move> {
    if on_board(target) && pos.capturable(pos.piece_at(target)) {
        pawn_arrivals(pos, start, target as u8, is_promo)
    } else {
        Seq::empty()
    }
}

/// A pawn's steps ahead: one square if it is empty, and from the pawn's
/// first two ranks a second one if that is empty too.
pub open spec fn pawn_pushes(pos: Position, start: u8, is_promo: bool) -> Seq<Move> {
    let us = pos.side_to_move;
    let forward = us.spec_forward(start as int);
    let double = us.spec_forward(forward);
    if on_board(forward) && pos.piece_at(forward) == Piece::Empty {
        if spec_is_back_two_ranks(us, start as int) && on_board(double) && pos.piece_at(double)
            == Piece::Empty {
            pawn_arrivals(pos, start, forward as u8, is_promo).push(
                pos.new_move(start, double as u8, MoveType::PawnDouble),
            )
        } else {
            pawn_arrivals(pos, start, forward as u8, is_promo)
        }
    } else {
        Seq::empty()
    }
}

/// A pawn's capture in passing, if the target is beside the square ahead.
pub open spec fn pawn_en_passant(pos: Position, start: u8) -> Seq<Move> {
    let forward = pos.side_to_move.spec_forward(start as int);
    if pos.en_passant is Some && (pos.en_passant->0 == forward - 1 || pos.en_passant->0 == forward
        + 1) {
        seq![pos.new_move(start, pos.en_passant->0, MoveType::EnPassant)]
    } else {
        Seq::empty()
    }
}

/// Whatever a pawn of the side to move on `start` may try: captures to the
/// left and to the right, steps ahead, and the capture in passing.
pub open spec fn pawn_moves(pos: Position, start: u8) -> Seq<Move> {
    let us = pos.side_to_move;
    let forward = us.spec_forward(start as int);
    let is_promo = spec_is_back_rank(us.spec_opposite(), forward);
    pawn_capture(pos, start, forward - 1, is_promo) + pawn_capture(
        pos,
        start,
        forward + 1,
        is_promo,
    ) + pawn_pushes(pos, start, is_promo) + pawn_en_passant(pos, start)
}

/// The castling moves of the side to move: the right is held, the squares
/// between king and rook are empty, and the opponent attacks neither the
/// square the king passes nor the one it lands on.
pub open spec fn castle_moves(pos: Position, attacked: Set<u8>) -> Seq<Move> {
    let rights = pos.castling_rights;
    let king = pos.king_square(pos.side_to_move);
    let (king_side, queen_side, b, c, d, f, g) = match pos.side_to_move {
        Colour::White => (WHITE_KINGSIDE, WHITE_QUEENSIDE, B1, C1, D1, F1, G1),
        Colour::Black => (BLACK_KINGSIDE, BLACK_QUEENSIDE, B8, C8, D8, F8, G8),
    };
    let short = if has_right(rights, king_side) && pos.squares[f as int] == Piece::Empty
        && pos.squares[g as int] == Piece::Empty && !attacked.contains(f) && !attacked.contains(g) {
        seq![pos.new_move(king, g, MoveType::Castle)]
    } else {
        Seq::empty()
    };
    let long = if has_right(rights, queen_side) && pos.squares[b as int] == Piece::Empty
        && pos.squares[c as int] == Piece::Empty && pos.squares[d as int] == Piece::Empty
        && !attacked.contains(c) && !attacked.contains(d) {
        seq![pos.new_move(king, c, MoveType::Castle)]
    } else {
        Seq::empty()
    };
    short + long
}

/// The pawn moves from the first `n` squares of a list.
pub open spec fn each_pawn(pos: Position, list: Seq<u8>, n: int) -> Seq<Move>
    decreases n,
{
    if n <= 0 {
        Seq::empty()
    } else {
        each_pawn(pos, list, n - 1) + pawn_moves(pos, list[n - 1])
    }
}

/// The knight moves from the first `n` squares of a list.
pub open spec fn each_knight(pos: Position, list: Seq<u8>, n: int) -> Seq<Move>
    decreases n,
{
    if n <= 0 {
        Seq::empty()
    } else {
        each_knight(pos, list, n - 1) + leaper_moves(pos, list[n - 1], KNIGHT_OFFSETS@, 8)
    }
}

/// The moves along `dirs` from the first `n` squares of a list.
pub open spec fn each_slider(pos: Position, list: Seq<u8>, dirs: Seq<i8>, n: int) -> Seq<Move>
    decreases n,
{
    if n <= 0 {
        Seq::empty()
    } else {
        each_slider(pos, list, dirs, n - 1) + slider_moves(pos, list[n - 1], dirs, 4)
    }
}

/// The queen moves from the first `n` squares of a list: for each queen the
/// diagonals, then ranks and files.
pub open spec fn each_queen(pos: Position, list: Seq<u8>, n: int) -> Seq<Move>
    decreases n,
{
    if n <= 0 {
        Seq::empty()
    } else {
        each_queen(pos, list, n - 1) + slider_moves(pos, list[n - 1], DIAGONAL_OFFSETS@, 4)
            + slider_moves(pos, list[n - 1], ORTHOGONAL_OFFSETS@, 4)
    }
}

/// Every move that obeys the way the men move, whether or not it leaves the
/// king attacked: castling first, then pawns, knights, bishops, rooks,
/// queens and the king, each kind in the order of its squares.
pub open spec fn pseudo_moves(pos: Position, attacked: Set<u8>) -> Seq<Move> {
    let us = pos.side_to_move;
    let pawns = pos.squares_of(Piece::spec_of(us, PAWN));
    let knights = pos.squares_of(Piece::spec_of(us, KNIGHT));
    let bishops = pos.squares_of(Piece::spec_of(us, BISHOP));
    let rooks = pos.squares_of(Piece::spec_of(us, ROOK));
    let queens = pos.squares_of(Piece::spec_of(us, QUEEN));
    castle_moves(pos, attacked) + each_pawn(pos, pawns, pawns.len() as int) + each_knight(
        pos,
        knights,
        knights.len() as int,
    ) + each_slider(pos, bishops, DIAGONAL_OFFSETS@, bishops.len() as int) + each_slider(
        pos,
        rooks,
        ORTHOGONAL_OFFSETS@,
        rooks.len() as int,
    ) + each_queen(pos, queens, queens.len() as int) + king_moves(
        pos,
        pos.king_square(us),
        attacked,
        8,
    )
}

/// Whether one of the first `n` pins holds the man that `m` moves and does
/// not allow the square it moves to.
pub open spec fn leaves_pin_line(pins: Seq<(u8, Set<u8>)>, m: Move, n: int) -> bool
    decreases n,
{
    n > 0 && (leaves_pin_line(pins, m, n - 1) || (pins[n - 1].0 == m.start_square
        && !pins[n - 1].1.contains(m.end_square)))
}

/// Whether a line from `from` along `dir` meets, before any other man and
/// within `steps` steps, one of the two given sliders.
pub open spec fn line_attacker(
    squares: Seq<Piece>,
    from: int,
    dir: int,
    steps: nat,
    slider: Piece,
    queen: Piece,
) -> bool
    decreases steps,
{
    let t = from + dir;
    steps > 0 && on_board(t) && (squares[t] == slider || squares[t] == queen || (squares[t]
        == Piece::Empty && line_attacker(squares, t, dir, (steps - 1) as nat, slider, queen)))
}

/// Whether one of the lines from `from` along the first `n` of `dirs` meets
/// one of the two given sliders first.
pub open spec fn any_line_attacker(
    squares: Seq<Piece>,
    from: int,
    dirs: Seq<i8>,
    n: int,
    slider: Piece,
    queen: Piece,
) -> bool
    decreases n,
{
    n > 0 && (any_line_attacker(squares, from, dirs, n - 1, slider, queen) || line_attacker(
        squares,
        from,
        dirs[n - 1] as int,
        7,
        slider,
        queen,
    ))
}

/// Whether a bishop, rook or queen of `by` attacks `king` on the given
/// board.
pub open spec fn slider_attacks(squares: Seq<Piece>, king: u8, by: Colour) -> bool {
    any_line_attacker(
        squares,
        king as int,
        DIAGONAL_OFFSETS@,
        4,
        Piece::spec_of(by, BISHOP),
        Piece::spec_of(by, QUEEN),
    ) || any_line_attacker(
        squares,
        king as int,
        ORTHOGONAL_OFFSETS@,
        4,
        Piece::spec_of(by, ROOK),
        Piece::spec_of(by, QUEEN),
    )
}

/// Whether a capture in passing would leave the mover's king attacked by a
/// slider: it takes two pawns off one rank and puts one on another file, so
/// it can open lines that no pin describes.
pub open spec fn en_passant_exposes(pos: Position, m: Move) -> bool {
    slider_attacks(
        pos.squares_after(m),
        pos.king_square(pos.side_to_move),
        pos.side_to_move.spec_opposite(),
    )
}

/// The legality test. Without a check a move is legal unless it takes a
/// pinned man off its line. In a single check that can be answered on some
/// square, the king may move but not castle, and another man may move onto
/// such a square or take the pawn that gives the check in passing, pins
/// respected. Otherwise only the king moves, and not by castling. A capture
/// in passing must, besides, not open a line onto the king.
pub open spec fn is_legal(pos: Position, info: Sweep, m: Move) -> bool {
    let own_king = Piece::spec_of(pos.side_to_move, KING);
    let by_check = if info.count == 0 {
        !leaves_pin_line(info.pins, m, info.pins.len() as int)
    } else if info.count == 1 && info.block != Set::<u8>::empty() {
        &&& m.move_type != MoveType::Castle
        &&& m.moved_piece == own_king || info.block.contains(m.end_square) || (m.move_type
            == MoveType::EnPassant && 0 <= pos.en_passant_victim(m.end_square as int) < 128
            && info.block.contains(pos.en_passant_victim(m.end_square as int) as u8))
        &&& !leaves_pin_line(info.pins, m, info.pins.len() as int)
    } else {
        m.moved_piece == own_king && m.move_type != MoveType::Castle
    };
    by_check && (m.move_type == MoveType::EnPassant ==> !en_passant_exposes(pos, m))
}

/// Those of the first `n` moves of a list that pass the legality test.
pub open spec fn legal_among(pos: Position, moves: Seq<Move>, info: Sweep, n: int) -> Seq<Move>
    decreases n,
{
    if n <= 0 {
        Seq::empty()
    } else if is_legal(pos, info, moves[n - 1]) {
        legal_among(pos, moves, info, n - 1).push(moves[n - 1])
    } else {
        legal_among(pos, moves, info, n - 1)
    }
}

/// The legal moves of a position, in the order in which they are generated.
#[verifier::opaque]
pub open spec fn legal_moves(pos: Position) -> Seq<Move> {
    let info = position_info(pos, pos.side_to_move);
    let pseudo = pseudo_moves(pos, info.attacked);
    legal_among(pos, pseudo, info, pseudo.len() as int)
}

/// Adds the move from `start_square` by `offset` if its end is on the board
/// and not held by a man of the same side or by a king. Says whether the end
/// was empty, so that a slider may go on.
pub fn try_add_move(moves: &mut Vec<Move>, board: &Board, start_square: Square, offset: i8) -> (open:
    bool)
    requires
        board.wf(),
        board@.own_man(start_square),
        all_accepted(board@, old(moves)@),
    ensures
        final(moves)@ == old(moves)@ + step_move(board@, start_square, offset),
        open == step_open(board@, start_square, offset),
        all_accepted(board@, final(moves)@),
{
    let end_square = step(start_square, offset);
    if !square_is_on_board(end_square) {
        assert(moves@ =~= old(moves)@ + step_move(board@, start_square, offset));
        return false;
    }
    let end_piece = board.get_piece(end_square);
    if end_piece != Piece::Empty && (end_piece.is_colour(board.side_to_move)
        || end_piece.is_king()) {
        assert(moves@ =~= old(moves)@ + step_move(board@, start_square, offset));
        return false;
    }
    let new_move = Move::new(board, start_square, end_square);
    moves.push(new_move);
    assert(moves@ =~= old(moves)@ + step_move(board@, start_square, offset));
    end_piece == Piece::Empty
}

/// Adds the moves of a slider on `start_square` along each of `dirs`.
pub fn add_sliding_moves(moves: &mut Vec<Move>, board: &Board, start_square: Square, dirs: &[i8; 4])
    requires
        board.wf(),
        board@.own_man(start_square),
        all_accepted(board@, old(moves)@),
        forall|i: int| 0 <= i < 4 ==> -17 <= #[trigger] dirs@[i] <= 17,
    ensures
        final(moves)@ == old(moves)@ + slider_moves(board@, start_square, dirs@, 4),
        all_accepted(board@, final(moves)@),
{
    let mut i: usize = 0;
    assert(moves@ =~= old(moves)@ + slider_moves(board@, start_square, dirs@, 0));
    while i < 4
        invariant
            i <= 4,
            board.wf(),
            board@.own_man(start_square),
            all_accepted(board@, moves@),
            forall|i: int| 0 <= i < 4 ==> -17 <= #[trigger] dirs@[i] <= 17,
            moves@ == old(moves)@ + slider_moves(board@, start_square, dirs@, i as int),
        decreases 4 - i,
    {
        let dir = dirs[i];
        let ghost base = moves@;
        let mut total: i8 = dir;
        let mut k: i8 = 1;
        let mut open = true;
        assert(base + ray_moves(board@, start_square, dir as int, dir as int, 1) =~= old(moves)@
            + slider_moves(board@, start_square, dirs@, i as int + 1));
        while open
            invariant
                -17 <= dir <= 17,
                1 <= k <= 8,
                -17 * k <= total <= 17 * k,
                k == 8 ==> !open,
                board.wf(),
                board@.own_man(start_square),
                all_accepted(board@, moves@),
                open ==> moves@ + ray_moves(board@, start_square, dir as int, total as int, k as int)
                    == base + ray_moves(board@, start_square, dir as int, dir as int, 1),
                !open ==> moves@ == base + ray_moves(
                    board@,
                    start_square,
                    dir as int,
                    dir as int,
                    1,
                ),
            decreases 9 - k + (if open { 1int } else { 0int }),
        {
            let ghost before = moves@;
            let ghost rest = ray_moves(
                board@,
                start_square,
                dir as int,
                total as int + dir as int,
                k as int + 1,
            );
            let ghost here = step_move(board@, start_square, total);
            let went_on = try_add_move(moves, board, start_square, total);
            if went_on && k < 7 {
                assert(before + (here + rest) =~= (before + here) + rest);
                total = total + dir;
                k = k + 1;
            } else {
                assert(before + ray_moves(
                    board@,
                    start_square,
                    dir as int,
                    total as int,
                    k as int,
                ) =~= before + here);
                open = false;
            }
        }
        i += 1;
    }
}

/// Adds the moves of a slider on `start_square` along the diagonals.
pub fn add_bishop_moves(moves: &mut Vec<Move>, board: &Board, start_square: Square)
    requires
        board.wf(),
        board@.own_man(start_square),
        all_accepted(board@, old(moves)@),
    ensures
        final(moves)@ == old(moves)@ + slider_moves(board@, start_square, DIAGONAL_OFFSETS@, 4),
        all_accepted(board@, final(moves)@),
{
    add_sliding_moves(moves, board, start_square, &DIAGONAL_OFFSETS);
}

/// Adds the moves of a slider on `start_square` along ranks and files.
pub fn add_rook_moves(moves: &mut Vec<Move>, board: &Board, start_square: Square)
    requires
        board.wf(),
        board@.own_man(start_square),
        all_accepted(board@, old(moves)@),
    ensures
        final(moves)@ == old(moves)@ + slider_moves(board@, start_square, ORTHOGONAL_OFFSETS@, 4),
        all_accepted(board@, final(moves)@),
{
    add_sliding_moves(moves, board, start_square, &ORTHOGONAL_OFFSETS);
}

/// What stands on an index that may lie beyond the board.
fn piece_on(board: &Board, square: i16) -> (r: Piece)
    ensures
        r == board@.piece_at(square as int),
{
    if 0 <= square && square < 128 {
        board.get_piece(square as u8)
    } else {
        Piece::Border
    }
}

fn index_on_board(square: i16) -> (r: bool)
    ensures
        r == on_board(square as int),
{
    0 <= square && square < 128 && square_is_on_board(square as u8)
}

/// Adds a pawn's arrival on `end_square`: one move, or the four promotions.
pub fn add_pawn_moves(
    moves: &mut Vec<Move>,
    board: &Board,
    start_square: Square,
    end_square: Square,
    colour: Colour,
    is_promo: bool,
)
    requires
        board.wf(),
        colour == board.side_to_move,
        on_board(start_square as int),
        on_board(end_square as int),
        board@.squares[start_square as int] == Piece::spec_of(colour, PAWN),
        board@.squares[end_square as int] == Piece::Empty || board@.capturable(
            board@.squares[end_square as int],
        ),
        all_accepted(board@, old(moves)@),
    ensures
        final(moves)@ == old(moves)@ + pawn_arrivals(board@, start_square, end_square, is_promo),
        all_accepted(board@, final(moves)@),
{
    if is_promo {
        moves.push(Move::new_promotion(board, start_square, end_square, Piece::of(colour, QUEEN)));
        moves.push(Move::new_promotion(board, start_square, end_square, Piece::of(colour, ROOK)));
        moves.push(Move::new_promotion(board, start_square, end_square, Piece::of(colour, BISHOP)));
        moves.push(Move::new_promotion(board, start_square, end_square, Piece::of(colour, KNIGHT)));
    } else {
        moves.push(Move::new(board, start_square, end_square));
    }
    assert(moves@ =~= old(moves)@ + pawn_arrivals(board@, start_square, end_square, is_promo));
}

fn add_pawn_capture(
    moves: &mut Vec<Move>,
    board: &Board,
    start_square: Square,
    target: i16,
    colour: Colour,
    is_promo: bool,
)
    requires
        board.wf(),
        colour == board.side_to_move,
        on_board(start_square as int),
        board@.squares[start_square as int] == Piece::spec_of(colour, PAWN),
        all_accepted(board@, old(moves)@),
    ensures
        final(moves)@ == old(moves)@ + pawn_capture(board@, start_square, target as int, is_promo),
        all_accepted(board@, final(moves)@),
{
    let piece_at = piece_on(board, target);
    if index_on_board(target) && piece_at != Piece::Empty && !piece_at.is_colour(colour)
        && !piece_at.is_king() {
        add_pawn_moves(moves, board, start_square, target as u8, colour, is_promo);
    } else {
        assert(moves@ =~= old(moves)@ + pawn_capture(
            board@,
            start_square,
            target as int,
            is_promo,
        ));
    }
}

fn add_pawn_pushes(
    moves: &mut Vec<Move>,
    board: &Board,
    start_square: Square,
    colour: Colour,
    is_promo: bool,
)
    requires
        board.wf(),
        colour == board.side_to_move,
        on_board(start_square as int),
        board@.squares[start_square as int] == Piece::spec_of(colour, PAWN),
        all_accepted(board@, old(moves)@),
    ensures
        final(moves)@ == old(moves)@ + pawn_pushes(board@, start_square, is_promo),
        all_accepted(board@, final(moves)@),
{
    let step_ahead: i16 = match colour {
        Colour::White => -16,
        Colour::Black => 16,
    };
    let forward: i16 = start_square as i16 + step_ahead;
    if index_on_board(forward) && piece_on(board, forward) == Piece::Empty {
        add_pawn_moves(moves, board, start_square, forward as u8, colour, is_promo);
        let double_move_square: i16 = forward + step_ahead;
        if is_back_two_ranks(colour, start_square) && index_on_board(double_move_square)
            && piece_on(board, double_move_square) == Piece::Empty {
            moves.push(Move::new_pawn_double(board, start_square, double_move_square as u8));
        }
    }
    assert(moves@ =~= old(moves)@ + pawn_pushes(board@, start_square, is_promo));
}

fn add_pawn_en_passant(
    moves: &mut Vec<Move>,
    board: &Board,
    start_square: Square,
    colour: Colour,
)
    requires
        board.wf(),
        colour == board.side_to_move,
        on_board(start_square as int),
        board@.squares[start_square as int] == Piece::spec_of(colour, PAWN),
        all_accepted(board@, old(moves)@),
    ensures
        final(moves)@ == old(moves)@ + pawn_en_passant(board@, start_square),
        all_accepted(board@, final(moves)@),
{
    let forward: i16 = match colour {
        Colour::White => start_square as i16 - 16,
        Colour::Black => start_square as i16 + 16,
    };
    match board.en_passant_chance {
        Some(en_passant_square) => {
            if en_passant_square as i16 == forward - 1 || en_passant_square as i16 == forward + 1 {
                moves.push(Move::new_en_passant(board, start_square, en_passant_square));
            }
        },
        None => {},
    }
    assert(moves@ =~= old(moves)@ + pawn_en_passant(board@, start_square));
}

/// Adds whatever the pawn on `start_square` may try.
pub fn gen_valid_pawn_moves(
    moves: &mut Vec<Move>,
    board: &Board,
    start_square: Square,
    colour: Colour,
)
    requires
        board.wf(),
        colour == board.side_to_move,
        on_board(start_square as int),
        board@.squares[start_square as int] == Piece::spec_of(colour, PAWN),
        all_accepted(board@, old(moves)@),
    ensures
        final(moves)@ == old(moves)@ + pawn_moves(board@, start_square),
        all_accepted(board@, final(moves)@),
{
    let forward: i16 = match colour {
        Colour::White => start_square as i16 - 16,
        Colour::Black => start_square as i16 + 16,
    };
    let is_promo = match colour {
        Colour::White => forward <= H8 as i16,
        Colour::Black => forward >= A1 as i16,
    };
    let ghost pos = board@;
    let ghost left = pawn_capture(pos, start_square, forward - 1, is_promo);
    let ghost right = pawn_capture(pos, start_square, forward + 1, is_promo);
    let ghost pushes = pawn_pushes(pos, start_square, is_promo);
    let ghost passing = pawn_en_passant(pos, start_square);
    add_pawn_capture(moves, board, start_square, forward - 1, colour, is_promo);
    add_pawn_capture(moves, board, start_square, forward + 1, colour, is_promo);
    add_pawn_pushes(moves, board, start_square, colour, is_promo);
    add_pawn_en_passant(moves, board, start_square, colour);
    assert((((old(moves)@ + left) + right) + pushes) + passing =~= old(moves)@ + (left + right
        + pushes + passing));
}

/// Adds the moves of the man on `start_square` by each of eight offsets.
fn add_leaper_moves(moves: &mut Vec<Move>, board: &Board, start_square: Square, offsets: &[i8; 8])
    requires
        board.wf(),
        board@.own_man(start_square),
        all_accepted(board@, old(moves)@),
    ensures
        final(moves)@ == old(moves)@ + leaper_moves(board@, start_square, offsets@, 8),
        all_accepted(board@, final(moves)@),
{
    let mut i: usize = 0;
    assert(moves@ =~= old(moves)@ + leaper_moves(board@, start_square, offsets@, 0));
    while i < 8
        invariant
            i <= 8,
            board.wf(),
            board@.own_man(start_square),
            all_accepted(board@, moves@),
            moves@ == old(moves)@ + leaper_moves(board@, start_square, offsets@, i as int),
        decreases 8 - i,
    {
        let ghost before = leaper_moves(board@, start_square, offsets@, i as int);
        let ghost here = step_move(board@, start_square, offsets@[i as int]);
        try_add_move(moves, board, start_square, offsets[i]);
        assert((old(moves)@ + before) + here =~= old(moves)@ + (before + here));
        i += 1;
    }
}

/// Adds the king's moves onto squares that the opponent does not attack.
fn add_king_moves(
    moves: &mut Vec<Move>,
    board: &Board,
    king_square: Square,
    attacked: &SquareSet,
)
    requires
        board.wf(),
        board@.own_man(king_square),
        all_accepted(board@, old(moves)@),
    ensures
        final(moves)@ == old(moves)@ + king_moves(board@, king_square, attacked@, 8),
        all_accepted(board@, final(moves)@),
{
    let mut i: usize = 0;
    assert(moves@ =~= old(moves)@ + king_moves(board@, king_square, attacked@, 0));
    while i < 8
        invariant
            i <= 8,
            board.wf(),
            board@.own_man(king_square),
            all_accepted(board@, moves@),
            moves@ == old(moves)@ + king_moves(board@, king_square, attacked@, i as int),
        decreases 8 - i,
    {
        let ghost before = king_moves(board@, king_square, attacked@, i as int);
        let ghost grown = king_moves(board@, king_square, attacked@, i as int + 1);
        let offset = KING_OFFSETS[i];
        let test_square = step(king_square, offset);
        if test_square < 128 && !attacked.contains(test_square) {
            let ghost here = step_move(board@, king_square, offset);
            try_add_move(moves, board, king_square, offset);
            assert((old(moves)@ + before) + here =~= old(moves)@ + (before + here));
        } else {
            assert(old(moves)@ + before =~= old(moves)@ + grown);
        }
        i += 1;
    }
}

/// Adds the castling moves of the side to move.
fn add_castle_moves(moves: &mut Vec<Move>, board: &Board, attacked: &SquareSet)
    requires
        board.wf(),
        old(moves)@.len() == 0,
    ensures
        final(moves)@ == castle_moves(board@, attacked@),
        all_accepted(board@, final(moves)@),
{
    let (king_square, king_side, queen_side, b, c, d, f, g) = match board.side_to_move {
        Colour::White => (board.white_king, WHITE_KINGSIDE, WHITE_QUEENSIDE, B1, C1, D1, F1, G1),
        Colour::Black => (board.black_king, BLACK_KINGSIDE, BLACK_QUEENSIDE, B8, C8, D8, F8, G8),
    };
    if board.castling_rights & king_side != 0 && board.get_piece(f) == Piece::Empty
        && board.get_piece(g) == Piece::Empty && !attacked.contains(f) && !attacked.contains(g) {
        moves.push(Move::new_castle(board, king_square, g));
    }
    if board.castling_rights & queen_side != 0 && board.get_piece(b) == Piece::Empty
        && board.get_piece(c) == Piece::Empty && board.get_piece(d) == Piece::Empty
        && !attacked.contains(c) && !attacked.contains(d) {
        moves.push(Move::new_castle(board, king_square, c));
    }
    assert(moves@ =~= castle_moves(board@, attacked@));
}

/// Whether a pin holds the man that `m` moves and forbids where it goes.
fn is_pinned(info: &PositionInfo, m: &Move) -> (r: bool)
    ensures
        r == leaves_pin_line(info@.pins, *m, info@.pins.len() as int),
{
    let mut pinned = false;
    let mut i: usize = 0;
    while i < info.pinned_pieces.len()
        invariant
            i <= info.pinned_pieces.len(),
            info@.pins.len() == info.pinned_pieces.len(),
            pinned == leaves_pin_line(info@.pins, *m, i as int),
        decreases info.pinned_pieces.len() - i,
    {
        let pin = info.pinned_pieces[i];
        assert(info@.pins[i as int] == (pin.0, pin.1@));
        if pin.0 == m.start_square && !pin.1.contains(m.end_square) {
            pinned = true;
        }
        i += 1;
    }
    pinned
}

/// What stands on `square` once the capture in passing `m` is made.
fn piece_after_en_passant(board: &Board, m: &Move, victim: u8, square: u8) -> (r: Piece)
    requires
        board@.squares.len() == 128,
        square < 128,
        m.start_square < 128,
        m.end_square < 128,
        victim < 128,
        m.move_type == MoveType::EnPassant,
        victim as int == board@.en_passant_victim(m.end_square as int),
    ensures
        r == board@.squares_after(*m)[square as int],
{
    if square == victim || square == m.start_square {
        Piece::Empty
    } else if square == m.end_square {
        m.moved_piece
    } else {
        board.get_piece(square)
    }
}

/// Whether the capture in passing `m` would leave the mover's king attacked
/// by a slider along one of `dirs`.
fn en_passant_opens(
    board: &Board,
    m: &Move,
    victim: u8,
    king: u8,
    dirs: &[i8; 4],
    slider: Piece,
    queen: Piece,
) -> (r: bool)
    requires
        board@.squares.len() == 128,
        king < 128,
        m.start_square < 128,
        m.end_square < 128,
        victim < 128,
        m.move_type == MoveType::EnPassant,
        victim as int == board@.en_passant_victim(m.end_square as int),
    ensures
        r == any_line_attacker(board@.squares_after(*m), king as int, dirs@, 4, slider, queen),
{
    let ghost after = board@.squares_after(*m);
    let mut found = false;
    let mut i: usize = 0;
    while i < 4
        invariant
            i <= 4,
            board@.squares.len() == 128,
            king < 128,
            m.start_square < 128,
            m.end_square < 128,
            victim < 128,
            m.move_type == MoveType::EnPassant,
            victim as int == board@.en_passant_victim(m.end_square as int),
            after == board@.squares_after(*m),
            found == any_line_attacker(after, king as int, dirs@, i as int, slider, queen),
        decreases 4 - i,
    {
        let dir = dirs[i];
        let mut cur: i16 = king as i16;
        let mut steps: u8 = 7;
        let mut hit = false;
        let mut walking = true;
        while walking
            invariant
                0 <= cur < 128,
                steps <= 7,
                board@.squares.len() == 128,
                m.start_square < 128,
                m.end_square < 128,
                victim < 128,
                m.move_type == MoveType::EnPassant,
                victim as int == board@.en_passant_victim(m.end_square as int),
                after == board@.squares_after(*m),
                walking ==> !hit,
                walking ==> line_attacker(after, cur as int, dir as int, steps as nat, slider, queen)
                    == line_attacker(after, king as int, dir as int, 7, slider, queen),
                !walking ==> hit == line_attacker(after, king as int, dir as int, 7, slider, queen),
            decreases steps + (if walking { 1int } else { 0int }),
        {
            let t: i16 = cur + dir as i16;
            if steps == 0 || t < 0 || t >= 128 || !square_is_on_board(t as u8) {
                walking = false;
            } else {
                let piece = piece_after_en_passant(board, m, victim, t as u8);
                if piece == slider || piece == queen {
                    hit = true;
                    walking = false;
                } else if piece == Piece::Empty {
                    cur = t;
                    steps -= 1;
                } else {
                    walking = false;
                }
            }
        }
        if hit {
            found = true;
        }
        i += 1;
    }
    found
}

/// The legality test on one move.
fn move_is_legal(board: &Board, info: &PositionInfo, m: &Move) -> (r: bool)
    requires
        board.wf(),
        board@.accepts(*m),
    ensures
        r == is_legal(board@, info@, *m),
{
    let us = board.side_to_move;
    let opp = us.opposite();
    let own_king = Piece::of(us, KING);
    if m.move_type == MoveType::EnPassant {
        let victim = opp.offset_rank(m.end_square);
        let by_check = if info.king_attacker_count == 0 {
            !is_pinned(info, m)
        } else if info.king_attacker_count == 1 && !info.king_block_board.is_empty() {
            (info.king_block_board.contains(m.end_square) || info.king_block_board.contains(
                victim,
            )) && !is_pinned(info, m)
        } else {
            false
        };
        if !by_check {
            return false;
        }
        let king = match us {
            Colour::White => board.white_king,
            Colour::Black => board.black_king,
        };
        let queen = Piece::of(opp, QUEEN);
        !en_passant_opens(board, m, victim, king, &DIAGONAL_OFFSETS, Piece::of(opp, BISHOP), queen)
            && !en_passant_opens(
            board,
            m,
            victim,
            king,
            &ORTHOGONAL_OFFSETS,
            Piece::of(opp, ROOK),
            queen,
        )
    } else if info.king_attacker_count == 0 {
        !is_pinned(info, m)
    } else if info.king_attacker_count == 1 && !info.king_block_board.is_empty() {
        m.move_type != MoveType::Castle && (m.moved_piece == own_king
            || info.king_block_board.contains(m.end_square)) && !is_pinned(info, m)
    } else {
        m.moved_piece == own_king && m.move_type != MoveType::Castle
    }
}

#[verifier::rlimit(40)]
fn add_all_pawns(moves: &mut Vec<Move>, board: &Board)
    requires
        board.wf(),
        all_accepted(board@, old(moves)@),
    ensures
        final(moves)@ == old(moves)@ + each_pawn(
            board@,
            board@.squares_of(Piece::spec_of(board.side_to_move, PAWN)),
            board@.squares_of(Piece::spec_of(board.side_to_move, PAWN)).len() as int,
        ),
        all_accepted(board@, final(moves)@),
{
    let ghost pos = board@;
    let side_to_move = board.side_to_move;
    let pawns = board.get_piece_position(Piece::of(side_to_move, PAWN));
    let mut i: usize = 0;
    assert(moves@ =~= old(moves)@ + each_pawn(pos, pawns@, 0));
    while i < pawns.len()
        invariant
            i <= pawns.len(),
            board.wf(),
            pos == board@,
            side_to_move == board.side_to_move,
            pos.lists(Piece::spec_of(side_to_move, PAWN), pawns@),
            all_accepted(pos, moves@),
            moves@ == old(moves)@ + each_pawn(pos, pawns@, i as int),
        decreases pawns.len() - i,
    {
        let ghost before = each_pawn(pos, pawns@, i as int);
        assert(on_board(pawns@[i as int] as int));
        gen_valid_pawn_moves(moves, board, pawns[i], side_to_move);
        assert((old(moves)@ + before) + pawn_moves(pos, pawns@[i as int]) =~= old(moves)@ + (before
            + pawn_moves(pos, pawns@[i as int])));
        i += 1;
    }
}

#[verifier::rlimit(40)]
fn add_all_knights(moves: &mut Vec<Move>, board: &Board)
    requires
        board.wf(),
        all_accepted(board@, old(moves)@),
    ensures
        final(moves)@ == old(moves)@ + each_knight(
            board@,
            board@.squares_of(Piece::spec_of(board.side_to_move, KNIGHT)),
            board@.squares_of(Piece::spec_of(board.side_to_move, KNIGHT)).len() as int,
        ),
        all_accepted(board@, final(moves)@),
{
    let ghost pos = board@;
    let side_to_move = board.side_to_move;
    let knights = board.get_piece_position(Piece::of(side_to_move, KNIGHT));
    let mut i: usize = 0;
    assert(moves@ =~= old(moves)@ + each_knight(pos, knights@, 0));
    while i < knights.len()
        invariant
            i <= knights.len(),
            board.wf(),
            pos == board@,
            side_to_move == board.side_to_move,
            pos.lists(Piece::spec_of(side_to_move, KNIGHT), knights@),
            all_accepted(pos, moves@),
            moves@ == old(moves)@ + each_knight(pos, knights@, i as int),
        decreases knights.len() - i,
    {
        let ghost before = each_knight(pos, knights@, i as int);
        let ghost here = leaper_moves(pos, knights@[i as int], KNIGHT_OFFSETS@, 8);
        assert(on_board(knights@[i as int] as int));
        add_leaper_moves(moves, board, knights[i], &KNIGHT_OFFSETS);
        assert((old(moves)@ + before) + here =~= old(moves)@ + (before + here));
        i += 1;
    }
}

#[verifier::rlimit(40)]
fn add_all_sliders(moves: &mut Vec<Move>, board: &Board, kind: u8, dirs: &[i8; 4])
    requires
        board.wf(),
        kind <= KING,
        all_accepted(board@, old(moves)@),
        forall|i: int| 0 <= i < 4 ==> -17 <= #[trigger] dirs@[i] <= 17,
    ensures
        final(moves)@ == old(moves)@ + each_slider(
            board@,
            board@.squares_of(Piece::spec_of(board.side_to_move, kind)),
            dirs@,
            board@.squares_of(Piece::spec_of(board.side_to_move, kind)).len() as int,
        ),
        all_accepted(board@, final(moves)@),
{
    let ghost pos = board@;
    let side_to_move = board.side_to_move;
    let list = board.get_piece_position(Piece::of(side_to_move, kind));
    let mut i: usize = 0;
    assert(moves@ =~= old(moves)@ + each_slider(pos, list@, dirs@, 0));
    while i < list.len()
        invariant
            i <= list.len(),
            board.wf(),
            pos == board@,
            side_to_move == board.side_to_move,
            kind <= KING,
            forall|i: int| 0 <= i < 4 ==> -17 <= #[trigger] dirs@[i] <= 17,
            pos.lists(Piece::spec_of(side_to_move, kind), list@),
            all_accepted(pos, moves@),
            moves@ == old(moves)@ + each_slider(pos, list@, dirs@, i as int),
        decreases list.len() - i,
    {
        let ghost before = each_slider(pos, list@, dirs@, i as int);
        let ghost here = slider_moves(pos, list@[i as int], dirs@, 4);
        assert(on_board(list@[i as int] as int));
        add_sliding_moves(moves, board, list[i], dirs);
        assert((old(moves)@ + before) + here =~= old(moves)@ + (before + here));
        i += 1;
    }
}

#[verifier::rlimit(40)]
fn add_all_queens(moves: &mut Vec<Move>, board: &Board)
    requires
        board.wf(),
        all_accepted(board@, old(moves)@),
    ensures
        final(moves)@ == old(moves)@ + each_queen(
            board@,
            board@.squares_of(Piece::spec_of(board.side_to_move, QUEEN)),
            board@.squares_of(Piece::spec_of(board.side_to_move, QUEEN)).len() as int,
        ),
        all_accepted(board@, final(moves)@),
{
    let ghost pos = board@;
    let side_to_move = board.side_to_move;
    let queens = board.get_piece_position(Piece::of(side_to_move, QUEEN));
    let mut i: usize = 0;
    assert(moves@ =~= old(moves)@ + each_queen(pos, queens@, 0));
    while i < queens.len()
        invariant
            i <= queens.len(),
            board.wf(),
            pos == board@,
            side_to_move == board.side_to_move,
            pos.lists(Piece::spec_of(side_to_move, QUEEN), queens@),
            all_accepted(pos, moves@),
            moves@ == old(moves)@ + each_queen(pos, queens@, i as int),
        decreases queens.len() - i,
    {
        let ghost before = each_queen(pos, queens@, i as int);
        let ghost diagonal = slider_moves(pos, queens@[i as int], DIAGONAL_OFFSETS@, 4);
        let ghost straight = slider_moves(pos, queens@[i as int], ORTHOGONAL_OFFSETS@, 4);
        assert(on_board(queens@[i as int] as int));
        add_bishop_moves(moves, board, queens[i]);
        add_rook_moves(moves, board, queens[i]);
        assert(((old(moves)@ + before) + diagonal) + straight =~= old(moves)@ + (before + diagonal
            + straight));
        i += 1;
    }
}

/// Keeps the moves that pass the legality test.
fn keep_legal(board: &Board, moves: &Vec<Move>, info: &PositionInfo) -> (legal: Vec<Move>)
    requires
        board.wf(),
        all_accepted(board@, moves@),
    ensures
        legal@ == legal_among(board@, moves@, info@, moves@.len() as int),
        all_accepted(board@, legal@),
{
    let mut legal: Vec<Move> = Vec::with_capacity(moves.len());
    let mut i: usize = 0;
    while i < moves.len()
        invariant
            i <= moves.len(),
            board.wf(),
            all_accepted(board@, moves@),
            all_accepted(board@, legal@),
            legal@ == legal_among(board@, moves@, info@, i as int),
        decreases moves.len() - i,
    {
        if move_is_legal(board, info, &moves[i]) {
            legal.push(moves[i]);
        }
        i += 1;
    }
    legal
}

/// Every move that obeys the way the men move, given the squares that the
/// opponent attacks.
fn get_pseudo_moves(board: &Board, attacked: &SquareSet) -> (moves: Vec<Move>)
    requires
        board.wf(),
    ensures
        moves@ == pseudo_moves(board@, attacked@),
        all_accepted(board@, moves@),
{
    let ghost pos = board@;
    let mut moves: Vec<Move> = Vec::with_capacity(32);
    add_castle_moves(&mut moves, board, attacked);
    let ghost a = moves@;
    add_all_pawns(&mut moves, board);
    let ghost b = moves@;
    add_all_knights(&mut moves, board);
    let ghost c = moves@;
    add_all_sliders(&mut moves, board, BISHOP, &DIAGONAL_OFFSETS);
    let ghost d = moves@;
    add_all_sliders(&mut moves, board, ROOK, &ORTHOGONAL_OFFSETS);
    let ghost e = moves@;
    add_all_queens(&mut moves, board);
    let king_square = match board.side_to_move {
        Colour::White => board.white_king,
        Colour::Black => board.black_king,
    };
    add_king_moves(&mut moves, board, king_square, attacked);
    assert(moves@ == pseudo_moves(pos, attacked@));
    moves
}

/// The legal moves of the side to move, in the order in which they are
/// generated: exactly the moves that obey the way the men move and keep the
/// rules about check. The board accepts each of them.
pub fn get_possible_moves(board: &Board) -> (legal: Vec<Move>)
    requires
        board.wf(),
    ensures
        legal@ == legal_moves(board@),
        all_accepted(board@, legal@),
        forall|i: int|
            0 <= i < legal@.len() ==> !in_check(
                board@.apply(#[trigger] legal@[i]),
                board.side_to_move,
            ),
        forall|m: Move| #[trigger]
            legal@.contains(m) <==> obeys_rules(board@, m) && plays_safely(board@, m),
{
    let position_info = get_position_info(board, board.side_to_move);
    let moves = get_pseudo_moves(board, &position_info.opponent_attacked_squares);
    let legal = keep_legal(board, &moves, &position_info);
    proof {
        reveal(legal_moves);
        assert forall|i: int| 0 <= i < legal@.len() implies !in_check(
            board@.apply(#[trigger] legal@[i]),
            board.side_to_move,
        ) by {
            lemma_legal_move_is_safe(board@, legal@[i]);
        }
        assert forall|m: Move| #[trigger]
            legal@.contains(m) <==> obeys_rules(board@, m) && plays_safely(board@, m) by {
            lemma_legal_moves_are_the_rules(board@, m);
        }
    }
    legal
}

/// One more, as far as the counter reaches.
pub open spec fn capped(n: nat) -> u32 {
    if n <= u32::MAX {
        n as u32
    } else {
        u32::MAX
    }
}

/// The number of ways to play `depth` legal moves on from a position.
pub open spec fn perft(pos: Position, depth: nat) -> nat
    decreases depth, 0int,
{
    if depth == 0 {
        1
    } else if depth == 1 {
        legal_moves(pos).len()
    } else {
        perft_after(pos, legal_moves(pos), (depth - 1) as nat, legal_moves(pos).len() as int)
    }
}

/// The sum of `perft` to the given depth over the positions after each of
/// the first `n` moves of a list.
pub open spec fn perft_after(pos: Position, moves: Seq<Move>, depth: nat, n: int) -> nat
    decreases depth, n,
{
    if n <= 0 {
        0
    } else {
        perft_after(pos, moves, depth, n - 1) + perft(pos.apply(moves[n - 1]), depth)
    }
}

/// Counts the ways to play `depth` legal moves on from the board's position,
/// making and taking back each move on the board itself. A count beyond the
/// range of the result is given as the largest value.
pub fn get_num_moves(board: &mut Board, depth: u32) -> (count: u32)
    requires
        old(board).wf(),
        old(board).turns_taken + depth <= u32::MAX,
    ensures
        final(board).wf(),
        final(board)@ == old(board)@,
        count == capped(perft(old(board)@, depth as nat)),
    decreases depth, 1int,
{
    if depth == 0 {
        return 1;
    }
    let possible_moves = get_possible_moves(board);
    if depth == 1 {
        return if possible_moves.len() > u32::MAX as usize {
            u32::MAX
        } else {
            possible_moves.len() as u32
        };
    }
    let ghost pos = board@;
    let mut moves: u32 = 0;
    let mut i: usize = 0;
    while i < possible_moves.len()
        invariant
            i <= possible_moves.len(),
            depth >= 2,
            board.wf(),
            board@ == pos,
            pos.turns_taken + depth <= u32::MAX,
            possible_moves@ == legal_moves(pos),
            all_accepted(pos, possible_moves@),
            moves == capped(perft_after(pos, possible_moves@, (depth - 1) as nat, i as int)),
        decreases possible_moves.len() - i,
    {
        let below = count_after(board, &possible_moves[i], depth - 1);
        moves = if below > u32::MAX - moves {
            u32::MAX
        } else {
            moves + below
        };
        i += 1;
    }
    moves
}

/// The count of `get_num_moves` for the position after one move, which is
/// made on the board and taken back.
fn count_after(board: &mut Board, m: &Move, depth: u32) -> (count: u32)
    requires
        old(board).wf(),
        old(board)@.accepts(*m),
        old(board).turns_taken + depth < u32::MAX,
    ensures
        final(board).wf(),
        final(board)@ == old(board)@,
        count == capped(perft(old(board)@.apply(*m), depth as nat)),
    decreases depth, 2int,
{
    board.make_move(m);
    let count = get_num_moves(board, depth);
    board.undo_move();
    proof {
        lemma_apply_then_unapply(old(board)@, *m);
    }
    count
}

} // verus!
