//! The way the men move, stated square by square, and that the legal moves
//! are exactly the moves that move so and keep the rules about check.

use vstd::prelude::*;
use crate::game::accepted::lemma_list_exists;
use crate::game::check::ray_reaches;
use crate::game::chess_util::on_board;
use crate::game::chess_util::spec_step;
use crate::game::chess_util::{B1, B8, C1, C8, D1, D8, F1, F8, G1, G8};
use crate::game::chess_util::{BLACK_KINGSIDE, BLACK_QUEENSIDE, WHITE_KINGSIDE, WHITE_QUEENSIDE};
use crate::game::chess_util::{DIAGONAL_OFFSETS, KING_OFFSETS, KNIGHT_OFFSETS, ORTHOGONAL_OFFSETS};
use crate::game::exact::candidates;
use crate::game::exact::is_king_step;
use crate::game::exact::lemma_generator_is_exact;
use crate::game::exact::lemma_in_either;
use crate::game::exact::lemma_king_moves_has;
use crate::game::exact::lemma_pseudo_parts;
use crate::game::exact::plays_safely;
use crate::game::movegen::castle_moves;
use crate::game::movegen::each_knight;
use crate::game::movegen::each_pawn;
use crate::game::movegen::each_queen;
use crate::game::movegen::each_slider;
use crate::game::movegen::king_moves;
use crate::game::movegen::leaper_moves;
use crate::game::movegen::legal_moves;
use crate::game::movegen::pawn_arrivals;
use crate::game::movegen::pawn_capture;
use crate::game::movegen::pawn_en_passant;
use crate::game::movegen::pawn_moves;
use crate::game::movegen::pawn_pushes;
use crate::game::movegen::ray_moves;
use crate::game::movegen::slider_moves;
use crate::game::movegen::spec_is_back_rank;
use crate::game::movegen::spec_is_back_two_ranks;
use crate::game::movegen::step_move;
use crate::game::movegen::step_open;
use crate::game::moves::Move;
use crate::game::moves::MoveType;
use crate::game::piece::Colour;
use crate::game::piece::Piece;
use crate::game::piece::{BISHOP, KING, KNIGHT, PAWN, QUEEN, ROOK};
use crate::game::position::has_right;
use crate::game::position::Position;

verus! {

/// Whether a distance on the bordered board is a knight's step.
pub open spec fn is_knight_step(d: int) -> bool {
    d == -33 || d == -31 || d == -18 || d == -14 || d == 14 || d == 18 || d == 31 || d == 33
}

/// Whether a man of the side to move may land on a square: it is on the
/// board, and empty or held by a man of the other side that is no king.
pub open spec fn lands(pos: Position, end: u8) -> bool {
    on_board(end as int) && (pos.squares[end as int] == Piece::Empty || pos.capturable(
        pos.squares[end as int],
    ))
}

/// Whether a line from `start` along one of `dirs` comes to `end` over
/// empty squares.
pub open spec fn slides(pos: Position, start: u8, dirs: Seq<i8>, end: u8) -> bool {
    exists|k: int|
        0 <= k < dirs.len() && #[trigger] ray_reaches(
            pos.squares,
            start as int,
            dirs[k] as int,
            7,
            end as int,
        )
}

/// Whether a pawn's arrival has the right kind: on the last rank a
/// promotion to queen, rook, bishop or knight, elsewhere a plain move.
pub open spec fn arrives_right(pos: Position, m: Move, is_promo: bool) -> bool {
    let us = pos.side_to_move;
    if is_promo {
        m.move_type == MoveType::Promotion(Piece::spec_of(us, QUEEN)) || m.move_type
            == MoveType::Promotion(Piece::spec_of(us, ROOK)) || m.move_type
            == MoveType::Promotion(Piece::spec_of(us, BISHOP)) || m.move_type
            == MoveType::Promotion(Piece::spec_of(us, KNIGHT))
    } else {
        m.move_type == MoveType::Normal
    }
}

/// How a pawn moves: one square ahead onto an empty square; one square
/// ahead to the left or right onto a man that may be taken; from its first
/// two ranks two squares ahead over empty squares; or in passing onto the
/// en-passant target beside the square ahead.
pub open spec fn pawn_rule(pos: Position, m: Move) -> bool {
    let us = pos.side_to_move;
    let start = m.start_square as int;
    let end = m.end_square as int;
    let forward = us.spec_forward(start);
    let is_promo = spec_is_back_rank(us.spec_opposite(), forward);
    ||| end == forward && on_board(end) && pos.squares[end] == Piece::Empty && arrives_right(
        pos,
        m,
        is_promo,
    )
    ||| (end == forward - 1 || end == forward + 1) && on_board(end) && pos.capturable(
        pos.squares[end],
    ) && arrives_right(pos, m, is_promo)
    ||| m.move_type == MoveType::PawnDouble && spec_is_back_two_ranks(us, start) && on_board(
        forward,
    ) && pos.squares[forward] == Piece::Empty && end == us.spec_forward(forward) && on_board(end)
        && pos.squares[end] == Piece::Empty
    ||| m.move_type == MoveType::EnPassant && pos.en_passant == Some(m.end_square) && (end
        == forward - 1 || end == forward + 1)
}

/// How the king castles: it holds the right, the squares between king and
/// rook are empty, and the king goes two squares towards the rook.
pub open spec fn castle_rule(pos: Position, m: Move) -> bool {
    let rights = pos.castling_rights;
    let (king_side, queen_side, b, c, d, f, g) = match pos.side_to_move {
        Colour::White => (WHITE_KINGSIDE, WHITE_QUEENSIDE, B1, C1, D1, F1, G1),
        Colour::Black => (BLACK_KINGSIDE, BLACK_QUEENSIDE, B8, C8, D8, F8, G8),
    };
    &&& m.move_type == MoveType::Castle
    &&& m.start_square == pos.king_square(pos.side_to_move)
    &&& (has_right(rights, king_side) && pos.squares[f as int] == Piece::Empty
        && pos.squares[g as int] == Piece::Empty && m.end_square == g) || (has_right(
        rights,
        queen_side,
    ) && pos.squares[b as int] == Piece::Empty && pos.squares[c as int] == Piece::Empty
        && pos.squares[d as int] == Piece::Empty && m.end_square == c)
}

/// Whether a move obeys the way the men move: it is made by a man of the
/// side to move, from where that man stands, as that kind of man moves,
/// and it records the position it is made in.
pub open spec fn obeys_rules(pos: Position, m: Move) -> bool {
    let us = pos.side_to_move;
    let start = m.start_square;
    let end = m.end_square;
    let man = pos.squares[start as int];
    &&& on_board(start as int)
    &&& m == pos.new_move(start, end, m.move_type)
    &&& if man == Piece::spec_of(us, PAWN) {
        pawn_rule(pos, m)
    } else if man == Piece::spec_of(us, KNIGHT) {
        m.move_type == MoveType::Normal && is_knight_step(end - start) && lands(pos, end)
    } else if man == Piece::spec_of(us, BISHOP) {
        m.move_type == MoveType::Normal && slides(pos, start, DIAGONAL_OFFSETS@, end) && lands(
            pos,
            end,
        )
    } else if man == Piece::spec_of(us, ROOK) {
        m.move_type == MoveType::Normal && slides(pos, start, ORTHOGONAL_OFFSETS@, end) && lands(
            pos,
            end,
        )
    } else if man == Piece::spec_of(us, QUEEN) {
        m.move_type == MoveType::Normal && (slides(pos, start, DIAGONAL_OFFSETS@, end) || slides(
            pos,
            start,
            ORTHOGONAL_OFFSETS@,
            end,
        )) && lands(pos, end)
    } else if man == Piece::spec_of(us, KING) {
        (m.move_type == MoveType::Normal && is_king_step(start as int, end as int) && lands(
            pos,
            end,
        )) || castle_rule(pos, m)
    } else {
        false
    }
}

/// A move is the step from a square by an offset exactly if it is the plain
/// move from there to the square that far away, on which it may land.
proof fn lemma_step_has(pos: Position, start: u8, offset: i8, m: Move)
    requires
        pos.squares.len() == 128,
        on_board(start as int),
        -120 <= offset <= 120,
    ensures
        step_move(pos, start, offset).contains(m) <==> on_board(start + offset) && m
            == pos.new_move(start, (start + offset) as u8, MoveType::Normal) && lands(
            pos,
            (start + offset) as u8,
        ),
{
    let steps = step_move(pos, start, offset);
    let end = spec_step(start, offset);
    assert(on_board(end as int) <==> on_board(start + offset));
    if steps.contains(m) {
        assert(steps.len() == 1 && steps[0] == m);
    }
    if on_board(start + offset) && m == pos.new_move(
        start,
        (start + offset) as u8,
        MoveType::Normal,
    ) && lands(pos, (start + offset) as u8) {
        assert(end == start + offset);
        assert(steps[0] == m);
    }
}

proof fn lemma_leaper_has(pos: Position, start: u8, offsets: Seq<i8>, n: int, m: Move)
    requires
        0 <= n <= offsets.len(),
    ensures
        leaper_moves(pos, start, offsets, n).contains(m) <==> exists|i: int|
            0 <= i < n && #[trigger] step_move(pos, start, offsets[i]).contains(m),
    decreases n,
{
    if n > 0 {
        lemma_leaper_has(pos, start, offsets, n - 1, m);
        lemma_in_either(
            leaper_moves(pos, start, offsets, n - 1),
            step_move(pos, start, offsets[n - 1]),
            m,
        );
        if exists|i: int| 0 <= i < n && #[trigger] step_move(pos, start, offsets[i]).contains(m) {
            let i = choose|i: int|
                0 <= i < n && #[trigger] step_move(pos, start, offsets[i]).contains(m);
            if i < n - 1 {
                assert(0 <= i < n - 1);
            }
        }
        if exists|i: int|
            0 <= i < n - 1 && #[trigger] step_move(pos, start, offsets[i]).contains(m) {
            let i = choose|i: int|
                0 <= i < n - 1 && #[trigger] step_move(pos, start, offsets[i]).contains(m);
            assert(0 <= i < n);
        }
    }
}

/// A move is among a slider's moves along a line exactly if it is the plain
/// move to a square that the rest of the line comes to over empty squares,
/// and on which it may land.
proof fn lemma_ray_has(pos: Position, start: u8, dir: int, total: int, k: int, m: Move)
    requires
        pos.squares.len() == 128,
        on_board(start as int),
        -17 <= dir <= 17,
        1 <= k <= 8,
        -17 * k <= total <= 17 * k,
        0 <= start + total - dir < 128,
    ensures
        ray_moves(pos, start, dir, total, k).contains(m) <==> m == pos.new_move(
            start,
            m.end_square,
            MoveType::Normal,
        ) && lands(pos, m.end_square) && ray_reaches(
            pos.squares,
            start + total - dir,
            dir,
            (8 - k) as nat,
            m.end_square as int,
        ),
    decreases 8 - k,
{
    if k <= 7 {
        let t = start + total;
        let here = step_move(pos, start, total as i8);
        lemma_step_has(pos, start, total as i8, m);
        let rest = (7 - k) as nat;
        if step_open(pos, start, total as i8) {
            assert(on_board(t) && pos.squares[t] == Piece::Empty);
            lemma_ray_has(pos, start, dir, total + dir, k + 1, m);
            lemma_in_either(here, ray_moves(pos, start, dir, total + dir, k + 1), m);
        }
        let wanted = m == pos.new_move(start, m.end_square, MoveType::Normal) && lands(
            pos,
            m.end_square,
        ) && ray_reaches(pos.squares, t - dir, dir, (8 - k) as nat, m.end_square as int);
        if wanted {
            if m.end_square as int == t {
                assert(here.contains(m));
            } else {
                assert(ray_reaches(pos.squares, t, dir, rest, m.end_square as int));
            }
        }
        if ray_moves(pos, start, dir, total, k).contains(m) {
            if here.contains(m) {
                assert(m.end_square as int == t);
            } else {
                assert(ray_reaches(pos.squares, t, dir, rest, m.end_square as int));
            }
        }
    }
}

proof fn lemma_slider_has(pos: Position, start: u8, dirs: Seq<i8>, n: int, m: Move)
    requires
        pos.squares.len() == 128,
        on_board(start as int),
        0 <= n <= dirs.len(),
        forall|i: int| 0 <= i < dirs.len() ==> -17 <= #[trigger] dirs[i] <= 17,
    ensures
        slider_moves(pos, start, dirs, n).contains(m) <==> m == pos.new_move(
            start,
            m.end_square,
            MoveType::Normal,
        ) && lands(pos, m.end_square) && exists|i: int|
            0 <= i < n && #[trigger] ray_reaches(
                pos.squares,
                start as int,
                dirs[i] as int,
                7,
                m.end_square as int,
            ),
    decreases n,
{
    if n > 0 {
        let d = dirs[n - 1] as int;
        lemma_slider_has(pos, start, dirs, n - 1, m);
        lemma_ray_has(pos, start, d, d, 1, m);
        lemma_in_either(slider_moves(pos, start, dirs, n - 1), ray_moves(pos, start, d, d, 1), m);
        if exists|i: int|
            0 <= i < n && #[trigger] ray_reaches(
                pos.squares,
                start as int,
                dirs[i] as int,
                7,
                m.end_square as int,
            ) {
            let i = choose|i: int|
                0 <= i < n && #[trigger] ray_reaches(
                    pos.squares,
                    start as int,
                    dirs[i] as int,
                    7,
                    m.end_square as int,
                );
            if i < n - 1 {
                assert(0 <= i < n - 1);
            }
        }
        if exists|i: int|
            0 <= i < n - 1 && #[trigger] ray_reaches(
                pos.squares,
                start as int,
                dirs[i] as int,
                7,
                m.end_square as int,
            ) {
            let i = choose|i: int|
                0 <= i < n - 1 && #[trigger] ray_reaches(
                    pos.squares,
                    start as int,
                    dirs[i] as int,
                    7,
                    m.end_square as int,
                );
            assert(0 <= i < n);
        }
    }
}

/// A move is among a pawn's moves exactly if it starts where the pawn
/// stands, records the position, and moves as a pawn moves.
proof fn lemma_pawn_has(pos: Position, start: u8, m: Move)
    requires
        pos.squares.len() == 128,
        on_board(start as int),
    ensures
        pawn_moves(pos, start).contains(m) <==> m.start_square == start && m == pos.new_move(
            start,
            m.end_square,
            m.move_type,
        ) && pawn_rule(pos, m),
{
    let us = pos.side_to_move;
    let forward = us.spec_forward(start as int);
    let double = us.spec_forward(forward);
    let is_promo = spec_is_back_rank(us.spec_opposite(), forward);
    let left = pawn_capture(pos, start, forward - 1, is_promo);
    let right = pawn_capture(pos, start, forward + 1, is_promo);
    let pushes = pawn_pushes(pos, start, is_promo);
    let passing = pawn_en_passant(pos, start);
    lemma_in_either(left, right, m);
    lemma_in_either(left + right, pushes, m);
    lemma_in_either(left + right + pushes, passing, m);
    lemma_arrivals_has(pos, start, (forward - 1) as u8, is_promo, m);
    lemma_arrivals_has(pos, start, (forward + 1) as u8, is_promo, m);
    lemma_arrivals_has(pos, start, forward as u8, is_promo, m);
    let ahead = pawn_arrivals(pos, start, forward as u8, is_promo);
    let two = pos.new_move(start, double as u8, MoveType::PawnDouble);
    if pushes.contains(m) {
        let i = choose|i: int| 0 <= i < pushes.len() && pushes[i] == m;
        if i < ahead.len() {
            assert(ahead[i] == m);
        } else {
            assert(m == two);
        }
    }
    if passing.contains(m) {
        assert(passing[0] == m);
    }
    if m.start_square == start && m == pos.new_move(start, m.end_square, m.move_type)
        && pawn_rule(pos, m) {
        let end = m.end_square as int;
        if m.move_type == MoveType::EnPassant {
            assert(passing[0] == m);
        } else if m.move_type == MoveType::PawnDouble {
            assert(pushes[pushes.len() - 1] == m);
        } else if end == forward {
            assert(ahead.contains(m));
            let i = choose|i: int| 0 <= i < ahead.len() && ahead[i] == m;
            assert(pushes[i] == m);
        }
    }
}

proof fn lemma_arrivals_has(pos: Position, start: u8, end: u8, is_promo: bool, m: Move)
    ensures
        pawn_arrivals(pos, start, end, is_promo).contains(m) <==> m == pos.new_move(
            start,
            end,
            m.move_type,
        ) && arrives_right(pos, m, is_promo),
{
    let made = pawn_arrivals(pos, start, end, is_promo);
    let us = pos.side_to_move;
    if made.contains(m) {
        let i = choose|i: int| 0 <= i < made.len() && made[i] == m;
    }
    if m == pos.new_move(start, end, m.move_type) && arrives_right(pos, m, is_promo) {
        if is_promo {
            if m.move_type == MoveType::Promotion(Piece::spec_of(us, QUEEN)) {
                assert(made[0] == m);
            } else if m.move_type == MoveType::Promotion(Piece::spec_of(us, ROOK)) {
                assert(made[1] == m);
            } else if m.move_type == MoveType::Promotion(Piece::spec_of(us, BISHOP)) {
                assert(made[2] == m);
            } else {
                assert(made[3] == m);
            }
        } else {
            assert(made[0] == m);
        }
    }
}

proof fn lemma_each_pawn_has(pos: Position, list: Seq<u8>, n: int, m: Move)
    requires
        0 <= n <= list.len(),
    ensures
        each_pawn(pos, list, n).contains(m) <==> exists|a: int|
            0 <= a < n && #[trigger] pawn_moves(pos, list[a]).contains(m),
    decreases n,
{
    if n > 0 {
        lemma_each_pawn_has(pos, list, n - 1, m);
        lemma_in_either(each_pawn(pos, list, n - 1), pawn_moves(pos, list[n - 1]), m);
        if exists|a: int| 0 <= a < n && #[trigger] pawn_moves(pos, list[a]).contains(m) {
            let a = choose|a: int| 0 <= a < n && #[trigger] pawn_moves(pos, list[a]).contains(m);
            if a < n - 1 {
                assert(0 <= a < n - 1);
            }
        }
        if exists|a: int| 0 <= a < n - 1 && #[trigger] pawn_moves(pos, list[a]).contains(m) {
            let a = choose|a: int|
                0 <= a < n - 1 && #[trigger] pawn_moves(pos, list[a]).contains(m);
            assert(0 <= a < n);
        }
    }
}

proof fn lemma_each_knight_has(pos: Position, list: Seq<u8>, n: int, m: Move)
    requires
        0 <= n <= list.len(),
    ensures
        each_knight(pos, list, n).contains(m) <==> exists|a: int|
            0 <= a < n && #[trigger] leaper_moves(pos, list[a], KNIGHT_OFFSETS@, 8).contains(m),
    decreases n,
{
    if n > 0 {
        lemma_each_knight_has(pos, list, n - 1, m);
        lemma_in_either(
            each_knight(pos, list, n - 1),
            leaper_moves(pos, list[n - 1], KNIGHT_OFFSETS@, 8),
            m,
        );
        if exists|a: int|
            0 <= a < n && #[trigger] leaper_moves(pos, list[a], KNIGHT_OFFSETS@, 8).contains(m) {
            let a = choose|a: int|
                0 <= a < n && #[trigger] leaper_moves(pos, list[a], KNIGHT_OFFSETS@, 8).contains(m);
            if a < n - 1 {
                assert(0 <= a < n - 1);
            }
        }
        if exists|a: int|
            0 <= a < n - 1 && #[trigger] leaper_moves(pos, list[a], KNIGHT_OFFSETS@, 8).contains(
                m,
            ) {
            let a = choose|a: int|
                0 <= a < n - 1 && #[trigger] leaper_moves(
                    pos,
                    list[a],
                    KNIGHT_OFFSETS@,
                    8,
                ).contains(m);
            assert(0 <= a < n);
        }
    }
}

proof fn lemma_each_slider_has(pos: Position, list: Seq<u8>, dirs: Seq<i8>, n: int, m: Move)
    requires
        0 <= n <= list.len(),
    ensures
        each_slider(pos, list, dirs, n).contains(m) <==> exists|a: int|
            0 <= a < n && #[trigger] slider_moves(pos, list[a], dirs, 4).contains(m),
    decreases n,
{
    if n > 0 {
        lemma_each_slider_has(pos, list, dirs, n - 1, m);
        lemma_in_either(
            each_slider(pos, list, dirs, n - 1),
            slider_moves(pos, list[n - 1], dirs, 4),
            m,
        );
        if exists|a: int| 0 <= a < n && #[trigger] slider_moves(pos, list[a], dirs, 4).contains(m) {
            let a = choose|a: int|
                0 <= a < n && #[trigger] slider_moves(pos, list[a], dirs, 4).contains(m);
            if a < n - 1 {
                assert(0 <= a < n - 1);
            }
        }
        if exists|a: int|
            0 <= a < n - 1 && #[trigger] slider_moves(pos, list[a], dirs, 4).contains(m) {
            let a = choose|a: int|
                0 <= a < n - 1 && #[trigger] slider_moves(pos, list[a], dirs, 4).contains(m);
            assert(0 <= a < n);
        }
    }
}

/// The moves of the queen on a square: those of a bishop and those of a
/// rook there.
pub open spec fn queen_moves(pos: Position, start: u8) -> Seq<Move> {
    slider_moves(pos, start, DIAGONAL_OFFSETS@, 4) + slider_moves(
        pos,
        start,
        ORTHOGONAL_OFFSETS@,
        4,
    )
}

proof fn lemma_each_queen_has(pos: Position, list: Seq<u8>, n: int, m: Move)
    requires
        0 <= n <= list.len(),
    ensures
        each_queen(pos, list, n).contains(m) <==> exists|a: int|
            0 <= a < n && #[trigger] queen_moves(pos, list[a]).contains(m),
    decreases n,
{
    if n > 0 {
        let diagonal = slider_moves(pos, list[n - 1], DIAGONAL_OFFSETS@, 4);
        let straight = slider_moves(pos, list[n - 1], ORTHOGONAL_OFFSETS@, 4);
        lemma_each_queen_has(pos, list, n - 1, m);
        lemma_in_either(each_queen(pos, list, n - 1), diagonal, m);
        lemma_in_either(each_queen(pos, list, n - 1) + diagonal, straight, m);
        lemma_in_either(diagonal, straight, m);
        let last = queen_moves(pos, list[n - 1]);
        assert(last.contains(m) <==> diagonal.contains(m) || straight.contains(m));
        if exists|a: int| 0 <= a < n && #[trigger] queen_moves(pos, list[a]).contains(m) {
            let a = choose|a: int| 0 <= a < n && #[trigger] queen_moves(pos, list[a]).contains(m);
            if a < n - 1 {
                assert(0 <= a < n - 1);
            }
        }
        if last.contains(m) {
            assert(queen_moves(pos, list[n - 1]).contains(m));
        }
        if exists|a: int| 0 <= a < n - 1 && #[trigger] queen_moves(pos, list[a]).contains(m) {
            let a = choose|a: int|
                0 <= a < n - 1 && #[trigger] queen_moves(pos, list[a]).contains(m);
            assert(0 <= a < n);
        }
    }
}

proof fn lemma_castle_has(pos: Position, m: Move)
    requires
        pos.ok(),
    ensures
        castle_moves(pos, Set::empty()).contains(m) <==> m == pos.new_move(
            m.start_square,
            m.end_square,
            m.move_type,
        ) && castle_rule(pos, m),
{
    let made = castle_moves(pos, Set::empty());
    if made.contains(m) {
        let i = choose|i: int| 0 <= i < made.len() && made[i] == m;
    }
    if m == pos.new_move(m.start_square, m.end_square, m.move_type) && castle_rule(pos, m) {
        if made.len() == 2 {
            assert(made[0] == m || made[1] == m);
        } else {
            assert(made[0] == m);
        }
    }
}

proof fn lemma_king_has(pos: Position, m: Move)
    requires
        pos.ok(),
    ensures
        king_moves(pos, pos.king_square(pos.side_to_move), Set::empty(), 8).contains(m) <==> m
            == pos.new_move(pos.king_square(pos.side_to_move), m.end_square, MoveType::Normal)
            && is_king_step(pos.king_square(pos.side_to_move) as int, m.end_square as int)
            && lands(pos, m.end_square),
{
    let king = pos.king_square(pos.side_to_move);
    let none = Set::<u8>::empty();
    lemma_king_moves_has(pos, king, none, 8, m);
    assert forall|i: int| 0 <= i < 8 implies (#[trigger] step_move(
        pos,
        king,
        KING_OFFSETS@[i],
    ).contains(m) <==> on_board(king + KING_OFFSETS@[i]) && m == pos.new_move(
        king,
        (king + KING_OFFSETS@[i]) as u8,
        MoveType::Normal,
    ) && lands(pos, (king + KING_OFFSETS@[i]) as u8)) by {
        lemma_step_has(pos, king, KING_OFFSETS@[i], m);
    }
    if king_moves(pos, king, none, 8).contains(m) {
        let i = choose|i: int|
            0 <= i < 8 && #[trigger] step_move(pos, king, KING_OFFSETS@[i]).len() > 0 && m
                == step_move(pos, king, KING_OFFSETS@[i])[0] && !none.contains(m.end_square);
        assert(step_move(pos, king, KING_OFFSETS@[i]).contains(m));
    }
    if m == pos.new_move(king, m.end_square, MoveType::Normal) && is_king_step(
        king as int,
        m.end_square as int,
    ) && lands(pos, m.end_square) {
        let d = m.end_square - king;
        let i = if d == -17 {
            0int
        } else if d == -16 {
            1int
        } else if d == -15 {
            2int
        } else if d == -1 {
            3int
        } else if d == 1 {
            4int
        } else if d == 15 {
            5int
        } else if d == 16 {
            6int
        } else {
            7int
        };
        assert(KING_OFFSETS@[i] == d);
        assert(step_move(pos, king, KING_OFFSETS@[i]).contains(m));
        assert(step_move(pos, king, KING_OFFSETS@[i])[0] == m);
    }
}

proof fn lemma_knight_has(pos: Position, start: u8, m: Move)
    requires
        pos.squares.len() == 128,
        on_board(start as int),
    ensures
        leaper_moves(pos, start, KNIGHT_OFFSETS@, 8).contains(m) <==> m == pos.new_move(
            start,
            m.end_square,
            MoveType::Normal,
        ) && is_knight_step(m.end_square - start) && lands(pos, m.end_square),
{
    lemma_leaper_has(pos, start, KNIGHT_OFFSETS@, 8, m);
    assert forall|i: int| 0 <= i < 8 implies (#[trigger] step_move(
        pos,
        start,
        KNIGHT_OFFSETS@[i],
    ).contains(m) <==> on_board(start + KNIGHT_OFFSETS@[i]) && m == pos.new_move(
        start,
        (start + KNIGHT_OFFSETS@[i]) as u8,
        MoveType::Normal,
    ) && lands(pos, (start + KNIGHT_OFFSETS@[i]) as u8)) by {
        lemma_step_has(pos, start, KNIGHT_OFFSETS@[i], m);
    }
    if m == pos.new_move(start, m.end_square, MoveType::Normal) && is_knight_step(
        m.end_square - start,
    ) && lands(pos, m.end_square) {
        let d = m.end_square - start;
        let i = if d == -33 {
            0int
        } else if d == -31 {
            1int
        } else if d == -18 {
            2int
        } else if d == -14 {
            3int
        } else if d == 14 {
            4int
        } else if d == 18 {
            5int
        } else if d == 31 {
            6int
        } else {
            7int
        };
        assert(KNIGHT_OFFSETS@[i] == d);
        assert(step_move(pos, start, KNIGHT_OFFSETS@[i]).contains(m));
    }
}

proof fn lemma_pawns_obey(pos: Position, m: Move)
    requires
        pos.ok(),
    ensures
        each_pawn(pos, pos.squares_of(Piece::spec_of(pos.side_to_move, PAWN)), pos.squares_of(Piece::spec_of(pos.side_to_move, PAWN)).len() as int).contains(m) <==> on_board(m.start_square as int)
            && pos.squares[m.start_square as int] == Piece::spec_of(pos.side_to_move, PAWN)
            && obeys_rules(pos, m),
{
    let us = pos.side_to_move;
    let man = Piece::spec_of(us, PAWN);
    let list = pos.squares_of(man);
    let start = m.start_square;
    lemma_list_exists(pos, man);
    lemma_each_pawn_has(pos, list, list.len() as int, m);
    if each_pawn(pos, pos.squares_of(Piece::spec_of(pos.side_to_move, PAWN)), pos.squares_of(Piece::spec_of(pos.side_to_move, PAWN)).len() as int).contains(m) {
        let a = choose|a: int| 0 <= a < list.len() && #[trigger] pawn_moves(pos, list[a]).contains(m);
        assert(on_board(list[a] as int) && pos.squares[list[a] as int] == man);
        lemma_pawn_has(pos, list[a], m);
    }
    if on_board(start as int) && pos.squares[start as int] == man && obeys_rules(pos, m) {
        assert(list.contains(start));
        let a = choose|a: int| 0 <= a < list.len() && list[a] == start;
        lemma_pawn_has(pos, list[a], m);
        assert(pawn_moves(pos, list[a]).contains(m));
    }
}

proof fn lemma_knights_obey(pos: Position, m: Move)
    requires
        pos.ok(),
    ensures
        each_knight(pos, pos.squares_of(Piece::spec_of(pos.side_to_move, KNIGHT)), pos.squares_of(Piece::spec_of(pos.side_to_move, KNIGHT)).len() as int).contains(m) <==> on_board(m.start_square as int)
            && pos.squares[m.start_square as int] == Piece::spec_of(pos.side_to_move, KNIGHT)
            && obeys_rules(pos, m),
{
    let us = pos.side_to_move;
    let man = Piece::spec_of(us, KNIGHT);
    let list = pos.squares_of(man);
    let start = m.start_square;
    lemma_list_exists(pos, man);
    lemma_each_knight_has(pos, list, list.len() as int, m);
    if each_knight(pos, pos.squares_of(Piece::spec_of(pos.side_to_move, KNIGHT)), pos.squares_of(Piece::spec_of(pos.side_to_move, KNIGHT)).len() as int).contains(m) {
        let a = choose|a: int| 0 <= a < list.len() && #[trigger] leaper_moves(pos, list[a], KNIGHT_OFFSETS@, 8).contains(m);
        assert(on_board(list[a] as int) && pos.squares[list[a] as int] == man);
        lemma_knight_has(pos, list[a], m);
    }
    if on_board(start as int) && pos.squares[start as int] == man && obeys_rules(pos, m) {
        assert(list.contains(start));
        let a = choose|a: int| 0 <= a < list.len() && list[a] == start;
        lemma_knight_has(pos, list[a], m);
        assert(leaper_moves(pos, list[a], KNIGHT_OFFSETS@, 8).contains(m));
    }
}

proof fn lemma_bishops_obey(pos: Position, m: Move)
    requires
        pos.ok(),
    ensures
        each_slider(pos, pos.squares_of(Piece::spec_of(pos.side_to_move, BISHOP)), DIAGONAL_OFFSETS@, pos.squares_of(Piece::spec_of(pos.side_to_move, BISHOP)).len() as int).contains(m) <==> on_board(m.start_square as int)
            && pos.squares[m.start_square as int] == Piece::spec_of(pos.side_to_move, BISHOP)
            && obeys_rules(pos, m),
{
    let us = pos.side_to_move;
    let man = Piece::spec_of(us, BISHOP);
    let list = pos.squares_of(man);
    let start = m.start_square;
    lemma_list_exists(pos, man);
    lemma_each_slider_has(pos, list, DIAGONAL_OFFSETS@, list.len() as int, m);
    if each_slider(pos, pos.squares_of(Piece::spec_of(pos.side_to_move, BISHOP)), DIAGONAL_OFFSETS@, pos.squares_of(Piece::spec_of(pos.side_to_move, BISHOP)).len() as int).contains(m) {
        let a = choose|a: int| 0 <= a < list.len() && #[trigger] slider_moves(pos, list[a], DIAGONAL_OFFSETS@, 4).contains(m);
        assert(on_board(list[a] as int) && pos.squares[list[a] as int] == man);
        lemma_slider_has(pos, list[a], DIAGONAL_OFFSETS@, 4, m);
    }
    if on_board(start as int) && pos.squares[start as int] == man && obeys_rules(pos, m) {
        assert(list.contains(start));
        let a = choose|a: int| 0 <= a < list.len() && list[a] == start;
        lemma_slider_has(pos, list[a], DIAGONAL_OFFSETS@, 4, m);
        assert(slider_moves(pos, list[a], DIAGONAL_OFFSETS@, 4).contains(m));
    }
}

proof fn lemma_rooks_obey(pos: Position, m: Move)
    requires
        pos.ok(),
    ensures
        each_slider(pos, pos.squares_of(Piece::spec_of(pos.side_to_move, ROOK)), ORTHOGONAL_OFFSETS@, pos.squares_of(Piece::spec_of(pos.side_to_move, ROOK)).len() as int).contains(m) <==> on_board(m.start_square as int)
            && pos.squares[m.start_square as int] == Piece::spec_of(pos.side_to_move, ROOK)
            && obeys_rules(pos, m),
{
    let us = pos.side_to_move;
    let man = Piece::spec_of(us, ROOK);
    let list = pos.squares_of(man);
    let start = m.start_square;
    lemma_list_exists(pos, man);
    lemma_each_slider_has(pos, list, ORTHOGONAL_OFFSETS@, list.len() as int, m);
    if each_slider(pos, pos.squares_of(Piece::spec_of(pos.side_to_move, ROOK)), ORTHOGONAL_OFFSETS@, pos.squares_of(Piece::spec_of(pos.side_to_move, ROOK)).len() as int).contains(m) {
        let a = choose|a: int| 0 <= a < list.len() && #[trigger] slider_moves(pos, list[a], ORTHOGONAL_OFFSETS@, 4).contains(m);
        assert(on_board(list[a] as int) && pos.squares[list[a] as int] == man);
        lemma_slider_has(pos, list[a], ORTHOGONAL_OFFSETS@, 4, m);
    }
    if on_board(start as int) && pos.squares[start as int] == man && obeys_rules(pos, m) {
        assert(list.contains(start));
        let a = choose|a: int| 0 <= a < list.len() && list[a] == start;
        lemma_slider_has(pos, list[a], ORTHOGONAL_OFFSETS@, 4, m);
        assert(slider_moves(pos, list[a], ORTHOGONAL_OFFSETS@, 4).contains(m));
    }
}

proof fn lemma_queens_obey(pos: Position, m: Move)
    requires
        pos.ok(),
    ensures
        each_queen(pos, pos.squares_of(Piece::spec_of(pos.side_to_move, QUEEN)), pos.squares_of(Piece::spec_of(pos.side_to_move, QUEEN)).len() as int).contains(m) <==> on_board(m.start_square as int)
            && pos.squares[m.start_square as int] == Piece::spec_of(pos.side_to_move, QUEEN)
            && obeys_rules(pos, m),
{
    let us = pos.side_to_move;
    let man = Piece::spec_of(us, QUEEN);
    let list = pos.squares_of(man);
    let start = m.start_square;
    lemma_list_exists(pos, man);
    lemma_each_queen_has(pos, list, list.len() as int, m);
    if each_queen(pos, pos.squares_of(Piece::spec_of(pos.side_to_move, QUEEN)), pos.squares_of(Piece::spec_of(pos.side_to_move, QUEEN)).len() as int).contains(m) {
        let a = choose|a: int| 0 <= a < list.len() && #[trigger] queen_moves(pos, list[a]).contains(m);
        assert(on_board(list[a] as int) && pos.squares[list[a] as int] == man);
        lemma_in_either(
            slider_moves(pos, list[a], DIAGONAL_OFFSETS@, 4),
            slider_moves(pos, list[a], ORTHOGONAL_OFFSETS@, 4),
            m,
        );
        lemma_slider_has(pos, list[a], DIAGONAL_OFFSETS@, 4, m);
        lemma_slider_has(pos, list[a], ORTHOGONAL_OFFSETS@, 4, m);
    }
    if on_board(start as int) && pos.squares[start as int] == man && obeys_rules(pos, m) {
        assert(list.contains(start));
        let a = choose|a: int| 0 <= a < list.len() && list[a] == start;
        lemma_in_either(
            slider_moves(pos, list[a], DIAGONAL_OFFSETS@, 4),
            slider_moves(pos, list[a], ORTHOGONAL_OFFSETS@, 4),
            m,
        );
        lemma_slider_has(pos, list[a], DIAGONAL_OFFSETS@, 4, m);
        lemma_slider_has(pos, list[a], ORTHOGONAL_OFFSETS@, 4, m);
        assert(queen_moves(pos, list[a]).contains(m));
    }
}

proof fn lemma_king_obeys(pos: Position, m: Move)
    requires
        pos.ok(),
    ensures
        castle_moves(pos, Set::empty()).contains(m) || king_moves(
            pos,
            pos.king_square(pos.side_to_move),
            Set::empty(),
            8,
        ).contains(m) <==> on_board(m.start_square as int) && pos.squares[m.start_square as int]
            == Piece::spec_of(pos.side_to_move, KING) && obeys_rules(pos, m),
{
    lemma_castle_has(pos, m);
    lemma_king_has(pos, m);
}

/// The moves that the generator tries are exactly the moves that obey the
/// way the men move.
pub proof fn lemma_candidates_obey_rules(pos: Position, m: Move)
    requires
        pos.ok(),
    ensures
        candidates(pos).contains(m) <==> obeys_rules(pos, m),
{
    let us = pos.side_to_move;
    let pawns = pos.squares_of(Piece::spec_of(us, PAWN));
    let knights = pos.squares_of(Piece::spec_of(us, KNIGHT));
    let bishops = pos.squares_of(Piece::spec_of(us, BISHOP));
    let rooks = pos.squares_of(Piece::spec_of(us, ROOK));
    let queens = pos.squares_of(Piece::spec_of(us, QUEEN));
    let b = each_pawn(pos, pawns, pawns.len() as int);
    let c = each_knight(pos, knights, knights.len() as int);
    let d = each_slider(pos, bishops, DIAGONAL_OFFSETS@, bishops.len() as int);
    let e = each_slider(pos, rooks, ORTHOGONAL_OFFSETS@, rooks.len() as int);
    let f = each_queen(pos, queens, queens.len() as int);
    lemma_pseudo_parts(pos, Set::empty(), m);
    lemma_in_either(b, c, m);
    lemma_in_either(b + c, d, m);
    lemma_in_either(b + c + d, e, m);
    lemma_in_either(b + c + d + e, f, m);
    lemma_pawns_obey(pos, m);
    lemma_knights_obey(pos, m);
    lemma_bishops_obey(pos, m);
    lemma_rooks_obey(pos, m);
    lemma_queens_obey(pos, m);
    lemma_king_obeys(pos, m);
}

/// The legal moves are exactly the moves that obey the way the men move
/// and keep the rules about check.
pub proof fn lemma_legal_moves_are_the_rules(pos: Position, m: Move)
    requires
        pos.ok(),
    ensures
        legal_moves(pos).contains(m) <==> obeys_rules(pos, m) && plays_safely(pos, m),
{
    lemma_generator_is_exact(pos, m);
    lemma_candidates_obey_rules(pos, m);
}

} // verus!
