//! Every move that the generator gives is one that the position accepts.

use vstd::prelude::*;
use crate::game::analysis::position_info;
use crate::game::analysis::Sweep;
use crate::game::chess_util::on_board;
use crate::game::chess_util::spec_step;
use crate::game::chess_util::{DIAGONAL_OFFSETS, KING_OFFSETS, KNIGHT_OFFSETS, ORTHOGONAL_OFFSETS};
use crate::game::movegen::all_accepted;
use crate::game::movegen::castle_moves;
use crate::game::movegen::each_knight;
use crate::game::movegen::each_pawn;
use crate::game::movegen::each_queen;
use crate::game::movegen::each_slider;
use crate::game::movegen::king_moves;
use crate::game::movegen::leaper_moves;
use crate::game::movegen::is_legal;
use crate::game::movegen::legal_among;
use crate::game::movegen::legal_moves;
use crate::game::movegen::pawn_arrivals;
use crate::game::movegen::pawn_capture;
use crate::game::movegen::pawn_en_passant;
use crate::game::movegen::pawn_moves;
use crate::game::movegen::pawn_pushes;
use crate::game::movegen::pseudo_moves;
use crate::game::movegen::ray_moves;
use crate::game::movegen::slider_moves;
use crate::game::movegen::spec_is_back_rank;
use crate::game::movegen::step_move;
use crate::game::movegen::step_open;
use crate::game::moves::Move;
use crate::game::moves::MoveType;
use crate::game::piece::Piece;
use crate::game::piece::{BISHOP, KING, KNIGHT, PAWN, QUEEN, ROOK};
use crate::game::position::increasing;
use crate::game::position::Position;

verus! {

/// The squares below `n` on which `piece` stands, in increasing order.
pub open spec fn collect(squares: Seq<Piece>, piece: Piece, n: int) -> Seq<u8>
    decreases n,
{
    if n <= 0 {
        Seq::empty()
    } else if on_board(n - 1) && squares[n - 1] == piece {
        collect(squares, piece, n - 1).push((n - 1) as u8)
    } else {
        collect(squares, piece, n - 1)
    }
}

proof fn lemma_collect(squares: Seq<Piece>, piece: Piece, n: int)
    requires
        squares.len() == 128,
        0 <= n <= 128,
    ensures
        increasing(collect(squares, piece, n)),
        forall|i: int|
            0 <= i < collect(squares, piece, n).len() ==> {
                let sq = #[trigger] collect(squares, piece, n)[i];
                sq < n && on_board(sq as int) && squares[sq as int] == piece
            },
        forall|sq: int|
            0 <= sq < n && on_board(sq) && #[trigger] squares[sq] == piece ==> collect(
                squares,
                piece,
                n,
            ).contains(sq as u8),
    decreases n,
{
    if n > 0 {
        lemma_collect(squares, piece, n - 1);
        let before = collect(squares, piece, n - 1);
        let now = collect(squares, piece, n);
        assert forall|sq: int|
            0 <= sq < n && on_board(sq) && #[trigger] squares[sq] == piece implies now.contains(
            sq as u8,
        ) by {
            if sq == n - 1 {
                assert(now[now.len() - 1] == sq as u8);
            } else {
                assert(before.contains(sq as u8));
                let j = choose|j: int| 0 <= j < before.len() && before[j] == sq as u8;
                assert(now[j] == sq as u8);
            }
        }
        assert forall|i: int| 0 <= i < now.len() implies {
            let sq = #[trigger] now[i];
            sq < n && on_board(sq as int) && squares[sq as int] == piece
        } by {
            if i < before.len() {
                assert(now[i] == before[i]);
            }
        }
        assert forall|i: int, j: int| 0 <= i < j < now.len() implies now[i] < now[j] by {
            assert(now[i] == before[i]);
            if j < before.len() {
                assert(now[j] == before[j]);
            }
        }
    }
}

/// Every man of a position has its list of squares.
pub proof fn lemma_list_exists(pos: Position, piece: Piece)
    requires
        pos.squares.len() == 128,
    ensures
        pos.lists(piece, pos.squares_of(piece)),
{
    lemma_collect(pos.squares, piece, 128);
    let list = collect(pos.squares, piece, 128);
    assert(pos.lists(piece, list));
}

/// What holds of a move before the legality test: the position accepts it;
/// if the king makes it, it is a step onto a square that is not attacked, or
/// it is one of the castling moves of the position.
pub open spec fn pseudo_ok(pos: Position, attacked: Set<u8>, m: Move) -> bool {
    &&& pos.accepts(m)
    &&& m.moved_piece == Piece::spec_of(pos.side_to_move, KING) ==> (m.move_type
        == MoveType::Normal && !attacked.contains(m.end_square)) || (m.move_type
        == MoveType::Castle && castle_moves(pos, attacked).contains(m))
}

/// Whether `pseudo_ok` holds of every move of a list.
pub open spec fn all_pseudo_ok(pos: Position, attacked: Set<u8>, moves: Seq<Move>) -> bool {
    forall|i: int| 0 <= i < moves.len() ==> pseudo_ok(pos, attacked, #[trigger] moves[i])
}

pub proof fn lemma_pseudo_ok_both(pos: Position, attacked: Set<u8>, a: Seq<Move>, b: Seq<Move>)
    requires
        all_pseudo_ok(pos, attacked, a),
        all_pseudo_ok(pos, attacked, b),
    ensures
        all_pseudo_ok(pos, attacked, a + b),
{
    assert forall|i: int| 0 <= i < (a + b).len() implies pseudo_ok(
        pos,
        attacked,
        #[trigger] (a + b)[i],
    ) by {
        if i < a.len() {
            assert((a + b)[i] == a[i]);
        } else {
            assert((a + b)[i] == b[i - a.len()]);
        }
    }
}

proof fn lemma_step_move(pos: Position, attacked: Set<u8>, start: u8, offset: i8)
    requires
        pos.squares[start as int] == Piece::spec_of(pos.side_to_move, KING) ==> !attacked.contains(spec_step(start, offset)),
        pos.ok(),
        pos.own_man(start),
    ensures
        all_pseudo_ok(pos, attacked, step_move(pos, start, offset)),
{
    let end = spec_step(start, offset);
    if on_board(end as int) {
        assert(pos.squares[end as int] != Piece::Border);
    }
}

proof fn lemma_ray_moves(pos: Position, attacked: Set<u8>, start: u8, dir: int, total: int, k: int)
    requires
        pos.squares[start as int] != Piece::spec_of(pos.side_to_move, KING),
        pos.ok(),
        pos.own_man(start),
    ensures
        all_pseudo_ok(pos, attacked, ray_moves(pos, start, dir, total, k)),
    decreases 8 - k,
{
    if !(k < 1 || k > 7 || total < -128 || total > 127) {
        lemma_step_move(pos, attacked, start, total as i8);
        if step_open(pos, start, total as i8) {
            lemma_ray_moves(pos, attacked, start, dir, total + dir, k + 1);
            lemma_pseudo_ok_both(
                pos,
                attacked,
                step_move(pos, start, total as i8),
                ray_moves(pos, start, dir, total + dir, k + 1),
            );
        }
    }
}

proof fn lemma_slider_moves(pos: Position, attacked: Set<u8>, start: u8, dirs: Seq<i8>, n: int)
    requires
        pos.squares[start as int] != Piece::spec_of(pos.side_to_move, KING),
        pos.ok(),
        pos.own_man(start),
    ensures
        all_pseudo_ok(pos, attacked, slider_moves(pos, start, dirs, n)),
    decreases n,
{
    if n > 0 {
        lemma_slider_moves(pos, attacked, start, dirs, n - 1);
        lemma_ray_moves(pos, attacked, start, dirs[n - 1] as int, dirs[n - 1] as int, 1);
        lemma_pseudo_ok_both(
            pos,
            attacked,
            slider_moves(pos, start, dirs, n - 1),
            ray_moves(pos, start, dirs[n - 1] as int, dirs[n - 1] as int, 1),
        );
    }
}

proof fn lemma_leaper_moves(pos: Position, attacked: Set<u8>, start: u8, offsets: Seq<i8>, n: int)
    requires
        pos.squares[start as int] != Piece::spec_of(pos.side_to_move, KING),
        pos.ok(),
        pos.own_man(start),
    ensures
        all_pseudo_ok(pos, attacked, leaper_moves(pos, start, offsets, n)),
    decreases n,
{
    if n > 0 {
        lemma_leaper_moves(pos, attacked, start, offsets, n - 1);
        lemma_step_move(pos, attacked, start, offsets[n - 1]);
        lemma_pseudo_ok_both(
            pos,
            attacked,
            leaper_moves(pos, start, offsets, n - 1),
            step_move(pos, start, offsets[n - 1]),
        );
    }
}

proof fn lemma_king_moves(pos: Position, start: u8, attacked: Set<u8>, n: int)
    requires
        pos.ok(),
        pos.own_man(start),
        n <= 8,
    ensures
        all_pseudo_ok(pos, attacked, king_moves(pos, start, attacked, n)),
    decreases n,
{
    if n > 0 {
        lemma_king_moves(pos, start, attacked, n - 1);
        let end = spec_step(start, KING_OFFSETS@[n - 1]);
        let here = if end < 128 && !attacked.contains(end) {
            step_move(pos, start, KING_OFFSETS@[n - 1])
        } else {
            Seq::empty()
        };
        if end < 128 && !attacked.contains(end) {
            lemma_step_move(pos, attacked, start, KING_OFFSETS@[n - 1]);
        }
        lemma_pseudo_ok_both(pos, attacked, king_moves(pos, start, attacked, n - 1), here);
    }
}

proof fn lemma_pawn_arrivals(pos: Position, attacked: Set<u8>, start: u8, end: u8, is_promo: bool)
    requires
        pos.ok(),
        on_board(start as int),
        on_board(end as int),
        pos.squares[start as int] == Piece::spec_of(pos.side_to_move, PAWN),
        pos.squares[end as int] == Piece::Empty || pos.capturable(pos.squares[end as int]),
    ensures
        all_pseudo_ok(pos, attacked, pawn_arrivals(pos, start, end, is_promo)),
{
}

proof fn lemma_pawn_moves(pos: Position, attacked: Set<u8>, start: u8)
    requires
        pos.ok(),
        on_board(start as int),
        pos.squares[start as int] == Piece::spec_of(pos.side_to_move, PAWN),
    ensures
        all_pseudo_ok(pos, attacked, pawn_moves(pos, start)),
{
    let us = pos.side_to_move;
    let forward = us.spec_forward(start as int);
    let is_promo = spec_is_back_rank(us.spec_opposite(), forward);
    let left = pawn_capture(pos, start, forward - 1, is_promo);
    let right = pawn_capture(pos, start, forward + 1, is_promo);
    let pushes = pawn_pushes(pos, start, is_promo);
    let passing = pawn_en_passant(pos, start);
    if on_board(forward - 1) && pos.capturable(pos.piece_at(forward - 1)) {
        lemma_pawn_arrivals(pos, attacked, start, (forward - 1) as u8, is_promo);
    }
    if on_board(forward + 1) && pos.capturable(pos.piece_at(forward + 1)) {
        lemma_pawn_arrivals(pos, attacked, start, (forward + 1) as u8, is_promo);
    }
    if on_board(forward) && pos.piece_at(forward) == Piece::Empty {
        lemma_pawn_arrivals(pos, attacked, start, forward as u8, is_promo);
    }
    assert(all_pseudo_ok(pos, attacked, left));
    assert(all_pseudo_ok(pos, attacked, right));
    assert(all_pseudo_ok(pos, attacked, pushes));
    assert(all_pseudo_ok(pos, attacked, passing));
    lemma_pseudo_ok_both(pos, attacked, left, right);
    lemma_pseudo_ok_both(pos, attacked, left + right, pushes);
    lemma_pseudo_ok_both(pos, attacked, left + right + pushes, passing);
}

proof fn lemma_castle_moves(pos: Position, attacked: Set<u8>)
    requires
        pos.ok(),
    ensures
        all_pseudo_ok(pos, attacked, castle_moves(pos, attacked)),
{
}

proof fn lemma_each_pawn(pos: Position, attacked: Set<u8>, list: Seq<u8>, n: int)
    requires
        pos.ok(),
        pos.lists(Piece::spec_of(pos.side_to_move, PAWN), list),
        0 <= n <= list.len(),
    ensures
        all_pseudo_ok(pos, attacked, each_pawn(pos, list, n)),
    decreases n,
{
    if n > 0 {
        lemma_each_pawn(pos, attacked, list, n - 1);
        assert(on_board(list[n - 1] as int));
        lemma_pawn_moves(pos, attacked, list[n - 1]);
        lemma_pseudo_ok_both(pos, attacked, each_pawn(pos, list, n - 1), pawn_moves(pos, list[n - 1]));
    }
}

proof fn lemma_each_knight(pos: Position, attacked: Set<u8>, list: Seq<u8>, n: int)
    requires
        pos.ok(),
        pos.lists(Piece::spec_of(pos.side_to_move, KNIGHT), list),
        0 <= n <= list.len(),
    ensures
        all_pseudo_ok(pos, attacked, each_knight(pos, list, n)),
    decreases n,
{
    if n > 0 {
        lemma_each_knight(pos, attacked, list, n - 1);
        assert(on_board(list[n - 1] as int));
        lemma_leaper_moves(pos, attacked, list[n - 1], KNIGHT_OFFSETS@, 8);
        lemma_pseudo_ok_both(
            pos,
            attacked,
            each_knight(pos, list, n - 1),
            leaper_moves(pos, list[n - 1], KNIGHT_OFFSETS@, 8),
        );
    }
}

proof fn lemma_each_slider(pos: Position, attacked: Set<u8>, kind: u8, list: Seq<u8>, dirs: Seq<i8>, n: int)
    requires
        kind != KING,
        pos.ok(),
        kind <= KING,
        pos.lists(Piece::spec_of(pos.side_to_move, kind), list),
        0 <= n <= list.len(),
    ensures
        all_pseudo_ok(pos, attacked, each_slider(pos, list, dirs, n)),
    decreases n,
{
    if n > 0 {
        lemma_each_slider(pos, attacked, kind, list, dirs, n - 1);
        assert(on_board(list[n - 1] as int));
        lemma_slider_moves(pos, attacked, list[n - 1], dirs, 4);
        lemma_pseudo_ok_both(
            pos,
            attacked,
            each_slider(pos, list, dirs, n - 1),
            slider_moves(pos, list[n - 1], dirs, 4),
        );
    }
}

proof fn lemma_each_queen(pos: Position, attacked: Set<u8>, list: Seq<u8>, n: int)
    requires
        pos.ok(),
        pos.lists(Piece::spec_of(pos.side_to_move, QUEEN), list),
        0 <= n <= list.len(),
    ensures
        all_pseudo_ok(pos, attacked, each_queen(pos, list, n)),
    decreases n,
{
    if n > 0 {
        lemma_each_queen(pos, attacked, list, n - 1);
        assert(on_board(list[n - 1] as int));
        let diagonal = slider_moves(pos, list[n - 1], DIAGONAL_OFFSETS@, 4);
        let straight = slider_moves(pos, list[n - 1], ORTHOGONAL_OFFSETS@, 4);
        lemma_slider_moves(pos, attacked, list[n - 1], DIAGONAL_OFFSETS@, 4);
        lemma_slider_moves(pos, attacked, list[n - 1], ORTHOGONAL_OFFSETS@, 4);
        lemma_pseudo_ok_both(pos, attacked, each_queen(pos, list, n - 1), diagonal);
        lemma_pseudo_ok_both(pos, attacked, each_queen(pos, list, n - 1) + diagonal, straight);
    }
}

pub proof fn lemma_pseudo_moves(pos: Position, attacked: Set<u8>)
    requires
        pos.ok(),
    ensures
        all_pseudo_ok(pos, attacked, pseudo_moves(pos, attacked)),
{
    let us = pos.side_to_move;
    let pawns = pos.squares_of(Piece::spec_of(us, PAWN));
    let knights = pos.squares_of(Piece::spec_of(us, KNIGHT));
    let bishops = pos.squares_of(Piece::spec_of(us, BISHOP));
    let rooks = pos.squares_of(Piece::spec_of(us, ROOK));
    let queens = pos.squares_of(Piece::spec_of(us, QUEEN));
    lemma_list_exists(pos, Piece::spec_of(us, PAWN));
    lemma_list_exists(pos, Piece::spec_of(us, KNIGHT));
    lemma_list_exists(pos, Piece::spec_of(us, BISHOP));
    lemma_list_exists(pos, Piece::spec_of(us, ROOK));
    lemma_list_exists(pos, Piece::spec_of(us, QUEEN));
    let a = castle_moves(pos, attacked);
    let b = each_pawn(pos, pawns, pawns.len() as int);
    let c = each_knight(pos, knights, knights.len() as int);
    let d = each_slider(pos, bishops, DIAGONAL_OFFSETS@, bishops.len() as int);
    let e = each_slider(pos, rooks, ORTHOGONAL_OFFSETS@, rooks.len() as int);
    let f = each_queen(pos, queens, queens.len() as int);
    let g = king_moves(pos, pos.king_square(us), attacked, 8);
    lemma_castle_moves(pos, attacked);
    lemma_each_pawn(pos, attacked, pawns, pawns.len() as int);
    lemma_each_knight(pos, attacked, knights, knights.len() as int);
    lemma_each_slider(pos, attacked, BISHOP, bishops, DIAGONAL_OFFSETS@, bishops.len() as int);
    lemma_each_slider(pos, attacked, ROOK, rooks, ORTHOGONAL_OFFSETS@, rooks.len() as int);
    lemma_each_queen(pos, attacked, queens, queens.len() as int);
    lemma_king_moves(pos, pos.king_square(us), attacked, 8);
    lemma_pseudo_ok_both(pos, attacked, a, b);
    lemma_pseudo_ok_both(pos, attacked, a + b, c);
    lemma_pseudo_ok_both(pos, attacked, a + b + c, d);
    lemma_pseudo_ok_both(pos, attacked, a + b + c + d, e);
    lemma_pseudo_ok_both(pos, attacked, a + b + c + d + e, f);
    lemma_pseudo_ok_both(pos, attacked, a + b + c + d + e + f, g);
}

proof fn lemma_legal_among(pos: Position, moves: Seq<Move>, info: Sweep, n: int)
    requires
        all_accepted(pos, moves),
        0 <= n <= moves.len(),
    ensures
        all_accepted(pos, legal_among(pos, moves, info, n)),
    decreases n,
{
    if n > 0 {
        lemma_legal_among(pos, moves, info, n - 1);
        let before = legal_among(pos, moves, info, n - 1);
        let now = legal_among(pos, moves, info, n);
        assert forall|i: int| 0 <= i < now.len() implies pos.accepts(#[trigger] now[i]) by {
            if i < before.len() {
                assert(now[i] == before[i]);
            } else {
                assert(now[i] == moves[n - 1]);
            }
        }
    }
}

/// Each legal move of a position of chess is one that the position accepts:
/// what the generator gives can be made, and taken back.
pub proof fn lemma_legal_moves_accepted(pos: Position)
    requires
        pos.ok(),
    ensures
        all_accepted(pos, legal_moves(pos)),
{
    reveal(legal_moves);
    let info = position_info(pos, pos.side_to_move);
    let pseudo = pseudo_moves(pos, info.attacked);
    lemma_pseudo_moves(pos, info.attacked);
    assert(all_accepted(pos, pseudo)) by {
        assert forall|i: int| 0 <= i < pseudo.len() implies pos.accepts(#[trigger] pseudo[i]) by {
            assert(pseudo_ok(pos, info.attacked, pseudo[i]));
        }
    }
    lemma_legal_among(pos, pseudo, info, pseudo.len() as int);
}

pub proof fn lemma_legal_among_facts(pos: Position, moves: Seq<Move>, info: Sweep, n: int)
    requires
        0 <= n <= moves.len(),
    ensures
        forall|i: int|
            0 <= i < legal_among(pos, moves, info, n).len() ==> {
                let m = #[trigger] legal_among(pos, moves, info, n)[i];
                moves.contains(m) && is_legal(pos, info, m)
            },
    decreases n,
{
    if n > 0 {
        lemma_legal_among_facts(pos, moves, info, n - 1);
        let before = legal_among(pos, moves, info, n - 1);
        let now = legal_among(pos, moves, info, n);
        assert forall|i: int| 0 <= i < now.len() implies {
            let m = #[trigger] now[i];
            moves.contains(m) && is_legal(pos, info, m)
        } by {
            if i < before.len() {
                assert(now[i] == before[i]);
            } else {
                assert(now[i] == moves[n - 1]);
            }
        }
    }
}

/// What holds of every legal move of a position of chess: the generator's
/// promise for it, and the legality test.
pub proof fn lemma_legal_move_facts(pos: Position, m: Move)
    requires
        pos.ok(),
        legal_moves(pos).contains(m),
    ensures
        pseudo_ok(pos, position_info(pos, pos.side_to_move).attacked, m),
        is_legal(pos, position_info(pos, pos.side_to_move), m),
{
    reveal(legal_moves);
    let info = position_info(pos, pos.side_to_move);
    let pseudo = pseudo_moves(pos, info.attacked);
    lemma_pseudo_moves(pos, info.attacked);
    lemma_legal_among_facts(pos, pseudo, info, pseudo.len() as int);
    let legal = legal_among(pos, pseudo, info, pseudo.len() as int);
    let i = choose|i: int| 0 <= i < legal.len() && legal[i] == m;
    assert(pseudo.contains(legal[i]));
    let j = choose|j: int| 0 <= j < pseudo.len() && pseudo[j] == m;
    assert(pseudo_ok(pos, info.attacked, pseudo[j]));
}

} // verus!
