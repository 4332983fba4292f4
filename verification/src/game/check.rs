//! What it is to be in check, and that the sweep counts a check exactly
//! when the king is in one.

use vstd::prelude::*;
use crate::game::accepted::lemma_list_exists;
use crate::game::analysis::bump;
use crate::game::analysis::knight_checks;
use crate::game::analysis::leaper_sweep;
use crate::game::analysis::pawn_checks;
use crate::game::analysis::position_info;
use crate::game::analysis::ray_sweep;
use crate::game::analysis::slider_sweep;
use crate::game::analysis::sliders_sweep;
use crate::game::analysis::PinAttack;
use crate::game::analysis::Sweep;
use crate::game::chess_util::king_targets;
use crate::game::chess_util::knight_targets;
use crate::game::chess_util::on_board;
use crate::game::chess_util::pawn_targets;
use crate::game::chess_util::{DIAGONAL_OFFSETS, ORTHOGONAL_OFFSETS};
use crate::game::piece::Colour;
use crate::game::piece::Piece;
use crate::game::piece::{BISHOP, KNIGHT, PAWN, QUEEN, ROOK};
use crate::game::position::Position;

verus! {

/// Whether a walk from `from` along `dir` comes to `target` within `steps`
/// steps, over empty squares of the board only.
pub open spec fn ray_reaches(squares: Seq<Piece>, from: int, dir: int, steps: nat, target: int) -> bool
    decreases steps,
{
    let t = from + dir;
    steps > 0 && on_board(t) && (t == target || (squares[t] == Piece::Empty && ray_reaches(
        squares,
        t,
        dir,
        (steps - 1) as nat,
        target,
    )))
}

/// Whether the man on `from` is `slider` and a line from it along one of
/// `dirs` comes to `target`.
pub open spec fn slider_hits(
    squares: Seq<Piece>,
    slider: Piece,
    dirs: Seq<i8>,
    from: int,
    target: int,
) -> bool {
    on_board(from) && squares[from] == slider && exists|i: int|
        0 <= i < dirs.len() && #[trigger] ray_reaches(squares, from, dirs[i] as int, 7, target)
}

/// Whether the king of `colour` is in check: the other king stands beside
/// it, or a pawn or a knight of the other side attacks its square, or a
/// bishop, rook or queen of the other side has a free line to it.
pub open spec fn in_check(pos: Position, colour: Colour) -> bool {
    let by = colour.spec_opposite();
    let king = pos.king_square(colour);
    ||| king_targets(pos.king_square(by)).contains(king)
    ||| exists|sq: int|
        on_board(sq) && #[trigger] pos.squares[sq] == Piece::spec_of(by, PAWN) && pawn_targets(
            sq as u8,
            by,
        ).contains(king)
    ||| exists|sq: int|
        on_board(sq) && #[trigger] pos.squares[sq] == Piece::spec_of(by, KNIGHT) && knight_targets(
            sq as u8,
        ).contains(king)
    ||| exists|sq: int| #[trigger]
        slider_hits(pos.squares, Piece::spec_of(by, BISHOP), DIAGONAL_OFFSETS@, sq, king as int)
    ||| exists|sq: int| #[trigger]
        slider_hits(pos.squares, Piece::spec_of(by, QUEEN), DIAGONAL_OFFSETS@, sq, king as int)
    ||| exists|sq: int| #[trigger]
        slider_hits(pos.squares, Piece::spec_of(by, ROOK), ORTHOGONAL_OFFSETS@, sq, king as int)
    ||| exists|sq: int| #[trigger]
        slider_hits(pos.squares, Piece::spec_of(by, QUEEN), ORTHOGONAL_OFFSETS@, sq, king as int)
}

/// Pawns are counted as giving check exactly if one of them attacks the
/// king.
pub proof fn lemma_pawn_checks(pawns: Seq<u8>, colour: Colour, king: u8, n: int)
    requires
        0 <= n <= pawns.len(),
    ensures
        pawn_checks(pawns, colour, king, n) > 0 <==> exists|i: int|
            0 <= i < n && pawn_targets(#[trigger] pawns[i], colour).contains(king),
    decreases n,
{
    if n > 0 {
        lemma_pawn_checks(pawns, colour, king, n - 1);
        if pawn_targets(pawns[n - 1], colour).contains(king) {
        } else if pawn_checks(pawns, colour, king, n - 1) > 0 {
            let i = choose|i: int|
                0 <= i < n - 1 && pawn_targets(#[trigger] pawns[i], colour).contains(king);
            assert(0 <= i < n);
        } else {
            assert forall|i: int| 0 <= i < n implies !pawn_targets(
                #[trigger] pawns[i],
                colour,
            ).contains(king) by {
                if i < n - 1 {
                }
            }
        }
    }
}

/// Knights are counted as giving check exactly if one of them attacks the
/// king.
pub proof fn lemma_knight_checks(knights: Seq<u8>, king: u8, n: int)
    requires
        0 <= n <= knights.len(),
    ensures
        knight_checks(knights, king, n) > 0 <==> exists|i: int|
            0 <= i < n && knight_targets(#[trigger] knights[i]).contains(king),
    decreases n,
{
    if n > 0 {
        lemma_knight_checks(knights, king, n - 1);
        if knight_targets(knights[n - 1]).contains(king) {
        } else if knight_checks(knights, king, n - 1) > 0 {
            let i = choose|i: int|
                0 <= i < n - 1 && knight_targets(#[trigger] knights[i]).contains(king);
            assert(0 <= i < n);
        } else {
            assert forall|i: int| 0 <= i < n implies !knight_targets(#[trigger] knights[i]).contains(
                king,
            ) by {
                if i < n - 1 {
                }
            }
        }
    }
}

/// A walk that has met a man of the king's side, or the king itself,
/// counts no check.
proof fn lemma_ray_counts_nothing(
    pos: Position,
    colour: Colour,
    king: u8,
    origin: u8,
    dir: int,
    cur: int,
    steps: nat,
    line: Set<u8>,
    state: PinAttack,
    acc: Sweep,
)
    requires
        state != PinAttack::NoneFound,
    ensures
        ray_sweep(pos, colour, king, origin, dir, cur, steps, line, state, acc).count == acc.count,
    decreases steps,
{
    let t = cur + dir;
    if !(steps == 0 || !on_board(t)) {
        let line2 = line.insert(t as u8);
        let rest = (steps - 1) as nat;
        if t == king {
            match state {
                PinAttack::Pin(pinned) => {
                    lemma_ray_counts_nothing(
                        pos,
                        colour,
                        king,
                        origin,
                        dir,
                        t,
                        rest,
                        line2,
                        state,
                        acc.with_pin(pinned, line2.insert(origin)),
                    );
                },
                _ => {
                    lemma_ray_counts_nothing(
                        pos,
                        colour,
                        king,
                        origin,
                        dir,
                        t,
                        rest,
                        line2,
                        state,
                        acc,
                    );
                },
            }
        } else {
            let piece = pos.squares[t];
            if piece == Piece::Empty {
                lemma_ray_counts_nothing(
                    pos,
                    colour,
                    king,
                    origin,
                    dir,
                    t,
                    rest,
                    line2,
                    state,
                    acc,
                );
            } else if piece.spec_colour() == colour {
                match state {
                    PinAttack::Pin(_) => {
                        lemma_ray_counts_nothing(
                            pos,
                            colour,
                            king,
                            origin,
                            dir,
                            t,
                            rest,
                            line2,
                            PinAttack::DoubleBlocked,
                            acc,
                        );
                    },
                    _ => {
                        lemma_ray_counts_nothing(
                            pos,
                            colour,
                            king,
                            origin,
                            dir,
                            t,
                            rest,
                            line2,
                            state,
                            acc,
                        );
                    },
                }
            }
        }
    }
}

/// A walk that has met nothing yet counts a check exactly if it comes to
/// the king.
pub proof fn lemma_ray_counts(
    pos: Position,
    colour: Colour,
    king: u8,
    origin: u8,
    dir: int,
    cur: int,
    steps: nat,
    line: Set<u8>,
    acc: Sweep,
)
    ensures
        ray_sweep(
            pos,
            colour,
            king,
            origin,
            dir,
            cur,
            steps,
            line,
            PinAttack::NoneFound,
            acc,
        ).count > 0 <==> acc.count > 0 || ray_reaches(pos.squares, cur, dir, steps, king as int),
    decreases steps,
{
    let t = cur + dir;
    if !(steps == 0 || !on_board(t)) {
        let line2 = line.insert(t as u8);
        let rest = (steps - 1) as nat;
        if t == king {
            lemma_ray_counts_nothing(
                pos,
                colour,
                king,
                origin,
                dir,
                t,
                rest,
                line2,
                PinAttack::ThroughKing,
                acc.with_check(line2.insert(origin)),
            );
            assert(bump(acc.count) > 0);
        } else {
            let piece = pos.squares[t];
            if piece == Piece::Empty {
                lemma_ray_counts(pos, colour, king, origin, dir, t, rest, line2, acc);
            } else if piece.spec_colour() == colour {
                lemma_ray_counts_nothing(
                    pos,
                    colour,
                    king,
                    origin,
                    dir,
                    t,
                    rest,
                    line2,
                    PinAttack::Pin(t as u8),
                    acc.with_attacks(line2),
                );
            }
        }
    }
}

/// The walks from one slider count a check exactly if one of them comes to
/// the king.
pub proof fn lemma_slider_counts(
    pos: Position,
    colour: Colour,
    king: u8,
    origin: u8,
    dirs: Seq<i8>,
    i: int,
    acc: Sweep,
)
    requires
        0 <= i <= dirs.len(),
    ensures
        slider_sweep(pos, colour, king, origin, dirs, i, acc).count > 0 <==> acc.count > 0
            || exists|k: int|
            i <= k < dirs.len() && #[trigger] ray_reaches(
                pos.squares,
                origin as int,
                dirs[k] as int,
                7,
                king as int,
            ),
    decreases dirs.len() - i,
{
    if i < dirs.len() {
        let next = ray_sweep(
            pos,
            colour,
            king,
            origin,
            dirs[i] as int,
            origin as int,
            7,
            Set::empty(),
            PinAttack::NoneFound,
            acc,
        );
        lemma_ray_counts(pos, colour, king, origin, dirs[i] as int, origin as int, 7, Set::empty(), acc);
        lemma_slider_counts(pos, colour, king, origin, dirs, i + 1, next);
        let here = ray_reaches(pos.squares, origin as int, dirs[i] as int, 7, king as int);
        let later = exists|k: int|
            i + 1 <= k < dirs.len() && #[trigger] ray_reaches(
                pos.squares,
                origin as int,
                dirs[k] as int,
                7,
                king as int,
            );
        let any = exists|k: int|
            i <= k < dirs.len() && #[trigger] ray_reaches(
                pos.squares,
                origin as int,
                dirs[k] as int,
                7,
                king as int,
            );
        if any {
            let k = choose|k: int|
                i <= k < dirs.len() && #[trigger] ray_reaches(
                    pos.squares,
                    origin as int,
                    dirs[k] as int,
                    7,
                    king as int,
                );
            if k != i {
                assert(i + 1 <= k < dirs.len());
            }
        }
        assert(any <==> here || later);
    }
}

/// Whether one of the sliders `list[from..]` has a line along one of
/// `dirs` that comes to `king`.
pub open spec fn some_line(
    squares: Seq<Piece>,
    list: Seq<u8>,
    dirs: Seq<i8>,
    from: int,
    king: u8,
) -> bool {
    exists|j: int, k: int|
        from <= j < list.len() && 0 <= k < dirs.len() && #[trigger] ray_reaches(
            squares,
            list[j] as int,
            dirs[k] as int,
            7,
            king as int,
        )
}

/// The walks from the sliders of a list count a check exactly if one of
/// them comes to the king.
pub proof fn lemma_sliders_count(
    pos: Position,
    colour: Colour,
    king: u8,
    list: Seq<u8>,
    dirs: Seq<i8>,
    j: int,
    acc: Sweep,
)
    requires
        0 <= j <= list.len(),
    ensures
        sliders_sweep(pos, colour, king, list, dirs, j, acc).count > 0 <==> acc.count > 0
            || some_line(pos.squares, list, dirs, j, king),
    decreases list.len() - j,
{
    if j < list.len() {
        let next = slider_sweep(pos, colour, king, list[j], dirs, 0, acc);
        lemma_slider_counts(pos, colour, king, list[j], dirs, 0, acc);
        lemma_sliders_count(pos, colour, king, list, dirs, j + 1, next);
        let here = exists|k: int|
            0 <= k < dirs.len() && #[trigger] ray_reaches(
                pos.squares,
                list[j] as int,
                dirs[k] as int,
                7,
                king as int,
            );
        if some_line(pos.squares, list, dirs, j, king) {
            let (a, b) = choose|a: int, b: int|
                j <= a < list.len() && 0 <= b < dirs.len() && #[trigger] ray_reaches(
                    pos.squares,
                    list[a] as int,
                    dirs[b] as int,
                    7,
                    king as int,
                );
            if a != j {
                assert(j + 1 <= a < list.len());
                assert(some_line(pos.squares, list, dirs, j + 1, king));
            }
        }
        if here {
            let b = choose|b: int|
                0 <= b < dirs.len() && #[trigger] ray_reaches(
                    pos.squares,
                    list[j] as int,
                    dirs[b] as int,
                    7,
                    king as int,
                );
            assert(j <= j < list.len() && ray_reaches(
                pos.squares,
                list[j] as int,
                dirs[b] as int,
                7,
                king as int,
            ));
        }
        if some_line(pos.squares, list, dirs, j + 1, king) {
            let (a, b) = choose|a: int, b: int|
                j + 1 <= a < list.len() && 0 <= b < dirs.len() && #[trigger] ray_reaches(
                    pos.squares,
                    list[a] as int,
                    dirs[b] as int,
                    7,
                    king as int,
                );
            assert(j <= a < list.len());
        }
    }
}

/// A slider of a list has a line to the king exactly if a square with
/// that slider on it has one.
proof fn lemma_some_line(pos: Position, slider: Piece, dirs: Seq<i8>, king: u8)
    requires
        pos.squares.len() == 128,
    ensures
        some_line(pos.squares, pos.squares_of(slider), dirs, 0, king) <==> exists|sq: int| #[trigger]
            slider_hits(pos.squares, slider, dirs, sq, king as int),
{
    lemma_list_exists(pos, slider);
    let list = pos.squares_of(slider);
    if some_line(pos.squares, list, dirs, 0, king) {
        let (a, b) = choose|a: int, b: int|
            0 <= a < list.len() && 0 <= b < dirs.len() && #[trigger] ray_reaches(
                pos.squares,
                list[a] as int,
                dirs[b] as int,
                7,
                king as int,
            );
        assert(on_board(list[a] as int) && pos.squares[list[a] as int] == slider);
        assert(slider_hits(pos.squares, slider, dirs, list[a] as int, king as int));
    }
    if exists|sq: int| #[trigger] slider_hits(pos.squares, slider, dirs, sq, king as int) {
        let sq = choose|sq: int| #[trigger]
            slider_hits(pos.squares, slider, dirs, sq, king as int);
        let b = choose|b: int|
            0 <= b < dirs.len() && #[trigger] ray_reaches(
                pos.squares,
                sq,
                dirs[b] as int,
                7,
                king as int,
            );
        assert(list.contains(sq as u8));
        let a = choose|a: int| 0 <= a < list.len() && list[a] == sq as u8;
        assert(ray_reaches(pos.squares, list[a] as int, dirs[b] as int, 7, king as int));
    }
}

/// The sweep counts a check exactly if the king is in check.
pub proof fn lemma_count_is_check(pos: Position, colour: Colour)
    requires
        pos.squares.len() == 128,
    ensures
        position_info(pos, colour).count > 0 <==> in_check(pos, colour),
{
    let opp = colour.spec_opposite();
    let king = pos.king_square(colour);
    let pawn = Piece::spec_of(opp, PAWN);
    let knight = Piece::spec_of(opp, KNIGHT);
    let bishop = Piece::spec_of(opp, BISHOP);
    let rook = Piece::spec_of(opp, ROOK);
    let queen = Piece::spec_of(opp, QUEEN);
    let pawns = pos.squares_of(pawn);
    let knights = pos.squares_of(knight);
    let bishops = pos.squares_of(bishop);
    let rooks = pos.squares_of(rook);
    let queens = pos.squares_of(queen);
    lemma_list_exists(pos, pawn);
    lemma_list_exists(pos, knight);
    let a = leaper_sweep(pos, colour);
    let b = sliders_sweep(pos, colour, king, bishops, DIAGONAL_OFFSETS@, 0, a);
    let c = sliders_sweep(pos, colour, king, queens, DIAGONAL_OFFSETS@, 0, b);
    let d = sliders_sweep(pos, colour, king, rooks, ORTHOGONAL_OFFSETS@, 0, c);
    lemma_sliders_count(pos, colour, king, bishops, DIAGONAL_OFFSETS@, 0, a);
    lemma_sliders_count(pos, colour, king, queens, DIAGONAL_OFFSETS@, 0, b);
    lemma_sliders_count(pos, colour, king, rooks, ORTHOGONAL_OFFSETS@, 0, c);
    lemma_sliders_count(pos, colour, king, queens, ORTHOGONAL_OFFSETS@, 0, d);
    lemma_some_line(pos, bishop, DIAGONAL_OFFSETS@, king);
    lemma_some_line(pos, queen, DIAGONAL_OFFSETS@, king);
    lemma_some_line(pos, rook, ORTHOGONAL_OFFSETS@, king);
    lemma_some_line(pos, queen, ORTHOGONAL_OFFSETS@, king);
    let by_pawn_list = exists|i: int|
        0 <= i < pawns.len() && pawn_targets(#[trigger] pawns[i], opp).contains(king);
    let by_pawn = exists|sq: int|
        on_board(sq) && #[trigger] pos.squares[sq] == pawn && pawn_targets(sq as u8, opp).contains(
            king,
        );
    assert(by_pawn_list <==> by_pawn) by {
        if by_pawn_list {
            let i = choose|i: int|
                0 <= i < pawns.len() && pawn_targets(#[trigger] pawns[i], opp).contains(king);
            assert(on_board(pawns[i] as int) && pos.squares[pawns[i] as int] == pawn);
        }
        if by_pawn {
            let sq = choose|sq: int|
                on_board(sq) && #[trigger] pos.squares[sq] == pawn && pawn_targets(
                    sq as u8,
                    opp,
                ).contains(king);
            assert(pawns.contains(sq as u8));
            let i = choose|i: int| 0 <= i < pawns.len() && pawns[i] == sq as u8;
            assert(pawn_targets(pawns[i], opp).contains(king));
        }
    }
    let by_knight_list = exists|i: int|
        0 <= i < knights.len() && knight_targets(#[trigger] knights[i]).contains(king);
    let by_knight = exists|sq: int|
        on_board(sq) && #[trigger] pos.squares[sq] == knight && knight_targets(sq as u8).contains(
            king,
        );
    assert(by_knight_list <==> by_knight) by {
        if by_knight_list {
            let i = choose|i: int|
                0 <= i < knights.len() && knight_targets(#[trigger] knights[i]).contains(king);
            assert(on_board(knights[i] as int) && pos.squares[knights[i] as int] == knight);
        }
        if by_knight {
            let sq = choose|sq: int|
                on_board(sq) && #[trigger] pos.squares[sq] == knight && knight_targets(
                    sq as u8,
                ).contains(king);
            assert(knights.contains(sq as u8));
            let i = choose|i: int| 0 <= i < knights.len() && knights[i] == sq as u8;
            assert(knight_targets(knights[i]).contains(king));
        }
    }
    lemma_pawn_checks(pawns, opp, king, pawns.len() as int);
    lemma_knight_checks(knights, king, knights.len() as int);
    assert(a.count > 0 <==> king_targets(pos.king_square(opp)).contains(king) || by_pawn
        || by_knight);
}

} // verus!
