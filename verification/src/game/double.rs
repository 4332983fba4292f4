//! Two checks at once are answered by the king alone.

use vstd::prelude::*;
use crate::game::accepted::lemma_list_exists;
use crate::game::analysis::bump;
use crate::game::analysis::counted;
use crate::game::analysis::knight_checks;
use crate::game::analysis::leaper_sweep;
use crate::game::analysis::pawn_checks;
use crate::game::analysis::position_info;
use crate::game::analysis::ray_sweep;
use crate::game::analysis::slider_sweep;
use crate::game::analysis::sliders_sweep;
use crate::game::analysis::PinAttack;
use crate::game::analysis::Sweep;
use crate::game::check::in_check;
use crate::game::check::ray_reaches;
use crate::game::chess_util::king_targets;
use crate::game::exact::lemma_check_stays;
use crate::game::chess_util::knight_targets;
use crate::game::chess_util::on_board;
use crate::game::chess_util::pawn_targets;
use crate::game::chess_util::{DIAGONAL_OFFSETS, ORTHOGONAL_OFFSETS};
use crate::game::moves::Move;
use crate::game::moves::MoveType;
use crate::game::piece::Colour;
use crate::game::piece::Piece;
use crate::game::piece::{BISHOP, KING, KNIGHT, PAWN, QUEEN, ROOK};
use crate::game::position::Position;
use crate::game::safety::answers_check;
use crate::game::safety::gives_check;
use crate::game::safety::is_direction;
use crate::game::safety::lemma_gives_check;
use crate::game::safety::lemma_ray_checks;
use crate::game::safety::lemma_walk_avoids;
use crate::game::safety::on_walk;
use crate::game::safety::Attacker;

verus! {

/// A free line to a square has a length, the square lies that many steps
/// from where the line starts, and the squares before it are empty.
pub proof fn lemma_line_length(squares: Seq<Piece>, from: int, dir: int, steps: nat, target: int) -> (n:
    int)
    requires
        ray_reaches(squares, from, dir, steps, target),
    ensures
        1 <= n <= steps,
        target == from + n * dir,
        forall|j: int| 1 <= j < n ==> squares[#[trigger] (from + j * dir)] == Piece::Empty,
    decreases steps,
{
    let t = from + dir;
    if t == target {
        assert(from + 1 * dir == target);
        1
    } else {
        let n = lemma_line_length(squares, t, dir, (steps - 1) as nat, target);
        assert(t + n * dir == from + (n + 1) * dir) by (nonlinear_arith)
            requires
                t == from + dir,
        ;
        assert forall|j: int| 1 <= j < n + 1 implies squares[#[trigger] (from + j * dir)]
            == Piece::Empty by {
            if j == 1 {
                assert(from + 1 * dir == t);
            } else {
                assert(from + j * dir == t + (j - 1) * dir) by (nonlinear_arith)
                    requires
                        t == from + dir,
                ;
                assert(squares[t + (j - 1) * dir] == Piece::Empty);
            }
        }
        n + 1
    }
}

/// A square that a walk visits lies some steps from where the walk starts,
/// not more than the walk has.
pub proof fn lemma_walk_index(from: int, dir: int, steps: nat, target: int, x: int) -> (i: int)
    requires
        on_walk(from, dir, steps, target, x),
    ensures
        1 <= i <= steps,
        x == from + i * dir,
    decreases steps,
{
    let t = from + dir;
    if t == x {
        assert(from + 1 * dir == x);
        1
    } else {
        let i = lemma_walk_index(t, dir, (steps - 1) as nat, target, x);
        assert(t + i * dir == from + (i + 1) * dir) by (nonlinear_arith)
            requires
                t == from + dir,
        ;
        i + 1
    }
}

/// A number of steps in one direction is the same distance as a number of
/// steps in another only if both are the same.
pub proof fn lemma_same_direction(n1: int, d1: int, n2: int, d2: int)
    requires
        1 <= n1 <= 7,
        1 <= n2 <= 7,
        is_direction(d1),
        is_direction(d2),
        n1 * d1 == n2 * d2,
    ensures
        d1 == d2,
        n1 == n2,
{
    lemma_times(n1, d1);
    lemma_times(n2, d2);
}

/// The product of a number of steps and a direction, direction by
/// direction.
proof fn lemma_times(n: int, d: int)
    requires
        is_direction(d),
    ensures
        d == 1 ==> n * d == n,
        d == -1 ==> n * d == -n,
        d == 15 ==> n * d == 15 * n,
        d == -15 ==> n * d == -15 * n,
        d == 16 ==> n * d == 16 * n,
        d == -16 ==> n * d == -16 * n,
        d == 17 ==> n * d == 17 * n,
        d == -17 ==> n * d == -17 * n,
{
    assert(d == 1 ==> n * d == n) by (nonlinear_arith);
    assert(d == -1 ==> n * d == -n) by (nonlinear_arith);
    assert(d == 15 ==> n * d == 15 * n) by (nonlinear_arith);
    assert(d == -15 ==> n * d == -15 * n) by (nonlinear_arith);
    assert(d == 16 ==> n * d == 16 * n) by (nonlinear_arith);
    assert(d == -16 ==> n * d == -16 * n) by (nonlinear_arith);
    assert(d == 17 ==> n * d == 17 * n) by (nonlinear_arith);
    assert(d == -17 ==> n * d == -17 * n) by (nonlinear_arith);
}

/// Whether a move answers what gives check: it takes it, lands on its
/// line, or takes it in passing.
pub open spec fn answered(pos: Position, m: Move, way: Attacker, from: int) -> bool {
    answers_check(pos, pos.side_to_move, way, from, m.end_square) || (m.move_type
        == MoveType::EnPassant && way is Pawn && from == pos.en_passant_victim(
        m.end_square as int,
    ))
}

/// Two sliders that give check are the same one if a move answers both.
proof fn lemma_sliders_not_both(
    pos: Position,
    m: Move,
    slider1: Piece,
    dirs1: Seq<i8>,
    k1: int,
    from1: int,
    slider2: Piece,
    dirs2: Seq<i8>,
    k2: int,
    from2: int,
)
    requires
        pos.ok(),
        pos.accepts(m),
        m.moved_piece != Piece::spec_of(pos.side_to_move, KING),
        gives_check(pos, pos.side_to_move, Attacker::Slider(slider1, dirs1, k1), from1),
        gives_check(pos, pos.side_to_move, Attacker::Slider(slider2, dirs2, k2), from2),
        answers_check(
            pos,
            pos.side_to_move,
            Attacker::Slider(slider1, dirs1, k1),
            from1,
            m.end_square,
        ),
        answers_check(
            pos,
            pos.side_to_move,
            Attacker::Slider(slider2, dirs2, k2),
            from2,
            m.end_square,
        ),
    ensures
        from1 == from2,
        slider1 == slider2,
        dirs1 == dirs2,
        k1 == k2,
{
    let us = pos.side_to_move;
    let king = pos.king_square(us) as int;
    let end = m.end_square as int;
    let d1 = dirs1[k1] as int;
    let d2 = dirs2[k2] as int;
    assert(is_direction(d1) && is_direction(d2));
    let n1 = lemma_line_length(pos.squares, from1, d1, 7, king);
    let n2 = lemma_line_length(pos.squares, from2, d2, 7, king);
    assert(end != king);
    assert(pos.squares[from1] != Piece::Empty && pos.squares[from2] != Piece::Empty);
    if end == from1 && end == from2 {
        lemma_same_direction(n1, d1, n2, d2);
    } else if end == from1 {
        lemma_walk_avoids(pos.squares, from2, d2, 7, king, from1);
    } else if end == from2 {
        lemma_walk_avoids(pos.squares, from1, d1, 7, king, from2);
    } else {
        let i1 = lemma_walk_index(from1, d1, 7, king, end);
        let i2 = lemma_walk_index(from2, d2, 7, king, end);
        lemma_times(n1, d1);
        lemma_times(i1, d1);
        lemma_times(n2, d2);
        lemma_times(i2, d2);
        lemma_times(n1 - i1, d1);
        lemma_times(n2 - i2, d2);
        if i1 >= n1 || i2 >= n2 {
            lemma_beyond_the_king(pos.squares, from1, d1, king, end, n1, i1);
            lemma_beyond_the_king(pos.squares, from2, d2, king, end, n2, i2);
        }
        assert((n1 - i1) * d1 == (n2 - i2) * d2);
        lemma_same_direction(n1 - i1, d1, n2 - i2, d2);
        if n1 < n2 {
            assert(from1 == from2 + (n2 - n1) * d2) by {
                lemma_times(n2 - n1, d2);
            }
            assert(pos.squares[from2 + (n2 - n1) * d2] == Piece::Empty);
        } else if n2 < n1 {
            assert(from2 == from1 + (n1 - n2) * d1) by {
                lemma_times(n1 - n2, d1);
            }
            assert(pos.squares[from1 + (n1 - n2) * d1] == Piece::Empty);
        }
    }
    assert(from1 == from2);
    assert(d1 == d2);
}

/// A square that a walk to the king visits does not lie beyond the king.
proof fn lemma_beyond_the_king(
    squares: Seq<Piece>,
    from: int,
    dir: int,
    king: int,
    x: int,
    n: int,
    i: int,
)
    requires
        is_direction(dir),
        ray_reaches(squares, from, dir, 7, king),
        on_walk(from, dir, 7, king, x),
        x != king,
        1 <= n <= 7,
        king == from + n * dir,
        1 <= i <= 7,
        x == from + i * dir,
    ensures
        i < n,
{
    if i >= n {
        crate::game::safety::lemma_after_passing(squares, from, dir, 7, king, x);
        lemma_times(n, dir);
        lemma_times(i, dir);
    }
}

/// No line of a slider to the king passes the target of a capture in
/// passing where the pawn that would be taken gives check.
proof fn lemma_no_line_by_the_target(
    pos: Position,
    m: Move,
    slider: Piece,
    dirs: Seq<i8>,
    k: int,
    from: int,
)
    requires
        pos.ok(),
        pos.accepts(m),
        m.move_type == MoveType::EnPassant,
        gives_check(
            pos,
            pos.side_to_move,
            Attacker::Pawn,
            pos.en_passant_victim(m.end_square as int),
        ),
        gives_check(pos, pos.side_to_move, Attacker::Slider(slider, dirs, k), from),
    ensures
        !answers_check(
            pos,
            pos.side_to_move,
            Attacker::Slider(slider, dirs, k),
            from,
            m.end_square,
        ),
{
    let us = pos.side_to_move;
    let king = pos.king_square(us) as int;
    let end = m.end_square as int;
    let d = dirs[k] as int;
    assert(is_direction(d));
    assert(pos.squares[end] == Piece::Empty);
    if on_walk(from, d, 7, king, end) {
        let n = lemma_line_length(pos.squares, from, d, 7, king);
        let i = lemma_walk_index(from, d, 7, king, end);
        lemma_beyond_the_king(pos.squares, from, d, king, end, n, i);
        lemma_times(n, d);
        lemma_times(i, d);
        lemma_times(n - i, d);
        assert(king - end == 31 || king - end == 33 || king - end == -31 || king - end == -33);
    }
}

/// A move of another man than the king does not answer two checks.
pub proof fn lemma_not_both(
    pos: Position,
    m: Move,
    way1: Attacker,
    from1: int,
    way2: Attacker,
    from2: int,
)
    requires
        pos.ok(),
        pos.accepts(m),
        m.moved_piece != Piece::spec_of(pos.side_to_move, KING),
        gives_check(pos, pos.side_to_move, way1, from1),
        gives_check(pos, pos.side_to_move, way2, from2),
        answered(pos, m, way1, from1),
        answered(pos, m, way2, from2),
    ensures
        way1 == way2,
        from1 == from2,
{
    let us = pos.side_to_move;
    let king = pos.king_square(us) as int;
    let end = m.end_square as int;
    assert(end != king);
    if m.move_type == MoveType::EnPassant {
        assert(pos.squares[end] == Piece::Empty);
    }
    match way1 {
        Attacker::Slider(slider1, dirs1, k1) => {
            match way2 {
                Attacker::Slider(slider2, dirs2, k2) => {
                    lemma_sliders_not_both(
                        pos,
                        m,
                        slider1,
                        dirs1,
                        k1,
                        from1,
                        slider2,
                        dirs2,
                        k2,
                        from2,
                    );
                },
                Attacker::Pawn => {
                    if end != from2 {
                        lemma_no_line_by_the_target(pos, m, slider1, dirs1, k1, from1);
                    } else if end != from1 {
                        lemma_walk_avoids(pos.squares, from1, dirs1[k1] as int, 7, king, from2);
                    }
                },
                Attacker::Knight => {
                    if end != from1 {
                        lemma_walk_avoids(pos.squares, from1, dirs1[k1] as int, 7, king, from2);
                    }
                },
                Attacker::King => {},
            }
        },
        Attacker::Pawn => {
            match way2 {
                Attacker::Slider(slider2, dirs2, k2) => {
                    if end != from1 {
                        lemma_no_line_by_the_target(pos, m, slider2, dirs2, k2, from2);
                    } else if end != from2 {
                        lemma_walk_avoids(pos.squares, from2, dirs2[k2] as int, 7, king, from1);
                    }
                },
                _ => {},
            }
        },
        Attacker::Knight => {
            match way2 {
                Attacker::Slider(slider2, dirs2, k2) => {
                    if end != from2 {
                        lemma_walk_avoids(pos.squares, from2, dirs2[k2] as int, 7, king, from1);
                    }
                },
                _ => {},
            }
        },
        Attacker::King => {},
    }
}

/// How many of the directions `dirs[i..]` give the slider on `from` a free
/// line to `king`.
pub open spec fn dirs_reaching(squares: Seq<Piece>, from: int, dirs: Seq<i8>, i: int, king: int) -> nat
    decreases dirs.len() - i,
{
    if i < 0 || i >= dirs.len() {
        0
    } else if ray_reaches(squares, from, dirs[i] as int, 7, king) {
        1 + dirs_reaching(squares, from, dirs, i + 1, king)
    } else {
        dirs_reaching(squares, from, dirs, i + 1, king)
    }
}

/// How many free lines to `king` the sliders `list[j..]` have along `dirs`.
pub open spec fn list_reaching(
    squares: Seq<Piece>,
    list: Seq<u8>,
    dirs: Seq<i8>,
    j: int,
    king: int,
) -> nat
    decreases list.len() - j,
{
    if j < 0 || j >= list.len() {
        0
    } else {
        dirs_reaching(squares, list[j] as int, dirs, 0, king) + list_reaching(
            squares,
            list,
            dirs,
            j + 1,
            king,
        )
    }
}

proof fn lemma_counted_bump(x: nat)
    ensures
        bump(counted(x)) == counted(x + 1),
{
}

/// The walks from one slider count as many checks as it has free lines to
/// the king.
proof fn lemma_slider_tally(
    pos: Position,
    colour: Colour,
    king: u8,
    origin: u8,
    dirs: Seq<i8>,
    i: int,
    acc: Sweep,
    x: nat,
)
    requires
        0 <= i <= dirs.len(),
        acc.count == counted(x),
    ensures
        slider_sweep(pos, colour, king, origin, dirs, i, acc).count == counted(
            x + dirs_reaching(pos.squares, origin as int, dirs, i, king as int),
        ),
    decreases dirs.len() - i,
{
    if i < dirs.len() {
        let next = ray_sweep(
            pos,
            colour,
            king,
            origin,
            dirs[i] as int,
            origin as int,
            7,
            Set::empty(),
            PinAttack::NoneFound,
            acc,
        );
        lemma_ray_checks(pos, colour, king, origin, dirs[i] as int, origin as int, 7, Set::empty(), acc);
        lemma_counted_bump(x);
        if ray_reaches(pos.squares, origin as int, dirs[i] as int, 7, king as int) {
            lemma_slider_tally(pos, colour, king, origin, dirs, i + 1, next, x + 1);
        } else {
            lemma_slider_tally(pos, colour, king, origin, dirs, i + 1, next, x);
        }
    }
}

/// The walks from the sliders of a list count as many checks as they have
/// free lines to the king.
proof fn lemma_sliders_tally(
    pos: Position,
    colour: Colour,
    king: u8,
    list: Seq<u8>,
    dirs: Seq<i8>,
    j: int,
    acc: Sweep,
    x: nat,
)
    requires
        0 <= j <= list.len(),
        acc.count == counted(x),
    ensures
        sliders_sweep(pos, colour, king, list, dirs, j, acc).count == counted(
            x + list_reaching(pos.squares, list, dirs, j, king as int),
        ),
    decreases list.len() - j,
{
    if j < list.len() {
        let next = slider_sweep(pos, colour, king, list[j], dirs, 0, acc);
        let here = dirs_reaching(pos.squares, list[j] as int, dirs, 0, king as int);
        lemma_slider_tally(pos, colour, king, list[j], dirs, 0, acc, x);
        lemma_sliders_tally(pos, colour, king, list, dirs, j + 1, next, x + here);
    }
}

/// Where a slider has a free line, one of its directions gives it; where
/// it has two, two of them do.
proof fn lemma_dirs_units(squares: Seq<Piece>, from: int, dirs: Seq<i8>, i: int, king: int) -> (r: (
    int,
    int,
))
    requires
        0 <= i <= dirs.len(),
    ensures
        dirs_reaching(squares, from, dirs, i, king) >= 1 ==> i <= r.0 < dirs.len() && ray_reaches(
            squares,
            from,
            dirs[r.0] as int,
            7,
            king,
        ),
        dirs_reaching(squares, from, dirs, i, king) >= 2 ==> r.0 < r.1 < dirs.len() && ray_reaches(
            squares,
            from,
            dirs[r.1] as int,
            7,
            king,
        ),
    decreases dirs.len() - i,
{
    if i >= dirs.len() {
        (0, 0)
    } else {
        let rest = lemma_dirs_units(squares, from, dirs, i + 1, king);
        if ray_reaches(squares, from, dirs[i] as int, 7, king) {
            (i, rest.0)
        } else {
            rest
        }
    }
}

/// Where the sliders of a list have a free line, one of them has it along
/// one of the directions; where they have two, there are two such, of
/// different sliders or along different directions.
proof fn lemma_list_units(squares: Seq<Piece>, list: Seq<u8>, dirs: Seq<i8>, j: int, king: int) -> (r: (
    int,
    int,
    int,
    int,
))
    requires
        0 <= j <= list.len(),
    ensures
        list_reaching(squares, list, dirs, j, king) >= 1 ==> j <= r.0 < list.len() && 0 <= r.1
            < dirs.len() && ray_reaches(squares, list[r.0] as int, dirs[r.1] as int, 7, king),
        list_reaching(squares, list, dirs, j, king) >= 2 ==> r.0 <= r.2 < list.len() && 0 <= r.3
            < dirs.len() && (r.0 < r.2 || r.1 < r.3) && ray_reaches(
            squares,
            list[r.2] as int,
            dirs[r.3] as int,
            7,
            king,
        ),
    decreases list.len() - j,
{
    if j >= list.len() {
        (0, 0, 0, 0)
    } else {
        let here = dirs_reaching(squares, list[j] as int, dirs, 0, king);
        let own = lemma_dirs_units(squares, list[j] as int, dirs, 0, king);
        let rest = lemma_list_units(squares, list, dirs, j + 1, king);
        if here >= 2 {
            (j, own.0, j, own.1)
        } else if here == 1 {
            (j, own.0, rest.0, rest.1)
        } else {
            rest
        }
    }
}

proof fn lemma_pawn_units(pawns: Seq<u8>, colour: Colour, king: u8, n: int) -> (r: (int, int))
    requires
        0 <= n <= pawns.len(),
    ensures
        pawn_checks(pawns, colour, king, n) >= 1 ==> 0 <= r.1 < n && pawn_targets(
            pawns[r.1],
            colour,
        ).contains(king),
        pawn_checks(pawns, colour, king, n) >= 2 ==> 0 <= r.0 < r.1 && pawn_targets(
            pawns[r.0],
            colour,
        ).contains(king),
    decreases n,
{
    if n <= 0 {
        (0, 0)
    } else {
        let rest = lemma_pawn_units(pawns, colour, king, n - 1);
        if pawn_targets(pawns[n - 1], colour).contains(king) {
            (rest.1, n - 1)
        } else {
            rest
        }
    }
}

proof fn lemma_knight_units(knights: Seq<u8>, king: u8, n: int) -> (r: (int, int))
    requires
        0 <= n <= knights.len(),
    ensures
        knight_checks(knights, king, n) >= 1 ==> 0 <= r.1 < n && knight_targets(
            knights[r.1],
        ).contains(king),
        knight_checks(knights, king, n) >= 2 ==> 0 <= r.0 < r.1 && knight_targets(
            knights[r.0],
        ).contains(king),
    decreases n,
{
    if n <= 0 {
        (0, 0)
    } else {
        let rest = lemma_knight_units(knights, king, n - 1);
        if knight_targets(knights[n - 1]).contains(king) {
            (rest.1, n - 1)
        } else {
            rest
        }
    }
}

/// The seven kinds of check that the sweep looks for, in its order: the
/// other king beside the king, pawns, knights, bishops, queens along the
/// diagonals, rooks, queens along ranks and files.
pub open spec fn kind_of(by: Colour, way: Attacker) -> int {
    match way {
        Attacker::King => 0,
        Attacker::Pawn => 1,
        Attacker::Knight => 2,
        Attacker::Slider(slider, dirs, _) => if slider == Piece::spec_of(by, BISHOP) {
            3
        } else if slider == Piece::spec_of(by, ROOK) {
            5
        } else if dirs == DIAGONAL_OFFSETS@ {
            4
        } else {
            6
        },
    }
}

/// The slider and the directions of a kind of check by a slider.
pub open spec fn pair_of(by: Colour, kind: int) -> (Piece, Seq<i8>) {
    if kind == 3 {
        (Piece::spec_of(by, BISHOP), DIAGONAL_OFFSETS@)
    } else if kind == 4 {
        (Piece::spec_of(by, QUEEN), DIAGONAL_OFFSETS@)
    } else if kind == 5 {
        (Piece::spec_of(by, ROOK), ORTHOGONAL_OFFSETS@)
    } else {
        (Piece::spec_of(by, QUEEN), ORTHOGONAL_OFFSETS@)
    }
}

/// How many checks of a kind there are.
pub open spec fn kind_count(pos: Position, colour: Colour, kind: int) -> nat {
    let by = colour.spec_opposite();
    let king = pos.king_square(colour);
    if kind == 0 {
        if king_targets(pos.king_square(by)).contains(king) {
            1
        } else {
            0
        }
    } else if kind == 1 {
        let pawns = pos.squares_of(Piece::spec_of(by, PAWN));
        pawn_checks(pawns, by, king, pawns.len() as int)
    } else if kind == 2 {
        let knights = pos.squares_of(Piece::spec_of(by, KNIGHT));
        knight_checks(knights, king, knights.len() as int)
    } else {
        let (slider, dirs) = pair_of(by, kind);
        list_reaching(pos.squares, pos.squares_of(slider), dirs, 0, king as int)
    }
}

/// How many checks there are of the kinds from `kind` on.
pub open spec fn kinds_count(pos: Position, colour: Colour, kind: int) -> nat
    decreases 7 - kind,
{
    if kind < 0 || kind >= 7 {
        0
    } else {
        kind_count(pos, colour, kind) + kinds_count(pos, colour, kind + 1)
    }
}

/// The sweep counts the checks of all kinds.
pub proof fn lemma_count_is_tally(pos: Position, colour: Colour)
    ensures
        position_info(pos, colour).count == counted(kinds_count(pos, colour, 0)),
{
    let opp = colour.spec_opposite();
    let king = pos.king_square(colour);
    let bishops = pos.squares_of(Piece::spec_of(opp, BISHOP));
    let rooks = pos.squares_of(Piece::spec_of(opp, ROOK));
    let queens = pos.squares_of(Piece::spec_of(opp, QUEEN));
    let s0 = leaper_sweep(pos, colour);
    let s1 = sliders_sweep(pos, colour, king, bishops, DIAGONAL_OFFSETS@, 0, s0);
    let s2 = sliders_sweep(pos, colour, king, queens, DIAGONAL_OFFSETS@, 0, s1);
    let s3 = sliders_sweep(pos, colour, king, rooks, ORTHOGONAL_OFFSETS@, 0, s2);
    let x0 = kind_count(pos, colour, 0) + kind_count(pos, colour, 1) + kind_count(pos, colour, 2);
    let x1 = x0 + kind_count(pos, colour, 3);
    let x2 = x1 + kind_count(pos, colour, 4);
    let x3 = x2 + kind_count(pos, colour, 5);
    assert(s0.count == counted(x0));
    lemma_sliders_tally(pos, colour, king, bishops, DIAGONAL_OFFSETS@, 0, s0, x0);
    lemma_sliders_tally(pos, colour, king, queens, DIAGONAL_OFFSETS@, 0, s1, x1);
    lemma_sliders_tally(pos, colour, king, rooks, ORTHOGONAL_OFFSETS@, 0, s2, x2);
    lemma_sliders_tally(pos, colour, king, queens, ORTHOGONAL_OFFSETS@, 0, s3, x3);
    assert(kinds_count(pos, colour, 0) == x3 + kind_count(pos, colour, 6)) by {
        assert(kinds_count(pos, colour, 7) == 0);
        assert(kinds_count(pos, colour, 6) == kind_count(pos, colour, 6) + kinds_count(
            pos,
            colour,
            7,
        ));
        assert(kinds_count(pos, colour, 5) == kind_count(pos, colour, 5) + kinds_count(
            pos,
            colour,
            6,
        ));
        assert(kinds_count(pos, colour, 4) == kind_count(pos, colour, 4) + kinds_count(
            pos,
            colour,
            5,
        ));
        assert(kinds_count(pos, colour, 3) == kind_count(pos, colour, 3) + kinds_count(
            pos,
            colour,
            4,
        ));
        assert(kinds_count(pos, colour, 2) == kind_count(pos, colour, 2) + kinds_count(
            pos,
            colour,
            3,
        ));
        assert(kinds_count(pos, colour, 1) == kind_count(pos, colour, 1) + kinds_count(
            pos,
            colour,
            2,
        ));
        assert(kinds_count(pos, colour, 0) == kind_count(pos, colour, 0) + kinds_count(
            pos,
            colour,
            1,
        ));
    }
}

/// Where there is a check of a kind, something gives it; where there are
/// two, two different things do.
proof fn lemma_kind_units(pos: Position, colour: Colour, kind: int) -> (r: (
    Attacker,
    int,
    Attacker,
    int,
))
    requires
        pos.squares.len() == 128,
        0 <= kind < 7,
    ensures
        kind_count(pos, colour, kind) >= 1 ==> gives_check(pos, colour, r.0, r.1) && kind_of(
            colour.spec_opposite(),
            r.0,
        ) == kind,
        kind_count(pos, colour, kind) >= 2 ==> gives_check(pos, colour, r.2, r.3) && kind_of(
            colour.spec_opposite(),
            r.2,
        ) == kind && (r.0 != r.2 || r.1 != r.3),
{
    let by = colour.spec_opposite();
    let king = pos.king_square(colour);
    if kind == 0 {
        (Attacker::King, 0, Attacker::King, 0)
    } else if kind == 1 {
        let pawn = Piece::spec_of(by, PAWN);
        let pawns = pos.squares_of(pawn);
        lemma_list_exists(pos, pawn);
        let r = lemma_pawn_units(pawns, by, king, pawns.len() as int);
        if kind_count(pos, colour, kind) >= 1 {
            assert(on_board(pawns[r.1] as int) && pos.squares[pawns[r.1] as int] == pawn);
        }
        if kind_count(pos, colour, kind) >= 2 {
            assert(on_board(pawns[r.0] as int) && pos.squares[pawns[r.0] as int] == pawn);
            assert(pawns[r.0] < pawns[r.1]);
        }
        (Attacker::Pawn, pawns[r.1] as int, Attacker::Pawn, pawns[r.0] as int)
    } else if kind == 2 {
        let knight = Piece::spec_of(by, KNIGHT);
        let knights = pos.squares_of(knight);
        lemma_list_exists(pos, knight);
        let r = lemma_knight_units(knights, king, knights.len() as int);
        if kind_count(pos, colour, kind) >= 1 {
            assert(on_board(knights[r.1] as int) && pos.squares[knights[r.1] as int] == knight);
        }
        if kind_count(pos, colour, kind) >= 2 {
            assert(on_board(knights[r.0] as int) && pos.squares[knights[r.0] as int] == knight);
            assert(knights[r.0] < knights[r.1]);
        }
        (Attacker::Knight, knights[r.1] as int, Attacker::Knight, knights[r.0] as int)
    } else {
        let (slider, dirs) = pair_of(by, kind);
        let list = pos.squares_of(slider);
        lemma_list_exists(pos, slider);
        let r = lemma_list_units(pos.squares, list, dirs, 0, king as int);
        if kind_count(pos, colour, kind) >= 1 {
            assert(on_board(list[r.0] as int) && pos.squares[list[r.0] as int] == slider);
        }
        if kind_count(pos, colour, kind) >= 2 {
            assert(on_board(list[r.2] as int) && pos.squares[list[r.2] as int] == slider);
            if r.0 < r.2 {
                assert(list[r.0] < list[r.2]);
            }
        }
        (
            Attacker::Slider(slider, dirs, r.1),
            list[r.0] as int,
            Attacker::Slider(slider, dirs, r.3),
            list[r.2] as int,
        )
    }
}

proof fn lemma_find_one(pos: Position, colour: Colour, kind: int) -> (r: (Attacker, int))
    requires
        pos.squares.len() == 128,
        0 <= kind <= 7,
        kinds_count(pos, colour, kind) >= 1,
    ensures
        gives_check(pos, colour, r.0, r.1),
        kind_of(colour.spec_opposite(), r.0) >= kind,
    decreases 7 - kind,
{
    if kind_count(pos, colour, kind) >= 1 {
        let r = lemma_kind_units(pos, colour, kind);
        (r.0, r.1)
    } else {
        lemma_find_one(pos, colour, kind + 1)
    }
}

proof fn lemma_find_two(pos: Position, colour: Colour, kind: int) -> (r: (
    Attacker,
    int,
    Attacker,
    int,
))
    requires
        pos.squares.len() == 128,
        0 <= kind <= 7,
        kinds_count(pos, colour, kind) >= 2,
    ensures
        gives_check(pos, colour, r.0, r.1),
        gives_check(pos, colour, r.2, r.3),
        r.0 != r.2 || r.1 != r.3,
    decreases 7 - kind,
{
    if kind_count(pos, colour, kind) >= 2 {
        lemma_kind_units(pos, colour, kind)
    } else if kind_count(pos, colour, kind) == 1 {
        let first = lemma_kind_units(pos, colour, kind);
        let second = lemma_find_one(pos, colour, kind + 1);
        (first.0, first.1, second.0, second.1)
    } else {
        lemma_find_two(pos, colour, kind + 1)
    }
}

/// Where the sweep counts two checks or more, two different things give
/// check.
pub proof fn lemma_two_attackers(pos: Position, colour: Colour) -> (r: (Attacker, int, Attacker, int))
    requires
        pos.squares.len() == 128,
        position_info(pos, colour).count >= 2,
    ensures
        gives_check(pos, colour, r.0, r.1),
        gives_check(pos, colour, r.2, r.3),
        r.0 != r.2 || r.1 != r.3,
{
    lemma_count_is_tally(pos, colour);
    lemma_find_two(pos, colour, 0)
}

/// In a double check no move of another man than the king leaves the king
/// out of check.
pub proof fn lemma_double_check_is_unsafe(pos: Position, m: Move)
    requires
        pos.ok(),
        pos.accepts(m),
        m.moved_piece != Piece::spec_of(pos.side_to_move, KING),
        position_info(pos, pos.side_to_move).count >= 2,
    ensures
        in_check(pos.apply(m), pos.side_to_move),
{
    let us = pos.side_to_move;
    let r = lemma_two_attackers(pos, us);
    if answered(pos, m, r.0, r.1) && answered(pos, m, r.2, r.3) {
        lemma_not_both(pos, m, r.0, r.1, r.2, r.3);
    }
    if !answered(pos, m, r.0, r.1) {
        lemma_check_stays(pos, m, r.0, r.1);
        lemma_gives_check(pos.apply(m), us, r.0, r.1);
    } else {
        lemma_check_stays(pos, m, r.2, r.3);
        lemma_gives_check(pos.apply(m), us, r.2, r.3);
    }
}

} // verus!
