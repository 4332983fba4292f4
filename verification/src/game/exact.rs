//! Every move that the generator tries and that keeps the rules about check
//! is legal: the legality test drops nothing that it should keep.

use vstd::prelude::*;
use crate::game::accepted::lemma_legal_among_facts;
use crate::game::accepted::lemma_legal_move_facts;
use crate::game::accepted::lemma_list_exists;
use crate::game::accepted::lemma_pseudo_moves;
use crate::game::accepted::pseudo_ok;
use crate::game::analysis::checking_knights;
use crate::game::analysis::checking_pawns;
use crate::game::analysis::counted;
use crate::game::analysis::knight_attacks;
use crate::game::analysis::knight_checks;
use crate::game::analysis::pawn_checks;
use crate::game::analysis::leaper_sweep;
use crate::game::analysis::pawn_attacks;
use crate::game::analysis::position_info;
use crate::game::analysis::ray_sweep;
use crate::game::analysis::slider_sweep;
use crate::game::analysis::sliders_sweep;
use crate::game::analysis::PinAttack;
use crate::game::analysis::Sweep;
use crate::game::check::in_check;
use crate::game::check::lemma_count_is_check;
use crate::game::check::lemma_knight_checks;
use crate::game::check::lemma_pawn_checks;
use crate::game::check::lemma_sliders_count;
use crate::game::check::ray_reaches;
use crate::game::check::slider_hits;
use crate::game::chess_util::king_targets;
use crate::game::double::lemma_double_check_is_unsafe;
use crate::game::chess_util::knight_targets;
use crate::game::chess_util::offset_targets;
use crate::game::chess_util::on_board;
use crate::game::chess_util::pawn_targets;
use crate::game::chess_util::spec_step;
use crate::game::chess_util::{DIAGONAL_OFFSETS, KING_OFFSETS, KNIGHT_OFFSETS, ORTHOGONAL_OFFSETS};
use crate::game::movegen::any_line_attacker;
use crate::game::movegen::each_knight;
use crate::game::movegen::each_pawn;
use crate::game::movegen::each_queen;
use crate::game::movegen::each_slider;
use crate::game::movegen::king_moves;
use crate::game::movegen::leaper_moves;
use crate::game::movegen::legal_among;
use crate::game::movegen::legal_moves;
use crate::game::movegen::pawn_capture;
use crate::game::movegen::pawn_en_passant;
use crate::game::movegen::pawn_moves;
use crate::game::movegen::pawn_pushes;
use crate::game::movegen::pseudo_moves;
use crate::game::movegen::ray_moves;
use crate::game::movegen::slider_moves;
use crate::game::movegen::spec_is_back_rank;
use crate::game::movegen::step_open;
use crate::game::movegen::castle_moves;
use crate::game::movegen::en_passant_exposes;
use crate::game::movegen::is_legal;
use crate::game::movegen::leaves_pin_line;
use crate::game::movegen::line_attacker;
use crate::game::movegen::slider_attacks;
use crate::game::movegen::step_move;
use crate::game::moves::Move;
use crate::game::moves::MoveType;
use crate::game::piece::Colour;
use crate::game::piece::Piece;
use crate::game::piece::{BISHOP, KING, KNIGHT, PAWN, QUEEN, ROOK};
use crate::game::position::castle_rook_squares;
use crate::game::position::Position;
use crate::game::safety::answers_check;
use crate::game::safety::lemma_after_passing;
use crate::game::safety::lemma_gives_check;
use crate::game::safety::lemma_king_step_is_safe;
use crate::game::safety::lemma_legal_move_is_safe;
use crate::game::safety::lemma_walk_avoids;
use crate::game::safety::lemma_knight_checks_count;
use crate::game::safety::lemma_pawn_checks_count;
use crate::game::safety::lemma_single_check;
use crate::game::safety::lemma_sliders_check;
use crate::game::safety::gives_check;
use crate::game::safety::grows;
use crate::game::safety::Attacker;
use crate::game::safety::is_direction;
use crate::game::safety::is_sweep_pair;
use crate::game::safety::lemma_reach_walks;
use crate::game::safety::lemma_slider_grows;
use crate::game::safety::lemma_sliders_grow;
use crate::game::safety::lemma_walk_moves_on;
use crate::game::safety::on_walk;
use crate::game::safety::pin_reaches;
use crate::game::safety::xray_reaches;

verus! {

/// Whether a walk from `from` along `dir` marks `e` as attacked: it comes
/// to `e` over empty squares and the king, and, once it is past the king,
/// over men of the king's side too.
pub open spec fn marks(
    squares: Seq<Piece>,
    colour: Colour,
    king: int,
    from: int,
    dir: int,
    steps: nat,
    passed: bool,
    e: int,
) -> bool
    decreases steps,
{
    let t = from + dir;
    steps > 0 && on_board(t) && (t == e || if t == king {
        marks(squares, colour, king, t, dir, (steps - 1) as nat, true, e)
    } else if squares[t] == Piece::Empty {
        marks(squares, colour, king, t, dir, (steps - 1) as nat, passed, e)
    } else {
        squares[t].spec_colour() == colour && passed && marks(
            squares,
            colour,
            king,
            t,
            dir,
            (steps - 1) as nat,
            passed,
            e,
        )
    })
}

/// A walk that has met a man of the king's side before the king marks
/// nothing more.
proof fn lemma_ray_marks_nothing(
    pos: Position,
    colour: Colour,
    king: u8,
    origin: u8,
    dir: int,
    cur: int,
    steps: nat,
    line: Set<u8>,
    state: PinAttack,
    acc: Sweep,
)
    requires
        state != PinAttack::NoneFound,
        state != PinAttack::ThroughKing,
    ensures
        ray_sweep(pos, colour, king, origin, dir, cur, steps, line, state, acc).attacked
            == acc.attacked,
    decreases steps,
{
    let t = cur + dir;
    if !(steps == 0 || !on_board(t)) {
        let line2 = line.insert(t as u8);
        let rest = (steps - 1) as nat;
        if t == king {
            match state {
                PinAttack::Pin(pinned) => {
                    lemma_ray_marks_nothing(
                        pos,
                        colour,
                        king,
                        origin,
                        dir,
                        t,
                        rest,
                        line2,
                        state,
                        acc.with_pin(pinned, line2.insert(origin)),
                    );
                },
                _ => {
                    lemma_ray_marks_nothing(
                        pos,
                        colour,
                        king,
                        origin,
                        dir,
                        t,
                        rest,
                        line2,
                        state,
                        acc,
                    );
                },
            }
        } else {
            let piece = pos.squares[t];
            if piece == Piece::Empty {
                lemma_ray_marks_nothing(
                    pos,
                    colour,
                    king,
                    origin,
                    dir,
                    t,
                    rest,
                    line2,
                    state,
                    acc,
                );
            } else if piece.spec_colour() == colour {
                match state {
                    PinAttack::Pin(_) => {
                        lemma_ray_marks_nothing(
                            pos,
                            colour,
                            king,
                            origin,
                            dir,
                            t,
                            rest,
                            line2,
                            PinAttack::DoubleBlocked,
                            acc,
                        );
                    },
                    _ => {
                        lemma_ray_marks_nothing(
                            pos,
                            colour,
                            king,
                            origin,
                            dir,
                            t,
                            rest,
                            line2,
                            state,
                            acc,
                        );
                    },
                }
            }
        }
    }
}

/// What a walk holds as attacked in the end was held so before, or lies on
/// its line so far, or is marked by the rest of the walk.
proof fn lemma_ray_marks(
    pos: Position,
    colour: Colour,
    king: u8,
    origin: u8,
    dir: int,
    cur: int,
    steps: nat,
    line: Set<u8>,
    state: PinAttack,
    acc: Sweep,
    e: u8,
)
    requires
        state == PinAttack::NoneFound || state == PinAttack::ThroughKing,
        ray_sweep(pos, colour, king, origin, dir, cur, steps, line, state, acc).attacked.contains(e),
    ensures
        acc.attacked.contains(e) || line.contains(e) || marks(
            pos.squares,
            colour,
            king as int,
            cur,
            dir,
            steps,
            state == PinAttack::ThroughKing,
            e as int,
        ),
    decreases steps,
{
    let t = cur + dir;
    if !(steps == 0 || !on_board(t)) {
        let line2 = line.insert(t as u8);
        let rest = (steps - 1) as nat;
        assert(0 <= t < 128);
        if e as int == t {
        } else if t == king {
            match state {
                PinAttack::NoneFound => {
                    lemma_ray_marks(
                        pos,
                        colour,
                        king,
                        origin,
                        dir,
                        t,
                        rest,
                        line2,
                        PinAttack::ThroughKing,
                        acc.with_check(line2.insert(origin)),
                        e,
                    );
                },
                _ => {
                    lemma_ray_marks(pos, colour, king, origin, dir, t, rest, line2, state, acc, e);
                },
            }
        } else {
            let piece = pos.squares[t];
            if piece == Piece::Empty {
                lemma_ray_marks(pos, colour, king, origin, dir, t, rest, line2, state, acc, e);
            } else if piece.spec_colour() == colour {
                match state {
                    PinAttack::NoneFound => {
                        lemma_ray_marks_nothing(
                            pos,
                            colour,
                            king,
                            origin,
                            dir,
                            t,
                            rest,
                            line2,
                            PinAttack::Pin(t as u8),
                            acc.with_attacks(line2),
                        );
                    },
                    _ => {
                        lemma_ray_marks(
                            pos,
                            colour,
                            king,
                            origin,
                            dir,
                            t,
                            rest,
                            line2,
                            state,
                            acc,
                            e,
                        );
                    },
                }
            }
        }
    }
}

/// What the walks from one slider hold as attacked in the end was held so
/// before or is marked by one of them.
proof fn lemma_slider_marks(
    pos: Position,
    colour: Colour,
    king: u8,
    origin: u8,
    dirs: Seq<i8>,
    i: int,
    acc: Sweep,
    e: u8,
)
    requires
        0 <= i <= dirs.len(),
        slider_sweep(pos, colour, king, origin, dirs, i, acc).attacked.contains(e),
    ensures
        acc.attacked.contains(e) || exists|k: int|
            i <= k < dirs.len() && #[trigger] marks(
                pos.squares,
                colour,
                king as int,
                origin as int,
                dirs[k] as int,
                7,
                false,
                e as int,
            ),
    decreases dirs.len() - i,
{
    if i < dirs.len() {
        let next = ray_sweep(
            pos,
            colour,
            king,
            origin,
            dirs[i] as int,
            origin as int,
            7,
            Set::empty(),
            PinAttack::NoneFound,
            acc,
        );
        lemma_slider_marks(pos, colour, king, origin, dirs, i + 1, next, e);
        if next.attacked.contains(e) {
            lemma_ray_marks(
                pos,
                colour,
                king,
                origin,
                dirs[i] as int,
                origin as int,
                7,
                Set::empty(),
                PinAttack::NoneFound,
                acc,
                e,
            );
        } else {
            let k = choose|k: int|
                i + 1 <= k < dirs.len() && #[trigger] marks(
                    pos.squares,
                    colour,
                    king as int,
                    origin as int,
                    dirs[k] as int,
                    7,
                    false,
                    e as int,
                );
            assert(i <= k < dirs.len());
        }
    }
}

/// What the walks from the sliders of a list hold as attacked in the end
/// was held so before or is marked by one of them.
proof fn lemma_sliders_mark(
    pos: Position,
    colour: Colour,
    king: u8,
    list: Seq<u8>,
    dirs: Seq<i8>,
    j: int,
    acc: Sweep,
    e: u8,
)
    requires
        0 <= j <= list.len(),
        sliders_sweep(pos, colour, king, list, dirs, j, acc).attacked.contains(e),
    ensures
        acc.attacked.contains(e) || exists|a: int, k: int|
            j <= a < list.len() && 0 <= k < dirs.len() && #[trigger] marks(
                pos.squares,
                colour,
                king as int,
                list[a] as int,
                dirs[k] as int,
                7,
                false,
                e as int,
            ),
    decreases list.len() - j,
{
    if j < list.len() {
        let next = slider_sweep(pos, colour, king, list[j], dirs, 0, acc);
        lemma_sliders_mark(pos, colour, king, list, dirs, j + 1, next, e);
        if next.attacked.contains(e) {
            lemma_slider_marks(pos, colour, king, list[j], dirs, 0, acc, e);
            if !acc.attacked.contains(e) {
                let k = choose|k: int|
                    0 <= k < dirs.len() && #[trigger] marks(
                        pos.squares,
                        colour,
                        king as int,
                        list[j] as int,
                        dirs[k] as int,
                        7,
                        false,
                        e as int,
                    );
                assert(j <= j < list.len() && marks(
                    pos.squares,
                    colour,
                    king as int,
                    list[j] as int,
                    dirs[k] as int,
                    7,
                    false,
                    e as int,
                ));
            }
        } else {
            let (a, k) = choose|a: int, k: int|
                j + 1 <= a < list.len() && 0 <= k < dirs.len() && #[trigger] marks(
                    pos.squares,
                    colour,
                    king as int,
                    list[a] as int,
                    dirs[k] as int,
                    7,
                    false,
                    e as int,
                );
            assert(j <= a < list.len());
        }
    }
}

/// Whether the slider on `from` marks `e` along one of `dirs`.
pub open spec fn slider_marks(
    pos: Position,
    colour: Colour,
    slider: Piece,
    dirs: Seq<i8>,
    from: int,
    e: int,
) -> bool {
    on_board(from) && pos.squares[from] == slider && exists|k: int|
        0 <= k < dirs.len() && #[trigger] marks(
            pos.squares,
            colour,
            pos.king_square(colour) as int,
            from,
            dirs[k] as int,
            7,
            false,
            e,
        )
}

/// Whether a pawn, a knight or the king of the other side attacks `e`.
pub open spec fn leaper_attacks(pos: Position, colour: Colour, e: u8) -> bool {
    let by = colour.spec_opposite();
    ||| king_targets(pos.king_square(by)).contains(e)
    ||| exists|sq: int|
        on_board(sq) && #[trigger] pos.squares[sq] == Piece::spec_of(by, PAWN) && pawn_targets(
            sq as u8,
            by,
        ).contains(e)
    ||| exists|sq: int|
        on_board(sq) && #[trigger] pos.squares[sq] == Piece::spec_of(by, KNIGHT) && knight_targets(
            sq as u8,
        ).contains(e)
}

proof fn lemma_pawn_attacks_from(pawns: Seq<u8>, colour: Colour, n: int, e: u8)
    requires
        0 <= n <= pawns.len(),
        pawn_attacks(pawns, colour, n).contains(e),
    ensures
        exists|i: int| 0 <= i < n && pawn_targets(#[trigger] pawns[i], colour).contains(e),
    decreases n,
{
    if !pawn_targets(pawns[n - 1], colour).contains(e) {
        lemma_pawn_attacks_from(pawns, colour, n - 1, e);
        let i = choose|i: int|
            0 <= i < n - 1 && pawn_targets(#[trigger] pawns[i], colour).contains(e);
        assert(0 <= i < n);
    }
}

proof fn lemma_knight_attacks_from(knights: Seq<u8>, n: int, e: u8)
    requires
        0 <= n <= knights.len(),
        knight_attacks(knights, n).contains(e),
    ensures
        exists|i: int| 0 <= i < n && knight_targets(#[trigger] knights[i]).contains(e),
    decreases n,
{
    if !knight_targets(knights[n - 1]).contains(e) {
        lemma_knight_attacks_from(knights, n - 1, e);
        let i = choose|i: int| 0 <= i < n - 1 && knight_targets(#[trigger] knights[i]).contains(e);
        assert(0 <= i < n);
    }
}

/// Whatever the sweep holds as attacked is attacked by a pawn, a knight or
/// the king of the other side, or marked by the walk of one of its sliders.
pub proof fn lemma_attacked_is_marked(pos: Position, colour: Colour, e: u8) -> (r: (Piece, Seq<i8>, int))
    requires
        pos.squares.len() == 128,
        position_info(pos, colour).attacked.contains(e),
        !leaper_attacks(pos, colour, e),
    ensures
        is_sweep_pair(colour.spec_opposite(), r.0, r.1),
        slider_marks(pos, colour, r.0, r.1, r.2, e as int),
{
    let opp = colour.spec_opposite();
    let king = pos.king_square(colour);
    let pawn = Piece::spec_of(opp, PAWN);
    let knight = Piece::spec_of(opp, KNIGHT);
    let bishop = Piece::spec_of(opp, BISHOP);
    let rook = Piece::spec_of(opp, ROOK);
    let queen = Piece::spec_of(opp, QUEEN);
    let pawns = pos.squares_of(pawn);
    let knights = pos.squares_of(knight);
    let bishops = pos.squares_of(bishop);
    let rooks = pos.squares_of(rook);
    let queens = pos.squares_of(queen);
    lemma_list_exists(pos, pawn);
    lemma_list_exists(pos, knight);
    lemma_list_exists(pos, bishop);
    lemma_list_exists(pos, rook);
    lemma_list_exists(pos, queen);
    let s0 = leaper_sweep(pos, colour);
    let s1 = sliders_sweep(pos, colour, king, bishops, DIAGONAL_OFFSETS@, 0, s0);
    let s2 = sliders_sweep(pos, colour, king, queens, DIAGONAL_OFFSETS@, 0, s1);
    let s3 = sliders_sweep(pos, colour, king, rooks, ORTHOGONAL_OFFSETS@, 0, s2);
    if s0.attacked.contains(e) {
        if pawn_attacks(pawns, opp, pawns.len() as int).contains(e) {
            lemma_pawn_attacks_from(pawns, opp, pawns.len() as int, e);
            let i = choose|i: int|
                0 <= i < pawns.len() && pawn_targets(#[trigger] pawns[i], opp).contains(e);
            assert(on_board(pawns[i] as int) && pos.squares[pawns[i] as int] == pawn);
        } else if knight_attacks(knights, knights.len() as int).contains(e) {
            lemma_knight_attacks_from(knights, knights.len() as int, e);
            let i = choose|i: int|
                0 <= i < knights.len() && knight_targets(#[trigger] knights[i]).contains(e);
            assert(on_board(knights[i] as int) && pos.squares[knights[i] as int] == knight);
        }
        assert(leaper_attacks(pos, colour, e));
        (bishop, DIAGONAL_OFFSETS@, 0)
    } else {
        let (list, slider, dirs, acc) = if s1.attacked.contains(e) {
            (bishops, bishop, DIAGONAL_OFFSETS@, s0)
        } else if s2.attacked.contains(e) {
            (queens, queen, DIAGONAL_OFFSETS@, s1)
        } else if s3.attacked.contains(e) {
            (rooks, rook, ORTHOGONAL_OFFSETS@, s2)
        } else {
            (queens, queen, ORTHOGONAL_OFFSETS@, s3)
        };
        lemma_sliders_mark(pos, colour, king, list, dirs, 0, acc, e);
        let (a, k) = choose|a: int, k: int|
            0 <= a < list.len() && 0 <= k < dirs.len() && #[trigger] marks(
                pos.squares,
                colour,
                king as int,
                list[a] as int,
                dirs[k] as int,
                7,
                false,
                e as int,
            );
        assert(on_board(list[a] as int) && pos.squares[list[a] as int] == slider);
        (slider, dirs, list[a] as int)
    }
}

/// Whether `e` lies one step of the king from `king`.
pub open spec fn is_king_step(king: int, e: int) -> bool {
    is_direction(e - king)
}

/// What a walk marks lies at least a step away from where it starts, on
/// the side it goes to, and along a rank not further than it has steps.
proof fn lemma_marks_bounds(
    squares: Seq<Piece>,
    colour: Colour,
    king: int,
    from: int,
    dir: int,
    steps: nat,
    passed: bool,
    e: int,
)
    requires
        marks(squares, colour, king, from, dir, steps, passed, e),
    ensures
        dir > 0 ==> e >= from + dir,
        dir < 0 ==> e <= from + dir,
        dir == 1 ==> e <= from + steps,
        dir == -1 ==> e >= from - steps,
    decreases steps,
{
    let t = from + dir;
    if t != e {
        let next_passed = if t == king {
            true
        } else {
            passed
        };
        lemma_marks_bounds(squares, colour, king, t, dir, (steps - 1) as nat, next_passed, e);
    }
}

/// What a walk marks a king's step from the king, it comes to over empty
/// squares and the king alone.
proof fn lemma_marks_near_king(
    squares: Seq<Piece>,
    colour: Colour,
    king: int,
    from: int,
    dir: int,
    steps: nat,
    e: int,
)
    requires
        is_direction(dir),
        is_king_step(king, e),
        steps <= 7,
        marks(squares, colour, king, from, dir, steps, false, e),
    ensures
        xray_reaches(squares, from, dir, steps, e, king),
    decreases steps,
{
    let t = from + dir;
    let rest = (steps - 1) as nat;
    if t == e {
    } else if t == king {
        let next = king + dir;
        assert(marks(squares, colour, king, t, dir, rest, true, e));
        assert(rest > 0 && on_board(next));
        if next != e {
            assert(marks(squares, colour, king, next, dir, (rest - 1) as nat, true, e));
            lemma_marks_bounds(squares, colour, king, next, dir, (rest - 1) as nat, true, e);
            assert(!is_king_step(king, e));
        }
        assert(xray_reaches(squares, t, dir, rest, e, king));
    } else {
        lemma_marks_near_king(squares, colour, king, t, dir, rest, e);
    }
}

/// A line that comes to a square over empty squares and the king is free
/// once the king has left its square.
proof fn lemma_xray_is_free_after(
    before: Seq<Piece>,
    after: Seq<Piece>,
    from: int,
    dir: int,
    steps: nat,
    target: int,
    king: int,
)
    requires
        xray_reaches(before, from, dir, steps, target, king),
        forall|t: int|
            0 <= t < 128 && t != target && (#[trigger] before[t] == Piece::Empty || t == king)
                ==> after[t] == Piece::Empty,
    ensures
        ray_reaches(after, from, dir, steps, target),
    decreases steps,
{
    let t = from + dir;
    if t != target {
        assert(after[t] == Piece::Empty);
        lemma_xray_is_free_after(before, after, t, dir, (steps - 1) as nat, target, king);
    }
}

/// A walk does not come back to where it starts.
proof fn lemma_xray_moves_on(
    squares: Seq<Piece>,
    from: int,
    dir: int,
    steps: nat,
    target: int,
    king: int,
)
    requires
        xray_reaches(squares, from, dir, steps, target, king),
    ensures
        dir > 0 ==> target > from,
        dir < 0 ==> target < from,
    decreases steps,
{
    let t = from + dir;
    if t != target {
        lemma_xray_moves_on(squares, t, dir, (steps - 1) as nat, target, king);
    }
}

/// What a man attacks by one of its offsets is another square than its own.
pub proof fn lemma_offset_targets(square: u8, offsets: Seq<i8>, n: int, e: u8)
    requires
        0 <= n <= offsets.len(),
        offset_targets(square, offsets, n).contains(e),
    ensures
        exists|i: int| 0 <= i < n && e == spec_step(square, #[trigger] offsets[i]) && on_board(e as int),
    decreases n,
{
    let t = spec_step(square, offsets[n - 1]);
    if !(on_board(t as int) && e == t) {
        lemma_offset_targets(square, offsets, n - 1, e);
        let i = choose|i: int|
            0 <= i < n - 1 && e == spec_step(square, #[trigger] offsets[i]) && on_board(e as int);
        assert(0 <= i < n);
    }
}

/// A step of the king onto a square that the sweep holds as attacked ends
/// in check.
pub proof fn lemma_attacked_step_is_unsafe(pos: Position, m: Move, i: int)
    requires
        pos.ok(),
        0 <= i < 8,
        step_move(pos, pos.king_square(pos.side_to_move), KING_OFFSETS@[i]).len() > 0,
        m == step_move(pos, pos.king_square(pos.side_to_move), KING_OFFSETS@[i])[0],
        position_info(pos, pos.side_to_move).attacked.contains(m.end_square),
    ensures
        in_check(pos.apply(m), pos.side_to_move),
{
    let us = pos.side_to_move;
    let by = us.spec_opposite();
    let king = pos.king_square(us);
    let after = pos.apply(m);
    let start = m.start_square as int;
    let end = m.end_square;
    assert(start == king);
    assert(m.moved_piece == Piece::spec_of(us, KING));
    assert(is_king_step(king as int, end as int));
    assert(after.king_square(us) == end);
    assert(after.king_square(by) == pos.king_square(by));
    assert(after.squares == pos.squares.update(end as int, m.moved_piece).update(
        start,
        Piece::Empty,
    ));
    if king_targets(pos.king_square(by)).contains(end) {
    } else if exists|sq: int|
        on_board(sq) && #[trigger] pos.squares[sq] == Piece::spec_of(by, PAWN) && pawn_targets(
            sq as u8,
            by,
        ).contains(end) {
        let sq = choose|sq: int|
            on_board(sq) && #[trigger] pos.squares[sq] == Piece::spec_of(by, PAWN) && pawn_targets(
                sq as u8,
                by,
            ).contains(end);
        assert(sq != end);
        assert(after.squares[sq] == Piece::spec_of(by, PAWN));
    } else if exists|sq: int|
        on_board(sq) && #[trigger] pos.squares[sq] == Piece::spec_of(by, KNIGHT) && knight_targets(
            sq as u8,
        ).contains(end) {
        let sq = choose|sq: int|
            on_board(sq) && #[trigger] pos.squares[sq] == Piece::spec_of(by, KNIGHT)
                && knight_targets(sq as u8).contains(end);
        lemma_offset_targets(sq as u8, KNIGHT_OFFSETS@, 8, end);
        assert(sq != end);
        assert(after.squares[sq] == Piece::spec_of(by, KNIGHT));
    } else {
        let (slider, dirs, sq) = lemma_attacked_is_marked(pos, us, end);
        let k = choose|k: int|
            0 <= k < dirs.len() && #[trigger] marks(
                pos.squares,
                us,
                king as int,
                sq,
                dirs[k] as int,
                7,
                false,
                end as int,
            );
        let d = dirs[k] as int;
        assert(is_direction(d));
        lemma_marks_near_king(pos.squares, us, king as int, sq, d, 7, end as int);
        lemma_xray_moves_on(pos.squares, sq, d, 7, end as int, king as int);
        lemma_xray_is_free_after(pos.squares, after.squares, sq, d, 7, end as int, king as int);
        assert(after.squares[sq] == slider);
        assert(slider_hits(after.squares, slider, dirs, sq, end as int));
    }
}

/// Whether an entry of the sweep's pins is the pin of a man of the king's
/// side by the slider on `origin` along `dir`: that man alone stands on the
/// slider's line to the king, and the entry allows it the squares of that
/// line and the slider's own.
pub open spec fn pin_at(
    squares: Seq<Piece>,
    colour: Colour,
    king: u8,
    origin: u8,
    line: Set<u8>,
    from: int,
    dir: int,
    steps: nat,
    entry: (u8, Set<u8>),
) -> bool {
    &&& pin_reaches(squares, from, dir, steps, king as int, entry.0 as int)
    &&& squares[entry.0 as int] != Piece::Empty
    &&& squares[entry.0 as int].spec_colour() == colour
    &&& entry.0 != king
    &&& forall|x: u8| #[trigger]
        entry.1.contains(x) <==> x == origin || line.contains(x) || on_walk(
            from,
            dir,
            steps,
            king as int,
            x as int,
        )
}

/// A walk that has met two men of the king's side, or the king first,
/// records no pin.
proof fn lemma_ray_records_nothing(
    pos: Position,
    colour: Colour,
    king: u8,
    origin: u8,
    dir: int,
    cur: int,
    steps: nat,
    line: Set<u8>,
    state: PinAttack,
    acc: Sweep,
)
    requires
        state == PinAttack::DoubleBlocked || state == PinAttack::ThroughKing,
    ensures
        ray_sweep(pos, colour, king, origin, dir, cur, steps, line, state, acc).pins == acc.pins,
    decreases steps,
{
    let t = cur + dir;
    if !(steps == 0 || !on_board(t)) {
        let line2 = line.insert(t as u8);
        let rest = (steps - 1) as nat;
        if t == king || pos.squares[t] == Piece::Empty || pos.squares[t].spec_colour() == colour {
            lemma_ray_records_nothing(pos, colour, king, origin, dir, t, rest, line2, state, acc);
        }
    }
}

/// A walk past one man of the king's side records at most one pin, and
/// only that of this man, where the rest of its line to the king is free.
proof fn lemma_ray_pin_is_real(
    pos: Position,
    colour: Colour,
    king: u8,
    origin: u8,
    dir: int,
    cur: int,
    steps: nat,
    line: Set<u8>,
    blocker: u8,
    acc: Sweep,
)
    requires
        dir != 0,
    ensures
        ({
            let result = ray_sweep(
                pos,
                colour,
                king,
                origin,
                dir,
                cur,
                steps,
                line,
                PinAttack::Pin(blocker),
                acc,
            );
            result.pins == acc.pins || (result.pins.len() == acc.pins.len() + 1 && result.pins
                =~= acc.pins.push(result.pins.last()) && result.pins.last().0 == blocker
                && ray_reaches(pos.squares, cur, dir, steps, king as int) && forall|x: u8| #[trigger]
                result.pins.last().1.contains(x) <==> x == origin || line.contains(x) || on_walk(
                    cur,
                    dir,
                    steps,
                    king as int,
                    x as int,
                ))
        }),
    decreases steps,
{
    let t = cur + dir;
    let state = PinAttack::Pin(blocker);
    let result = ray_sweep(pos, colour, king, origin, dir, cur, steps, line, state, acc);
    if !(steps == 0 || !on_board(t)) {
        let line2 = line.insert(t as u8);
        let rest = (steps - 1) as nat;
        assert(0 <= t < 128);
        if t == king {
            let entry = (blocker, line2.insert(origin));
            let pinned = acc.with_pin(blocker, line2.insert(origin));
            lemma_ray_pin_is_real(pos, colour, king, origin, dir, t, rest, line2, blocker, pinned);
            if result.pins != pinned.pins {
                lemma_reach_walks(pos.squares, t, dir, rest, king as int);
                lemma_walk_moves_on(t, dir, rest, king as int, king as int);
            }
            assert(result.pins.last() == entry);
            assert forall|x: u8| #[trigger]
                entry.1.contains(x) <==> x == origin || line.contains(x) || on_walk(
                    cur,
                    dir,
                    steps,
                    king as int,
                    x as int,
                ) by {
                if x as int == t {
                    assert(on_walk(cur, dir, steps, king as int, x as int));
                } else {
                    assert(!on_walk(cur, dir, steps, king as int, x as int));
                    assert(line2.contains(x) == line.contains(x));
                }
            }
        } else {
            let piece = pos.squares[t];
            if piece == Piece::Empty {
                lemma_ray_pin_is_real(pos, colour, king, origin, dir, t, rest, line2, blocker, acc);
                if result.pins != acc.pins {
                    assert forall|x: u8| #[trigger]
                        result.pins.last().1.contains(x) <==> x == origin || line.contains(x)
                            || on_walk(cur, dir, steps, king as int, x as int) by {
                        if x as int == t {
                            assert(line2.contains(x));
                            assert(on_walk(cur, dir, steps, king as int, x as int));
                        } else {
                            assert(line2.contains(x) == line.contains(x));
                            assert(on_walk(cur, dir, steps, king as int, x as int) == on_walk(
                                t,
                                dir,
                                rest,
                                king as int,
                                x as int,
                            ));
                        }
                    }
                }
            } else if piece.spec_colour() == colour {
                lemma_ray_records_nothing(
                    pos,
                    colour,
                    king,
                    origin,
                    dir,
                    t,
                    rest,
                    line2,
                    PinAttack::DoubleBlocked,
                    acc,
                );
            }
        }
    }
}

/// A walk records at most one pin, and only a real one.
proof fn lemma_ray_pins_are_real(
    pos: Position,
    colour: Colour,
    king: u8,
    origin: u8,
    dir: int,
    cur: int,
    steps: nat,
    line: Set<u8>,
    acc: Sweep,
)
    requires
        dir != 0,
    ensures
        ({
            let result = ray_sweep(
                pos,
                colour,
                king,
                origin,
                dir,
                cur,
                steps,
                line,
                PinAttack::NoneFound,
                acc,
            );
            result.pins == acc.pins || (result.pins.len() == acc.pins.len() + 1 && result.pins
                =~= acc.pins.push(result.pins.last()) && pin_at(
                pos.squares,
                colour,
                king,
                origin,
                line,
                cur,
                dir,
                steps,
                result.pins.last(),
            ))
        }),
    decreases steps,
{
    let t = cur + dir;
    let result = ray_sweep(
        pos,
        colour,
        king,
        origin,
        dir,
        cur,
        steps,
        line,
        PinAttack::NoneFound,
        acc,
    );
    if !(steps == 0 || !on_board(t)) {
        let line2 = line.insert(t as u8);
        let rest = (steps - 1) as nat;
        assert(0 <= t < 128);
        if t == king {
            lemma_ray_records_nothing(
                pos,
                colour,
                king,
                origin,
                dir,
                t,
                rest,
                line2,
                PinAttack::ThroughKing,
                acc.with_check(line2.insert(origin)),
            );
        } else {
            let piece = pos.squares[t];
            if piece == Piece::Empty {
                lemma_ray_pins_are_real(pos, colour, king, origin, dir, t, rest, line2, acc);
            } else if piece.spec_colour() == colour {
                lemma_ray_pin_is_real(
                    pos,
                    colour,
                    king,
                    origin,
                    dir,
                    t,
                    rest,
                    line2,
                    t as u8,
                    acc.with_attacks(line2),
                );
            }
            if result.pins != acc.pins {
                let entry = result.pins.last();
                assert forall|x: u8| #[trigger]
                    entry.1.contains(x) <==> x == origin || line.contains(x) || on_walk(
                        cur,
                        dir,
                        steps,
                        king as int,
                        x as int,
                    ) by {
                    if x as int == t {
                        assert(line2.contains(x));
                        assert(on_walk(cur, dir, steps, king as int, x as int));
                    } else {
                        assert(line2.contains(x) == line.contains(x));
                        assert(on_walk(cur, dir, steps, king as int, x as int) == on_walk(
                            t,
                            dir,
                            rest,
                            king as int,
                            x as int,
                        ));
                    }
                }
            }
        }
    }
}

/// Whether an entry of the sweep's pins is a real pin by the slider on
/// `origin` along one of `dirs`.
pub open spec fn pinned_by(
    squares: Seq<Piece>,
    colour: Colour,
    king: u8,
    origin: u8,
    dirs: Seq<i8>,
    entry: (u8, Set<u8>),
) -> bool {
    exists|k: int|
        0 <= k < dirs.len() && #[trigger] pin_at(
            squares,
            colour,
            king,
            origin,
            Set::empty(),
            origin as int,
            dirs[k] as int,
            7,
            entry,
        )
}

/// The pins that the walks from one slider record are real pins by it.
proof fn lemma_slider_pins_are_real(
    pos: Position,
    colour: Colour,
    king: u8,
    origin: u8,
    dirs: Seq<i8>,
    i: int,
    acc: Sweep,
)
    requires
        0 <= i <= dirs.len(),
        forall|k: int| 0 <= k < dirs.len() ==> #[trigger] dirs[k] != 0,
    ensures
        grows(acc, slider_sweep(pos, colour, king, origin, dirs, i, acc)),
        forall|j: int|
            acc.pins.len() <= j < slider_sweep(pos, colour, king, origin, dirs, i, acc).pins.len()
                ==> pinned_by(
                pos.squares,
                colour,
                king,
                origin,
                dirs,
                #[trigger] slider_sweep(pos, colour, king, origin, dirs, i, acc).pins[j],
            ),
    decreases dirs.len() - i,
{
    let result = slider_sweep(pos, colour, king, origin, dirs, i, acc);
    lemma_slider_grows(pos, colour, king, origin, dirs, i, acc, 0);
    if i < dirs.len() {
        let next = ray_sweep(
            pos,
            colour,
            king,
            origin,
            dirs[i] as int,
            origin as int,
            7,
            Set::empty(),
            PinAttack::NoneFound,
            acc,
        );
        lemma_ray_pins_are_real(
            pos,
            colour,
            king,
            origin,
            dirs[i] as int,
            origin as int,
            7,
            Set::empty(),
            acc,
        );
        lemma_slider_pins_are_real(pos, colour, king, origin, dirs, i + 1, next);
        lemma_slider_grows(pos, colour, king, origin, dirs, i + 1, next, 0);
        assert forall|j: int| acc.pins.len() <= j < result.pins.len() implies pinned_by(
            pos.squares,
            colour,
            king,
            origin,
            dirs,
            #[trigger] result.pins[j],
        ) by {
            if j < next.pins.len() {
                assert(result.pins[j] == next.pins[j]);
                assert(next.pins[j] == next.pins.last());
                assert(pin_at(
                    pos.squares,
                    colour,
                    king,
                    origin,
                    Set::empty(),
                    origin as int,
                    dirs[i] as int,
                    7,
                    result.pins[j],
                ));
            }
        }
    }
}

/// Whether an entry of the sweep's pins is a real pin by one of the sliders
/// of a list.
pub open spec fn pinned_by_one(
    squares: Seq<Piece>,
    colour: Colour,
    king: u8,
    list: Seq<u8>,
    dirs: Seq<i8>,
    entry: (u8, Set<u8>),
) -> bool {
    exists|a: int|
        0 <= a < list.len() && #[trigger] pinned_by(squares, colour, king, list[a], dirs, entry)
}

/// The pins that the walks from the sliders of a list record are real pins
/// by them.
proof fn lemma_sliders_pins_are_real(
    pos: Position,
    colour: Colour,
    king: u8,
    list: Seq<u8>,
    dirs: Seq<i8>,
    j: int,
    acc: Sweep,
)
    requires
        0 <= j <= list.len(),
        forall|k: int| 0 <= k < dirs.len() ==> #[trigger] dirs[k] != 0,
    ensures
        grows(acc, sliders_sweep(pos, colour, king, list, dirs, j, acc)),
        forall|i: int|
            acc.pins.len() <= i < sliders_sweep(pos, colour, king, list, dirs, j, acc).pins.len()
                ==> pinned_by_one(
                pos.squares,
                colour,
                king,
                list,
                dirs,
                #[trigger] sliders_sweep(pos, colour, king, list, dirs, j, acc).pins[i],
            ),
    decreases list.len() - j,
{
    let result = sliders_sweep(pos, colour, king, list, dirs, j, acc);
    lemma_sliders_grow(pos, colour, king, list, dirs, j, acc, 0);
    if j < list.len() {
        let next = slider_sweep(pos, colour, king, list[j], dirs, 0, acc);
        lemma_slider_pins_are_real(pos, colour, king, list[j], dirs, 0, acc);
        lemma_sliders_pins_are_real(pos, colour, king, list, dirs, j + 1, next);
        lemma_sliders_grow(pos, colour, king, list, dirs, j + 1, next, 0);
        assert forall|i: int| acc.pins.len() <= i < result.pins.len() implies pinned_by_one(
            pos.squares,
            colour,
            king,
            list,
            dirs,
            #[trigger] result.pins[i],
        ) by {
            if i < next.pins.len() {
                assert(result.pins[i] == next.pins[i]);
                assert(pinned_by(pos.squares, colour, king, list[j], dirs, next.pins[i]));
            }
        }
    }
}

/// Every pin of the sweep is a real pin: a slider of the other side has a
/// line to the king that the pinned man alone stands on, and the pin allows
/// the man the squares of that line and the slider's own.
pub proof fn lemma_pins_are_real(pos: Position, colour: Colour, i: int) -> (r: (Piece, Seq<i8>, int, int))
    requires
        pos.squares.len() == 128,
        0 <= i < position_info(pos, colour).pins.len(),
    ensures
        is_sweep_pair(colour.spec_opposite(), r.0, r.1),
        on_board(r.2),
        pos.squares[r.2] == r.0,
        0 <= r.3 < r.1.len(),
        pin_at(
            pos.squares,
            colour,
            pos.king_square(colour),
            r.2 as u8,
            Set::empty(),
            r.2,
            r.1[r.3] as int,
            7,
            position_info(pos, colour).pins[i],
        ),
{
    let opp = colour.spec_opposite();
    let king = pos.king_square(colour);
    let bishop = Piece::spec_of(opp, BISHOP);
    let rook = Piece::spec_of(opp, ROOK);
    let queen = Piece::spec_of(opp, QUEEN);
    let bishops = pos.squares_of(bishop);
    let rooks = pos.squares_of(rook);
    let queens = pos.squares_of(queen);
    lemma_list_exists(pos, bishop);
    lemma_list_exists(pos, rook);
    lemma_list_exists(pos, queen);
    let s0 = leaper_sweep(pos, colour);
    let s1 = sliders_sweep(pos, colour, king, bishops, DIAGONAL_OFFSETS@, 0, s0);
    let s2 = sliders_sweep(pos, colour, king, queens, DIAGONAL_OFFSETS@, 0, s1);
    let s3 = sliders_sweep(pos, colour, king, rooks, ORTHOGONAL_OFFSETS@, 0, s2);
    let s4 = sliders_sweep(pos, colour, king, queens, ORTHOGONAL_OFFSETS@, 0, s3);
    lemma_sliders_pins_are_real(pos, colour, king, bishops, DIAGONAL_OFFSETS@, 0, s0);
    lemma_sliders_pins_are_real(pos, colour, king, queens, DIAGONAL_OFFSETS@, 0, s1);
    lemma_sliders_pins_are_real(pos, colour, king, rooks, ORTHOGONAL_OFFSETS@, 0, s2);
    lemma_sliders_pins_are_real(pos, colour, king, queens, ORTHOGONAL_OFFSETS@, 0, s3);
    let entry = s4.pins[i];
    let (list, slider, dirs) = if i < s1.pins.len() {
        assert(entry == s1.pins[i]);
        (bishops, bishop, DIAGONAL_OFFSETS@)
    } else if i < s2.pins.len() {
        assert(entry == s2.pins[i]);
        (queens, queen, DIAGONAL_OFFSETS@)
    } else if i < s3.pins.len() {
        assert(entry == s3.pins[i]);
        (rooks, rook, ORTHOGONAL_OFFSETS@)
    } else {
        (queens, queen, ORTHOGONAL_OFFSETS@)
    };
    assert(pinned_by_one(pos.squares, colour, king, list, dirs, entry));
    let a = choose|a: int|
        0 <= a < list.len() && #[trigger] pinned_by(pos.squares, colour, king, list[a], dirs, entry);
    let k = choose|k: int|
        0 <= k < dirs.len() && #[trigger] pin_at(
            pos.squares,
            colour,
            king,
            list[a],
            Set::empty(),
            list[a] as int,
            dirs[k] as int,
            7,
            entry,
        );
    assert(on_board(list[a] as int) && pos.squares[list[a] as int] == slider);
    (slider, dirs, list[a] as int, k)
}

proof fn lemma_leaves_means_entry(pins: Seq<(u8, Set<u8>)>, m: Move, n: int) -> (i: int)
    requires
        0 <= n <= pins.len(),
        leaves_pin_line(pins, m, n),
    ensures
        0 <= i < n,
        pins[i].0 == m.start_square,
        !pins[i].1.contains(m.end_square),
    decreases n,
{
    if pins[n - 1].0 == m.start_square && !pins[n - 1].1.contains(m.end_square) {
        n - 1
    } else {
        lemma_leaves_means_entry(pins, m, n - 1)
    }
}

/// A free line stays free when a man lands beside it.
proof fn lemma_line_stays_free(
    before: Seq<Piece>,
    after: Seq<Piece>,
    from: int,
    dir: int,
    steps: nat,
    king: int,
    end: int,
)
    requires
        ray_reaches(before, from, dir, steps, king),
        !on_walk(from, dir, steps, king, end),
        forall|t: int|
            0 <= t < 128 && t != end && #[trigger] before[t] == Piece::Empty ==> after[t]
                == Piece::Empty,
    ensures
        ray_reaches(after, from, dir, steps, king),
    decreases steps,
{
    let t = from + dir;
    if t != king {
        lemma_line_stays_free(before, after, t, dir, (steps - 1) as nat, king, end);
    }
}

/// A line that the pinned man alone stands on is free once that man has
/// left it for a square beside it.
proof fn lemma_pin_line_opens(
    before: Seq<Piece>,
    after: Seq<Piece>,
    from: int,
    dir: int,
    steps: nat,
    king: int,
    start: int,
    end: int,
)
    requires
        pin_reaches(before, from, dir, steps, king, start),
        !on_walk(from, dir, steps, king, end),
        after[start] == Piece::Empty,
        forall|t: int|
            0 <= t < 128 && t != end && #[trigger] before[t] == Piece::Empty ==> after[t]
                == Piece::Empty,
    ensures
        ray_reaches(after, from, dir, steps, king),
    decreases steps,
{
    let t = from + dir;
    let rest = (steps - 1) as nat;
    if t == start {
        lemma_line_stays_free(before, after, t, dir, rest, king, end);
    } else {
        lemma_pin_line_opens(before, after, t, dir, rest, king, start, end);
    }
}

/// A move that takes a pinned man off its line leaves the king in check.
pub proof fn lemma_off_the_pin_is_unsafe(pos: Position, m: Move)
    requires
        pos.ok(),
        pos.accepts(m),
        m.moved_piece != Piece::spec_of(pos.side_to_move, KING),
        leaves_pin_line(
            position_info(pos, pos.side_to_move).pins,
            m,
            position_info(pos, pos.side_to_move).pins.len() as int,
        ),
    ensures
        in_check(pos.apply(m), pos.side_to_move),
{
    let us = pos.side_to_move;
    let by = us.spec_opposite();
    let info = position_info(pos, us);
    let king = pos.king_square(us);
    let after = pos.apply(m);
    let start = m.start_square as int;
    let end = m.end_square as int;
    let i = lemma_leaves_means_entry(info.pins, m, info.pins.len() as int);
    let (slider, dirs, sq, k) = lemma_pins_are_real(pos, us, i);
    let d = dirs[k] as int;
    let entry = info.pins[i];
    assert(entry.1.contains(sq as u8));
    assert(!on_walk(sq, d, 7, king as int, end)) by {
        if on_walk(sq, d, 7, king as int, end) {
            assert(entry.1.contains(m.end_square));
        }
    }
    assert(after.king_square(us) == king);
    assert(after.squares[start] == Piece::Empty);
    assert forall|t: int|
        0 <= t < 128 && t != end && #[trigger] pos.squares[t] == Piece::Empty implies after.squares[t]
        == Piece::Empty by {}
    lemma_pin_line_opens(pos.squares, after.squares, sq, d, 7, king as int, start, end);
    assert(after.squares[sq] == slider);
    assert(slider_hits(after.squares, slider, dirs, sq, king as int));
}

/// What gives check goes on giving check after a move of another man than
/// the king that neither takes it nor lands on its line.
pub proof fn lemma_check_stays(pos: Position, m: Move, way: Attacker, from: int)
    requires
        pos.ok(),
        pos.accepts(m),
        m.moved_piece != Piece::spec_of(pos.side_to_move, KING),
        gives_check(pos, pos.side_to_move, way, from),
        !answers_check(pos, pos.side_to_move, way, from, m.end_square),
        m.move_type == MoveType::EnPassant && way is Pawn ==> from != pos.en_passant_victim(
            m.end_square as int,
        ),
    ensures
        gives_check(pos.apply(m), pos.side_to_move, way, from),
{
    let us = pos.side_to_move;
    let king = pos.king_square(us);
    let after = pos.apply(m);
    let start = m.start_square as int;
    let end = m.end_square as int;
    assert(after.king_square(us) == king);
    assert(after.king_square(us.spec_opposite()) == pos.king_square(us.spec_opposite()));
    assert forall|t: int|
        0 <= t < 128 && t != end && #[trigger] pos.squares[t] == Piece::Empty implies after.squares[t]
        == Piece::Empty by {}
    match way {
        Attacker::Slider(slider, dirs, k) => {
            lemma_line_stays_free(
                pos.squares,
                after.squares,
                from,
                dirs[k] as int,
                7,
                king as int,
                end,
            );
            assert(after.squares[from] == slider);
        },
        Attacker::King => {},
        _ => {
            assert(after.squares[from] == pos.squares[from]);
        },
    }
}

/// A free line reaches one square further if the square it came to is
/// empty.
proof fn lemma_ray_goes_on(squares: Seq<Piece>, from: int, dir: int, steps: nat, target: int)
    requires
        ray_reaches(squares, from, dir, steps, target),
        squares[target] == Piece::Empty,
        on_board(target + dir),
    ensures
        ray_reaches(squares, from, dir, steps + 1, target + dir),
    decreases steps,
{
    let t = from + dir;
    if t != target {
        lemma_ray_goes_on(squares, t, dir, (steps - 1) as nat, target);
    } else {
        assert(ray_reaches(squares, t, dir, steps, target + dir));
    }
}

/// A line from a square that meets a slider first is, walked back from the
/// slider, a free line to that square.
proof fn lemma_line_forth(
    squares: Seq<Piece>,
    from: int,
    dir: int,
    steps: nat,
    slider: Piece,
    queen: Piece,
) -> (sq: int)
    requires
        on_board(from),
        line_attacker(squares, from, dir, steps, slider, queen),
    ensures
        on_board(sq),
        squares[sq] == slider || squares[sq] == queen,
        ray_reaches(squares, sq, -dir, steps, from),
    decreases steps,
{
    let t = from + dir;
    if squares[t] == slider || squares[t] == queen {
        t
    } else {
        let sq = lemma_line_forth(squares, t, dir, (steps - 1) as nat, slider, queen);
        lemma_ray_goes_on(squares, sq, -dir, (steps - 1) as nat, t);
        sq
    }
}

proof fn lemma_any_line_means_one(
    squares: Seq<Piece>,
    from: int,
    dirs: Seq<i8>,
    n: int,
    slider: Piece,
    queen: Piece,
) -> (j: int)
    requires
        0 <= n <= dirs.len(),
        any_line_attacker(squares, from, dirs, n, slider, queen),
    ensures
        0 <= j < n,
        line_attacker(squares, from, dirs[j] as int, 7, slider, queen),
    decreases n,
{
    if line_attacker(squares, from, dirs[n - 1] as int, 7, slider, queen) {
        n - 1
    } else {
        lemma_any_line_means_one(squares, from, dirs, n - 1, slider, queen)
    }
}

/// A king that a slider attacks as the king sees it is in check.
pub proof fn lemma_seen_slider_checks(pos: Position, colour: Colour)
    requires
        pos.squares.len() == 128,
        on_board(pos.king_square(colour) as int),
        slider_attacks(pos.squares, pos.king_square(colour), colour.spec_opposite()),
    ensures
        in_check(pos, colour),
{
    let by = colour.spec_opposite();
    let king = pos.king_square(colour);
    let queen = Piece::spec_of(by, QUEEN);
    let (kind, dirs) = if any_line_attacker(
        pos.squares,
        king as int,
        DIAGONAL_OFFSETS@,
        4,
        Piece::spec_of(by, BISHOP),
        queen,
    ) {
        (Piece::spec_of(by, BISHOP), DIAGONAL_OFFSETS@)
    } else {
        (Piece::spec_of(by, ROOK), ORTHOGONAL_OFFSETS@)
    };
    let j = lemma_any_line_means_one(pos.squares, king as int, dirs, 4, kind, queen);
    let sq = lemma_line_forth(pos.squares, king as int, dirs[j] as int, 7, kind, queen);
    assert(dirs[3 - j] as int == -(dirs[j] as int));
    assert(ray_reaches(pos.squares, sq, dirs[3 - j] as int, 7, king as int));
    if pos.squares[sq] == kind {
        assert(slider_hits(pos.squares, kind, dirs, sq, king as int));
    } else {
        assert(slider_hits(pos.squares, queen, dirs, sq, king as int));
    }
}

proof fn lemma_checking_pawn(pawns: Seq<u8>, colour: Colour, king: u8, n: int, i: int)
    requires
        0 <= i < n <= pawns.len(),
        pawn_targets(pawns[i], colour).contains(king),
    ensures
        checking_pawns(pawns, colour, king, n).contains(pawns[i]),
    decreases n,
{
    if i < n - 1 {
        lemma_checking_pawn(pawns, colour, king, n - 1, i);
    }
}

proof fn lemma_checking_knight(knights: Seq<u8>, king: u8, n: int, i: int)
    requires
        0 <= i < n <= knights.len(),
        knight_targets(knights[i]).contains(king),
    ensures
        checking_knights(knights, king, n).contains(knights[i]),
    decreases n,
{
    if i < n - 1 {
        lemma_checking_knight(knights, king, n - 1, i);
    }
}

/// Where the sweep counts one check, something gives it, and the squares
/// that the sweep holds to answer it are exactly those that answer what
/// gives it.
pub proof fn lemma_the_single_check(pos: Position, colour: Colour) -> (r: (Attacker, int))
    requires
        pos.squares.len() == 128,
        position_info(pos, colour).count == 1,
    ensures
        gives_check(pos, colour, r.0, r.1),
        forall|x: u8|
            position_info(pos, colour).block.contains(x) <==> answers_check(
                pos,
                colour,
                r.0,
                r.1,
                x,
            ),
{
    let opp = colour.spec_opposite();
    let king = pos.king_square(colour);
    let pawn = Piece::spec_of(opp, PAWN);
    let knight = Piece::spec_of(opp, KNIGHT);
    let bishop = Piece::spec_of(opp, BISHOP);
    let rook = Piece::spec_of(opp, ROOK);
    let queen = Piece::spec_of(opp, QUEEN);
    let pawns = pos.squares_of(pawn);
    let knights = pos.squares_of(knight);
    let bishops = pos.squares_of(bishop);
    let rooks = pos.squares_of(rook);
    let queens = pos.squares_of(queen);
    lemma_list_exists(pos, pawn);
    lemma_list_exists(pos, knight);
    lemma_list_exists(pos, bishop);
    lemma_list_exists(pos, rook);
    lemma_list_exists(pos, queen);
    lemma_pawn_checks_count(pawns, opp, king, pawns.len() as int);
    lemma_knight_checks_count(knights, king, knights.len() as int);
    lemma_pawn_checks(pawns, opp, king, pawns.len() as int);
    lemma_knight_checks(knights, king, knights.len() as int);
    let s0 = leaper_sweep(pos, colour);
    let s1 = sliders_sweep(pos, colour, king, bishops, DIAGONAL_OFFSETS@, 0, s0);
    let s2 = sliders_sweep(pos, colour, king, queens, DIAGONAL_OFFSETS@, 0, s1);
    let s3 = sliders_sweep(pos, colour, king, rooks, ORTHOGONAL_OFFSETS@, 0, s2);
    let s4 = sliders_sweep(pos, colour, king, queens, ORTHOGONAL_OFFSETS@, 0, s3);
    let pc = pawn_checks(pawns, opp, king, pawns.len() as int);
    let kc = knight_checks(knights, king, knights.len() as int);
    let beside: nat = if king_targets(pos.king_square(opp)).contains(king) {
        1
    } else {
        0
    };
    assert(s0.count == counted(beside + pc + kc));
    lemma_sliders_check(pos, colour, king, bishops, DIAGONAL_OFFSETS@, 0, s0, -1, 0);
    lemma_sliders_check(pos, colour, king, queens, DIAGONAL_OFFSETS@, 0, s1, -1, 0);
    lemma_sliders_check(pos, colour, king, rooks, ORTHOGONAL_OFFSETS@, 0, s2, -1, 0);
    lemma_sliders_check(pos, colour, king, queens, ORTHOGONAL_OFFSETS@, 0, s3, -1, 0);
    assert forall|x: u8| s0.count == 0 implies !s0.block.contains(x) by {
        if s0.count == 0 && s0.block.contains(x) {
            if checking_pawns(pawns, opp, king, pawns.len() as int).contains(x) {
                let j = choose|j: int|
                    0 <= j < pawns.len() && #[trigger] pawns[j] == x && pawn_targets(
                        pawns[j],
                        opp,
                    ).contains(king);
                assert(pawn_targets(pawns[j], opp).contains(king));
            } else {
                let j = choose|j: int|
                    0 <= j < knights.len() && #[trigger] knights[j] == x && knight_targets(
                        knights[j],
                    ).contains(king);
                assert(knight_targets(knights[j]).contains(king));
            }
        }
    }
    if s0.count == 1 {
        assert(s4.block == s0.block);
        if beside == 1 {
            lemma_single_check(pos, colour, Attacker::King, 0);
            (Attacker::King, 0)
        } else if pc == 1 {
            let i = choose|i: int|
                0 <= i < pawns.len() && pawn_targets(#[trigger] pawns[i], opp).contains(king);
            lemma_checking_pawn(pawns, opp, king, pawns.len() as int, i);
            assert(on_board(pawns[i] as int) && pos.squares[pawns[i] as int] == pawn);
            lemma_single_check(pos, colour, Attacker::Pawn, pawns[i] as int);
            (Attacker::Pawn, pawns[i] as int)
        } else {
            let i = choose|i: int|
                0 <= i < knights.len() && knight_targets(#[trigger] knights[i]).contains(king);
            lemma_checking_knight(knights, king, knights.len() as int, i);
            assert(on_board(knights[i] as int) && pos.squares[knights[i] as int] == knight);
            lemma_single_check(pos, colour, Attacker::Knight, knights[i] as int);
            (Attacker::Knight, knights[i] as int)
        }
    } else {
        let (list, slider, dirs, acc, result) = if s1.count == 1 {
            (bishops, bishop, DIAGONAL_OFFSETS@, s0, s1)
        } else if s2.count == 1 {
            (queens, queen, DIAGONAL_OFFSETS@, s1, s2)
        } else if s3.count == 1 {
            (rooks, rook, ORTHOGONAL_OFFSETS@, s2, s3)
        } else {
            (queens, queen, ORTHOGONAL_OFFSETS@, s3, s4)
        };
        assert(acc.count == 0 && result.count == 1);
        assert(forall|x: u8| !acc.block.contains(x));
        lemma_sliders_count(pos, colour, king, list, dirs, 0, acc);
        let (a, k) = choose|a: int, k: int|
            0 <= a < list.len() && 0 <= k < dirs.len() && #[trigger] ray_reaches(
                pos.squares,
                list[a] as int,
                dirs[k] as int,
                7,
                king as int,
            );
        lemma_sliders_check(pos, colour, king, list, dirs, 0, acc, a, k);
        assert(s4.block == result.block);
        assert(on_board(list[a] as int) && pos.squares[list[a] as int] == slider);
        assert forall|x: u8|
            s4.block.contains(x) <==> answers_check(
                pos,
                colour,
                Attacker::Slider(slider, dirs, k),
                list[a] as int,
                x,
            ) by {
            assert(x == list[a] <==> x as int == list[a] as int);
        }
        (Attacker::Slider(slider, dirs, k), list[a] as int)
    }
}

/// A move of another man than the king, not made in passing, that leaves
/// the king out of check passes the legality test.
pub proof fn lemma_safe_plain_move_is_legal(pos: Position, m: Move)
    requires
        pos.ok(),
        pos.accepts(m),
        m.moved_piece != Piece::spec_of(pos.side_to_move, KING),
        m.move_type != MoveType::EnPassant,
        !in_check(pos.apply(m), pos.side_to_move),
    ensures
        is_legal(pos, position_info(pos, pos.side_to_move), m),
{
    let us = pos.side_to_move;
    let info = position_info(pos, us);
    if info.count >= 2 {
        lemma_double_check_is_unsafe(pos, m);
    }
    if leaves_pin_line(info.pins, m, info.pins.len() as int) {
        lemma_off_the_pin_is_unsafe(pos, m);
    }
    if info.count == 1 {
        let (way, from) = lemma_the_single_check(pos, us);
        if !answers_check(pos, us, way, from, m.end_square) {
            lemma_check_stays(pos, m, way, from);
            lemma_gives_check(pos.apply(m), us, way, from);
        }
        assert(info.block.contains(m.end_square));
    }
}

/// A capture in passing that leaves the king out of check passes the
/// legality test.
pub proof fn lemma_safe_en_passant_is_legal(pos: Position, m: Move)
    requires
        pos.ok(),
        pos.accepts(m),
        m.move_type == MoveType::EnPassant,
        !in_check(pos.apply(m), pos.side_to_move),
    ensures
        is_legal(pos, position_info(pos, pos.side_to_move), m),
{
    let us = pos.side_to_move;
    let info = position_info(pos, us);
    if info.count >= 2 {
        lemma_double_check_is_unsafe(pos, m);
    }
    let after = pos.apply(m);
    let victim = pos.en_passant_victim(m.end_square as int);
    assert(m.moved_piece == Piece::spec_of(us, PAWN));
    assert(after.king_square(us) == pos.king_square(us));
    assert(after.squares == pos.squares_after(m));
    if leaves_pin_line(info.pins, m, info.pins.len() as int) {
        lemma_off_the_pin_is_unsafe(pos, m);
    }
    if en_passant_exposes(pos, m) {
        lemma_seen_slider_checks(after, us);
    }
    if info.count == 1 {
        let (way, from) = lemma_the_single_check(pos, us);
        if !answers_check(pos, us, way, from, m.end_square) && from != victim {
            lemma_check_stays(pos, m, way, from);
            lemma_gives_check(pos.apply(m), us, way, from);
        }
        if !answers_check(pos, us, way, from, m.end_square) {
            assert(from == victim);
            assert(pos.squares[victim] == Piece::spec_of(us.spec_opposite(), PAWN));
            assert(way is Pawn);
            assert(info.block.contains(victim as u8));
        }
    }
}

/// The king is never held as pinned.
pub proof fn lemma_king_is_not_pinned(pos: Position, m: Move)
    requires
        pos.squares.len() == 128,
        m.start_square == pos.king_square(pos.side_to_move),
    ensures
        !leaves_pin_line(
            position_info(pos, pos.side_to_move).pins,
            m,
            position_info(pos, pos.side_to_move).pins.len() as int,
        ),
{
    let info = position_info(pos, pos.side_to_move);
    if leaves_pin_line(info.pins, m, info.pins.len() as int) {
        let i = lemma_leaves_means_entry(info.pins, m, info.pins.len() as int);
        lemma_pins_are_real(pos, pos.side_to_move, i);
    }
}

/// A step of the king that does not end in check is onto a square that the
/// sweep does not hold as attacked, and passes the legality test.
pub proof fn lemma_safe_king_step_is_legal(pos: Position, m: Move, i: int)
    requires
        pos.ok(),
        0 <= i < 8,
        step_move(pos, pos.king_square(pos.side_to_move), KING_OFFSETS@[i]).len() > 0,
        m == step_move(pos, pos.king_square(pos.side_to_move), KING_OFFSETS@[i])[0],
        !in_check(pos.apply(m), pos.side_to_move),
    ensures
        !position_info(pos, pos.side_to_move).attacked.contains(m.end_square),
        is_legal(pos, position_info(pos, pos.side_to_move), m),
{
    let info = position_info(pos, pos.side_to_move);
    if info.attacked.contains(m.end_square) {
        lemma_attacked_step_is_unsafe(pos, m, i);
    }
    lemma_king_is_not_pinned(pos, m);
    assert(m.moved_piece == Piece::spec_of(pos.side_to_move, KING));
}

/// What a walk marks without passing the king, it comes to over empty
/// squares.
proof fn lemma_marks_without_king(
    squares: Seq<Piece>,
    colour: Colour,
    king: int,
    from: int,
    dir: int,
    steps: nat,
    e: int,
)
    requires
        marks(squares, colour, king, from, dir, steps, false, e),
        !ray_reaches(squares, from, dir, steps, king),
    ensures
        ray_reaches(squares, from, dir, steps, e),
    decreases steps,
{
    let t = from + dir;
    if t != e {
        lemma_marks_without_king(squares, colour, king, t, dir, (steps - 1) as nat, e);
    }
}

/// What a walk visits before a square lies a step before that square, on
/// the walk or at its start.
proof fn lemma_walk_came_from(from: int, dir: int, steps: nat, target: int, x: int)
    requires
        on_walk(from, dir, steps, target, x),
    ensures
        x - dir == from || (x - dir != target && on_walk(from, dir, steps, target, x - dir)),
    decreases steps,
{
    let t = from + dir;
    if t != x {
        lemma_walk_came_from(t, dir, (steps - 1) as nat, target, x);
    }
}

/// A line that is free before castling and does not pass the square that
/// the rook lands on is free after it.
proof fn lemma_line_free_after_castle(
    before: Seq<Piece>,
    after: Seq<Piece>,
    from: int,
    dir: int,
    steps: nat,
    target: int,
    transit: int,
)
    requires
        ray_reaches(before, from, dir, steps, target),
        !on_walk(from, dir, steps, target, transit),
        forall|t: int|
            0 <= t < 128 && t != transit && t != target && #[trigger] before[t] == Piece::Empty
                ==> after[t] == Piece::Empty,
    ensures
        ray_reaches(after, from, dir, steps, target),
    decreases steps,
{
    let t = from + dir;
    if t != target {
        lemma_line_free_after_castle(before, after, t, dir, (steps - 1) as nat, target, transit);
    }
}

/// The square where the rook of a castling move lands: the one that the
/// king passes.
pub open spec fn castle_transit(m: Move) -> u8 {
    castle_rook_squares(m.end_square as int).1 as u8
}

/// Castling onto a square that the sweep holds as attacked, out of a
/// position without check, ends in check.
pub proof fn lemma_attacked_landing_is_unsafe(pos: Position, m: Move)
    requires
        pos.ok(),
        castle_moves(pos, Set::empty()).contains(m),
        !in_check(pos, pos.side_to_move),
        position_info(pos, pos.side_to_move).attacked.contains(m.end_square),
    ensures
        in_check(pos.apply(m), pos.side_to_move),
{
    let us = pos.side_to_move;
    let by = us.spec_opposite();
    let king = pos.king_square(us);
    let after = pos.apply(m);
    let end = m.end_square;
    let (rook_start, rook_end) = castle_rook_squares(end as int);
    let none = Set::<u8>::empty();
    assert(m == pos.new_move(king, end, MoveType::Castle));
    assert(m.moved_piece == Piece::spec_of(us, KING));
    assert(pos.squares[end as int] == Piece::Empty);
    assert(pos.squares[rook_end] == Piece::Empty);
    assert(pos.squares[rook_start] == Piece::spec_of(us, ROOK));
    assert(king as int == 2 * rook_end - end);
    assert(after.king_square(us) == end);
    assert(after.king_square(by) == pos.king_square(by));
    assert forall|t: int|
        0 <= t < 128 && t != king && t != end && t != rook_start && t != rook_end implies after.squares[t]
        == pos.squares[t] by {}
    assert(after.squares[king as int] == Piece::Empty);
    assert(after.squares[rook_start] == Piece::Empty);
    if king_targets(pos.king_square(by)).contains(end) {
    } else if exists|sq: int|
        on_board(sq) && #[trigger] pos.squares[sq] == Piece::spec_of(by, PAWN) && pawn_targets(
            sq as u8,
            by,
        ).contains(end) {
        let sq = choose|sq: int|
            on_board(sq) && #[trigger] pos.squares[sq] == Piece::spec_of(by, PAWN) && pawn_targets(
                sq as u8,
                by,
            ).contains(end);
        assert(after.squares[sq] == Piece::spec_of(by, PAWN));
    } else if exists|sq: int|
        on_board(sq) && #[trigger] pos.squares[sq] == Piece::spec_of(by, KNIGHT) && knight_targets(
            sq as u8,
        ).contains(end) {
        let sq = choose|sq: int|
            on_board(sq) && #[trigger] pos.squares[sq] == Piece::spec_of(by, KNIGHT)
                && knight_targets(sq as u8).contains(end);
        assert(after.squares[sq] == Piece::spec_of(by, KNIGHT));
    } else {
        let (slider, dirs, sq) = lemma_attacked_is_marked(pos, us, end);
        let k = choose|k: int|
            0 <= k < dirs.len() && #[trigger] marks(
                pos.squares,
                us,
                king as int,
                sq,
                dirs[k] as int,
                7,
                false,
                end as int,
            );
        let d = dirs[k] as int;
        assert(is_direction(d));
        if ray_reaches(pos.squares, sq, d, 7, king as int) {
            lemma_gives_check(pos, us, Attacker::Slider(slider, dirs, k), sq);
        }
        lemma_marks_without_king(pos.squares, us, king as int, sq, d, 7, end as int);
        if on_walk(sq, d, 7, end as int, rook_end) {
            lemma_after_passing(pos.squares, sq, d, 7, end as int, rook_end);
            assert(d == end - rook_end);
            lemma_walk_came_from(sq, d, 7, end as int, rook_end);
            lemma_walk_avoids(pos.squares, sq, d, 7, end as int, king as int);
        }
        lemma_line_free_after_castle(pos.squares, after.squares, sq, d, 7, end as int, rook_end);
        assert(after.squares[sq] == slider);
        assert(slider_hits(after.squares, slider, dirs, sq, end as int));
    }
}

/// A castling move that the rules allow, the king neither in check nor
/// passing or landing on a square where it would be, is one that the
/// generator makes, and passes the legality test.
pub proof fn lemma_safe_castle_is_legal(pos: Position, m: Move)
    requires
        pos.ok(),
        castle_moves(pos, Set::empty()).contains(m),
        !in_check(pos, pos.side_to_move),
        !in_check(
            pos.apply(
                pos.new_move(pos.king_square(pos.side_to_move), castle_transit(m), MoveType::Normal),
            ),
            pos.side_to_move,
        ),
        !in_check(pos.apply(m), pos.side_to_move),
    ensures
        castle_moves(pos, position_info(pos, pos.side_to_move).attacked).contains(m),
        is_legal(pos, position_info(pos, pos.side_to_move), m),
{
    let us = pos.side_to_move;
    let info = position_info(pos, us);
    let king = pos.king_square(us);
    let end = m.end_square;
    let transit = castle_transit(m);
    assert(m == pos.new_move(king, end, MoveType::Castle));
    assert(pos.squares[transit as int] == Piece::Empty);
    lemma_count_is_check(pos, us);
    lemma_king_is_not_pinned(pos, m);
    if info.attacked.contains(end) {
        lemma_attacked_landing_is_unsafe(pos, m);
    }
    let i = if transit as int == king + 1 {
        4int
    } else {
        3int
    };
    assert(spec_step(king, KING_OFFSETS@[i]) == transit);
    let step = pos.new_move(king, transit, MoveType::Normal);
    assert(step_move(pos, king, KING_OFFSETS@[i]) =~= seq![step]);
    if info.attacked.contains(transit) {
        lemma_attacked_step_is_unsafe(pos, step, i);
    }
    assert(castle_moves(pos, info.attacked).contains(m)) by {
        let made = castle_moves(pos, info.attacked);
        let all = castle_moves(pos, Set::empty());
        let j = choose|j: int| 0 <= j < all.len() && all[j] == m;
        if made.len() == all.len() {
            assert(made[j] == m);
        } else if made.len() == 1 {
            assert(made[0] == m);
        }
    }
}

/// A move is in two lists put together exactly if it is in one of them.
pub proof fn lemma_in_either(a: Seq<Move>, b: Seq<Move>, m: Move)
    ensures
        (a + b).contains(m) <==> a.contains(m) || b.contains(m),
{
    if a.contains(m) {
        let i = choose|i: int| 0 <= i < a.len() && a[i] == m;
        assert((a + b)[i] == m);
    }
    if b.contains(m) {
        let i = choose|i: int| 0 <= i < b.len() && b[i] == m;
        assert((a + b)[a.len() + i] == m);
    }
    if (a + b).contains(m) {
        let i = choose|i: int| 0 <= i < (a + b).len() && (a + b)[i] == m;
        if i < a.len() {
            assert(a[i] == m);
        } else {
            assert(b[i - a.len()] == m);
        }
    }
}

proof fn lemma_legal_among_has(pos: Position, moves: Seq<Move>, info: Sweep, n: int, i: int)
    requires
        0 <= i < n <= moves.len(),
        is_legal(pos, info, moves[i]),
    ensures
        legal_among(pos, moves, info, n).contains(moves[i]),
    decreases n,
{
    let before = legal_among(pos, moves, info, n - 1);
    let now = legal_among(pos, moves, info, n);
    if i < n - 1 {
        lemma_legal_among_has(pos, moves, info, n - 1, i);
        let j = choose|j: int| 0 <= j < before.len() && before[j] == moves[i];
        assert(now[j] == moves[i]);
    } else {
        assert(now[now.len() - 1] == moves[i]);
    }
}

/// A move is among the king's steps exactly if it is the step by one of
/// the king's offsets onto a square that is not held as attacked.
pub proof fn lemma_king_moves_has(pos: Position, start: u8, attacked: Set<u8>, n: int, m: Move)
    requires
        0 <= n <= 8,
    ensures
        king_moves(pos, start, attacked, n).contains(m) <==> exists|i: int|
            0 <= i < n && #[trigger] step_move(pos, start, KING_OFFSETS@[i]).len() > 0 && m
                == step_move(pos, start, KING_OFFSETS@[i])[0] && !attacked.contains(
                m.end_square,
            ),
    decreases n,
{
    if n > 0 {
        lemma_king_moves_has(pos, start, attacked, n - 1, m);
        let end = spec_step(start, KING_OFFSETS@[n - 1]);
        let steps = step_move(pos, start, KING_OFFSETS@[n - 1]);
        let here = if end < 128 && !attacked.contains(end) {
            steps
        } else {
            Seq::empty()
        };
        lemma_in_either(king_moves(pos, start, attacked, n - 1), here, m);
        let found = exists|i: int|
            0 <= i < n && #[trigger] step_move(pos, start, KING_OFFSETS@[i]).len() > 0 && m
                == step_move(pos, start, KING_OFFSETS@[i])[0] && !attacked.contains(
                m.end_square,
            );
        if here.contains(m) {
            assert(steps.len() > 0 && steps[0] == m);
        }
        if found {
            let i = choose|i: int|
                0 <= i < n && #[trigger] step_move(pos, start, KING_OFFSETS@[i]).len() > 0 && m
                    == step_move(pos, start, KING_OFFSETS@[i])[0] && !attacked.contains(
                    m.end_square,
                );
            if i == n - 1 {
                assert(here[0] == m);
            } else {
                assert(0 <= i < n - 1);
            }
        }
    }
}

/// Whether every move of a list moves the given man.
pub open spec fn all_move(moves: Seq<Move>, piece: Piece) -> bool {
    forall|i: int| 0 <= i < moves.len() ==> (#[trigger] moves[i]).moved_piece == piece
}

proof fn lemma_all_move_both(a: Seq<Move>, b: Seq<Move>, piece: Piece)
    requires
        all_move(a, piece),
        all_move(b, piece),
    ensures
        all_move(a + b, piece),
{
    assert forall|i: int| 0 <= i < (a + b).len() implies (#[trigger] (a + b)[i]).moved_piece
        == piece by {
        if i < a.len() {
            assert((a + b)[i] == a[i]);
        } else {
            assert((a + b)[i] == b[i - a.len()]);
        }
    }
}

proof fn lemma_ray_moves_move(pos: Position, start: u8, dir: int, total: int, k: int)
    requires
        on_board(start as int),
        pos.squares.len() == 128,
    ensures
        all_move(ray_moves(pos, start, dir, total, k), pos.squares[start as int]),
    decreases 8 - k,
{
    if !(k < 1 || k > 7 || total < -128 || total > 127) {
        if step_open(pos, start, total as i8) {
            lemma_ray_moves_move(pos, start, dir, total + dir, k + 1);
            lemma_all_move_both(
                step_move(pos, start, total as i8),
                ray_moves(pos, start, dir, total + dir, k + 1),
                pos.squares[start as int],
            );
        }
    }
}

proof fn lemma_slider_moves_move(pos: Position, start: u8, dirs: Seq<i8>, n: int)
    requires
        on_board(start as int),
        pos.squares.len() == 128,
    ensures
        all_move(slider_moves(pos, start, dirs, n), pos.squares[start as int]),
    decreases n,
{
    if n > 0 {
        lemma_slider_moves_move(pos, start, dirs, n - 1);
        lemma_ray_moves_move(pos, start, dirs[n - 1] as int, dirs[n - 1] as int, 1);
        lemma_all_move_both(
            slider_moves(pos, start, dirs, n - 1),
            ray_moves(pos, start, dirs[n - 1] as int, dirs[n - 1] as int, 1),
            pos.squares[start as int],
        );
    }
}

proof fn lemma_leaper_moves_move(pos: Position, start: u8, offsets: Seq<i8>, n: int)
    requires
        on_board(start as int),
        pos.squares.len() == 128,
    ensures
        all_move(leaper_moves(pos, start, offsets, n), pos.squares[start as int]),
    decreases n,
{
    if n > 0 {
        lemma_leaper_moves_move(pos, start, offsets, n - 1);
        lemma_all_move_both(
            leaper_moves(pos, start, offsets, n - 1),
            step_move(pos, start, offsets[n - 1]),
            pos.squares[start as int],
        );
    }
}

proof fn lemma_each_pawn_moves(pos: Position, list: Seq<u8>, n: int)
    requires
        pos.squares.len() == 128,
        pos.lists(Piece::spec_of(pos.side_to_move, PAWN), list),
        0 <= n <= list.len(),
    ensures
        all_move(each_pawn(pos, list, n), Piece::spec_of(pos.side_to_move, PAWN)),
    decreases n,
{
    if n > 0 {
        lemma_each_pawn_moves(pos, list, n - 1);
        assert(on_board(list[n - 1] as int));
        let here = pawn_moves(pos, list[n - 1]);
        assert(all_move(here, Piece::spec_of(pos.side_to_move, PAWN))) by {
            let start = list[n - 1];
            let us = pos.side_to_move;
            let forward = us.spec_forward(start as int);
            let is_promo = spec_is_back_rank(us.spec_opposite(), forward);
            let pawn = Piece::spec_of(us, PAWN);
            let left = pawn_capture(pos, start, forward - 1, is_promo);
            let right = pawn_capture(pos, start, forward + 1, is_promo);
            let pushes = pawn_pushes(pos, start, is_promo);
            let passing = pawn_en_passant(pos, start);
            assert(all_move(left, pawn));
            assert(all_move(right, pawn));
            assert(all_move(pushes, pawn));
            assert(all_move(passing, pawn));
            lemma_all_move_both(left, right, pawn);
            lemma_all_move_both(left + right, pushes, pawn);
            lemma_all_move_both(left + right + pushes, passing, pawn);
        }
        lemma_all_move_both(
            each_pawn(pos, list, n - 1),
            here,
            Piece::spec_of(pos.side_to_move, PAWN),
        );
    }
}

proof fn lemma_each_knight_moves(pos: Position, list: Seq<u8>, n: int)
    requires
        pos.squares.len() == 128,
        pos.lists(Piece::spec_of(pos.side_to_move, KNIGHT), list),
        0 <= n <= list.len(),
    ensures
        all_move(each_knight(pos, list, n), Piece::spec_of(pos.side_to_move, KNIGHT)),
    decreases n,
{
    if n > 0 {
        lemma_each_knight_moves(pos, list, n - 1);
        assert(on_board(list[n - 1] as int));
        lemma_leaper_moves_move(pos, list[n - 1], KNIGHT_OFFSETS@, 8);
        lemma_all_move_both(
            each_knight(pos, list, n - 1),
            leaper_moves(pos, list[n - 1], KNIGHT_OFFSETS@, 8),
            Piece::spec_of(pos.side_to_move, KNIGHT),
        );
    }
}

proof fn lemma_each_slider_moves(pos: Position, kind: u8, list: Seq<u8>, dirs: Seq<i8>, n: int)
    requires
        pos.squares.len() == 128,
        pos.lists(Piece::spec_of(pos.side_to_move, kind), list),
        0 <= n <= list.len(),
    ensures
        all_move(each_slider(pos, list, dirs, n), Piece::spec_of(pos.side_to_move, kind)),
    decreases n,
{
    if n > 0 {
        lemma_each_slider_moves(pos, kind, list, dirs, n - 1);
        assert(on_board(list[n - 1] as int));
        lemma_slider_moves_move(pos, list[n - 1], dirs, 4);
        lemma_all_move_both(
            each_slider(pos, list, dirs, n - 1),
            slider_moves(pos, list[n - 1], dirs, 4),
            Piece::spec_of(pos.side_to_move, kind),
        );
    }
}

proof fn lemma_each_queen_moves(pos: Position, list: Seq<u8>, n: int)
    requires
        pos.squares.len() == 128,
        pos.lists(Piece::spec_of(pos.side_to_move, QUEEN), list),
        0 <= n <= list.len(),
    ensures
        all_move(each_queen(pos, list, n), Piece::spec_of(pos.side_to_move, QUEEN)),
    decreases n,
{
    if n > 0 {
        let queen = Piece::spec_of(pos.side_to_move, QUEEN);
        lemma_each_queen_moves(pos, list, n - 1);
        assert(on_board(list[n - 1] as int));
        lemma_slider_moves_move(pos, list[n - 1], DIAGONAL_OFFSETS@, 4);
        lemma_slider_moves_move(pos, list[n - 1], ORTHOGONAL_OFFSETS@, 4);
        lemma_all_move_both(
            each_queen(pos, list, n - 1),
            slider_moves(pos, list[n - 1], DIAGONAL_OFFSETS@, 4),
            queen,
        );
        lemma_all_move_both(
            each_queen(pos, list, n - 1) + slider_moves(pos, list[n - 1], DIAGONAL_OFFSETS@, 4),
            slider_moves(pos, list[n - 1], ORTHOGONAL_OFFSETS@, 4),
            queen,
        );
    }
}

/// The moves that the men other than the king may try: they do not depend
/// on what is attacked.
pub open spec fn other_moves(pos: Position) -> Seq<Move> {
    let us = pos.side_to_move;
    let pawns = pos.squares_of(Piece::spec_of(us, PAWN));
    let knights = pos.squares_of(Piece::spec_of(us, KNIGHT));
    let bishops = pos.squares_of(Piece::spec_of(us, BISHOP));
    let rooks = pos.squares_of(Piece::spec_of(us, ROOK));
    let queens = pos.squares_of(Piece::spec_of(us, QUEEN));
    each_pawn(pos, pawns, pawns.len() as int) + each_knight(pos, knights, knights.len() as int)
        + each_slider(pos, bishops, DIAGONAL_OFFSETS@, bishops.len() as int) + each_slider(
        pos,
        rooks,
        ORTHOGONAL_OFFSETS@,
        rooks.len() as int,
    ) + each_queen(pos, queens, queens.len() as int)
}

/// A move is tried exactly if it is a castling move, a move of another
/// man than the king, or a step of the king.
pub proof fn lemma_pseudo_parts(pos: Position, attacked: Set<u8>, m: Move)
    requires
        pos.squares.len() == 128,
    ensures
        pseudo_moves(pos, attacked).contains(m) <==> castle_moves(pos, attacked).contains(m)
            || other_moves(pos).contains(m) || king_moves(
            pos,
            pos.king_square(pos.side_to_move),
            attacked,
            8,
        ).contains(m),
        other_moves(pos).contains(m) ==> m.moved_piece != Piece::spec_of(pos.side_to_move, KING),
{
    let us = pos.side_to_move;
    let pawns = pos.squares_of(Piece::spec_of(us, PAWN));
    let knights = pos.squares_of(Piece::spec_of(us, KNIGHT));
    let bishops = pos.squares_of(Piece::spec_of(us, BISHOP));
    let rooks = pos.squares_of(Piece::spec_of(us, ROOK));
    let queens = pos.squares_of(Piece::spec_of(us, QUEEN));
    let a = castle_moves(pos, attacked);
    let b = each_pawn(pos, pawns, pawns.len() as int);
    let c = each_knight(pos, knights, knights.len() as int);
    let d = each_slider(pos, bishops, DIAGONAL_OFFSETS@, bishops.len() as int);
    let e = each_slider(pos, rooks, ORTHOGONAL_OFFSETS@, rooks.len() as int);
    let f = each_queen(pos, queens, queens.len() as int);
    let g = king_moves(pos, pos.king_square(us), attacked, 8);
    lemma_in_either(a, b, m);
    lemma_in_either(a + b, c, m);
    lemma_in_either(a + b + c, d, m);
    lemma_in_either(a + b + c + d, e, m);
    lemma_in_either(a + b + c + d + e, f, m);
    lemma_in_either(a + b + c + d + e + f, g, m);
    lemma_in_either(b, c, m);
    lemma_in_either(b + c, d, m);
    lemma_in_either(b + c + d, e, m);
    lemma_in_either(b + c + d + e, f, m);
    lemma_list_exists(pos, Piece::spec_of(us, PAWN));
    lemma_list_exists(pos, Piece::spec_of(us, KNIGHT));
    lemma_list_exists(pos, Piece::spec_of(us, BISHOP));
    lemma_list_exists(pos, Piece::spec_of(us, ROOK));
    lemma_list_exists(pos, Piece::spec_of(us, QUEEN));
    lemma_each_pawn_moves(pos, pawns, pawns.len() as int);
    lemma_each_knight_moves(pos, knights, knights.len() as int);
    lemma_each_slider_moves(pos, BISHOP, bishops, DIAGONAL_OFFSETS@, bishops.len() as int);
    lemma_each_slider_moves(pos, ROOK, rooks, ORTHOGONAL_OFFSETS@, rooks.len() as int);
    lemma_each_queen_moves(pos, queens, queens.len() as int);
    if other_moves(pos).contains(m) {
        if b.contains(m) {
            let i = choose|i: int| 0 <= i < b.len() && b[i] == m;
        } else if c.contains(m) {
            let i = choose|i: int| 0 <= i < c.len() && c[i] == m;
        } else if d.contains(m) {
            let i = choose|i: int| 0 <= i < d.len() && d[i] == m;
        } else if e.contains(m) {
            let i = choose|i: int| 0 <= i < e.len() && e[i] == m;
        } else {
            let i = choose|i: int| 0 <= i < f.len() && f[i] == m;
        }
    }
}

/// The moves that obey the way the men move, whatever becomes of the king:
/// what the generator tries where no square counts as attacked.
pub open spec fn candidates(pos: Position) -> Seq<Move> {
    pseudo_moves(pos, Set::empty())
}

/// Whether a move keeps the rules about check: it does not leave the
/// mover's king in check, and a castling king is not in check before and
/// would not be on the square that it passes.
pub open spec fn plays_safely(pos: Position, m: Move) -> bool {
    let us = pos.side_to_move;
    &&& !in_check(pos.apply(m), us)
    &&& m.move_type == MoveType::Castle ==> !in_check(pos, us) && !in_check(
        pos.apply(pos.new_move(pos.king_square(us), castle_transit(m), MoveType::Normal)),
        us,
    )
}

/// The legal moves are exactly the moves that obey the way the men move
/// and keep the rules about check.
pub proof fn lemma_generator_is_exact(pos: Position, m: Move)
    requires
        pos.ok(),
    ensures
        legal_moves(pos).contains(m) <==> candidates(pos).contains(m) && plays_safely(pos, m),
{
    reveal(legal_moves);
    let us = pos.side_to_move;
    let king = pos.king_square(us);
    let info = position_info(pos, us);
    let none = Set::<u8>::empty();
    let tried = pseudo_moves(pos, info.attacked);
    lemma_pseudo_parts(pos, info.attacked, m);
    lemma_pseudo_parts(pos, none, m);
    lemma_king_moves_has(pos, king, info.attacked, 8, m);
    lemma_king_moves_has(pos, king, none, 8, m);
    lemma_legal_among_facts(pos, tried, info, tried.len() as int);
    lemma_count_is_check(pos, us);
    if legal_moves(pos).contains(m) {
        lemma_legal_move_facts(pos, m);
        lemma_legal_move_is_safe(pos, m);
        let legal = legal_among(pos, tried, info, tried.len() as int);
        let i = choose|i: int| 0 <= i < legal.len() && legal[i] == m;
        assert(tried.contains(legal[i]));
        if castle_moves(pos, info.attacked).contains(m) {
            let transit = castle_transit(m);
            let step = pos.new_move(king, transit, MoveType::Normal);
            let j = if transit as int == king + 1 {
                4int
            } else {
                3int
            };
            assert(spec_step(king, KING_OFFSETS@[j]) == transit);
            assert(step_move(pos, king, KING_OFFSETS@[j]) =~= seq![step]);
            lemma_king_moves_has(pos, king, info.attacked, 8, step);
            lemma_pseudo_parts(pos, info.attacked, step);
            lemma_king_is_not_pinned(pos, step);
            let at = choose|at: int| 0 <= at < tried.len() && tried[at] == step;
            lemma_legal_among_has(pos, tried, info, tried.len() as int, at);
            lemma_king_step_is_safe(pos, step);
            assert(castle_moves(pos, none).contains(m)) by {
                let made = castle_moves(pos, info.attacked);
                let all = castle_moves(pos, none);
                let q = choose|q: int| 0 <= q < made.len() && made[q] == m;
                if made.len() == all.len() {
                    assert(all[q] == m);
                } else if all.len() == 2 {
                    assert(all[0] == m || all[1] == m);
                }
            }
        }
    }
    if candidates(pos).contains(m) && plays_safely(pos, m) {
        lemma_pseudo_moves(pos, none);
        let all = candidates(pos);
        let at = choose|at: int| 0 <= at < all.len() && all[at] == m;
        assert(pseudo_ok(pos, none, all[at]));
        if castle_moves(pos, none).contains(m) {
            lemma_safe_castle_is_legal(pos, m);
        } else if other_moves(pos).contains(m) {
            if m.move_type == MoveType::EnPassant {
                lemma_safe_en_passant_is_legal(pos, m);
            } else {
                lemma_safe_plain_move_is_legal(pos, m);
            }
        } else {
            let i = choose|i: int|
                0 <= i < 8 && #[trigger] step_move(pos, king, KING_OFFSETS@[i]).len() > 0 && m
                    == step_move(pos, king, KING_OFFSETS@[i])[0] && !none.contains(m.end_square);
            lemma_safe_king_step_is_legal(pos, m, i);
        }
        assert(tried.contains(m));
        let q = choose|q: int| 0 <= q < tried.len() && tried[q] == m;
        lemma_legal_among_has(pos, tried, info, tried.len() as int, q);
    }
}

} // verus!
