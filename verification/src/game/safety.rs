//! No legal move leaves the mover's king in check.

use vstd::prelude::*;
use crate::game::accepted::lemma_legal_move_facts;
use crate::game::accepted::lemma_list_exists;
use crate::game::analysis::bump;
use crate::game::analysis::checking_knights;
use crate::game::analysis::checking_pawns;
use crate::game::analysis::counted;
use crate::game::analysis::knight_checks;
use crate::game::analysis::pawn_checks;
use crate::game::analysis::knight_attacks;
use crate::game::analysis::leaper_sweep;
use crate::game::analysis::pawn_attacks;
use crate::game::analysis::position_info;
use crate::game::analysis::ray_sweep;
use crate::game::analysis::slider_sweep;
use crate::game::analysis::sliders_sweep;
use crate::game::analysis::PinAttack;
use crate::game::analysis::Sweep;
use crate::game::check::in_check;
use crate::game::check::lemma_count_is_check;
use crate::game::check::ray_reaches;
use crate::game::check::slider_hits;
use crate::game::chess_util::king_targets;
use crate::game::chess_util::knight_targets;
use crate::game::chess_util::on_board;
use crate::game::chess_util::pawn_targets;
use crate::game::chess_util::{DIAGONAL_OFFSETS, ORTHOGONAL_OFFSETS};
use crate::game::movegen::any_line_attacker;
use crate::game::movegen::castle_moves;
use crate::game::movegen::en_passant_exposes;
use crate::game::movegen::leaves_pin_line;
use crate::game::movegen::legal_moves;
use crate::game::movegen::line_attacker;
use crate::game::movegen::slider_attacks;
use crate::game::moves::Move;
use crate::game::moves::MoveType;
use crate::game::piece::Colour;
use crate::game::piece::Piece;
use crate::game::piece::{BISHOP, KING, KNIGHT, PAWN, QUEEN, ROOK};
use crate::game::position::castle_rook_squares;
use crate::game::position::Position;

verus! {

/// Whether a sweep has all that another one had before it: the attacked
/// squares, the squares that answer a check, and the pins in their places.
pub open spec fn grows(before: Sweep, after: Sweep) -> bool {
    &&& before.attacked.subset_of(after.attacked)
    &&& before.block.subset_of(after.block)
    &&& before.pins.len() <= after.pins.len()
    &&& forall|i: int| 0 <= i < before.pins.len() ==> after.pins[i] == before.pins[i]
}

/// Whether a walk from `from` along `dir` comes to `target` within `steps`
/// steps, over squares that are empty or hold the king on `king`.
pub open spec fn xray_reaches(
    squares: Seq<Piece>,
    from: int,
    dir: int,
    steps: nat,
    target: int,
    king: int,
) -> bool
    decreases steps,
{
    let t = from + dir;
    steps > 0 && on_board(t) && (t == target || ((squares[t] == Piece::Empty || t == king)
        && xray_reaches(squares, t, dir, (steps - 1) as nat, target, king)))
}

/// Whether the man on `from` is `slider` and a line from it along one of
/// `dirs` comes to `target`, the king on `king` not counted as in the way.
pub open spec fn xray_hits(
    squares: Seq<Piece>,
    slider: Piece,
    dirs: Seq<i8>,
    from: int,
    target: int,
    king: int,
) -> bool {
    on_board(from) && squares[from] == slider && exists|i: int|
        0 <= i < dirs.len() && #[trigger] xray_reaches(
            squares,
            from,
            dirs[i] as int,
            7,
            target,
            king,
        )
}

/// Whether a man of the other side would attack `target` if the king of
/// `colour` were not in the way.
pub open spec fn would_attack(pos: Position, colour: Colour, target: u8) -> bool {
    let by = colour.spec_opposite();
    let king = pos.king_square(colour) as int;
    ||| king_targets(pos.king_square(by)).contains(target)
    ||| exists|sq: int|
        on_board(sq) && #[trigger] pos.squares[sq] == Piece::spec_of(by, PAWN) && pawn_targets(
            sq as u8,
            by,
        ).contains(target)
    ||| exists|sq: int|
        on_board(sq) && #[trigger] pos.squares[sq] == Piece::spec_of(by, KNIGHT) && knight_targets(
            sq as u8,
        ).contains(target)
    ||| exists|sq: int| #[trigger]
        xray_hits(pos.squares, Piece::spec_of(by, BISHOP), DIAGONAL_OFFSETS@, sq, target as int, king)
    ||| exists|sq: int| #[trigger]
        xray_hits(pos.squares, Piece::spec_of(by, QUEEN), DIAGONAL_OFFSETS@, sq, target as int, king)
    ||| exists|sq: int| #[trigger]
        xray_hits(pos.squares, Piece::spec_of(by, ROOK), ORTHOGONAL_OFFSETS@, sq, target as int, king)
    ||| exists|sq: int| #[trigger]
        xray_hits(
            pos.squares,
            Piece::spec_of(by, QUEEN),
            ORTHOGONAL_OFFSETS@,
            sq,
            target as int,
            king,
        )
}

/// A walk only adds to the sweep. While it has met no man of the king's
/// side but the king, its line ends up among the attacked squares, and so
/// does every square that it comes to past the king alone.
pub proof fn lemma_ray_grows(
    pos: Position,
    colour: Colour,
    king: u8,
    origin: u8,
    dir: int,
    cur: int,
    steps: nat,
    line: Set<u8>,
    state: PinAttack,
    acc: Sweep,
    target: u8,
)
    ensures
        grows(acc, ray_sweep(pos, colour, king, origin, dir, cur, steps, line, state, acc)),
        state == PinAttack::NoneFound || state == PinAttack::ThroughKing ==> line.subset_of(
            ray_sweep(pos, colour, king, origin, dir, cur, steps, line, state, acc).attacked,
        ),
        (state == PinAttack::NoneFound || state == PinAttack::ThroughKing) && xray_reaches(
            pos.squares,
            cur,
            dir,
            steps,
            target as int,
            king as int,
        ) ==> ray_sweep(
            pos,
            colour,
            king,
            origin,
            dir,
            cur,
            steps,
            line,
            state,
            acc,
        ).attacked.contains(target),
    decreases steps,
{
    let t = cur + dir;
    if !(steps == 0 || !on_board(t)) {
        let line2 = line.insert(t as u8);
        let rest = (steps - 1) as nat;
        if t == king {
            match state {
                PinAttack::NoneFound => {
                    lemma_ray_grows(
                        pos,
                        colour,
                        king,
                        origin,
                        dir,
                        t,
                        rest,
                        line2,
                        PinAttack::ThroughKing,
                        acc.with_check(line2.insert(origin)),
                        target,
                    );
                },
                PinAttack::Pin(pinned) => {
                    lemma_ray_grows(
                        pos,
                        colour,
                        king,
                        origin,
                        dir,
                        t,
                        rest,
                        line2,
                        state,
                        acc.with_pin(pinned, line2.insert(origin)),
                        target,
                    );
                },
                _ => {
                    lemma_ray_grows(
                        pos,
                        colour,
                        king,
                        origin,
                        dir,
                        t,
                        rest,
                        line2,
                        state,
                        acc,
                        target,
                    );
                },
            }
        } else {
            let piece = pos.squares[t];
            if piece == Piece::Empty {
                lemma_ray_grows(
                    pos,
                    colour,
                    king,
                    origin,
                    dir,
                    t,
                    rest,
                    line2,
                    state,
                    acc,
                    target,
                );
            } else if piece.spec_colour() == colour {
                match state {
                    PinAttack::NoneFound => {
                        lemma_ray_grows(
                            pos,
                            colour,
                            king,
                            origin,
                            dir,
                            t,
                            rest,
                            line2,
                            PinAttack::Pin(t as u8),
                            acc.with_attacks(line2),
                            target,
                        );
                    },
                    PinAttack::Pin(_) => {
                        lemma_ray_grows(
                            pos,
                            colour,
                            king,
                            origin,
                            dir,
                            t,
                            rest,
                            line2,
                            PinAttack::DoubleBlocked,
                            acc,
                            target,
                        );
                    },
                    _ => {
                        lemma_ray_grows(
                            pos,
                            colour,
                            king,
                            origin,
                            dir,
                            t,
                            rest,
                            line2,
                            state,
                            acc,
                            target,
                        );
                    },
                }
            }
        }
    }
}

/// The walks from one slider only add to the sweep, and what one of them
/// comes to past the king alone is attacked.
pub proof fn lemma_slider_grows(
    pos: Position,
    colour: Colour,
    king: u8,
    origin: u8,
    dirs: Seq<i8>,
    i: int,
    acc: Sweep,
    target: u8,
)
    requires
        0 <= i <= dirs.len(),
    ensures
        grows(acc, slider_sweep(pos, colour, king, origin, dirs, i, acc)),
        (exists|k: int|
            i <= k < dirs.len() && #[trigger] xray_reaches(
                pos.squares,
                origin as int,
                dirs[k] as int,
                7,
                target as int,
                king as int,
            )) ==> slider_sweep(pos, colour, king, origin, dirs, i, acc).attacked.contains(target),
    decreases dirs.len() - i,
{
    if i < dirs.len() {
        let next = ray_sweep(
            pos,
            colour,
            king,
            origin,
            dirs[i] as int,
            origin as int,
            7,
            Set::empty(),
            PinAttack::NoneFound,
            acc,
        );
        lemma_ray_grows(
            pos,
            colour,
            king,
            origin,
            dirs[i] as int,
            origin as int,
            7,
            Set::empty(),
            PinAttack::NoneFound,
            acc,
            target,
        );
        lemma_slider_grows(pos, colour, king, origin, dirs, i + 1, next, target);
        if exists|k: int|
            i <= k < dirs.len() && #[trigger] xray_reaches(
                pos.squares,
                origin as int,
                dirs[k] as int,
                7,
                target as int,
                king as int,
            ) {
            let k = choose|k: int|
                i <= k < dirs.len() && #[trigger] xray_reaches(
                    pos.squares,
                    origin as int,
                    dirs[k] as int,
                    7,
                    target as int,
                    king as int,
                );
            if k != i {
                assert(i + 1 <= k < dirs.len());
            }
        }
    }
}

/// The walks from the sliders of a list only add to the sweep, and what one
/// of them comes to past the king alone is attacked.
pub proof fn lemma_sliders_grow(
    pos: Position,
    colour: Colour,
    king: u8,
    list: Seq<u8>,
    dirs: Seq<i8>,
    j: int,
    acc: Sweep,
    target: u8,
)
    requires
        0 <= j <= list.len(),
    ensures
        grows(acc, sliders_sweep(pos, colour, king, list, dirs, j, acc)),
        (exists|a: int, k: int|
            j <= a < list.len() && 0 <= k < dirs.len() && #[trigger] xray_reaches(
                pos.squares,
                list[a] as int,
                dirs[k] as int,
                7,
                target as int,
                king as int,
            )) ==> sliders_sweep(pos, colour, king, list, dirs, j, acc).attacked.contains(target),
    decreases list.len() - j,
{
    if j < list.len() {
        let next = slider_sweep(pos, colour, king, list[j], dirs, 0, acc);
        lemma_slider_grows(pos, colour, king, list[j], dirs, 0, acc, target);
        lemma_sliders_grow(pos, colour, king, list, dirs, j + 1, next, target);
        if exists|a: int, k: int|
            j <= a < list.len() && 0 <= k < dirs.len() && #[trigger] xray_reaches(
                pos.squares,
                list[a] as int,
                dirs[k] as int,
                7,
                target as int,
                king as int,
            ) {
            let (a, k) = choose|a: int, k: int|
                j <= a < list.len() && 0 <= k < dirs.len() && #[trigger] xray_reaches(
                    pos.squares,
                    list[a] as int,
                    dirs[k] as int,
                    7,
                    target as int,
                    king as int,
                );
            if a != j {
                assert(j + 1 <= a < list.len());
            }
        }
    }
}

proof fn lemma_pawn_cover(pawns: Seq<u8>, colour: Colour, n: int, i: int)
    requires
        0 <= i < n <= pawns.len(),
    ensures
        pawn_targets(pawns[i], colour).subset_of(pawn_attacks(pawns, colour, n)),
    decreases n,
{
    if i < n - 1 {
        lemma_pawn_cover(pawns, colour, n - 1, i);
    }
}

proof fn lemma_knight_cover(knights: Seq<u8>, n: int, i: int)
    requires
        0 <= i < n <= knights.len(),
    ensures
        knight_targets(knights[i]).subset_of(knight_attacks(knights, n)),
    decreases n,
{
    if i < n - 1 {
        lemma_knight_cover(knights, n - 1, i);
    }
}

/// A slider of a list that comes to a square past the king alone sits on a
/// square that holds it, and the other way round.
proof fn lemma_xray_from_list(pos: Position, slider: Piece, dirs: Seq<i8>, sq: int, target: u8, king: u8)
    requires
        pos.squares.len() == 128,
        xray_hits(pos.squares, slider, dirs, sq, target as int, king as int),
    ensures
        exists|a: int, k: int|
            0 <= a < pos.squares_of(slider).len() && 0 <= k < dirs.len() && #[trigger] xray_reaches(
                pos.squares,
                pos.squares_of(slider)[a] as int,
                dirs[k] as int,
                7,
                target as int,
                king as int,
            ),
{
    lemma_list_exists(pos, slider);
    let list = pos.squares_of(slider);
    let k = choose|k: int|
        0 <= k < dirs.len() && #[trigger] xray_reaches(
            pos.squares,
            sq,
            dirs[k] as int,
            7,
            target as int,
            king as int,
        );
    assert(list.contains(sq as u8));
    let a = choose|a: int| 0 <= a < list.len() && list[a] == sq as u8;
    assert(xray_reaches(pos.squares, list[a] as int, dirs[k] as int, 7, target as int, king as int));
}

/// The sweep holds as attacked every square that a man of the other side
/// would attack if the king were not in the way.
pub proof fn lemma_attacked_covers(pos: Position, colour: Colour, target: u8)
    requires
        pos.squares.len() == 128,
        would_attack(pos, colour, target),
    ensures
        position_info(pos, colour).attacked.contains(target),
{
    let opp = colour.spec_opposite();
    let king = pos.king_square(colour);
    let pawn = Piece::spec_of(opp, PAWN);
    let knight = Piece::spec_of(opp, KNIGHT);
    let bishop = Piece::spec_of(opp, BISHOP);
    let rook = Piece::spec_of(opp, ROOK);
    let queen = Piece::spec_of(opp, QUEEN);
    let pawns = pos.squares_of(pawn);
    let knights = pos.squares_of(knight);
    let bishops = pos.squares_of(bishop);
    let rooks = pos.squares_of(rook);
    let queens = pos.squares_of(queen);
    lemma_list_exists(pos, pawn);
    lemma_list_exists(pos, knight);
    let a = leaper_sweep(pos, colour);
    let b = sliders_sweep(pos, colour, king, bishops, DIAGONAL_OFFSETS@, 0, a);
    let c = sliders_sweep(pos, colour, king, queens, DIAGONAL_OFFSETS@, 0, b);
    let d = sliders_sweep(pos, colour, king, rooks, ORTHOGONAL_OFFSETS@, 0, c);
    let e = sliders_sweep(pos, colour, king, queens, ORTHOGONAL_OFFSETS@, 0, d);
    lemma_sliders_grow(pos, colour, king, bishops, DIAGONAL_OFFSETS@, 0, a, target);
    lemma_sliders_grow(pos, colour, king, queens, DIAGONAL_OFFSETS@, 0, b, target);
    lemma_sliders_grow(pos, colour, king, rooks, ORTHOGONAL_OFFSETS@, 0, c, target);
    lemma_sliders_grow(pos, colour, king, queens, ORTHOGONAL_OFFSETS@, 0, d, target);
    if king_targets(pos.king_square(opp)).contains(target) {
        assert(a.attacked.contains(target));
    } else if exists|sq: int|
        on_board(sq) && #[trigger] pos.squares[sq] == pawn && pawn_targets(sq as u8, opp).contains(
            target,
        ) {
        let sq = choose|sq: int|
            on_board(sq) && #[trigger] pos.squares[sq] == pawn && pawn_targets(
                sq as u8,
                opp,
            ).contains(target);
        assert(pawns.contains(sq as u8));
        let i = choose|i: int| 0 <= i < pawns.len() && pawns[i] == sq as u8;
        lemma_pawn_cover(pawns, opp, pawns.len() as int, i);
        assert(a.attacked.contains(target));
    } else if exists|sq: int|
        on_board(sq) && #[trigger] pos.squares[sq] == knight && knight_targets(sq as u8).contains(
            target,
        ) {
        let sq = choose|sq: int|
            on_board(sq) && #[trigger] pos.squares[sq] == knight && knight_targets(
                sq as u8,
            ).contains(target);
        assert(knights.contains(sq as u8));
        let i = choose|i: int| 0 <= i < knights.len() && knights[i] == sq as u8;
        lemma_knight_cover(knights, knights.len() as int, i);
        assert(a.attacked.contains(target));
    } else if exists|sq: int| #[trigger]
        xray_hits(pos.squares, bishop, DIAGONAL_OFFSETS@, sq, target as int, king as int) {
        let sq = choose|sq: int| #[trigger]
            xray_hits(pos.squares, bishop, DIAGONAL_OFFSETS@, sq, target as int, king as int);
        lemma_xray_from_list(pos, bishop, DIAGONAL_OFFSETS@, sq, target, king);
        assert(b.attacked.contains(target));
    } else if exists|sq: int| #[trigger]
        xray_hits(pos.squares, queen, DIAGONAL_OFFSETS@, sq, target as int, king as int) {
        let sq = choose|sq: int| #[trigger]
            xray_hits(pos.squares, queen, DIAGONAL_OFFSETS@, sq, target as int, king as int);
        lemma_xray_from_list(pos, queen, DIAGONAL_OFFSETS@, sq, target, king);
        assert(c.attacked.contains(target));
    } else if exists|sq: int| #[trigger]
        xray_hits(pos.squares, rook, ORTHOGONAL_OFFSETS@, sq, target as int, king as int) {
        let sq = choose|sq: int| #[trigger]
            xray_hits(pos.squares, rook, ORTHOGONAL_OFFSETS@, sq, target as int, king as int);
        lemma_xray_from_list(pos, rook, ORTHOGONAL_OFFSETS@, sq, target, king);
        assert(d.attacked.contains(target));
    } else {
        let sq = choose|sq: int| #[trigger]
            xray_hits(pos.squares, queen, ORTHOGONAL_OFFSETS@, sq, target as int, king as int);
        lemma_xray_from_list(pos, queen, ORTHOGONAL_OFFSETS@, sq, target, king);
        assert(e.attacked.contains(target));
    }
}

/// A line that is free on a board where the king has left its square comes
/// to the same square on the board before, the king not counted.
proof fn lemma_ray_past_king(
    before: Seq<Piece>,
    after: Seq<Piece>,
    from: int,
    dir: int,
    steps: nat,
    target: int,
    king: int,
)
    requires
        forall|t: int|
            0 <= t < 128 && t != target && #[trigger] after[t] == Piece::Empty ==> before[t]
                == Piece::Empty || t == king,
        ray_reaches(after, from, dir, steps, target),
    ensures
        xray_reaches(before, from, dir, steps, target, king),
    decreases steps,
{
    let t = from + dir;
    if t != target {
        lemma_ray_past_king(before, after, t, dir, (steps - 1) as nat, target, king);
    }
}

proof fn lemma_slider_past_king(
    before: Seq<Piece>,
    after: Seq<Piece>,
    slider: Piece,
    dirs: Seq<i8>,
    sq: int,
    target: int,
    king: int,
)
    requires
        forall|t: int|
            0 <= t < 128 && t != target && #[trigger] after[t] == Piece::Empty ==> before[t]
                == Piece::Empty || t == king,
        on_board(sq) && after[sq] == slider ==> before[sq] == slider,
        slider_hits(after, slider, dirs, sq, target),
    ensures
        xray_hits(before, slider, dirs, sq, target, king),
{
    let i = choose|i: int|
        0 <= i < dirs.len() && #[trigger] ray_reaches(after, sq, dirs[i] as int, 7, target);
    lemma_ray_past_king(before, after, sq, dirs[i] as int, 7, target, king);
}

/// A legal step of the king never ends in check.
pub proof fn lemma_king_step_is_safe(pos: Position, m: Move)
    requires
        pos.ok(),
        legal_moves(pos).contains(m),
        m.moved_piece == Piece::spec_of(pos.side_to_move, KING),
        m.move_type != MoveType::Castle,
    ensures
        !in_check(pos.apply(m), pos.side_to_move),
{
    let us = pos.side_to_move;
    let by = us.spec_opposite();
    let info = position_info(pos, us);
    lemma_legal_move_facts(pos, m);
    let after = pos.apply(m);
    let start = m.start_square as int;
    let end = m.end_square;
    assert(start == pos.king_square(us));
    assert(after.king_square(us) == end);
    assert(after.king_square(by) == pos.king_square(by));
    assert(after.squares == pos.squares.update(end as int, m.moved_piece).update(
        start,
        Piece::Empty,
    ));
    assert forall|t: int|
        0 <= t < 128 && t != end && #[trigger] after.squares[t] == Piece::Empty implies pos.squares[t]
        == Piece::Empty || t == start by {}
    if in_check(after, us) {
        let bishop = Piece::spec_of(by, BISHOP);
        let rook = Piece::spec_of(by, ROOK);
        let queen = Piece::spec_of(by, QUEEN);
        if king_targets(after.king_square(by)).contains(end) {
        } else if exists|sq: int|
            on_board(sq) && #[trigger] after.squares[sq] == Piece::spec_of(by, PAWN)
                && pawn_targets(sq as u8, by).contains(end) {
            let sq = choose|sq: int|
                on_board(sq) && #[trigger] after.squares[sq] == Piece::spec_of(by, PAWN)
                    && pawn_targets(sq as u8, by).contains(end);
            assert(pos.squares[sq] == Piece::spec_of(by, PAWN));
        } else if exists|sq: int|
            on_board(sq) && #[trigger] after.squares[sq] == Piece::spec_of(by, KNIGHT)
                && knight_targets(sq as u8).contains(end) {
            let sq = choose|sq: int|
                on_board(sq) && #[trigger] after.squares[sq] == Piece::spec_of(by, KNIGHT)
                    && knight_targets(sq as u8).contains(end);
            assert(pos.squares[sq] == Piece::spec_of(by, KNIGHT));
        } else if exists|sq: int| #[trigger]
            slider_hits(after.squares, bishop, DIAGONAL_OFFSETS@, sq, end as int) {
            let sq = choose|sq: int| #[trigger]
                slider_hits(after.squares, bishop, DIAGONAL_OFFSETS@, sq, end as int);
            lemma_slider_past_king(
                pos.squares,
                after.squares,
                bishop,
                DIAGONAL_OFFSETS@,
                sq,
                end as int,
                start,
            );
        } else if exists|sq: int| #[trigger]
            slider_hits(after.squares, queen, DIAGONAL_OFFSETS@, sq, end as int) {
            let sq = choose|sq: int| #[trigger]
                slider_hits(after.squares, queen, DIAGONAL_OFFSETS@, sq, end as int);
            lemma_slider_past_king(
                pos.squares,
                after.squares,
                queen,
                DIAGONAL_OFFSETS@,
                sq,
                end as int,
                start,
            );
        } else if exists|sq: int| #[trigger]
            slider_hits(after.squares, rook, ORTHOGONAL_OFFSETS@, sq, end as int) {
            let sq = choose|sq: int| #[trigger]
                slider_hits(after.squares, rook, ORTHOGONAL_OFFSETS@, sq, end as int);
            lemma_slider_past_king(
                pos.squares,
                after.squares,
                rook,
                ORTHOGONAL_OFFSETS@,
                sq,
                end as int,
                start,
            );
        } else {
            let sq = choose|sq: int| #[trigger]
                slider_hits(after.squares, queen, ORTHOGONAL_OFFSETS@, sq, end as int);
            lemma_slider_past_king(
                pos.squares,
                after.squares,
                queen,
                ORTHOGONAL_OFFSETS@,
                sq,
                end as int,
                start,
            );
        }
        assert(would_attack(pos, us, end));
        lemma_attacked_covers(pos, us, end);
    }
}

/// Whether `x` is one of the squares that a walk from `from` along `dir`
/// visits up to `target`, within `steps` steps.
pub open spec fn on_walk(from: int, dir: int, steps: nat, target: int, x: int) -> bool
    decreases steps,
{
    let t = from + dir;
    steps > 0 && on_board(t) && (t == x || (t != target && on_walk(
        t,
        dir,
        (steps - 1) as nat,
        target,
        x,
    )))
}

/// Whether a walk from `from` along `dir` comes to `target` within `steps`
/// steps over empty squares and, once, the square `blocker`.
pub open spec fn pin_reaches(
    squares: Seq<Piece>,
    from: int,
    dir: int,
    steps: nat,
    target: int,
    blocker: int,
) -> bool
    decreases steps,
{
    let t = from + dir;
    steps > 0 && on_board(t) && t != target && if t == blocker {
        ray_reaches(squares, t, dir, (steps - 1) as nat, target)
    } else {
        squares[t] == Piece::Empty && pin_reaches(
            squares,
            t,
            dir,
            (steps - 1) as nat,
            target,
            blocker,
        )
    }
}

/// Whether a sweep holds a pin of the man on `blocker` to squares that all
/// lie in `line`, on the slider's own square `origin`, or on the walk from
/// `from` to the king.
pub open spec fn pins_man(
    sweep: Sweep,
    blocker: u8,
    origin: u8,
    line: Set<u8>,
    from: int,
    dir: int,
    steps: nat,
    king: u8,
    least: int,
) -> bool {
    exists|i: int|
        least <= i < sweep.pins.len() && (#[trigger] sweep.pins[i]).0 == blocker && forall|x: u8|
            sweep.pins[i].1.contains(x) ==> x == origin || line.contains(x) || on_walk(
                from,
                dir,
                steps,
                king as int,
                x as int,
            )
}

/// A walk visits squares on one side of where it starts only.
pub proof fn lemma_walk_moves_on(from: int, dir: int, steps: nat, target: int, x: int)
    requires
        on_walk(from, dir, steps, target, x),
    ensures
        dir > 0 ==> x > from,
        dir < 0 ==> x < from,
        dir != 0 ==> x != from,
    decreases steps,
{
    let t = from + dir;
    if t != x {
        lemma_walk_moves_on(t, dir, (steps - 1) as nat, target, x);
    }
}

/// A walk past the pinned man that comes to the king records the pin.
proof fn lemma_ray_records_pin(
    pos: Position,
    colour: Colour,
    king: u8,
    origin: u8,
    dir: int,
    cur: int,
    steps: nat,
    line: Set<u8>,
    blocker: u8,
    acc: Sweep,
)
    requires
        ray_reaches(pos.squares, cur, dir, steps, king as int),
    ensures
        pins_man(
            ray_sweep(
                pos,
                colour,
                king,
                origin,
                dir,
                cur,
                steps,
                line,
                PinAttack::Pin(blocker),
                acc,
            ),
            blocker,
            origin,
            line,
            cur,
            dir,
            steps,
            king,
            acc.pins.len() as int,
        ),
    decreases steps,
{
    let t = cur + dir;
    let line2 = line.insert(t as u8);
    let rest = (steps - 1) as nat;
    let state = PinAttack::Pin(blocker);
    let result = ray_sweep(pos, colour, king, origin, dir, cur, steps, line, state, acc);
    if t == king {
        let pinned = acc.with_pin(blocker, line2.insert(origin));
        lemma_ray_grows(pos, colour, king, origin, dir, t, rest, line2, state, pinned, 0);
        let i = acc.pins.len() as int;
        assert(result.pins[i] == pinned.pins[i]);
        assert(on_walk(cur, dir, steps, king as int, t));
        assert forall|x: u8| result.pins[i].1.contains(x) implies x == origin || line.contains(x)
            || on_walk(cur, dir, steps, king as int, x as int) by {}
    } else {
        lemma_ray_records_pin(pos, colour, king, origin, dir, t, rest, line2, blocker, acc);
        let i = choose|i: int|
            acc.pins.len() <= i < result.pins.len() && (#[trigger] result.pins[i]).0 == blocker
                && forall|x: u8|
                result.pins[i].1.contains(x) ==> x == origin || line2.contains(x) || on_walk(
                    t,
                    dir,
                    rest,
                    king as int,
                    x as int,
                );
        assert(on_walk(cur, dir, steps, king as int, t));
        assert forall|x: u8| result.pins[i].1.contains(x) implies x == origin || line.contains(x)
            || on_walk(cur, dir, steps, king as int, x as int) by {
            if on_walk(t, dir, rest, king as int, x as int) {
                assert(on_walk(cur, dir, steps, king as int, x as int));
            } else if line2.contains(x) && !line.contains(x) {
                assert(x as int == t);
            }
        }
    }
}

/// A walk that comes to the king over one man of the king's side records
/// the pin of that man.
proof fn lemma_ray_finds_pin(
    pos: Position,
    colour: Colour,
    king: u8,
    origin: u8,
    dir: int,
    cur: int,
    steps: nat,
    line: Set<u8>,
    blocker: u8,
    acc: Sweep,
)
    requires
        pin_reaches(pos.squares, cur, dir, steps, king as int, blocker as int),
        on_board(blocker as int),
        pos.squares[blocker as int] != Piece::Empty,
        pos.squares[blocker as int].spec_colour() == colour,
        blocker != king,
    ensures
        pins_man(
            ray_sweep(
                pos,
                colour,
                king,
                origin,
                dir,
                cur,
                steps,
                line,
                PinAttack::NoneFound,
                acc,
            ),
            blocker,
            origin,
            line,
            cur,
            dir,
            steps,
            king,
            acc.pins.len() as int,
        ),
    decreases steps,
{
    let t = cur + dir;
    let line2 = line.insert(t as u8);
    let rest = (steps - 1) as nat;
    let result = ray_sweep(
        pos,
        colour,
        king,
        origin,
        dir,
        cur,
        steps,
        line,
        PinAttack::NoneFound,
        acc,
    );
    if t == blocker {
        lemma_ray_records_pin(
            pos,
            colour,
            king,
            origin,
            dir,
            t,
            rest,
            line2,
            blocker,
            acc.with_attacks(line2),
        );
    } else {
        lemma_ray_finds_pin(pos, colour, king, origin, dir, t, rest, line2, blocker, acc);
    }
    let i = choose|i: int|
        acc.pins.len() <= i < result.pins.len() && (#[trigger] result.pins[i]).0 == blocker
            && forall|x: u8|
            result.pins[i].1.contains(x) ==> x == origin || line2.contains(x) || on_walk(
                t,
                dir,
                rest,
                king as int,
                x as int,
            );
    assert(on_walk(cur, dir, steps, king as int, t));
    assert forall|x: u8| result.pins[i].1.contains(x) implies x == origin || line.contains(x)
        || on_walk(cur, dir, steps, king as int, x as int) by {
        if on_walk(t, dir, rest, king as int, x as int) {
            assert(on_walk(cur, dir, steps, king as int, x as int));
        } else if line2.contains(x) && !line.contains(x) {
            assert(x as int == t);
        }
    }
}

/// Whether a sweep holds a pin of the man on `blocker` by the slider on
/// `origin` along `dir`: to squares on the line from the slider to the king
/// only.
pub open spec fn has_pin(sweep: Sweep, blocker: u8, origin: u8, dir: int, king: u8) -> bool {
    pins_man(sweep, blocker, origin, Set::empty(), origin as int, dir, 7, king, 0)
}

proof fn lemma_pin_stays(before: Sweep, after: Sweep, blocker: u8, origin: u8, dir: int, king: u8)
    requires
        grows(before, after),
        has_pin(before, blocker, origin, dir, king),
    ensures
        has_pin(after, blocker, origin, dir, king),
{
    let i = choose|i: int|
        0 <= i < before.pins.len() && (#[trigger] before.pins[i]).0 == blocker && forall|x: u8|
            before.pins[i].1.contains(x) ==> x == origin || Set::<u8>::empty().contains(x)
                || on_walk(origin as int, dir, 7, king as int, x as int);
    assert(after.pins[i] == before.pins[i]);
}

proof fn lemma_slider_finds_pin(
    pos: Position,
    colour: Colour,
    king: u8,
    origin: u8,
    dirs: Seq<i8>,
    i: int,
    acc: Sweep,
    k: int,
    blocker: u8,
)
    requires
        0 <= i <= k < dirs.len(),
        pin_reaches(pos.squares, origin as int, dirs[k] as int, 7, king as int, blocker as int),
        on_board(blocker as int),
        pos.squares[blocker as int] != Piece::Empty,
        pos.squares[blocker as int].spec_colour() == colour,
        blocker != king,
    ensures
        has_pin(
            slider_sweep(pos, colour, king, origin, dirs, i, acc),
            blocker,
            origin,
            dirs[k] as int,
            king,
        ),
    decreases dirs.len() - i,
{
    let next = ray_sweep(
        pos,
        colour,
        king,
        origin,
        dirs[i] as int,
        origin as int,
        7,
        Set::empty(),
        PinAttack::NoneFound,
        acc,
    );
    if i == k {
        lemma_ray_finds_pin(
            pos,
            colour,
            king,
            origin,
            dirs[i] as int,
            origin as int,
            7,
            Set::empty(),
            blocker,
            acc,
        );
        assert(has_pin(next, blocker, origin, dirs[k] as int, king)) by {
            let j = choose|j: int|
                acc.pins.len() <= j < next.pins.len() && (#[trigger] next.pins[j]).0 == blocker
                    && forall|x: u8|
                    next.pins[j].1.contains(x) ==> x == origin || Set::<u8>::empty().contains(x)
                        || on_walk(origin as int, dirs[i] as int, 7, king as int, x as int);
            assert(0 <= j);
        }
        lemma_slider_grows(pos, colour, king, origin, dirs, i + 1, next, 0);
        lemma_pin_stays(
            next,
            slider_sweep(pos, colour, king, origin, dirs, i + 1, next),
            blocker,
            origin,
            dirs[k] as int,
            king,
        );
    } else {
        lemma_slider_finds_pin(pos, colour, king, origin, dirs, i + 1, next, k, blocker);
    }
}

proof fn lemma_sliders_find_pin(
    pos: Position,
    colour: Colour,
    king: u8,
    list: Seq<u8>,
    dirs: Seq<i8>,
    j: int,
    acc: Sweep,
    a: int,
    k: int,
    blocker: u8,
)
    requires
        0 <= j <= a < list.len(),
        0 <= k < dirs.len(),
        pin_reaches(pos.squares, list[a] as int, dirs[k] as int, 7, king as int, blocker as int),
        on_board(blocker as int),
        pos.squares[blocker as int] != Piece::Empty,
        pos.squares[blocker as int].spec_colour() == colour,
        blocker != king,
    ensures
        has_pin(
            sliders_sweep(pos, colour, king, list, dirs, j, acc),
            blocker,
            list[a],
            dirs[k] as int,
            king,
        ),
    decreases list.len() - j,
{
    let next = slider_sweep(pos, colour, king, list[j], dirs, 0, acc);
    if j == a {
        lemma_slider_finds_pin(pos, colour, king, list[j], dirs, 0, acc, k, blocker);
        lemma_sliders_grow(pos, colour, king, list, dirs, j + 1, next, 0);
        lemma_pin_stays(
            next,
            sliders_sweep(pos, colour, king, list, dirs, j + 1, next),
            blocker,
            list[a],
            dirs[k] as int,
            king,
        );
    } else {
        lemma_sliders_find_pin(pos, colour, king, list, dirs, j + 1, next, a, k, blocker);
    }
}

/// Which of the four walks of the sweep a slider and its directions belong
/// to.
pub open spec fn is_sweep_pair(by: Colour, slider: Piece, dirs: Seq<i8>) -> bool {
    ||| slider == Piece::spec_of(by, BISHOP) && dirs == DIAGONAL_OFFSETS@
    ||| slider == Piece::spec_of(by, QUEEN) && dirs == DIAGONAL_OFFSETS@
    ||| slider == Piece::spec_of(by, ROOK) && dirs == ORTHOGONAL_OFFSETS@
    ||| slider == Piece::spec_of(by, QUEEN) && dirs == ORTHOGONAL_OFFSETS@
}

/// The sweep finds every pin: where a slider of the other side has a line
/// to the king that one man of the king's side alone is in the way of, the
/// sweep holds a pin of that man to that line.
pub proof fn lemma_sweep_finds_pin(
    pos: Position,
    colour: Colour,
    slider: Piece,
    dirs: Seq<i8>,
    sq: int,
    k: int,
    blocker: u8,
)
    requires
        pos.squares.len() == 128,
        is_sweep_pair(colour.spec_opposite(), slider, dirs),
        on_board(sq),
        pos.squares[sq] == slider,
        0 <= k < dirs.len(),
        pin_reaches(
            pos.squares,
            sq,
            dirs[k] as int,
            7,
            pos.king_square(colour) as int,
            blocker as int,
        ),
        on_board(blocker as int),
        pos.squares[blocker as int] != Piece::Empty,
        pos.squares[blocker as int].spec_colour() == colour,
        blocker != pos.king_square(colour),
    ensures
        has_pin(position_info(pos, colour), blocker, sq as u8, dirs[k] as int, pos.king_square(colour)),
{
    let opp = colour.spec_opposite();
    let king = pos.king_square(colour);
    let bishop = Piece::spec_of(opp, BISHOP);
    let rook = Piece::spec_of(opp, ROOK);
    let queen = Piece::spec_of(opp, QUEEN);
    let bishops = pos.squares_of(bishop);
    let rooks = pos.squares_of(rook);
    let queens = pos.squares_of(queen);
    lemma_list_exists(pos, slider);
    let list = pos.squares_of(slider);
    assert(list.contains(sq as u8));
    let a = choose|a: int| 0 <= a < list.len() && list[a] == sq as u8;
    let s0 = leaper_sweep(pos, colour);
    let s1 = sliders_sweep(pos, colour, king, bishops, DIAGONAL_OFFSETS@, 0, s0);
    let s2 = sliders_sweep(pos, colour, king, queens, DIAGONAL_OFFSETS@, 0, s1);
    let s3 = sliders_sweep(pos, colour, king, rooks, ORTHOGONAL_OFFSETS@, 0, s2);
    let s4 = sliders_sweep(pos, colour, king, queens, ORTHOGONAL_OFFSETS@, 0, s3);
    lemma_sliders_grow(pos, colour, king, queens, DIAGONAL_OFFSETS@, 0, s1, 0);
    lemma_sliders_grow(pos, colour, king, rooks, ORTHOGONAL_OFFSETS@, 0, s2, 0);
    lemma_sliders_grow(pos, colour, king, queens, ORTHOGONAL_OFFSETS@, 0, s3, 0);
    let d = dirs[k] as int;
    if slider == bishop && dirs == DIAGONAL_OFFSETS@ {
        lemma_sliders_find_pin(pos, colour, king, bishops, dirs, 0, s0, a, k, blocker);
        lemma_pin_stays(s1, s2, blocker, sq as u8, d, king);
        lemma_pin_stays(s2, s3, blocker, sq as u8, d, king);
        lemma_pin_stays(s3, s4, blocker, sq as u8, d, king);
    } else if slider == queen && dirs == DIAGONAL_OFFSETS@ {
        lemma_sliders_find_pin(pos, colour, king, queens, dirs, 0, s1, a, k, blocker);
        lemma_pin_stays(s2, s3, blocker, sq as u8, d, king);
        lemma_pin_stays(s3, s4, blocker, sq as u8, d, king);
    } else if slider == rook && dirs == ORTHOGONAL_OFFSETS@ {
        lemma_sliders_find_pin(pos, colour, king, rooks, dirs, 0, s2, a, k, blocker);
        lemma_pin_stays(s3, s4, blocker, sq as u8, d, king);
    } else {
        lemma_sliders_find_pin(pos, colour, king, queens, dirs, 0, s3, a, k, blocker);
    }
}

/// A free line does not pass a square that holds a man.
pub proof fn lemma_walk_avoids(squares: Seq<Piece>, from: int, dir: int, steps: nat, king: int, x: int)
    requires
        ray_reaches(squares, from, dir, steps, king),
        squares[x] != Piece::Empty,
        x != king,
    ensures
        !on_walk(from, dir, steps, king, x),
    decreases steps,
{
    let t = from + dir;
    if t != king {
        lemma_walk_avoids(squares, t, dir, (steps - 1) as nat, king, x);
    }
}

/// A line that is free after a man has left `start`, and does not pass
/// `start`, was free before.
proof fn lemma_ray_unchanged(
    before: Seq<Piece>,
    after: Seq<Piece>,
    from: int,
    dir: int,
    steps: nat,
    king: int,
    start: int,
)
    requires
        ray_reaches(after, from, dir, steps, king),
        forall|t: int|
            0 <= t < 128 && t != start && #[trigger] after[t] == Piece::Empty ==> before[t]
                == Piece::Empty,
        !on_walk(from, dir, steps, king, start),
    ensures
        ray_reaches(before, from, dir, steps, king),
    decreases steps,
{
    let t = from + dir;
    if t != king {
        lemma_ray_unchanged(before, after, t, dir, (steps - 1) as nat, king, start);
    }
}

/// A line that is free after a man has left `start`, and passes `start`,
/// was held by that man alone before.
proof fn lemma_ray_opened(
    before: Seq<Piece>,
    after: Seq<Piece>,
    from: int,
    dir: int,
    steps: nat,
    king: int,
    start: int,
)
    requires
        ray_reaches(after, from, dir, steps, king),
        forall|t: int|
            0 <= t < 128 && t != start && #[trigger] after[t] == Piece::Empty ==> before[t]
                == Piece::Empty,
        on_walk(from, dir, steps, king, start),
        start != king,
        dir != 0,
    ensures
        pin_reaches(before, from, dir, steps, king, start),
    decreases steps,
{
    let t = from + dir;
    let rest = (steps - 1) as nat;
    if t == start {
        if on_walk(t, dir, rest, king, start) {
            lemma_walk_moves_on(t, dir, rest, king, start);
        }
        lemma_ray_unchanged(before, after, t, dir, rest, king, start);
    } else {
        lemma_ray_opened(before, after, t, dir, rest, king, start);
    }
}

pub proof fn lemma_leaves_pin_line(pins: Seq<(u8, Set<u8>)>, m: Move, n: int, i: int)
    requires
        0 <= i < n <= pins.len(),
        pins[i].0 == m.start_square,
        !pins[i].1.contains(m.end_square),
    ensures
        leaves_pin_line(pins, m, n),
    decreases n,
{
    if i < n - 1 {
        lemma_leaves_pin_line(pins, m, n - 1, i);
    }
}

/// Whether a sweep has as many checks as another one and the same squares
/// to answer them on.
pub open spec fn same_checks(before: Sweep, after: Sweep) -> bool {
    after.count == before.count && after.block == before.block
}

/// Whether a sweep has one check more than another one, which had none, and
/// the squares to answer it are the slider's own and those of its walk to
/// the king besides what was there.
pub open spec fn one_check_more(
    before: Sweep,
    after: Sweep,
    origin: u8,
    line: Set<u8>,
    from: int,
    dir: int,
    steps: nat,
    king: u8,
) -> bool {
    &&& after.count == bump(before.count)
    &&& forall|x: u8| #[trigger]
        after.block.contains(x) <==> before.block.contains(x) || x == origin || line.contains(x)
            || on_walk(from, dir, steps, king as int, x as int)
}

/// A walk that has met a man of the king's side, or the king itself, adds
/// no check and no square to answer one.
proof fn lemma_ray_adds_no_check(
    pos: Position,
    colour: Colour,
    king: u8,
    origin: u8,
    dir: int,
    cur: int,
    steps: nat,
    line: Set<u8>,
    state: PinAttack,
    acc: Sweep,
)
    requires
        state != PinAttack::NoneFound,
    ensures
        same_checks(acc, ray_sweep(pos, colour, king, origin, dir, cur, steps, line, state, acc)),
    decreases steps,
{
    let t = cur + dir;
    if !(steps == 0 || !on_board(t)) {
        let line2 = line.insert(t as u8);
        let rest = (steps - 1) as nat;
        if t == king {
            match state {
                PinAttack::Pin(pinned) => {
                    lemma_ray_adds_no_check(
                        pos,
                        colour,
                        king,
                        origin,
                        dir,
                        t,
                        rest,
                        line2,
                        state,
                        acc.with_pin(pinned, line2.insert(origin)),
                    );
                },
                _ => {
                    lemma_ray_adds_no_check(
                        pos,
                        colour,
                        king,
                        origin,
                        dir,
                        t,
                        rest,
                        line2,
                        state,
                        acc,
                    );
                },
            }
        } else {
            let piece = pos.squares[t];
            if piece == Piece::Empty {
                lemma_ray_adds_no_check(
                    pos,
                    colour,
                    king,
                    origin,
                    dir,
                    t,
                    rest,
                    line2,
                    state,
                    acc,
                );
            } else if piece.spec_colour() == colour {
                match state {
                    PinAttack::Pin(_) => {
                        lemma_ray_adds_no_check(
                            pos,
                            colour,
                            king,
                            origin,
                            dir,
                            t,
                            rest,
                            line2,
                            PinAttack::DoubleBlocked,
                            acc,
                        );
                    },
                    _ => {
                        lemma_ray_adds_no_check(
                            pos,
                            colour,
                            king,
                            origin,
                            dir,
                            t,
                            rest,
                            line2,
                            state,
                            acc,
                        );
                    },
                }
            }
        }
    }
}

/// A walk that has met nothing yet adds one check, with the squares of its
/// way to the king to answer it, if it comes to the king, and nothing to
/// the checks if it does not.
pub proof fn lemma_ray_checks(
    pos: Position,
    colour: Colour,
    king: u8,
    origin: u8,
    dir: int,
    cur: int,
    steps: nat,
    line: Set<u8>,
    acc: Sweep,
)
    ensures
        ray_reaches(pos.squares, cur, dir, steps, king as int) ==> one_check_more(
            acc,
            ray_sweep(
                pos,
                colour,
                king,
                origin,
                dir,
                cur,
                steps,
                line,
                PinAttack::NoneFound,
                acc,
            ),
            origin,
            line,
            cur,
            dir,
            steps,
            king,
        ),
        !ray_reaches(pos.squares, cur, dir, steps, king as int) ==> same_checks(
            acc,
            ray_sweep(
                pos,
                colour,
                king,
                origin,
                dir,
                cur,
                steps,
                line,
                PinAttack::NoneFound,
                acc,
            ),
        ),
    decreases steps,
{
    let t = cur + dir;
    let result = ray_sweep(
        pos,
        colour,
        king,
        origin,
        dir,
        cur,
        steps,
        line,
        PinAttack::NoneFound,
        acc,
    );
    let reaches = ray_reaches(pos.squares, cur, dir, steps, king as int);
    if steps == 0 || !on_board(t) {
        assert(!reaches);
        assert(same_checks(acc, result));
    } else {
        let line2 = line.insert(t as u8);
        let rest = (steps - 1) as nat;
        assert(0 <= t < 128);
        if t == king {
            let checked = acc.with_check(line2.insert(origin));
            lemma_ray_adds_no_check(
                pos,
                colour,
                king,
                origin,
                dir,
                t,
                rest,
                line2,
                PinAttack::ThroughKing,
                checked,
            );
            assert(reaches);
            assert(result.count == bump(acc.count));
            assert(result.block == acc.block.union(line2.insert(origin)));
            assert forall|x: u8| #[trigger]
                result.block.contains(x) <==> acc.block.contains(x) || x == origin || line.contains(
                    x,
                ) || on_walk(cur, dir, steps, king as int, x as int) by {
                if x as int == t {
                    assert(on_walk(cur, dir, steps, king as int, x as int));
                    assert(line2.contains(x));
                } else {
                    assert(!on_walk(cur, dir, steps, king as int, x as int));
                    assert(line2.contains(x) == line.contains(x));
                }
            }
            assert(one_check_more(acc, result, origin, line, cur, dir, steps, king));
        } else {
            let piece = pos.squares[t];
            if piece == Piece::Empty {
                lemma_ray_checks(pos, colour, king, origin, dir, t, rest, line2, acc);
                assert(reaches == ray_reaches(pos.squares, t, dir, rest, king as int));
                if reaches {
                    assert(one_check_more(acc, result, origin, line2, t, dir, rest, king));
                    assert forall|x: u8| #[trigger]
                        result.block.contains(x) <==> acc.block.contains(x) || x == origin
                            || line.contains(x) || on_walk(
                            cur,
                            dir,
                            steps,
                            king as int,
                            x as int,
                        ) by {
                        assert(result.block.contains(x) <==> acc.block.contains(x) || x == origin
                            || line2.contains(x) || on_walk(t, dir, rest, king as int, x as int));
                        if x as int == t {
                            assert(line2.contains(x));
                            assert(on_walk(cur, dir, steps, king as int, x as int));
                        } else {
                            assert(line2.contains(x) == line.contains(x));
                            assert(on_walk(cur, dir, steps, king as int, x as int) == on_walk(
                                t,
                                dir,
                                rest,
                                king as int,
                                x as int,
                            ));
                        }
                    }
                    assert(one_check_more(acc, result, origin, line, cur, dir, steps, king));
                } else {
                    assert(same_checks(acc, result));
                }
            } else if piece.spec_colour() == colour {
                lemma_ray_adds_no_check(
                    pos,
                    colour,
                    king,
                    origin,
                    dir,
                    t,
                    rest,
                    line2,
                    PinAttack::Pin(t as u8),
                    acc.with_attacks(line2),
                );
                assert(!reaches);
                assert(same_checks(acc, result));
            } else {
                assert(!reaches);
                assert(same_checks(acc, result));
            }
        }
    }
}

/// The walks from one slider never take a check away, and leave the squares
/// to answer checks as they are unless they add a check. If one of them
/// comes to the king and there is one check in the end, there was none
/// before and the squares to answer it are those of that walk.
pub proof fn lemma_slider_checks(
    pos: Position,
    colour: Colour,
    king: u8,
    origin: u8,
    dirs: Seq<i8>,
    i: int,
    acc: Sweep,
    k: int,
)
    requires
        0 <= i <= dirs.len(),
    ensures
        slider_sweep(pos, colour, king, origin, dirs, i, acc).count >= acc.count,
        slider_sweep(pos, colour, king, origin, dirs, i, acc).count == acc.count && acc.count
            < u32::MAX ==> same_checks(
            acc,
            slider_sweep(pos, colour, king, origin, dirs, i, acc),
        ),
        i <= k < dirs.len() && ray_reaches(
            pos.squares,
            origin as int,
            dirs[k] as int,
            7,
            king as int,
        ) && slider_sweep(pos, colour, king, origin, dirs, i, acc).count <= 1 ==> acc.count == 0
            && one_check_more(
            acc,
            slider_sweep(pos, colour, king, origin, dirs, i, acc),
            origin,
            Set::empty(),
            origin as int,
            dirs[k] as int,
            7,
            king,
        ),
    decreases dirs.len() - i,
{
    if i < dirs.len() {
        let next = ray_sweep(
            pos,
            colour,
            king,
            origin,
            dirs[i] as int,
            origin as int,
            7,
            Set::empty(),
            PinAttack::NoneFound,
            acc,
        );
        lemma_ray_checks(pos, colour, king, origin, dirs[i] as int, origin as int, 7, Set::empty(), acc);
        lemma_slider_checks(pos, colour, king, origin, dirs, i + 1, next, k);
    }
}

/// The same for the walks from the sliders of a list.
pub proof fn lemma_sliders_check(
    pos: Position,
    colour: Colour,
    king: u8,
    list: Seq<u8>,
    dirs: Seq<i8>,
    j: int,
    acc: Sweep,
    a: int,
    k: int,
)
    requires
        0 <= j <= list.len(),
    ensures
        sliders_sweep(pos, colour, king, list, dirs, j, acc).count >= acc.count,
        sliders_sweep(pos, colour, king, list, dirs, j, acc).count == acc.count && acc.count
            < u32::MAX ==> same_checks(
            acc,
            sliders_sweep(pos, colour, king, list, dirs, j, acc),
        ),
        j <= a < list.len() && 0 <= k < dirs.len() && ray_reaches(
            pos.squares,
            list[a] as int,
            dirs[k] as int,
            7,
            king as int,
        ) && sliders_sweep(pos, colour, king, list, dirs, j, acc).count <= 1 ==> acc.count == 0
            && one_check_more(
            acc,
            sliders_sweep(pos, colour, king, list, dirs, j, acc),
            list[a],
            Set::empty(),
            list[a] as int,
            dirs[k] as int,
            7,
            king,
        ),
    decreases list.len() - j,
{
    if j < list.len() {
        let next = slider_sweep(pos, colour, king, list[j], dirs, 0, acc);
        lemma_slider_checks(pos, colour, king, list[j], dirs, 0, acc, k);
        lemma_sliders_check(pos, colour, king, list, dirs, j + 1, next, a, k);
    }
}

/// A pawn that is held as giving check is one of the list that attacks
/// the king, and two such pawns count as two checks.
pub proof fn lemma_pawn_checks_count(pawns: Seq<u8>, colour: Colour, king: u8, n: int)
    requires
        0 <= n <= pawns.len(),
    ensures
        forall|x: u8|
            checking_pawns(pawns, colour, king, n).contains(x) ==> exists|j: int|
                0 <= j < n && #[trigger] pawns[j] == x && pawn_targets(pawns[j], colour).contains(
                    king,
                ),
        forall|i: int, j: int|
            0 <= i < j < n && pawn_targets(#[trigger] pawns[i], colour).contains(king)
                && pawn_targets(#[trigger] pawns[j], colour).contains(king) ==> pawn_checks(
                pawns,
                colour,
                king,
                n,
            ) >= 2,
        forall|i: int|
            0 <= i < n && pawn_targets(#[trigger] pawns[i], colour).contains(king) ==> pawn_checks(
                pawns,
                colour,
                king,
                n,
            ) >= 1,
    decreases n,
{
    if n > 0 {
        lemma_pawn_checks_count(pawns, colour, king, n - 1);
        assert forall|x: u8| checking_pawns(pawns, colour, king, n).contains(x) implies exists|
            j: int,
        |
            0 <= j < n && #[trigger] pawns[j] == x && pawn_targets(pawns[j], colour).contains(
                king,
            ) by {
            if checking_pawns(pawns, colour, king, n - 1).contains(x) {
                let j = choose|j: int|
                    0 <= j < n - 1 && #[trigger] pawns[j] == x && pawn_targets(
                        pawns[j],
                        colour,
                    ).contains(king);
                assert(0 <= j < n && pawns[j] == x);
            } else {
                assert(pawns[n - 1] == x);
            }
        }
    }
}

/// The same for knights.
pub proof fn lemma_knight_checks_count(knights: Seq<u8>, king: u8, n: int)
    requires
        0 <= n <= knights.len(),
    ensures
        forall|x: u8|
            checking_knights(knights, king, n).contains(x) ==> exists|j: int|
                0 <= j < n && #[trigger] knights[j] == x && knight_targets(knights[j]).contains(
                    king,
                ),
        forall|i: int, j: int|
            0 <= i < j < n && knight_targets(#[trigger] knights[i]).contains(king)
                && knight_targets(#[trigger] knights[j]).contains(king) ==> knight_checks(
                knights,
                king,
                n,
            ) >= 2,
        forall|i: int|
            0 <= i < n && knight_targets(#[trigger] knights[i]).contains(king) ==> knight_checks(
                knights,
                king,
                n,
            ) >= 1,
    decreases n,
{
    if n > 0 {
        lemma_knight_checks_count(knights, king, n - 1);
        assert forall|x: u8| checking_knights(knights, king, n).contains(x) implies exists|j: int|
            0 <= j < n && #[trigger] knights[j] == x && knight_targets(knights[j]).contains(
                king,
            ) by {
            if checking_knights(knights, king, n - 1).contains(x) {
                let j = choose|j: int|
                    0 <= j < n - 1 && #[trigger] knights[j] == x && knight_targets(
                        knights[j],
                    ).contains(king);
                assert(0 <= j < n && knights[j] == x);
            } else {
                assert(knights[n - 1] == x);
            }
        }
    }
}

/// What gives the one check of a position that has one: the other king
/// beside the king, a pawn or a knight on `from`, or a slider on `from` with
/// a free line along `dir`.
pub enum Attacker {
    King,
    Pawn,
    Knight,
    Slider(Piece, Seq<i8>, int),
}

/// Whether the man on `from` gives check to the king of `colour` in the
/// given way.
pub open spec fn gives_check(pos: Position, colour: Colour, way: Attacker, from: int) -> bool {
    let by = colour.spec_opposite();
    let king = pos.king_square(colour);
    match way {
        Attacker::King => king_targets(pos.king_square(by)).contains(king),
        Attacker::Pawn => on_board(from) && pos.squares[from] == Piece::spec_of(by, PAWN)
            && pawn_targets(from as u8, by).contains(king),
        Attacker::Knight => on_board(from) && pos.squares[from] == Piece::spec_of(by, KNIGHT)
            && knight_targets(from as u8).contains(king),
        Attacker::Slider(slider, dirs, k) => is_sweep_pair(by, slider, dirs) && on_board(from)
            && pos.squares[from] == slider && 0 <= k < dirs.len() && ray_reaches(
            pos.squares,
            from,
            dirs[k] as int,
            7,
            king as int,
        ),
    }
}

/// Whether a move onto `x` would answer the check given in the given way
/// from `from`: it takes the man that gives it, or it lands on the line of
/// the slider that gives it.
pub open spec fn answers_check(pos: Position, colour: Colour, way: Attacker, from: int, x: u8) -> bool {
    match way {
        Attacker::King => false,
        Attacker::Pawn => x == from,
        Attacker::Knight => x == from,
        Attacker::Slider(_, dirs, k) => x == from || on_walk(
            from,
            dirs[k] as int,
            7,
            pos.king_square(colour) as int,
            x as int,
        ),
    }
}

/// Where the sweep counts one check, the squares it holds to answer it all
/// answer whatever gives check.
pub proof fn lemma_single_check(pos: Position, colour: Colour, way: Attacker, from: int)
    requires
        pos.squares.len() == 128,
        position_info(pos, colour).count == 1,
        gives_check(pos, colour, way, from),
    ensures
        forall|x: u8|
            position_info(pos, colour).block.contains(x) ==> answers_check(
                pos,
                colour,
                way,
                from,
                x,
            ),
{
    let opp = colour.spec_opposite();
    let king = pos.king_square(colour);
    let pawn = Piece::spec_of(opp, PAWN);
    let knight = Piece::spec_of(opp, KNIGHT);
    let bishop = Piece::spec_of(opp, BISHOP);
    let rook = Piece::spec_of(opp, ROOK);
    let queen = Piece::spec_of(opp, QUEEN);
    let pawns = pos.squares_of(pawn);
    let knights = pos.squares_of(knight);
    let bishops = pos.squares_of(bishop);
    let rooks = pos.squares_of(rook);
    let queens = pos.squares_of(queen);
    lemma_list_exists(pos, pawn);
    lemma_list_exists(pos, knight);
    lemma_list_exists(pos, bishop);
    lemma_list_exists(pos, rook);
    lemma_list_exists(pos, queen);
    lemma_pawn_checks_count(pawns, opp, king, pawns.len() as int);
    lemma_knight_checks_count(knights, king, knights.len() as int);
    let s0 = leaper_sweep(pos, colour);
    let s1 = sliders_sweep(pos, colour, king, bishops, DIAGONAL_OFFSETS@, 0, s0);
    let s2 = sliders_sweep(pos, colour, king, queens, DIAGONAL_OFFSETS@, 0, s1);
    let s3 = sliders_sweep(pos, colour, king, rooks, ORTHOGONAL_OFFSETS@, 0, s2);
    let s4 = sliders_sweep(pos, colour, king, queens, ORTHOGONAL_OFFSETS@, 0, s3);
    let pc = pawn_checks(pawns, opp, king, pawns.len() as int);
    let kc = knight_checks(knights, king, knights.len() as int);
    let beside: nat = if king_targets(pos.king_square(opp)).contains(king) {
        1
    } else {
        0
    };
    assert(s0.count == counted(beside + pc + kc));
    assert(s0.count == 0 ==> s0.block =~= Set::<u8>::empty()) by {
        if s0.count == 0 {
            assert(pc == 0 && kc == 0);
        }
    }
    match way {
        Attacker::Slider(slider, dirs, k) => {
            let list = pos.squares_of(slider);
            assert(list.contains(from as u8));
            let a = choose|a: int| 0 <= a < list.len() && list[a] == from as u8;
            let (u, v, w, z) = if slider == bishop && dirs == DIAGONAL_OFFSETS@ {
                (a, -1int, -1int, -1int)
            } else if slider == queen && dirs == DIAGONAL_OFFSETS@ {
                (-1int, a, -1int, -1int)
            } else if slider == rook && dirs == ORTHOGONAL_OFFSETS@ {
                (-1int, -1int, a, -1int)
            } else {
                (-1int, -1int, -1int, a)
            };
            lemma_sliders_check(pos, colour, king, bishops, DIAGONAL_OFFSETS@, 0, s0, u, k);
            lemma_sliders_check(pos, colour, king, queens, DIAGONAL_OFFSETS@, 0, s1, v, k);
            lemma_sliders_check(pos, colour, king, rooks, ORTHOGONAL_OFFSETS@, 0, s2, w, k);
            lemma_sliders_check(pos, colour, king, queens, ORTHOGONAL_OFFSETS@, 0, s3, z, k);
            assert forall|x: u8| s4.block.contains(x) implies x == from || on_walk(
                from,
                dirs[k] as int,
                7,
                king as int,
                x as int,
            ) by {
                assert((from as u8) as int == from);
            }
        },
        _ => {
            lemma_sliders_check(pos, colour, king, bishops, DIAGONAL_OFFSETS@, 0, s0, -1, 0);
            lemma_sliders_check(pos, colour, king, queens, DIAGONAL_OFFSETS@, 0, s1, -1, 0);
            lemma_sliders_check(pos, colour, king, rooks, ORTHOGONAL_OFFSETS@, 0, s2, -1, 0);
            lemma_sliders_check(pos, colour, king, queens, ORTHOGONAL_OFFSETS@, 0, s3, -1, 0);
            match way {
                Attacker::Pawn => {
                    assert(pawns.contains(from as u8));
                    let i = choose|i: int| 0 <= i < pawns.len() && pawns[i] == from as u8;
                    assert(pawn_targets(pawns[i], opp).contains(king));
                    assert(pc >= 1);
                    assert(s0.count == 1 && pc == 1 && kc == 0 && beside == 0);
                    assert forall|x: u8| s0.block.contains(x) implies x == from by {
                        if checking_pawns(pawns, opp, king, pawns.len() as int).contains(x) {
                            let j = choose|j: int|
                                0 <= j < pawns.len() && #[trigger] pawns[j] == x && pawn_targets(
                                    pawns[j],
                                    opp,
                                ).contains(king);
                            if j < i {
                                assert(pawn_targets(pawns[j], opp).contains(king) && pawn_targets(
                                    pawns[i],
                                    opp,
                                ).contains(king));
                            } else if i < j {
                                assert(pawn_targets(pawns[i], opp).contains(king) && pawn_targets(
                                    pawns[j],
                                    opp,
                                ).contains(king));
                            }
                        } else {
                            let j = choose|j: int|
                                0 <= j < knights.len() && #[trigger] knights[j] == x
                                    && knight_targets(knights[j]).contains(king);
                            assert(knight_targets(knights[j]).contains(king));
                        }
                    }
                },
                Attacker::Knight => {
                    assert(knights.contains(from as u8));
                    let i = choose|i: int| 0 <= i < knights.len() && knights[i] == from as u8;
                    assert(knight_targets(knights[i]).contains(king));
                    assert(kc >= 1);
                    assert(s0.count == 1 && kc == 1 && pc == 0 && beside == 0);
                    assert forall|x: u8| s0.block.contains(x) implies x == from by {
                        if checking_knights(knights, king, knights.len() as int).contains(x) {
                            let j = choose|j: int|
                                0 <= j < knights.len() && #[trigger] knights[j] == x
                                    && knight_targets(knights[j]).contains(king);
                            if j < i {
                                assert(knight_targets(knights[j]).contains(king) && knight_targets(
                                    knights[i],
                                ).contains(king));
                            } else if i < j {
                                assert(knight_targets(knights[i]).contains(king) && knight_targets(
                                    knights[j],
                                ).contains(king));
                            }
                        } else {
                            let j = choose|j: int|
                                0 <= j < pawns.len() && #[trigger] pawns[j] == x && pawn_targets(
                                    pawns[j],
                                    opp,
                                ).contains(king);
                            assert(pawn_targets(pawns[j], opp).contains(king));
                        }
                    }
                },
                _ => {
                    assert(beside == 1);
                    assert(s0.count == 1 && pc == 0 && kc == 0);
                    assert forall|x: u8| !s0.block.contains(x) by {
                        if checking_pawns(pawns, opp, king, pawns.len() as int).contains(x) {
                            let j = choose|j: int|
                                0 <= j < pawns.len() && #[trigger] pawns[j] == x && pawn_targets(
                                    pawns[j],
                                    opp,
                                ).contains(king);
                            assert(pawn_targets(pawns[j], opp).contains(king));
                        }
                        if checking_knights(knights, king, knights.len() as int).contains(x) {
                            let j = choose|j: int|
                                0 <= j < knights.len() && #[trigger] knights[j] == x
                                    && knight_targets(knights[j]).contains(king);
                            assert(knight_targets(knights[j]).contains(king));
                        }
                    }
                },
            }
        },
    }
}

/// A way of giving check gives check.
pub proof fn lemma_gives_check(pos: Position, colour: Colour, way: Attacker, from: int)
    requires
        gives_check(pos, colour, way, from),
    ensures
        in_check(pos, colour),
{
    let by = colour.spec_opposite();
    let king = pos.king_square(colour);
    match way {
        Attacker::Slider(slider, dirs, k) => {
            assert(slider_hits(pos.squares, slider, dirs, from, king as int));
        },
        _ => {},
    }
}

/// A slider that has a free line to the king after a legal move, made by
/// another man than the king and not in passing, had that line before, and
/// the move does not end on it.
proof fn lemma_line_was_free(pos: Position, m: Move, slider: Piece, dirs: Seq<i8>, sq: int, k: int)
    requires
        pos.ok(),
        pos.accepts(m),
        m.moved_piece != Piece::spec_of(pos.side_to_move, KING),
        m.move_type != MoveType::EnPassant,
        !leaves_pin_line(
            position_info(pos, pos.side_to_move).pins,
            m,
            position_info(pos, pos.side_to_move).pins.len() as int,
        ),
        is_sweep_pair(pos.side_to_move.spec_opposite(), slider, dirs),
        on_board(sq),
        pos.apply(m).squares[sq] == slider,
        0 <= k < dirs.len(),
        ray_reaches(
            pos.apply(m).squares,
            sq,
            dirs[k] as int,
            7,
            pos.king_square(pos.side_to_move) as int,
        ),
    ensures
        gives_check(pos, pos.side_to_move, Attacker::Slider(slider, dirs, k), sq),
        sq != m.end_square,
        !on_walk(
            sq,
            dirs[k] as int,
            7,
            pos.king_square(pos.side_to_move) as int,
            m.end_square as int,
        ),
{
    let us = pos.side_to_move;
    let info = position_info(pos, us);
    let king = pos.king_square(us);
    let after = pos.apply(m).squares;
    let start = m.start_square as int;
    let end = m.end_square as int;
    assert(after[start] == Piece::Empty);
    assert(after[end] != Piece::Empty && after[end].spec_colour() == us);
    assert forall|t: int| 0 <= t < 128 && t != start && t != end implies after[t]
        == pos.squares[t] by {}
    let d = dirs[k] as int;
    assert(d != 0);
    assert(pos.squares[sq] == slider);
    lemma_walk_avoids(after, sq, d, 7, king as int, end);
    if on_walk(sq, d, 7, king as int, start) {
        lemma_ray_opened(pos.squares, after, sq, d, 7, king as int, start);
        lemma_sweep_finds_pin(pos, us, slider, dirs, sq, k, m.start_square);
        let i = choose|i: int|
            0 <= i < info.pins.len() && (#[trigger] info.pins[i]).0 == m.start_square
                && forall|x: u8|
                info.pins[i].1.contains(x) ==> x == sq as u8 || Set::<u8>::empty().contains(x)
                    || on_walk(sq, d, 7, king as int, x as int);
        assert(sq != end);
        assert((sq as u8) as int == sq);
        assert(!Set::<u8>::empty().contains(m.end_square));
        assert(!info.pins[i].1.contains(m.end_square));
        lemma_leaves_pin_line(info.pins, m, info.pins.len() as int, i);
    } else {
        lemma_ray_unchanged(pos.squares, after, sq, d, 7, king as int, start);
    }
}

/// What gives check after a legal move, made by another man than the king
/// and not in passing, gave check before it, and the move does not answer
/// it.
proof fn lemma_check_was_there(pos: Position, m: Move) -> (r: (Attacker, int))
    requires
        pos.ok(),
        pos.accepts(m),
        m.moved_piece != Piece::spec_of(pos.side_to_move, KING),
        m.move_type != MoveType::EnPassant,
        !leaves_pin_line(
            position_info(pos, pos.side_to_move).pins,
            m,
            position_info(pos, pos.side_to_move).pins.len() as int,
        ),
        in_check(pos.apply(m), pos.side_to_move),
    ensures
        gives_check(pos, pos.side_to_move, r.0, r.1),
        !answers_check(pos, pos.side_to_move, r.0, r.1, m.end_square),
{
    let us = pos.side_to_move;
    let by = us.spec_opposite();
    let after = pos.apply(m);
    let king = pos.king_square(us);
    let start = m.start_square as int;
    let end = m.end_square as int;
    assert(after.king_square(us) == king);
    assert(after.king_square(by) == pos.king_square(by));
    assert(after.squares[start] == Piece::Empty);
    assert(after.squares[end] != Piece::Empty && after.squares[end].spec_colour() == us);
    assert forall|t: int| 0 <= t < 128 && t != start && t != end implies after.squares[t]
        == pos.squares[t] by {}
    let bishop = Piece::spec_of(by, BISHOP);
    let rook = Piece::spec_of(by, ROOK);
    let queen = Piece::spec_of(by, QUEEN);
    if king_targets(after.king_square(by)).contains(king) {
        (Attacker::King, 0)
    } else if exists|sq: int|
        on_board(sq) && #[trigger] after.squares[sq] == Piece::spec_of(by, PAWN) && pawn_targets(
            sq as u8,
            by,
        ).contains(king) {
        let sq = choose|sq: int|
            on_board(sq) && #[trigger] after.squares[sq] == Piece::spec_of(by, PAWN)
                && pawn_targets(sq as u8, by).contains(king);
        assert(pos.squares[sq] == Piece::spec_of(by, PAWN));
        (Attacker::Pawn, sq)
    } else if exists|sq: int|
        on_board(sq) && #[trigger] after.squares[sq] == Piece::spec_of(by, KNIGHT)
            && knight_targets(sq as u8).contains(king) {
        let sq = choose|sq: int|
            on_board(sq) && #[trigger] after.squares[sq] == Piece::spec_of(by, KNIGHT)
                && knight_targets(sq as u8).contains(king);
        assert(pos.squares[sq] == Piece::spec_of(by, KNIGHT));
        (Attacker::Knight, sq)
    } else {
        let (slider, dirs) = if exists|sq: int| #[trigger]
            slider_hits(after.squares, bishop, DIAGONAL_OFFSETS@, sq, king as int) {
            (bishop, DIAGONAL_OFFSETS@)
        } else if exists|sq: int| #[trigger]
            slider_hits(after.squares, queen, DIAGONAL_OFFSETS@, sq, king as int) {
            (queen, DIAGONAL_OFFSETS@)
        } else if exists|sq: int| #[trigger]
            slider_hits(after.squares, rook, ORTHOGONAL_OFFSETS@, sq, king as int) {
            (rook, ORTHOGONAL_OFFSETS@)
        } else {
            (queen, ORTHOGONAL_OFFSETS@)
        };
        let sq = choose|sq: int| #[trigger]
            slider_hits(after.squares, slider, dirs, sq, king as int);
        let k = choose|k: int|
            0 <= k < dirs.len() && #[trigger] ray_reaches(
                after.squares,
                sq,
                dirs[k] as int,
                7,
                king as int,
            );
        lemma_line_was_free(pos, m, slider, dirs, sq, k);
        (Attacker::Slider(slider, dirs, k), sq)
    }
}

/// A legal move of another man than the king, not made in passing, never
/// leaves the king in check.
pub proof fn lemma_plain_move_is_safe(pos: Position, m: Move)
    requires
        pos.ok(),
        legal_moves(pos).contains(m),
        m.moved_piece != Piece::spec_of(pos.side_to_move, KING),
        m.move_type != MoveType::EnPassant,
    ensures
        !in_check(pos.apply(m), pos.side_to_move),
{
    let us = pos.side_to_move;
    let info = position_info(pos, us);
    lemma_legal_move_facts(pos, m);
    lemma_count_is_check(pos, us);
    if in_check(pos.apply(m), us) {
        let (way, from) = lemma_check_was_there(pos, m);
        lemma_gives_check(pos, us, way, from);
        assert(info.count == 1 && info.block.contains(m.end_square));
        lemma_single_check(pos, us, way, from);
    }
}

/// A walk visits squares at least one step away from where it starts, on
/// the side that it goes to.
pub proof fn lemma_walk_bounds(from: int, dir: int, steps: nat, target: int, x: int)
    requires
        on_walk(from, dir, steps, target, x),
    ensures
        dir > 0 ==> x >= from + dir,
        dir < 0 ==> x <= from + dir,
    decreases steps,
{
    let t = from + dir;
    if t != x {
        lemma_walk_bounds(t, dir, (steps - 1) as nat, target, x);
    }
}

/// A free line visits the square that it comes to.
pub proof fn lemma_reach_walks(squares: Seq<Piece>, from: int, dir: int, steps: nat, target: int)
    requires
        ray_reaches(squares, from, dir, steps, target),
    ensures
        on_walk(from, dir, steps, target, target),
    decreases steps,
{
    let t = from + dir;
    if t != target {
        lemma_reach_walks(squares, t, dir, (steps - 1) as nat, target);
    }
}

/// The square before one that a walk from the board visits is on the board.
pub proof fn lemma_walk_pred(from: int, dir: int, steps: nat, target: int, x: int)
    requires
        on_board(from),
        on_walk(from, dir, steps, target, x),
    ensures
        on_board(x - dir),
    decreases steps,
{
    let t = from + dir;
    if t != x {
        lemma_walk_pred(t, dir, (steps - 1) as nat, target, x);
    }
}

/// Where a free line passes a square before the one it comes to, that one
/// lies at least a step beyond.
pub proof fn lemma_after_passing(
    squares: Seq<Piece>,
    from: int,
    dir: int,
    steps: nat,
    target: int,
    x: int,
)
    requires
        ray_reaches(squares, from, dir, steps, target),
        on_walk(from, dir, steps, target, x),
        x != target,
    ensures
        dir > 0 ==> target >= x + dir,
        dir < 0 ==> target <= x + dir,
    decreases steps,
{
    let t = from + dir;
    let rest = (steps - 1) as nat;
    if t == x {
        lemma_reach_walks(squares, t, dir, rest, target);
        lemma_walk_bounds(t, dir, rest, target, target);
    } else {
        lemma_after_passing(squares, t, dir, rest, target, x);
    }
}

/// Whether a step is one of the eight directions of the sliders.
pub open spec fn is_direction(dir: int) -> bool {
    dir == -17 || dir == -16 || dir == -15 || dir == -1 || dir == 1 || dir == 15 || dir == 16
        || dir == 17
}

/// No free line from a square of the board comes to the square where a
/// castling king lands by way of the corner that the rook has left.
proof fn lemma_not_by_the_corner(
    squares: Seq<Piece>,
    from: int,
    dir: int,
    target: int,
    corner: int,
)
    requires
        on_board(from),
        is_direction(dir),
        ray_reaches(squares, from, dir, 7, target),
        (corner == target + 1 && !on_board(corner + 1)) || (corner == target - 2 && !on_board(
            corner - 1,
        )),
    ensures
        !on_walk(from, dir, 7, target, corner),
{
    if on_walk(from, dir, 7, target, corner) {
        lemma_after_passing(squares, from, dir, 7, target, corner);
        lemma_walk_pred(from, dir, 7, target, corner);
    }
}

/// A line that is free after castling, and does not pass the corner that
/// the rook has left, comes to the same square on the board before, the
/// king not counted.
proof fn lemma_ray_past_castle(
    before: Seq<Piece>,
    after: Seq<Piece>,
    from: int,
    dir: int,
    steps: nat,
    target: int,
    king: int,
    corner: int,
)
    requires
        forall|t: int|
            0 <= t < 128 && t != target && t != corner && #[trigger] after[t] == Piece::Empty
                ==> before[t] == Piece::Empty || t == king,
        ray_reaches(after, from, dir, steps, target),
        !on_walk(from, dir, steps, target, corner),
    ensures
        xray_reaches(before, from, dir, steps, target, king),
    decreases steps,
{
    let t = from + dir;
    if t != target {
        lemma_ray_past_castle(before, after, t, dir, (steps - 1) as nat, target, king, corner);
    }
}

/// A legal castling move never ends in check.
pub proof fn lemma_castle_is_safe(pos: Position, m: Move)
    requires
        pos.ok(),
        legal_moves(pos).contains(m),
        m.move_type == MoveType::Castle,
    ensures
        !in_check(pos.apply(m), pos.side_to_move),
{
    let us = pos.side_to_move;
    let by = us.spec_opposite();
    let info = position_info(pos, us);
    lemma_legal_move_facts(pos, m);
    let after = pos.apply(m);
    let start = m.start_square as int;
    let end = m.end_square;
    let (rook_start, rook_end) = castle_rook_squares(end as int);
    assert(m.moved_piece == Piece::spec_of(us, KING));
    assert(castle_moves(pos, info.attacked).contains(m));
    assert(start == pos.king_square(us));
    assert(after.king_square(us) == end);
    assert(after.king_square(by) == pos.king_square(by));
    assert(!info.attacked.contains(end));
    assert((rook_start == end + 1 && !on_board(rook_start + 1)) || (rook_start == end - 2
        && !on_board(rook_start - 1)));
    assert(after.squares[rook_end] == Piece::spec_of(us, ROOK));
    assert(after.squares[rook_start] == Piece::Empty);
    assert(after.squares[start] == Piece::Empty);
    assert(after.squares[end as int] == m.moved_piece);
    assert forall|t: int|
        0 <= t < 128 && t != start && t != end && t != rook_start && t != rook_end implies after.squares[t]
        == pos.squares[t] by {}
    assert forall|t: int|
        0 <= t < 128 && t != end && t != rook_start && #[trigger] after.squares[t]
            == Piece::Empty implies pos.squares[t] == Piece::Empty || t == start by {}
    if in_check(after, us) {
        let bishop = Piece::spec_of(by, BISHOP);
        let rook = Piece::spec_of(by, ROOK);
        let queen = Piece::spec_of(by, QUEEN);
        if king_targets(after.king_square(by)).contains(end) {
        } else if exists|sq: int|
            on_board(sq) && #[trigger] after.squares[sq] == Piece::spec_of(by, PAWN)
                && pawn_targets(sq as u8, by).contains(end) {
            let sq = choose|sq: int|
                on_board(sq) && #[trigger] after.squares[sq] == Piece::spec_of(by, PAWN)
                    && pawn_targets(sq as u8, by).contains(end);
            assert(pos.squares[sq] == Piece::spec_of(by, PAWN));
        } else if exists|sq: int|
            on_board(sq) && #[trigger] after.squares[sq] == Piece::spec_of(by, KNIGHT)
                && knight_targets(sq as u8).contains(end) {
            let sq = choose|sq: int|
                on_board(sq) && #[trigger] after.squares[sq] == Piece::spec_of(by, KNIGHT)
                    && knight_targets(sq as u8).contains(end);
            assert(pos.squares[sq] == Piece::spec_of(by, KNIGHT));
        } else {
            let (slider, dirs) = if exists|sq: int| #[trigger]
                slider_hits(after.squares, bishop, DIAGONAL_OFFSETS@, sq, end as int) {
                (bishop, DIAGONAL_OFFSETS@)
            } else if exists|sq: int| #[trigger]
                slider_hits(after.squares, queen, DIAGONAL_OFFSETS@, sq, end as int) {
                (queen, DIAGONAL_OFFSETS@)
            } else if exists|sq: int| #[trigger]
                slider_hits(after.squares, rook, ORTHOGONAL_OFFSETS@, sq, end as int) {
                (rook, ORTHOGONAL_OFFSETS@)
            } else {
                (queen, ORTHOGONAL_OFFSETS@)
            };
            let sq = choose|sq: int| #[trigger]
                slider_hits(after.squares, slider, dirs, sq, end as int);
            let k = choose|k: int|
                0 <= k < dirs.len() && #[trigger] ray_reaches(
                    after.squares,
                    sq,
                    dirs[k] as int,
                    7,
                    end as int,
                );
            let d = dirs[k] as int;
            assert(is_direction(d));
            assert(pos.squares[sq] == slider);
            lemma_not_by_the_corner(after.squares, sq, d, end as int, rook_start);
            lemma_ray_past_castle(
                pos.squares,
                after.squares,
                sq,
                d,
                7,
                end as int,
                start,
                rook_start,
            );
            assert(xray_hits(pos.squares, slider, dirs, sq, end as int, start));
        }
        assert(would_attack(pos, us, end));
        lemma_attacked_covers(pos, us, end);
    }
}

/// A line that meets a slider within some steps meets it within more.
proof fn lemma_line_attacker_longer(
    squares: Seq<Piece>,
    from: int,
    dir: int,
    steps: nat,
    slider: Piece,
    queen: Piece,
)
    requires
        line_attacker(squares, from, dir, steps, slider, queen),
    ensures
        line_attacker(squares, from, dir, steps + 1, slider, queen),
    decreases steps,
{
    let t = from + dir;
    if !(squares[t] == slider || squares[t] == queen) {
        lemma_line_attacker_longer(squares, t, dir, (steps - 1) as nat, slider, queen);
    }
}

pub proof fn lemma_line_attacker_within(
    squares: Seq<Piece>,
    from: int,
    dir: int,
    steps: nat,
    more: nat,
    slider: Piece,
    queen: Piece,
)
    requires
        line_attacker(squares, from, dir, steps, slider, queen),
        steps <= more,
    ensures
        line_attacker(squares, from, dir, more, slider, queen),
    decreases more - steps,
{
    if steps < more {
        lemma_line_attacker_longer(squares, from, dir, steps, slider, queen);
        lemma_line_attacker_within(squares, from, dir, steps + 1, more, slider, queen);
    }
}

/// A free line from a slider to a square is, walked back from that square,
/// a line that meets the slider first.
pub proof fn lemma_line_back(
    squares: Seq<Piece>,
    from: int,
    dir: int,
    steps: nat,
    target: int,
    back: nat,
    slider: Piece,
    queen: Piece,
)
    requires
        ray_reaches(squares, from, dir, steps, target),
        line_attacker(squares, from + dir, -dir, back, slider, queen),
    ensures
        line_attacker(squares, target, -dir, (back + steps - 1) as nat, slider, queen),
    decreases steps,
{
    let t = from + dir;
    if t == target {
        lemma_line_attacker_within(
            squares,
            target,
            -dir,
            back,
            (back + steps - 1) as nat,
            slider,
            queen,
        );
    } else {
        assert(line_attacker(squares, t + dir, -dir, back + 1, slider, queen));
        lemma_line_back(squares, t, dir, (steps - 1) as nat, target, back + 1, slider, queen);
    }
}

pub proof fn lemma_any_line(
    squares: Seq<Piece>,
    from: int,
    dirs: Seq<i8>,
    n: int,
    j: int,
    slider: Piece,
    queen: Piece,
)
    requires
        0 <= j < n <= dirs.len(),
        line_attacker(squares, from, dirs[j] as int, 7, slider, queen),
    ensures
        any_line_attacker(squares, from, dirs, n, slider, queen),
    decreases n,
{
    if j < n - 1 {
        lemma_any_line(squares, from, dirs, n - 1, j, slider, queen);
    }
}

/// A slider that has a free line to the king attacks it as the king sees
/// it.
pub proof fn lemma_slider_seen(pos_squares: Seq<Piece>, by: Colour, slider: Piece, dirs: Seq<i8>, sq: int, king: u8)
    requires
        is_sweep_pair(by, slider, dirs),
        slider_hits(pos_squares, slider, dirs, sq, king as int),
    ensures
        slider_attacks(pos_squares, king, by),
{
    let k = choose|k: int|
        0 <= k < dirs.len() && #[trigger] ray_reaches(pos_squares, sq, dirs[k] as int, 7, king as int);
    let d = dirs[k] as int;
    let queen = Piece::spec_of(by, QUEEN);
    let kind = if dirs == DIAGONAL_OFFSETS@ {
        Piece::spec_of(by, BISHOP)
    } else {
        Piece::spec_of(by, ROOK)
    };
    assert(line_attacker(pos_squares, sq + d, -d, 1, kind, queen));
    lemma_line_back(pos_squares, sq, d, 7, king as int, 1, kind, queen);
    assert(dirs[3 - k] as int == -d);
    lemma_any_line(pos_squares, king as int, dirs, 4, 3 - k, kind, queen);
}

/// A legal capture in passing never leaves the king in check.
pub proof fn lemma_en_passant_is_safe(pos: Position, m: Move)
    requires
        pos.ok(),
        legal_moves(pos).contains(m),
        m.move_type == MoveType::EnPassant,
    ensures
        !in_check(pos.apply(m), pos.side_to_move),
{
    let us = pos.side_to_move;
    let by = us.spec_opposite();
    let info = position_info(pos, us);
    lemma_legal_move_facts(pos, m);
    lemma_count_is_check(pos, us);
    let after = pos.apply(m);
    let king = pos.king_square(us);
    let start = m.start_square as int;
    let end = m.end_square as int;
    let victim = pos.en_passant_victim(end);
    assert(m.moved_piece == Piece::spec_of(us, PAWN));
    assert(after.squares == pos.squares_after(m));
    assert(after.king_square(us) == king);
    assert(after.king_square(by) == pos.king_square(by));
    assert(!en_passant_exposes(pos, m));
    assert(after.squares[start] == Piece::Empty);
    assert(after.squares[victim] == Piece::Empty);
    assert(after.squares[end] == m.moved_piece);
    assert forall|t: int|
        0 <= t < 128 && t != start && t != end && t != victim implies after.squares[t]
        == pos.squares[t] by {}
    if in_check(after, us) {
        let bishop = Piece::spec_of(by, BISHOP);
        let rook = Piece::spec_of(by, ROOK);
        let queen = Piece::spec_of(by, QUEEN);
        if king_targets(after.king_square(by)).contains(king) {
            lemma_gives_check(pos, us, Attacker::King, 0);
            lemma_single_check(pos, us, Attacker::King, 0);
        } else if exists|sq: int|
            on_board(sq) && #[trigger] after.squares[sq] == Piece::spec_of(by, PAWN)
                && pawn_targets(sq as u8, by).contains(king) {
            let sq = choose|sq: int|
                on_board(sq) && #[trigger] after.squares[sq] == Piece::spec_of(by, PAWN)
                    && pawn_targets(sq as u8, by).contains(king);
            assert(pos.squares[sq] == Piece::spec_of(by, PAWN));
            lemma_gives_check(pos, us, Attacker::Pawn, sq);
            lemma_single_check(pos, us, Attacker::Pawn, sq);
        } else if exists|sq: int|
            on_board(sq) && #[trigger] after.squares[sq] == Piece::spec_of(by, KNIGHT)
                && knight_targets(sq as u8).contains(king) {
            let sq = choose|sq: int|
                on_board(sq) && #[trigger] after.squares[sq] == Piece::spec_of(by, KNIGHT)
                    && knight_targets(sq as u8).contains(king);
            assert(pos.squares[sq] == Piece::spec_of(by, KNIGHT));
            lemma_gives_check(pos, us, Attacker::Knight, sq);
            lemma_single_check(pos, us, Attacker::Knight, sq);
        } else {
            let (slider, dirs) = if exists|sq: int| #[trigger]
                slider_hits(after.squares, bishop, DIAGONAL_OFFSETS@, sq, king as int) {
                (bishop, DIAGONAL_OFFSETS@)
            } else if exists|sq: int| #[trigger]
                slider_hits(after.squares, queen, DIAGONAL_OFFSETS@, sq, king as int) {
                (queen, DIAGONAL_OFFSETS@)
            } else if exists|sq: int| #[trigger]
                slider_hits(after.squares, rook, ORTHOGONAL_OFFSETS@, sq, king as int) {
                (rook, ORTHOGONAL_OFFSETS@)
            } else {
                (queen, ORTHOGONAL_OFFSETS@)
            };
            let sq = choose|sq: int| #[trigger]
                slider_hits(after.squares, slider, dirs, sq, king as int);
            lemma_slider_seen(after.squares, by, slider, dirs, sq, king);
        }
    }
}

/// No legal move leaves the mover's king in check.
pub proof fn lemma_legal_move_is_safe(pos: Position, m: Move)
    requires
        pos.ok(),
        legal_moves(pos).contains(m),
    ensures
        !in_check(pos.apply(m), pos.side_to_move),
{
    if m.move_type == MoveType::Castle {
        lemma_castle_is_safe(pos, m);
    } else if m.moved_piece == Piece::spec_of(pos.side_to_move, KING) {
        lemma_king_step_is_safe(pos, m);
    } else if m.move_type == MoveType::EnPassant {
        lemma_en_passant_is_safe(pos, m);
    } else {
        lemma_plain_move_is_safe(pos, m);
    }
}

} // verus!
