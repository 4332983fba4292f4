//! The sweep over the opponent's men that finds checks, pins and attacked
//! squares in one pass.

use vstd::prelude::*;
use crate::game::board::Board;
use crate::game::check::in_check;
use crate::game::check::lemma_count_is_check;
use crate::game::chess_util::get_king_move_board;
use crate::game::chess_util::get_knight_move_board;
use crate::game::chess_util::get_pawn_attack_board;
use crate::game::chess_util::king_targets;
use crate::game::chess_util::knight_targets;
use crate::game::chess_util::on_board;
use crate::game::chess_util::pawn_targets;
use crate::game::chess_util::square_is_on_board;
use crate::game::chess_util::Square;
use crate::game::chess_util::{DIAGONAL_OFFSETS, ORTHOGONAL_OFFSETS};
use crate::game::mask::SquareSet;
use crate::game::piece::Colour;
use crate::game::piece::Piece;
use crate::game::piece::{BISHOP, KNIGHT, PAWN, QUEEN, ROOK};
use crate::game::position::Position;

verus! {

/// What a walk along one line from an enemy slider has met so far.
#[derive(Clone, Copy, PartialEq, Eq, Structural, Debug)]
pub enum PinAttack {
    /// Nothing but empty squares.
    NoneFound,
    /// One man of the king's side, on the given square.
    Pin(Square),
    /// Two or more men of the king's side.
    DoubleBlocked,
    /// The king itself, with nothing in between.
    ThroughKing,
}

/// The result of the sweep as sets: the squares the opponent attacks, the
/// squares on which a check can be blocked or its giver taken, the number of
/// checks counted, and each pinned square with the squares it may go to.
pub struct Sweep {
    pub attacked: Set<u8>,
    pub block: Set<u8>,
    pub count: u32,
    pub pins: Seq<(u8, Set<u8>)>,
}

/// One more check, as far as the counter reaches.
pub open spec fn bump(count: u32) -> u32 {
    if count < u32::MAX {
        (count + 1) as u32
    } else {
        count
    }
}

impl Sweep {
    /// The sweep with more squares attacked.
    pub open spec fn with_attacks(self, line: Set<u8>) -> Sweep {
        Sweep { attacked: self.attacked.union(line), ..self }
    }

    /// The sweep with one more check, answered on the squares of `line`.
    pub open spec fn with_check(self, line: Set<u8>) -> Sweep {
        Sweep { block: self.block.union(line), count: bump(self.count), ..self }
    }

    /// The sweep with one more pin: the man on `square` may go to `line` only.
    pub open spec fn with_pin(self, square: u8, line: Set<u8>) -> Sweep {
        Sweep { pins: self.pins.push((square, line)), ..self }
    }

    /// The end of a walk: a line that met no man of the king's side, or met
    /// the king first, is attacked along its whole length.
    pub open spec fn finish(self, line: Set<u8>, state: PinAttack) -> Sweep {
        if state == PinAttack::NoneFound || state == PinAttack::ThroughKing {
            self.with_attacks(line)
        } else {
            self
        }
    }
}

/// The squares attacked by the first `n` pawns of a list.
pub open spec fn pawn_attacks(pawns: Seq<u8>, colour: Colour, n: int) -> Set<u8>
    decreases n,
{
    if n <= 0 {
        Set::empty()
    } else {
        pawn_attacks(pawns, colour, n - 1).union(pawn_targets(pawns[n - 1], colour))
    }
}

/// Those of the first `n` pawns of a list that attack `king`.
pub open spec fn checking_pawns(pawns: Seq<u8>, colour: Colour, king: u8, n: int) -> Set<u8>
    decreases n,
{
    if n <= 0 {
        Set::empty()
    } else if pawn_targets(pawns[n - 1], colour).contains(king) {
        checking_pawns(pawns, colour, king, n - 1).insert(pawns[n - 1])
    } else {
        checking_pawns(pawns, colour, king, n - 1)
    }
}

/// The squares attacked by the first `n` knights of a list.
pub open spec fn knight_attacks(knights: Seq<u8>, n: int) -> Set<u8>
    decreases n,
{
    if n <= 0 {
        Set::empty()
    } else {
        knight_attacks(knights, n - 1).union(knight_targets(knights[n - 1]))
    }
}

/// Those of the first `n` knights of a list that attack `king`.
pub open spec fn checking_knights(knights: Seq<u8>, king: u8, n: int) -> Set<u8>
    decreases n,
{
    if n <= 0 {
        Set::empty()
    } else if knight_targets(knights[n - 1]).contains(king) {
        checking_knights(knights, king, n - 1).insert(knights[n - 1])
    } else {
        checking_knights(knights, king, n - 1)
    }
}

/// How many of the first `n` pawns of a list attack `king`.
pub open spec fn pawn_checks(pawns: Seq<u8>, colour: Colour, king: u8, n: int) -> nat
    decreases n,
{
    if n <= 0 {
        0
    } else if pawn_targets(pawns[n - 1], colour).contains(king) {
        pawn_checks(pawns, colour, king, n - 1) + 1
    } else {
        pawn_checks(pawns, colour, king, n - 1)
    }
}

/// How many of the first `n` knights of a list attack `king`.
pub open spec fn knight_checks(knights: Seq<u8>, king: u8, n: int) -> nat
    decreases n,
{
    if n <= 0 {
        0
    } else if knight_targets(knights[n - 1]).contains(king) {
        knight_checks(knights, king, n - 1) + 1
    } else {
        knight_checks(knights, king, n - 1)
    }
}

/// A number of checks as the counter holds it.
pub open spec fn counted(checks: nat) -> u32 {
    if checks <= u32::MAX {
        checks as u32
    } else {
        u32::MAX
    }
}

/// The rest of a walk from the slider on `origin` in direction `dir`, from
/// the square `cur` on, with at most `steps` steps to go. Walking stops at
/// the edge and at the first man of the slider's own side. The king of
/// `colour` does not stop the line: a line that reaches it with nothing in
/// between is a check, whose squares and the slider's own are where it can
/// be answered; a line that reaches it past exactly one man of `colour` pins
/// that man to the line. The first man of `colour` on the line ends what the
/// slider attacks.
pub open spec fn ray_sweep(
    pos: Position,
    colour: Colour,
    king: u8,
    origin: u8,
    dir: int,
    cur: int,
    steps: nat,
    line: Set<u8>,
    state: PinAttack,
    acc: Sweep,
) -> Sweep
    decreases steps,
{
    let t = cur + dir;
    if steps == 0 || !on_board(t) {
        acc.finish(line, state)
    } else {
        let line2 = line.insert(t as u8);
        let rest = (steps - 1) as nat;
        if t == king {
            match state {
                PinAttack::NoneFound => ray_sweep(
                    pos,
                    colour,
                    king,
                    origin,
                    dir,
                    t,
                    rest,
                    line2,
                    PinAttack::ThroughKing,
                    acc.with_check(line2.insert(origin)),
                ),
                PinAttack::Pin(pinned) => ray_sweep(
                    pos,
                    colour,
                    king,
                    origin,
                    dir,
                    t,
                    rest,
                    line2,
                    state,
                    acc.with_pin(pinned, line2.insert(origin)),
                ),
                _ => ray_sweep(pos, colour, king, origin, dir, t, rest, line2, state, acc),
            }
        } else {
            let piece = pos.squares[t];
            if piece == Piece::Empty {
                ray_sweep(pos, colour, king, origin, dir, t, rest, line2, state, acc)
            } else if piece.spec_colour() == colour {
                match state {
                    PinAttack::NoneFound => ray_sweep(
                        pos,
                        colour,
                        king,
                        origin,
                        dir,
                        t,
                        rest,
                        line2,
                        PinAttack::Pin(t as u8),
                        acc.with_attacks(line2),
                    ),
                    PinAttack::Pin(_) => ray_sweep(
                        pos,
                        colour,
                        king,
                        origin,
                        dir,
                        t,
                        rest,
                        line2,
                        PinAttack::DoubleBlocked,
                        acc,
                    ),
                    _ => ray_sweep(pos, colour, king, origin, dir, t, rest, line2, state, acc),
                }
            } else {
                acc.finish(line2, state)
            }
        }
    }
}

/// The walks from one slider along the directions `dirs[i..]`.
pub open spec fn slider_sweep(
    pos: Position,
    colour: Colour,
    king: u8,
    origin: u8,
    dirs: Seq<i8>,
    i: int,
    acc: Sweep,
) -> Sweep
    decreases dirs.len() - i,
{
    if i < 0 || i >= dirs.len() {
        acc
    } else {
        slider_sweep(
            pos,
            colour,
            king,
            origin,
            dirs,
            i + 1,
            ray_sweep(
                pos,
                colour,
                king,
                origin,
                dirs[i] as int,
                origin as int,
                7,
                Set::empty(),
                PinAttack::NoneFound,
                acc,
            ),
        )
    }
}

/// The walks from the sliders `list[j..]`, each along all of `dirs`.
pub open spec fn sliders_sweep(
    pos: Position,
    colour: Colour,
    king: u8,
    list: Seq<u8>,
    dirs: Seq<i8>,
    j: int,
    acc: Sweep,
) -> Sweep
    decreases list.len() - j,
{
    if j < 0 || j >= list.len() {
        acc
    } else {
        sliders_sweep(
            pos,
            colour,
            king,
            list,
            dirs,
            j + 1,
            slider_sweep(pos, colour, king, list[j], dirs, 0, acc),
        )
    }
}

/// What the sweep knows once the opponent's king, pawns and knights are
/// looked at: the king attacks its neighbours; the other king beside the
/// king, each pawn and each knight that attacks it count as one check each;
/// a pawn or a knight that gives check can be taken.
pub open spec fn leaper_sweep(pos: Position, colour: Colour) -> Sweep {
    let opp = colour.spec_opposite();
    let king = pos.king_square(colour);
    let pawns = pos.squares_of(Piece::spec_of(opp, PAWN));
    let knights = pos.squares_of(Piece::spec_of(opp, KNIGHT));
    let by_king = king_targets(pos.king_square(opp));
    let beside: nat = if by_king.contains(king) {
        1
    } else {
        0
    };
    Sweep {
        attacked: by_king.union(pawn_attacks(pawns, opp, pawns.len() as int)).union(
            knight_attacks(knights, knights.len() as int),
        ),
        block: checking_pawns(pawns, opp, king, pawns.len() as int).union(
            checking_knights(knights, king, knights.len() as int),
        ),
        count: counted(
            beside + pawn_checks(pawns, opp, king, pawns.len() as int) + knight_checks(
                knights,
                king,
                knights.len() as int,
            ),
        ),
        pins: Seq::empty(),
    }
}

/// The whole sweep for the side `colour`: the opponent's king, pawns and
/// knights, then its bishops and queens along the diagonals, then its rooks
/// and queens along ranks and files.
pub open spec fn position_info(pos: Position, colour: Colour) -> Sweep {
    let opp = colour.spec_opposite();
    let king = pos.king_square(colour);
    let bishops = pos.squares_of(Piece::spec_of(opp, BISHOP));
    let rooks = pos.squares_of(Piece::spec_of(opp, ROOK));
    let queens = pos.squares_of(Piece::spec_of(opp, QUEEN));
    let a = leaper_sweep(pos, colour);
    let b = sliders_sweep(pos, colour, king, bishops, DIAGONAL_OFFSETS@, 0, a);
    let c = sliders_sweep(pos, colour, king, queens, DIAGONAL_OFFSETS@, 0, b);
    let d = sliders_sweep(pos, colour, king, rooks, ORTHOGONAL_OFFSETS@, 0, c);
    sliders_sweep(pos, colour, king, queens, ORTHOGONAL_OFFSETS@, 0, d)
}

/// The pins of a sweep as pairs of a square and a set.
pub open spec fn pins_view(pins: Seq<(u8, SquareSet)>) -> Seq<(u8, Set<u8>)> {
    Seq::new(pins.len(), |i: int| (pins[i].0, pins[i].1@))
}

/// What one look at a position tells the move generator about the king of
/// one side.
pub struct PositionInfo {
    pub pinned_pieces: Vec<(Square, SquareSet)>,
    pub king_attacker_count: u32,
    pub king_block_board: SquareSet,
    pub opponent_attacked_squares: SquareSet,
}

impl View for PositionInfo {
    type V = Sweep;

    open spec fn view(&self) -> Sweep {
        Sweep {
            attacked: self.opponent_attacked_squares@,
            block: self.king_block_board@,
            count: self.king_attacker_count,
            pins: pins_view(self.pinned_pieces@),
        }
    }
}

fn walk_ray(
    board: &Board,
    colour: Colour,
    king: Square,
    origin: Square,
    dir: i8,
    info: &mut PositionInfo,
)
    requires
        origin < 128,
    ensures
        final(info)@ == ray_sweep(
            board@,
            colour,
            king,
            origin,
            dir as int,
            origin as int,
            7,
            Set::empty(),
            PinAttack::NoneFound,
            old(info)@,
        ),
{
    let ghost goal = ray_sweep(
        board@,
        colour,
        king,
        origin,
        dir as int,
        origin as int,
        7,
        Set::empty(),
        PinAttack::NoneFound,
        info@,
    );
    let mut cur: i16 = origin as i16;
    let mut steps: u8 = 7;
    let mut line = SquareSet::empty();
    let mut state = PinAttack::NoneFound;
    let mut done = false;
    while !done
        invariant
            origin < 128,
            0 <= cur < 128,
            steps <= 7,
            done ==> info@ == goal,
            !done ==> ray_sweep(
                board@,
                colour,
                king,
                origin,
                dir as int,
                cur as int,
                steps as nat,
                line@,
                state,
                info@,
            ) == goal,
        decreases steps + (if done { 0int } else { 1int }),
    {
        let t: i16 = cur + dir as i16;
        if steps == 0 || t < 0 || t >= 128 || !square_is_on_board(t as u8) {
            if state == PinAttack::NoneFound || state == PinAttack::ThroughKing {
                info.opponent_attacked_squares.add_all(line);
            }
            done = true;
        } else {
            let square = t as u8;
            line.insert(square);
            steps -= 1;
            cur = t;
            if square == king {
                match state {
                    PinAttack::NoneFound => {
                        let mut answer = line;
                        answer.insert(origin);
                        info.king_block_board.add_all(answer);
                        if info.king_attacker_count < u32::MAX {
                            info.king_attacker_count += 1;
                        }
                        state = PinAttack::ThroughKing;
                    },
                    PinAttack::Pin(pinned) => {
                        let mut allowed = line;
                        allowed.insert(origin);
                        let ghost before = info.pinned_pieces@;
                        info.pinned_pieces.push((pinned, allowed));
                        assert(pins_view(info.pinned_pieces@) =~= pins_view(before).push(
                            (pinned, allowed@),
                        ));
                    },
                    _ => {},
                }
            } else {
                let piece = board.get_piece(square);
                if piece == Piece::Empty {
                } else if piece.is_colour(colour) {
                    match state {
                        PinAttack::NoneFound => {
                            info.opponent_attacked_squares.add_all(line);
                            state = PinAttack::Pin(square);
                        },
                        PinAttack::Pin(_) => {
                            state = PinAttack::DoubleBlocked;
                        },
                        _ => {},
                    }
                } else {
                    if state == PinAttack::NoneFound || state == PinAttack::ThroughKing {
                        info.opponent_attacked_squares.add_all(line);
                    }
                    done = true;
                }
            }
        }
    }
}

fn walk_sliders(
    board: &Board,
    colour: Colour,
    king: Square,
    list: &Vec<Square>,
    dirs: &[i8; 4],
    info: &mut PositionInfo,
)
    requires
        forall|j: int| 0 <= j < list@.len() ==> list@[j] < 128,
    ensures
        final(info)@ == sliders_sweep(board@, colour, king, list@, dirs@, 0, old(info)@),
{
    let ghost goal = sliders_sweep(board@, colour, king, list@, dirs@, 0, info@);
    let mut j: usize = 0;
    while j < list.len()
        invariant
            j <= list.len(),
            forall|j: int| 0 <= j < list@.len() ==> list@[j] < 128,
            sliders_sweep(board@, colour, king, list@, dirs@, j as int, info@) == goal,
        decreases list.len() - j,
    {
        let origin = list[j];
        let ghost inner = slider_sweep(board@, colour, king, origin, dirs@, 0, info@);
        let mut i: usize = 0;
        while i < 4
            invariant
                i <= 4,
                origin < 128,
                slider_sweep(board@, colour, king, origin, dirs@, i as int, info@) == inner,
            decreases 4 - i,
        {
            walk_ray(board, colour, king, origin, dirs[i], info);
            i += 1;
        }
        j += 1;
    }
}

/// Looks at the position once from the king of `colour`: which squares the
/// opponent attacks, how many checks there are and where they can be
/// answered, and which men are pinned to which lines.
pub fn get_position_info(board: &Board, colour: Colour) -> (info: PositionInfo)
    requires
        board.sync(),
    ensures
        info@ == position_info(board@, colour),
        info.king_attacker_count > 0 <==> in_check(board@, colour),
{
    proof {
        lemma_count_is_check(board@, colour);
    }
    let opp = colour.opposite();
    let king_square = match colour {
        Colour::White => board.white_king,
        Colour::Black => board.black_king,
    };
    let opp_king = match colour {
        Colour::White => board.black_king,
        Colour::Black => board.white_king,
    };
    let mut attacked = get_king_move_board(opp_king);
    let mut count: u32 = if attacked.contains(king_square) {
        1
    } else {
        0
    };
    let ghost beside = count as nat;
    let mut block = SquareSet::empty();
    let pawns = board.get_piece_position(Piece::of(opp, PAWN));
    proof {
        board.lemma_count_bound(Piece::spec_of(opp, PAWN));
        board.lemma_count_bound(Piece::spec_of(opp, KNIGHT));
    }
    let mut i: usize = 0;
    while i < pawns.len()
        invariant
            i <= pawns.len(),
            pawns@.len() <= 128,
            pawns@ == board@.squares_of(Piece::spec_of(opp, PAWN)),
            forall|i: int| 0 <= i < pawns@.len() ==> on_board(#[trigger] pawns@[i] as int),
            attacked@ == king_targets(opp_king).union(pawn_attacks(pawns@, opp, i as int)),
            block@ == checking_pawns(pawns@, opp, king_square, i as int),
            count == beside + pawn_checks(pawns@, opp, king_square, i as int),
            count <= 1 + i,
        decreases pawns.len() - i,
    {
        let attack_board = get_pawn_attack_board(pawns[i], opp);
        attacked.add_all(attack_board);
        if attack_board.contains(king_square) {
            block.insert(pawns[i]);
            count += 1;
        }
        assert(attacked@ =~= king_targets(opp_king).union(
            pawn_attacks(pawns@, opp, i as int + 1),
        ));
        i += 1;
    }
    let ghost pawn_count = count as nat;
    let knights = board.get_piece_position(Piece::of(opp, KNIGHT));
    let mut by_knights = SquareSet::empty();
    let mut knight_block = SquareSet::empty();
    let mut i: usize = 0;
    while i < knights.len()
        invariant
            i <= knights.len(),
            knights@.len() <= 128,
            knights@ == board@.squares_of(Piece::spec_of(opp, KNIGHT)),
            forall|i: int| 0 <= i < knights@.len() ==> on_board(#[trigger] knights@[i] as int),
            by_knights@ == knight_attacks(knights@, i as int),
            knight_block@ == checking_knights(knights@, king_square, i as int),
            count == pawn_count + knight_checks(knights@, king_square, i as int),
            count <= 129 + i,
        decreases knights.len() - i,
    {
        let attack_board = get_knight_move_board(knights[i]);
        by_knights.add_all(attack_board);
        if attack_board.contains(king_square) {
            knight_block.insert(knights[i]);
            count += 1;
        }
        i += 1;
    }
    attacked.add_all(by_knights);
    block.add_all(knight_block);
    let mut info = PositionInfo {
        pinned_pieces: Vec::new(),
        king_attacker_count: count,
        king_block_board: block,
        opponent_attacked_squares: attacked,
    };
    assert(pins_view(info.pinned_pieces@) =~= Seq::empty());
    assert(info@ == leaper_sweep(board@, colour));
    let bishops = board.get_piece_position(Piece::of(opp, BISHOP));
    let rooks = board.get_piece_position(Piece::of(opp, ROOK));
    let queens = board.get_piece_position(Piece::of(opp, QUEEN));
    walk_sliders(board, colour, king_square, bishops, &DIAGONAL_OFFSETS, &mut info);
    walk_sliders(board, colour, king_square, queens, &DIAGONAL_OFFSETS, &mut info);
    walk_sliders(board, colour, king_square, rooks, &ORTHOGONAL_OFFSETS, &mut info);
    walk_sliders(board, colour, king_square, queens, &ORTHOGONAL_OFFSETS, &mut info);
    info
}

} // verus!
