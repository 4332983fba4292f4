//! The position as the rules see it: which moves it accepts, what a move
//! makes of it, and how a move is taken back.

use vstd::prelude::*;
use crate::game::chess_util::on_board;
use crate::game::chess_util::{A1, A8, E1, E8, H1, H8};
use crate::game::chess_util::{BLACK_KINGSIDE, BLACK_QUEENSIDE, WHITE_KINGSIDE, WHITE_QUEENSIDE};
use crate::game::moves::Move;
use crate::game::moves::MoveType;
use crate::game::piece::Colour;
use crate::game::piece::Piece;
use crate::game::piece::{KING, PAWN, ROOK};

verus! {

/// Whether a castling-rights value holds the given right.
pub open spec fn has_right(rights: u8, flag: u8) -> bool {
    rights & flag != 0
}

/// A castling-rights value without the given rights.
pub open spec fn drop_right(rights: u8, flag: u8) -> u8 {
    rights & !flag
}

/// Dropping rights only clears bits: each right is held afterwards exactly
/// when it was held before and is not among those dropped.
pub proof fn lemma_drop_right(rights: u8, flag: u8, other: u8)
    by (bit_vector)
    requires
        other == 1 || other == 2 || other == 4 || other == 8,
    ensures
        has_right(drop_right(rights, flag), other) == (has_right(rights, other) && other & flag
            == 0),
        drop_right(rights, flag) <= rights,
        has_right(rights, other) ==> rights != 0,
{
}

/// The castling rights after a move: a king's move gives up both of its
/// rights, a rook leaving its corner or anything landing on a corner gives up
/// that corner's right. Rights are never gained.
pub open spec fn rights_after(rights: u8, m: Move) -> u8 {
    let by_mover = if m.moved_piece == Piece::WhiteRook && m.start_square == H1 {
        drop_right(rights, WHITE_KINGSIDE)
    } else if m.moved_piece == Piece::WhiteRook && m.start_square == A1 {
        drop_right(rights, WHITE_QUEENSIDE)
    } else if m.moved_piece == Piece::BlackRook && m.start_square == H8 {
        drop_right(rights, BLACK_KINGSIDE)
    } else if m.moved_piece == Piece::BlackRook && m.start_square == A8 {
        drop_right(rights, BLACK_QUEENSIDE)
    } else if m.moved_piece == Piece::WhiteKing {
        drop_right(rights, 12)
    } else if m.moved_piece == Piece::BlackKing {
        drop_right(rights, 3)
    } else {
        rights
    };
    if m.end_square == H1 {
        drop_right(by_mover, WHITE_KINGSIDE)
    } else if m.end_square == A1 {
        drop_right(by_mover, WHITE_QUEENSIDE)
    } else if m.end_square == H8 {
        drop_right(by_mover, BLACK_KINGSIDE)
    } else if m.end_square == A8 {
        drop_right(by_mover, BLACK_QUEENSIDE)
    } else {
        by_mover
    }
}

/// Where the rook stands before and after a castling move whose king ends on
/// `end`: from the corner beyond the king to the square the king passed.
pub open spec fn castle_rook_squares(end: int) -> (int, int) {
    if end % 16 < 4 {
        (end - 2, end + 1)
    } else {
        (end + 1, end - 1)
    }
}

/// The state of a game as the rules see it: what stands on each index of the
/// bordered board, whose turn it is, the castling rights, the en-passant
/// target, where the kings are, and the moves made so far.
pub struct Position {
    pub squares: Seq<Piece>,
    pub side_to_move: Colour,
    pub castling_rights: u8,
    pub en_passant: Option<u8>,
    pub white_king: u8,
    pub black_king: u8,
    pub turns_taken: u32,
    pub history: Seq<Move>,
}

impl Position {
    /// What stands on an index; beyond the array it is the border.
    pub open spec fn piece_at(self, square: int) -> Piece {
        if 0 <= square < 128 {
            self.squares[square]
        } else {
            Piece::Border
        }
    }

    /// Where the king of `colour` stands.
    pub open spec fn king_square(self, colour: Colour) -> u8 {
        match colour {
            Colour::White => self.white_king,
            Colour::Black => self.black_king,
        }
    }

    /// The move of the given kind between two squares, with the men and the
    /// rights read off this position.
    pub open spec fn new_move(self, start: u8, end: u8, kind: MoveType) -> Move {
        Move {
            start_square: start,
            end_square: end,
            moved_piece: self.piece_at(start as int),
            replaced_piece: self.piece_at(end as int),
            old_castling_rights: self.castling_rights,
            old_en_passant: self.en_passant,
            move_type: kind,
        }
    }

    /// Whether a man of the side to move stands on `square`.
    pub open spec fn own_man(self, square: u8) -> bool {
        &&& on_board(square as int)
        &&& self.squares[square as int].is_man()
        &&& self.squares[square as int].spec_colour() == self.side_to_move
    }

    /// Whether the side to move may take `target`: a man of the other side
    /// that is no king.
    pub open spec fn capturable(self, target: Piece) -> bool {
        target.is_man() && target.spec_colour() != self.side_to_move && !target.spec_is_king()
    }

    /// The border surrounds the field and nothing else is border.
    pub open spec fn bordered(self) -> bool {
        &&& self.squares.len() == 128
        &&& forall|sq: int| 0 <= sq < 128 ==> (on_board(sq) <==> #[trigger] self.squares[sq]
            != Piece::Border)
    }

    /// Each side has exactly one king, and the king squares name them.
    pub open spec fn kings_ok(self) -> bool {
        &&& on_board(self.white_king as int)
        &&& on_board(self.black_king as int)
        &&& forall|sq: int|
            0 <= sq < 128 ==> (#[trigger] self.squares[sq] == Piece::WhiteKing <==> sq
                == self.white_king)
        &&& forall|sq: int|
            0 <= sq < 128 ==> (#[trigger] self.squares[sq] == Piece::BlackKing <==> sq
                == self.black_king)
    }

    /// A right to castle is held only while king and rook stand where they
    /// started.
    pub open spec fn rights_ok(self) -> bool {
        &&& self.castling_rights < 16
        &&& has_right(self.castling_rights, WHITE_KINGSIDE) ==> self.squares[E1 as int]
            == Piece::WhiteKing && self.squares[H1 as int] == Piece::WhiteRook
        &&& has_right(self.castling_rights, WHITE_QUEENSIDE) ==> self.squares[E1 as int]
            == Piece::WhiteKing && self.squares[A1 as int] == Piece::WhiteRook
        &&& has_right(self.castling_rights, BLACK_KINGSIDE) ==> self.squares[E8 as int]
            == Piece::BlackKing && self.squares[H8 as int] == Piece::BlackRook
        &&& has_right(self.castling_rights, BLACK_QUEENSIDE) ==> self.squares[E8 as int]
            == Piece::BlackKing && self.squares[A8 as int] == Piece::BlackRook
    }

    /// The square of the pawn that an en-passant capture onto `target` takes.
    pub open spec fn en_passant_victim(self, target: int) -> int {
        self.side_to_move.spec_opposite().spec_forward(target)
    }

    /// An en-passant target is an empty square just behind a pawn of the side
    /// that moved last.
    pub open spec fn en_passant_ok(self) -> bool {
        self.en_passant is Some ==> {
            let target = self.en_passant->0 as int;
            &&& on_board(target)
            &&& self.squares[target] == Piece::Empty
            &&& on_board(self.en_passant_victim(target))
            &&& self.squares[self.en_passant_victim(target)] == Piece::spec_of(
                self.side_to_move.spec_opposite(),
                PAWN,
            )
        }
    }

    /// The invariant of a position.
    pub open spec fn ok(self) -> bool {
        &&& self.bordered()
        &&& self.kings_ok()
        &&& self.rights_ok()
        &&& self.en_passant_ok()
    }

    /// Whether `m` can be made in this position: it was built for this
    /// position, moves a man of the side to move, takes nothing of that side
    /// and no king, and has the shape its kind asks for.
    pub open spec fn accepts(self, m: Move) -> bool {
        let us = self.side_to_move;
        let start = m.start_square as int;
        let end = m.end_square as int;
        &&& on_board(start)
        &&& on_board(end)
        &&& m.moved_piece == self.squares[start]
        &&& m.moved_piece.is_man()
        &&& m.moved_piece.spec_colour() == us
        &&& m.replaced_piece == self.squares[end]
        &&& m.replaced_piece == Piece::Empty || (m.replaced_piece.is_man()
            && m.replaced_piece.spec_colour() != us && !m.replaced_piece.spec_is_king())
        &&& m.old_castling_rights == self.castling_rights
        &&& m.old_en_passant == self.en_passant
        &&& match m.move_type {
            MoveType::Normal => true,
            MoveType::PawnDouble => {
                &&& m.moved_piece == Piece::spec_of(us, PAWN)
                &&& m.replaced_piece == Piece::Empty
                &&& on_board(us.spec_forward(start))
                &&& self.squares[us.spec_forward(start)] == Piece::Empty
                &&& end == us.spec_forward(us.spec_forward(start))
            },
            MoveType::Promotion(promoted) => {
                &&& m.moved_piece == Piece::spec_of(us, PAWN)
                &&& promoted.is_man()
                &&& promoted.spec_colour() == us
                &&& !promoted.spec_is_pawn()
                &&& !promoted.spec_is_king()
            },
            MoveType::EnPassant => {
                &&& m.moved_piece == Piece::spec_of(us, PAWN)
                &&& self.en_passant == Some(m.end_square)
            },
            MoveType::Castle => {
                let (rook_start, rook_end) = castle_rook_squares(end);
                &&& m.moved_piece == Piece::spec_of(us, KING)
                &&& m.replaced_piece == Piece::Empty
                &&& on_board(rook_start)
                &&& on_board(rook_end)
                &&& self.squares[rook_start] == Piece::spec_of(us, ROOK)
                &&& self.squares[rook_end] == Piece::Empty
            },
        }
    }

    /// The board after `m`.
    pub open spec fn squares_after(self, m: Move) -> Seq<Piece> {
        let start = m.start_square as int;
        let end = m.end_square as int;
        match m.move_type {
            MoveType::Normal | MoveType::PawnDouble => self.squares.update(end, m.moved_piece).update(
                start,
                Piece::Empty,
            ),
            MoveType::Promotion(promoted) => self.squares.update(end, promoted).update(
                start,
                Piece::Empty,
            ),
            MoveType::EnPassant => self.squares.update(end, m.moved_piece).update(
                start,
                Piece::Empty,
            ).update(self.en_passant_victim(end), Piece::Empty),
            MoveType::Castle => {
                let (rook_start, rook_end) = castle_rook_squares(end);
                self.squares.update(end, m.moved_piece).update(start, Piece::Empty).update(
                    rook_end,
                    self.squares[rook_start],
                ).update(rook_start, Piece::Empty)
            },
        }
    }

    /// The position after `m`: the men are moved, the other side is to move,
    /// rights that the move gives up are cleared, the en-passant target is
    /// the square a double pawn step passed, and the move joins the history.
    pub open spec fn apply(self, m: Move) -> Position {
        Position {
            squares: self.squares_after(m),
            side_to_move: self.side_to_move.spec_opposite(),
            castling_rights: rights_after(self.castling_rights, m),
            en_passant: if m.move_type == MoveType::PawnDouble {
                Some(self.side_to_move.spec_forward(m.start_square as int) as u8)
            } else {
                None
            },
            white_king: if m.moved_piece == Piece::WhiteKing {
                m.end_square
            } else {
                self.white_king
            },
            black_king: if m.moved_piece == Piece::BlackKing {
                m.end_square
            } else {
                self.black_king
            },
            turns_taken: (self.turns_taken + 1) as u32,
            history: self.history.push(m),
        }
    }

    /// The board before the last move of the history.
    pub open spec fn squares_before(self, m: Move) -> Seq<Piece> {
        let start = m.start_square as int;
        let end = m.end_square as int;
        let mover = self.side_to_move.spec_opposite();
        match m.move_type {
            MoveType::Normal | MoveType::PawnDouble => self.squares.update(
                start,
                m.moved_piece,
            ).update(end, m.replaced_piece),
            MoveType::Promotion(_) => self.squares.update(start, Piece::spec_of(mover, PAWN)).update(
                end,
                m.replaced_piece,
            ),
            MoveType::EnPassant => self.squares.update(start, m.moved_piece).update(
                end,
                Piece::Empty,
            ).update(
                self.side_to_move.spec_forward(end),
                Piece::spec_of(self.side_to_move, PAWN),
            ),
            MoveType::Castle => {
                let (rook_start, rook_end) = castle_rook_squares(end);
                self.squares.update(start, m.moved_piece).update(end, Piece::Empty).update(
                    rook_start,
                    Piece::spec_of(mover, ROOK),
                ).update(rook_end, Piece::Empty)
            },
        }
    }

    /// The position before the last move of the history.
    pub open spec fn unapply(self) -> Position
        recommends
            self.history.len() > 0,
    {
        let m = self.history.last();
        Position {
            squares: self.squares_before(m),
            side_to_move: self.side_to_move.spec_opposite(),
            castling_rights: m.old_castling_rights,
            en_passant: m.old_en_passant,
            white_king: if m.moved_piece == Piece::WhiteKing {
                m.start_square
            } else {
                self.white_king
            },
            black_king: if m.moved_piece == Piece::BlackKing {
                m.start_square
            } else {
                self.black_king
            },
            turns_taken: (self.turns_taken - 1) as u32,
            history: self.history.drop_last(),
        }
    }

    /// Every move of the history was made in a position that accepted it, and
    /// taking the moves back one by one leads through those positions.
    pub open spec fn history_ok(self) -> bool
        decreases self.history.len(),
    {
        self.history.len() > 0 ==> {
            let before = self.unapply();
            &&& before.ok()
            &&& before.accepts(self.history.last())
            &&& before.turns_taken < u32::MAX
            &&& before.apply(self.history.last()) == self
            &&& before.history_ok()
        }
    }

    /// A position that play can reach and leave again.
    pub open spec fn wf(self) -> bool {
        self.ok() && self.history_ok()
    }
}

/// Whether each entry of a list is smaller than the next.
pub open spec fn increasing(list: Seq<u8>) -> bool {
    forall|i: int, j: int| 0 <= i < j < list.len() ==> list[i] < list[j]
}

impl Position {
    /// Whether `list` names, in increasing order, exactly the squares of the
    /// field on which `piece` stands.
    pub open spec fn lists(self, piece: Piece, list: Seq<u8>) -> bool {
        &&& increasing(list)
        &&& forall|i: int|
            0 <= i < list.len() ==> on_board(#[trigger] list[i] as int)
                && self.squares[list[i] as int] == piece
        &&& forall|sq: int|
            on_board(sq) && #[trigger] self.squares[sq] == piece ==> list.contains(sq as u8)
    }

    /// The squares on which `piece` stands, in increasing order.
    pub open spec fn squares_of(self, piece: Piece) -> Seq<u8> {
        choose|list: Seq<u8>| self.lists(piece, list)
    }
}

impl Position {
    /// How many of the given man are on the board.
    pub open spec fn count(self, piece: Piece) -> nat {
        self.squares_of(piece).len()
    }

    /// Neither side can mate: no pawn, rook or queen is left, and each side
    /// has at most one knight or bishop.
    pub open spec fn insufficient_material(self) -> bool {
        &&& self.count(Piece::WhitePawn) == 0
        &&& self.count(Piece::WhiteRook) == 0
        &&& self.count(Piece::WhiteQueen) == 0
        &&& self.count(Piece::WhiteBishop) + self.count(Piece::WhiteKnight) <= 1
        &&& self.count(Piece::BlackPawn) == 0
        &&& self.count(Piece::BlackRook) == 0
        &&& self.count(Piece::BlackQueen) == 0
        &&& self.count(Piece::BlackBishop) + self.count(Piece::BlackKnight) <= 1
    }
}

proof fn lemma_same_upto(p: Position, piece: Piece, a: Seq<u8>, b: Seq<u8>, n: int)
    requires
        p.lists(piece, a),
        p.lists(piece, b),
        0 <= n <= a.len(),
    ensures
        n <= b.len(),
        forall|k: int| 0 <= k < n ==> a[k] == b[k],
    decreases n,
{
    if n > 0 {
        lemma_same_upto(p, piece, a, b, n - 1);
        let i = n - 1;
        assert(on_board(a[i] as int) && p.squares[a[i] as int] == piece);
        assert(b.contains(a[i]));
        let j = choose|j: int| 0 <= j < b.len() && b[j] == a[i];
        if j < i {
            assert(a[j] == b[j]);
            assert(a[j] < a[i]);
        }
        assert(on_board(b[i] as int) && p.squares[b[i] as int] == piece);
        assert(a.contains(b[i]));
        let j2 = choose|j2: int| 0 <= j2 < a.len() && a[j2] == b[i];
        if j2 < i {
            assert(a[j2] == b[j2]);
            assert(b[j2] < b[i]);
        }
        if j > i {
            assert(b[i] < b[j]);
            if j2 > i {
                assert(a[i] < a[j2]);
            }
        }
    }
}

/// A man has one list only: the squares it stands on, in increasing order.
pub proof fn lemma_list_unique(p: Position, piece: Piece, list: Seq<u8>)
    requires
        p.lists(piece, list),
    ensures
        p.squares_of(piece) == list,
{
    let other = p.squares_of(piece);
    assert(p.lists(piece, other));
    lemma_same_upto(p, piece, list, other, list.len() as int);
    lemma_same_upto(p, piece, other, list, other.len() as int);
    assert(list =~= other);
}

/// Taking a move back undoes it: a position that accepts `m` is what
/// `unapply` gives after `apply`, in every component.
pub proof fn lemma_apply_then_unapply(p: Position, m: Move)
    requires
        p.ok(),
        p.accepts(m),
        p.turns_taken < u32::MAX,
    ensures
        p.apply(m).unapply() == p,
{
    let q = p.apply(m);
    assert(q.history.last() == m);
    assert(q.history.drop_last() =~= p.history);
    assert(q.squares_before(m) =~= p.squares);
}

/// Whether the moves of a list can be made one after the other from a
/// position.
pub open spec fn playable(p: Position, moves: Seq<Move>) -> bool
    decreases moves.len(),
{
    moves.len() == 0 || (p.accepts(moves[0]) && p.turns_taken < u32::MAX && playable(
        p.apply(moves[0]),
        moves.drop_first(),
    ))
}

/// The position after the moves of a list are made one after the other.
pub open spec fn play(p: Position, moves: Seq<Move>) -> Position
    decreases moves.len(),
{
    if moves.len() == 0 {
        p
    } else {
        play(p.apply(moves[0]), moves.drop_first())
    }
}

/// The position after the last `n` moves are taken back.
pub open spec fn take_back(p: Position, n: nat) -> Position
    decreases n,
{
    if n == 0 {
        p
    } else {
        take_back(p, (n - 1) as nat).unapply()
    }
}

/// Any number of moves made and as many taken back lead to the position
/// they started from, and the position in between is one of chess.
pub proof fn lemma_play_then_take_back(p: Position, moves: Seq<Move>)
    requires
        p.ok(),
        playable(p, moves),
    ensures
        play(p, moves).ok(),
        take_back(play(p, moves), moves.len()) == p,
    decreases moves.len(),
{
    if moves.len() > 0 {
        let next = p.apply(moves[0]);
        lemma_apply_ok(p, moves[0]);
        lemma_apply_then_unapply(p, moves[0]);
        lemma_play_then_take_back(next, moves.drop_first());
        assert(take_back(play(p, moves), moves.len()) == take_back(
            play(next, moves.drop_first()),
            moves.drop_first().len(),
        ).unapply());
    }
}

/// A move never gives a castling right: every right held after it was held
/// before it.
pub proof fn lemma_rights_never_gained(p: Position, m: Move, flag: u8)
    requires
        flag == 1 || flag == 2 || flag == 4 || flag == 8,
        has_right(p.apply(m).castling_rights, flag),
    ensures
        has_right(p.castling_rights, flag),
        p.apply(m).castling_rights <= p.castling_rights,
{
    lemma_rights_after(p.castling_rights, m);
}

/// Making an accepted move keeps the invariant of positions.
pub proof fn lemma_apply_ok(p: Position, m: Move)
    requires
        p.ok(),
        p.accepts(m),
    ensures
        p.apply(m).ok(),
{
    let q = p.apply(m);
    let r = p.castling_rights;
    lemma_rights_after(r, m);
    assert(q.bordered());
    assert(q.kings_ok());
    assert(q.rights_ok());
    assert(q.en_passant_ok());
}

/// What `rights_after` keeps: only rights held before, and none whose king
/// or rook the move touched.
pub proof fn lemma_rights_after(r: u8, m: Move)
    ensures
        rights_after(r, m) <= r,
        forall|flag: u8|
            flag == 1 || flag == 2 || flag == 4 || flag == 8 ==> (#[trigger] has_right(
                rights_after(r, m),
                flag,
            ) ==> has_right(r, flag)),
        has_right(rights_after(r, m), WHITE_KINGSIDE) ==> m.moved_piece != Piece::WhiteKing && !(
        m.moved_piece == Piece::WhiteRook && m.start_square == H1) && m.end_square != H1,
        has_right(rights_after(r, m), WHITE_QUEENSIDE) ==> m.moved_piece != Piece::WhiteKing && !(
        m.moved_piece == Piece::WhiteRook && m.start_square == A1) && m.end_square != A1,
        has_right(rights_after(r, m), BLACK_KINGSIDE) ==> m.moved_piece != Piece::BlackKing && !(
        m.moved_piece == Piece::BlackRook && m.start_square == H8) && m.end_square != H8,
        has_right(rights_after(r, m), BLACK_QUEENSIDE) ==> m.moved_piece != Piece::BlackKing && !(
        m.moved_piece == Piece::BlackRook && m.start_square == A8) && m.end_square != A8,
{
    let by_mover = if m.moved_piece == Piece::WhiteRook && m.start_square == H1 {
        drop_right(r, WHITE_KINGSIDE)
    } else if m.moved_piece == Piece::WhiteRook && m.start_square == A1 {
        drop_right(r, WHITE_QUEENSIDE)
    } else if m.moved_piece == Piece::BlackRook && m.start_square == H8 {
        drop_right(r, BLACK_KINGSIDE)
    } else if m.moved_piece == Piece::BlackRook && m.start_square == A8 {
        drop_right(r, BLACK_QUEENSIDE)
    } else if m.moved_piece == Piece::WhiteKing {
        drop_right(r, 12)
    } else if m.moved_piece == Piece::BlackKing {
        drop_right(r, 3)
    } else {
        r
    };
    assert forall|flag: u8, dropped: u8, other: u8|
        other == 1 || other == 2 || other == 4 || other == 8 implies (#[trigger] has_right(
        drop_right(flag, dropped),
        other,
    ) == (has_right(flag, other) && other & dropped == 0)) && drop_right(flag, dropped)
        <= flag by {
        lemma_drop_right(flag, dropped, other);
    }
    assert(8u8 & 8u8 != 0 && 8u8 & 12u8 != 0 && 4u8 & 4u8 != 0 && 4u8 & 12u8 != 0 && 2u8 & 2u8 != 0
        && 2u8 & 3u8 != 0 && 1u8 & 1u8 != 0 && 1u8 & 3u8 != 0) by (bit_vector);
    assert(has_right(by_mover, 8) ==> has_right(r, 8));
    assert(drop_right(r, 8) <= r) by {
        lemma_drop_right(r, 8, 1);
    }
    assert(drop_right(r, 4) <= r) by {
        lemma_drop_right(r, 4, 1);
    }
    assert(drop_right(r, 2) <= r) by {
        lemma_drop_right(r, 2, 1);
    }
    assert(drop_right(r, 1) <= r) by {
        lemma_drop_right(r, 1, 1);
    }
    assert(drop_right(r, 12) <= r) by {
        lemma_drop_right(r, 12, 1);
    }
    assert(drop_right(r, 3) <= r) by {
        lemma_drop_right(r, 3, 1);
    }
    assert(by_mover <= r);
    assert(drop_right(by_mover, 8) <= by_mover) by {
        lemma_drop_right(by_mover, 8, 1);
    }
    assert(drop_right(by_mover, 4) <= by_mover) by {
        lemma_drop_right(by_mover, 4, 1);
    }
    assert(drop_right(by_mover, 2) <= by_mover) by {
        lemma_drop_right(by_mover, 2, 1);
    }
    assert(drop_right(by_mover, 1) <= by_mover) by {
        lemma_drop_right(by_mover, 1, 1);
    }
}

} // verus!
