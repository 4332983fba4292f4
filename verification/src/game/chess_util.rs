//! Squares of the bordered board, the offsets by which the men step, and
//! the names of squares.

use vstd::prelude::*;
use crate::game::mask::SquareSet;
use crate::game::piece::Colour;
use crate::game::piece::wrap_square;
use crate::game::text::chars_of;
use crate::game::text::string_of;

verus! {

/// The castling rights of both sides, one bit each.
pub type CastlingRights = u8;

pub const ALL_CASTLING_RIGHTS: CastlingRights = 0b1111;

pub const NO_CASTLING_RIGHTS: CastlingRights = 0b0000;

pub const WHITE_KINGSIDE: CastlingRights = 0b1000;

pub const WHITE_QUEENSIDE: CastlingRights = 0b0100;

pub const BLACK_KINGSIDE: CastlingRights = 0b0010;

pub const BLACK_QUEENSIDE: CastlingRights = 0b0001;

/// An index into the bordered board: sixteen columns to a rank, of which the
/// first eight are the playing field. Rank 8 comes first.
pub type Square = u8;

pub const A8: Square = 0x00;
pub const B8: Square = 0x01;
pub const C8: Square = 0x02;
pub const D8: Square = 0x03;
pub const E8: Square = 0x04;
pub const F8: Square = 0x05;
pub const G8: Square = 0x06;
pub const H8: Square = 0x07;

pub const A7: Square = 0x10;
pub const B7: Square = 0x11;
pub const C7: Square = 0x12;
pub const D7: Square = 0x13;
pub const E7: Square = 0x14;
pub const F7: Square = 0x15;
pub const G7: Square = 0x16;
pub const H7: Square = 0x17;

pub const A6: Square = 0x20;
pub const B6: Square = 0x21;
pub const C6: Square = 0x22;
pub const D6: Square = 0x23;
pub const E6: Square = 0x24;
pub const F6: Square = 0x25;
pub const G6: Square = 0x26;
pub const H6: Square = 0x27;

pub const A5: Square = 0x30;
pub const B5: Square = 0x31;
pub const C5: Square = 0x32;
pub const D5: Square = 0x33;
pub const E5: Square = 0x34;
pub const F5: Square = 0x35;
pub const G5: Square = 0x36;
pub const H5: Square = 0x37;

pub const A4: Square = 0x40;
pub const B4: Square = 0x41;
pub const C4: Square = 0x42;
pub const D4: Square = 0x43;
pub const E4: Square = 0x44;
pub const F4: Square = 0x45;
pub const G4: Square = 0x46;
pub const H4: Square = 0x47;

pub const A3: Square = 0x50;
pub const B3: Square = 0x51;
pub const C3: Square = 0x52;
pub const D3: Square = 0x53;
pub const E3: Square = 0x54;
pub const F3: Square = 0x55;
pub const G3: Square = 0x56;
pub const H3: Square = 0x57;

pub const A2: Square = 0x60;
pub const B2: Square = 0x61;
pub const C2: Square = 0x62;
pub const D2: Square = 0x63;
pub const E2: Square = 0x64;
pub const F2: Square = 0x65;
pub const G2: Square = 0x66;
pub const H2: Square = 0x67;

pub const A1: Square = 0x70;
pub const B1: Square = 0x71;
pub const C1: Square = 0x72;
pub const D1: Square = 0x73;
pub const E1: Square = 0x74;
pub const F1: Square = 0x75;
pub const G1: Square = 0x76;
pub const H1: Square = 0x77;

/// The squares of the playing field, rank 8 first.
pub const VALID_SQUARES: [Square; 64] = [
    A8, B8, C8, D8, E8, F8, G8, H8,
    A7, B7, C7, D7, E7, F7, G7, H7,
    A6, B6, C6, D6, E6, F6, G6, H6,
    A5, B5, C5, D5, E5, F5, G5, H5,
    A4, B4, C4, D4, E4, F4, G4, H4,
    A3, B3, C3, D3, E3, F3, G3, H3,
    A2, B2, C2, D2, E2, F2, G2, H2,
    A1, B1, C1, D1, E1, F1, G1, H1,
];

/// The steps of a knight on the bordered board.
pub const KNIGHT_OFFSETS: [i8; 8] = [-33, -31, -18, -14, 14, 18, 31, 33];

/// The steps of a king.
pub const KING_OFFSETS: [i8; 8] = [-17, -16, -15, -1, 1, 15, 16, 17];

/// The directions of a rook.
pub const ORTHOGONAL_OFFSETS: [i8; 4] = [-16, -1, 1, 16];

/// The directions of a bishop.
pub const DIAGONAL_OFFSETS: [i8; 4] = [-17, -15, 15, 17];

/// Whether an index lies on the playing field.
pub open spec fn on_board(square: int) -> bool {
    0 <= square < 128 && square % 16 < 8
}

/// The index `offset` away from `square`, reduced to the byte range.
pub open spec fn spec_step(square: u8, offset: i8) -> u8 {
    wrap_square(square + offset) as u8
}

#[verifier::when_used_as_spec(on_board_u8)]
pub fn square_is_on_board(square: Square) -> (r: bool)
    ensures
        r == on_board(square as int),
{
    assert((square & 0x88 == 0) == (square < 128 && square % 16 < 8)) by (bit_vector);
    (square & 0x88) == 0
}

/// Whether a square lies on the playing field.
pub open spec fn on_board_u8(square: Square) -> bool {
    on_board(square as int)
}

/// Adds a signed offset to a square, wrapping around the byte range, so that
/// a step off the field always lands on an index that is not on the board
/// when the start is on it and the offset is one of the move tables' entries.
#[verifier::when_used_as_spec(spec_step)]
pub fn step(square: Square, offset: i8) -> (r: Square)
    ensures
        r == spec_step(square, offset),
{
    let t: i16 = square as i16 + offset as i16;
    if t < 0 {
        (t + 256) as u8
    } else if t >= 256 {
        (t - 256) as u8
    } else {
        t as u8
    }
}

/// The squares among `square + offsets[i]`, `i < n`, that are on the board.
pub open spec fn offset_targets(square: Square, offsets: Seq<i8>, n: int) -> Set<u8>
    decreases n,
{
    if n <= 0 {
        Set::empty()
    } else {
        let rest = offset_targets(square, offsets, n - 1);
        let t = spec_step(square, offsets[n - 1]);
        if on_board(t as int) {
            rest.insert(t)
        } else {
            rest
        }
    }
}

fn offset_board(square: Square, offsets: &[i8; 8]) -> (r: SquareSet)
    ensures
        r@ == offset_targets(square, offsets@, 8),
{
    let mut board = SquareSet::empty();
    let mut i: usize = 0;
    while i < 8
        invariant
            i <= 8,
            board@ == offset_targets(square, offsets@, i as int),
        decreases 8 - i,
    {
        let t = step(square, offsets[i]);
        if square_is_on_board(t) {
            board.insert(t);
        }
        i += 1;
    }
    board
}

/// The squares a knight on `square` attacks.
pub open spec fn knight_targets(square: Square) -> Set<u8> {
    offset_targets(square, KNIGHT_OFFSETS@, 8)
}

/// The squares a king on `square` attacks.
pub open spec fn king_targets(square: Square) -> Set<u8> {
    offset_targets(square, KING_OFFSETS@, 8)
}

/// The squares a pawn of `colour` on `square` attacks: the two diagonal
/// neighbours one rank ahead, where they are on the board.
pub open spec fn pawn_targets(square: Square, colour: Colour) -> Set<u8> {
    let ahead = colour.spec_forward(square as int);
    let left = if on_board(ahead - 1) {
        Set::<u8>::empty().insert((ahead - 1) as u8)
    } else {
        Set::<u8>::empty()
    };
    if on_board(ahead + 1) {
        left.insert((ahead + 1) as u8)
    } else {
        left
    }
}

/// The squares a knight on `square` attacks.
pub fn get_knight_move_board(square: Square) -> (r: SquareSet)
    ensures
        r@ == knight_targets(square),
{
    offset_board(square, &KNIGHT_OFFSETS)
}

/// The squares a king on `square` attacks.
pub fn get_king_move_board(square: Square) -> (r: SquareSet)
    ensures
        r@ == king_targets(square),
{
    offset_board(square, &KING_OFFSETS)
}

/// The squares a pawn of `colour` on `square` attacks.
pub fn get_pawn_attack_board(square: Square, colour: Colour) -> (r: SquareSet)
    ensures
        r@ == pawn_targets(square, colour),
{
    let ahead: i16 = match colour {
        Colour::White => square as i16 - 16,
        Colour::Black => square as i16 + 16,
    };
    let mut board = SquareSet::empty();
    if 0 <= ahead - 1 && ahead - 1 < 128 && square_is_on_board((ahead - 1) as u8) {
        board.insert((ahead - 1) as u8);
    }
    if 0 <= ahead + 1 && ahead + 1 < 128 && square_is_on_board((ahead + 1) as u8) {
        board.insert((ahead + 1) as u8);
    }
    board
}

/// Whether two characters name a square: a file letter `a` to `h`, then a
/// rank digit `1` to `8`.
pub open spec fn is_square_name(file: char, rank: char) -> bool {
    'a' <= file <= 'h' && '1' <= rank <= '8'
}

/// The square that a file letter and a rank digit name.
pub open spec fn named_square(file: char, rank: char) -> int {
    (file as int - 'a' as int) + 16 * (8 - (rank as int - '0' as int))
}

/// The file letter of a square on the board.
pub open spec fn file_char(square: Square) -> char {
    ('a' as int + square as int % 8) as char
}

/// The rank digit of a square on the board.
pub open spec fn rank_char(square: Square) -> char {
    ('0' as int + 8 - square as int / 16) as char
}

/// Reads one square from a file letter and a rank digit.
pub fn square_from_chars(file: char, rank: char) -> (r: Option<Square>)
    ensures
        r is Some <==> is_square_name(file, rank),
        r is Some ==> r->0 as int == named_square(file, rank) && on_board(r->0 as int) && file_char(
            r->0,
        ) == file && rank_char(r->0) == rank,
{
    if 'a' <= file && file <= 'h' && '1' <= rank && rank <= '8' {
        let f: u32 = file as u32 - 'a' as u32;
        let d: u32 = rank as u32 - '0' as u32;
        Some((f + 16 * (8 - d)) as u8)
    } else {
        None
    }
}

/// The file letter of a square on the board.
pub fn file_letter(square: Square) -> (r: char)
    requires
        on_board(square as int),
    ensures
        r == file_char(square),
        'a' <= r <= 'h',
{
    let f: u8 = square % 8;
    (97u8 + f) as char
}

/// The rank digit of a square on the board.
pub fn rank_digit(square: Square) -> (r: char)
    requires
        on_board(square as int),
    ensures
        r == rank_char(square),
        '1' <= r <= '8',
{
    let d: u8 = 8 - square / 16;
    (48u8 + d) as char
}

/// Reads a square from the first two characters of its name.
pub fn an_to_square(an: String) -> (r: Square)
    requires
        an@.len() >= 2,
        is_square_name(an@[0], an@[1]),
    ensures
        r as int == named_square(an@[0], an@[1]),
        on_board(r as int),
{
    let chars = chars_of(an.as_str());
    match square_from_chars(chars[0], chars[1]) {
        Some(square) => square,
        None => 0,
    }
}

/// The two-character name of a square on the board.
pub fn square_to_an(square: Square) -> (r: String)
    requires
        on_board(square as int),
    ensures
        r@ == seq![file_char(square), rank_char(square)],
{
    let mut chars: Vec<char> = Vec::new();
    chars.push(file_letter(square));
    chars.push(rank_digit(square));
    assert(chars@ =~= seq![file_char(square), rank_char(square)]);
    string_of(&chars)
}

} // verus!
