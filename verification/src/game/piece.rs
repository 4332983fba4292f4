//! Colours and men, in the packed encoding that the board and the hash
//! tables index by.

use vstd::prelude::*;

verus! {

/// The colour bit of White in a man's code.
pub const WHITE: u8 = 0;

/// The colour bit of Black in a man's code.
pub const BLACK: u8 = 8;

/// The kinds of men, as the low bits of a man's code.
pub const PAWN: u8 = 0;

pub const KNIGHT: u8 = 1;

pub const BISHOP: u8 = 2;

pub const ROOK: u8 = 3;

pub const QUEEN: u8 = 4;

pub const KING: u8 = 5;

/// The two sides of a game.
#[derive(Copy, Clone, PartialEq, Eq, Structural, Debug)]
pub enum Colour {
    White,
    Black,
}

impl Colour {
    /// The colour bit of the packed piece encoding: 0 for White, 8 for Black.
    pub open spec fn spec_code(self) -> u8 {
        match self {
            Colour::White => 0,
            Colour::Black => 8,
        }
    }

    /// The other colour.
    pub open spec fn spec_opposite(self) -> Colour {
        match self {
            Colour::White => Colour::Black,
            Colour::Black => Colour::White,
        }
    }

    /// The square one rank ahead of `square` for a pawn of this colour, as a
    /// mathematical integer: White moves towards lower indices.
    pub open spec fn spec_forward(self, square: int) -> int {
        match self {
            Colour::White => square - 16,
            Colour::Black => square + 16,
        }
    }

    #[verifier::when_used_as_spec(spec_code)]
    pub fn code(self) -> (r: u8)
        ensures
            r == self.spec_code(),
    {
        match self {
            Colour::White => WHITE,
            Colour::Black => BLACK,
        }
    }

    /// Reads the side-to-move letter of a position string.
    pub fn from_char(c: char) -> (r: Colour)
        requires
            c == 'w' || c == 'b',
        ensures
            r == (if c == 'w' { Colour::White } else { Colour::Black }),
    {
        if c == 'w' {
            Colour::White
        } else {
            Colour::Black
        }
    }

    /// The letter of the colour in a position string.
    pub open spec fn spec_to_char(self) -> char {
        match self {
            Colour::White => 'w',
            Colour::Black => 'b',
        }
    }

    #[verifier::when_used_as_spec(spec_to_char)]
    pub fn to_char(self) -> (r: char)
        ensures
            r == self.spec_to_char(),
    {
        match self {
            Colour::White => 'w',
            Colour::Black => 'b',
        }
    }

    #[verifier::when_used_as_spec(spec_opposite)]
    pub fn opposite(self) -> (r: Colour)
        ensures
            r == self.spec_opposite(),
    {
        match self {
            Colour::White => Colour::Black,
            Colour::Black => Colour::White,
        }
    }

    /// Steps one rank in this colour's pawn direction, wrapping around the
    /// byte range exactly as the square arithmetic of the bordered board does.
    pub fn offset_rank(self, square: u8) -> (r: u8)
        ensures
            r as int == wrap_square(self.spec_forward(square as int)),
    {
        match self {
            Colour::White => if square >= 16 {
                square - 16
            } else {
                square + 240
            },
            Colour::Black => if square < 240 {
                square + 16
            } else {
                square - 240
            },
        }
    }

    /// The sign of this colour's pawn direction on the board index.
    pub fn to_dir(self) -> (r: isize)
        ensures
            r == (match self {
                Colour::White => -1isize,
                Colour::Black => 1isize,
            }),
    {
        match self {
            Colour::White => -1,
            Colour::Black => 1,
        }
    }
}

/// Reduction of an integer in `-256 .. 512` to the byte range.
pub open spec fn wrap_square(t: int) -> int {
    if t < 0 {
        t + 256
    } else if t >= 256 {
        t - 256
    } else {
        t
    }
}

/// A square's content: one of the twelve men, nothing, or the sentinel that
/// surrounds the playing field.
#[derive(Copy, Clone, PartialEq, Eq, Structural, Debug)]
pub enum Piece {
    WhitePawn,
    WhiteKnight,
    WhiteBishop,
    WhiteRook,
    WhiteQueen,
    WhiteKing,
    BlackPawn,
    BlackKnight,
    BlackBishop,
    BlackRook,
    BlackQueen,
    BlackKing,
    Empty,
    Border,
}

impl Piece {
    /// The packed encoding: kind in the low three bits, colour in bit 3.
    /// `Border` takes 14 and `Empty` 15, which no man uses.
    pub open spec fn spec_code(self) -> u8 {
        match self {
            Piece::WhitePawn => 0,
            Piece::WhiteKnight => 1,
            Piece::WhiteBishop => 2,
            Piece::WhiteRook => 3,
            Piece::WhiteQueen => 4,
            Piece::WhiteKing => 5,
            Piece::BlackPawn => 8,
            Piece::BlackKnight => 9,
            Piece::BlackBishop => 10,
            Piece::BlackRook => 11,
            Piece::BlackQueen => 12,
            Piece::BlackKing => 13,
            Piece::Border => 14,
            Piece::Empty => 15,
        }
    }

    /// True of the twelve men, false of `Empty` and `Border`.
    pub open spec fn is_man(self) -> bool {
        self != Piece::Empty && self != Piece::Border
    }

    /// The man of the given colour and kind (`PAWN` .. `KING`).
    pub open spec fn spec_of(colour: Colour, kind: u8) -> Piece {
        match colour {
            Colour::White => if kind == 0 {
                Piece::WhitePawn
            } else if kind == 1 {
                Piece::WhiteKnight
            } else if kind == 2 {
                Piece::WhiteBishop
            } else if kind == 3 {
                Piece::WhiteRook
            } else if kind == 4 {
                Piece::WhiteQueen
            } else {
                Piece::WhiteKing
            },
            Colour::Black => if kind == 0 {
                Piece::BlackPawn
            } else if kind == 1 {
                Piece::BlackKnight
            } else if kind == 2 {
                Piece::BlackBishop
            } else if kind == 3 {
                Piece::BlackRook
            } else if kind == 4 {
                Piece::BlackQueen
            } else {
                Piece::BlackKing
            },
        }
    }

    pub open spec fn spec_colour(self) -> Colour {
        if self.spec_code() < 8 {
            Colour::White
        } else {
            Colour::Black
        }
    }

    pub open spec fn spec_is_colour(self, colour: Colour) -> bool {
        self.spec_colour() == colour
    }

    pub open spec fn spec_is_pawn(self) -> bool {
        self == Piece::WhitePawn || self == Piece::BlackPawn
    }

    pub open spec fn spec_is_king(self) -> bool {
        self == Piece::WhiteKing || self == Piece::BlackKing
    }

    #[verifier::when_used_as_spec(spec_code)]
    pub fn code(self) -> (r: u8)
        ensures
            r == self.spec_code(),
            r < 16,
    {
        match self {
            Piece::WhitePawn => 0,
            Piece::WhiteKnight => 1,
            Piece::WhiteBishop => 2,
            Piece::WhiteRook => 3,
            Piece::WhiteQueen => 4,
            Piece::WhiteKing => 5,
            Piece::BlackPawn => 8,
            Piece::BlackKnight => 9,
            Piece::BlackBishop => 10,
            Piece::BlackRook => 11,
            Piece::BlackQueen => 12,
            Piece::BlackKing => 13,
            Piece::Border => 14,
            Piece::Empty => 15,
        }
    }

    /// The man with the given colour and kind.
    #[verifier::when_used_as_spec(spec_of)]
    pub fn of(colour: Colour, kind: u8) -> (r: Piece)
        requires
            kind <= KING,
        ensures
            r == Piece::spec_of(colour, kind),
            r.is_man(),
            r.spec_colour() == colour,
            r.spec_code() == colour.spec_code() + kind,
    {
        match colour {
            Colour::White => if kind == 0 {
                Piece::WhitePawn
            } else if kind == 1 {
                Piece::WhiteKnight
            } else if kind == 2 {
                Piece::WhiteBishop
            } else if kind == 3 {
                Piece::WhiteRook
            } else if kind == 4 {
                Piece::WhiteQueen
            } else {
                Piece::WhiteKing
            },
            Colour::Black => if kind == 0 {
                Piece::BlackPawn
            } else if kind == 1 {
                Piece::BlackKnight
            } else if kind == 2 {
                Piece::BlackBishop
            } else if kind == 3 {
                Piece::BlackRook
            } else if kind == 4 {
                Piece::BlackQueen
            } else {
                Piece::BlackKing
            },
        }
    }

    /// The colour bit of the encoding. `Empty` and `Border` carry the bit of
    /// Black, so callers test for a man first.
    #[verifier::when_used_as_spec(spec_colour)]
    pub fn get_colour(self) -> (r: Colour)
        ensures
            r == self.spec_colour(),
    {
        if self.code() < 8 {
            Colour::White
        } else {
            Colour::Black
        }
    }

    #[verifier::when_used_as_spec(spec_is_colour)]
    pub fn is_colour(self, colour: Colour) -> (r: bool)
        ensures
            r == self.spec_is_colour(colour),
    {
        self.get_colour() == colour
    }

    pub fn same_colour(self, other: Piece) -> (r: bool)
        ensures
            r == (self.spec_colour() == other.spec_colour()),
    {
        self.get_colour() == other.get_colour()
    }

    /// The letters of a position string: upper case for White, lower case for
    /// Black, a blank for an empty square.
    pub open spec fn is_piece_char(c: char) -> bool {
        c == 'P' || c == 'N' || c == 'B' || c == 'R' || c == 'Q' || c == 'K' || c == 'p' || c == 'n'
            || c == 'b' || c == 'r' || c == 'q' || c == 'k' || c == ' '
    }

    pub open spec fn spec_to_char(self) -> char {
        match self {
            Piece::WhitePawn => 'P',
            Piece::WhiteKnight => 'N',
            Piece::WhiteBishop => 'B',
            Piece::WhiteRook => 'R',
            Piece::WhiteQueen => 'Q',
            Piece::WhiteKing => 'K',
            Piece::BlackPawn => 'p',
            Piece::BlackKnight => 'n',
            Piece::BlackBishop => 'b',
            Piece::BlackRook => 'r',
            Piece::BlackQueen => 'q',
            Piece::BlackKing => 'k',
            Piece::Empty => ' ',
            Piece::Border => '#',
        }
    }

    /// Whether a character is the letter of a man.
    pub fn is_man_letter(c: char) -> (r: bool)
        ensures
            r == (Piece::is_piece_char(c) && c != ' '),
    {
        c == 'P' || c == 'N' || c == 'B' || c == 'R' || c == 'Q' || c == 'K' || c == 'p' || c == 'n'
            || c == 'b' || c == 'r' || c == 'q' || c == 'k'
    }

    pub fn from_char(c: char) -> (r: Piece)
        requires
            Piece::is_piece_char(c),
        ensures
            r.spec_to_char() == c,
            r != Piece::Border,
    {
        match c {
            'P' => Piece::WhitePawn,
            'N' => Piece::WhiteKnight,
            'B' => Piece::WhiteBishop,
            'R' => Piece::WhiteRook,
            'Q' => Piece::WhiteQueen,
            'K' => Piece::WhiteKing,
            'p' => Piece::BlackPawn,
            'n' => Piece::BlackKnight,
            'b' => Piece::BlackBishop,
            'r' => Piece::BlackRook,
            'q' => Piece::BlackQueen,
            'k' => Piece::BlackKing,
            _ => Piece::Empty,
        }
    }

    #[verifier::when_used_as_spec(spec_to_char)]
    pub fn to_char(self) -> (r: char)
        ensures
            r == self.spec_to_char(),
    {
        match self {
            Piece::WhitePawn => 'P',
            Piece::WhiteKnight => 'N',
            Piece::WhiteBishop => 'B',
            Piece::WhiteRook => 'R',
            Piece::WhiteQueen => 'Q',
            Piece::WhiteKing => 'K',
            Piece::BlackPawn => 'p',
            Piece::BlackKnight => 'n',
            Piece::BlackBishop => 'b',
            Piece::BlackRook => 'r',
            Piece::BlackQueen => 'q',
            Piece::BlackKing => 'k',
            Piece::Empty => ' ',
            Piece::Border => '#',
        }
    }

    /// The letter of the kind in algebraic notation, whatever the colour.
    pub open spec fn spec_to_an_char(self) -> char {
        match self {
            Piece::WhitePawn | Piece::BlackPawn => 'P',
            Piece::WhiteKnight | Piece::BlackKnight => 'N',
            Piece::WhiteBishop | Piece::BlackBishop => 'B',
            Piece::WhiteRook | Piece::BlackRook => 'R',
            Piece::WhiteQueen | Piece::BlackQueen => 'Q',
            Piece::WhiteKing | Piece::BlackKing => 'K',
            Piece::Empty => ' ',
            Piece::Border => '#',
        }
    }

    #[verifier::when_used_as_spec(spec_to_an_char)]
    pub fn to_an_char(self) -> (r: char)
        ensures
            r == self.spec_to_an_char(),
    {
        match self {
            Piece::WhitePawn | Piece::BlackPawn => 'P',
            Piece::WhiteKnight | Piece::BlackKnight => 'N',
            Piece::WhiteBishop | Piece::BlackBishop => 'B',
            Piece::WhiteRook | Piece::BlackRook => 'R',
            Piece::WhiteQueen | Piece::BlackQueen => 'Q',
            Piece::WhiteKing | Piece::BlackKing => 'K',
            Piece::Empty => ' ',
            Piece::Border => '#',
        }
    }

    #[verifier::when_used_as_spec(spec_is_pawn)]
    pub fn is_pawn(self) -> (r: bool)
        ensures
            r == self.spec_is_pawn(),
    {
        match self {
            Piece::WhitePawn | Piece::BlackPawn => true,
            _ => false,
        }
    }

    pub fn is_knight(self) -> (r: bool)
        ensures
            r == (self == Piece::WhiteKnight || self == Piece::BlackKnight),
    {
        match self {
            Piece::WhiteKnight | Piece::BlackKnight => true,
            _ => false,
        }
    }

    pub fn is_bishop(self) -> (r: bool)
        ensures
            r == (self == Piece::WhiteBishop || self == Piece::BlackBishop),
    {
        match self {
            Piece::WhiteBishop | Piece::BlackBishop => true,
            _ => false,
        }
    }

    pub fn is_rook(self) -> (r: bool)
        ensures
            r == (self == Piece::WhiteRook || self == Piece::BlackRook),
    {
        match self {
            Piece::WhiteRook | Piece::BlackRook => true,
            _ => false,
        }
    }

    pub fn is_queen(self) -> (r: bool)
        ensures
            r == (self == Piece::WhiteQueen || self == Piece::BlackQueen),
    {
        match self {
            Piece::WhiteQueen | Piece::BlackQueen => true,
            _ => false,
        }
    }

    #[verifier::when_used_as_spec(spec_is_king)]
    pub fn is_king(self) -> (r: bool)
        ensures
            r == self.spec_is_king(),
    {
        match self {
            Piece::WhiteKing | Piece::BlackKing => true,
            _ => false,
        }
    }
}

} // verus!
