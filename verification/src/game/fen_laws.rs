//! Reading what is written of a position gives the position back.

use vstd::prelude::*;
use crate::game::chess_util::on_board;
use crate::game::chess_util::{BLACK_KINGSIDE, BLACK_QUEENSIDE, WHITE_KINGSIDE, WHITE_QUEENSIDE};
use crate::game::fen::blank_squares;
use crate::game::fen::castling_text;
use crate::game::fen::en_passant_text;
use crate::game::fen::fen_position;
use crate::game::fen::fen_text;
use crate::game::fen::field_end;
use crate::game::fen::number_text;
use crate::game::fen::read_castling;
use crate::game::fen::read_en_passant;
use crate::game::fen::read_number;
use crate::game::fen::read_turns;
use crate::game::fen::right_text;
use crate::game::fen::digit_char;
use crate::game::fen::is_man_char;
use crate::game::fen::man_of_char;
use crate::game::fen::placement_text;
use crate::game::fen::rank_text;
use crate::game::fen::read_placement;
use crate::game::fen::run_text;
use crate::game::fen::FenError;
use crate::game::piece::Colour;
use crate::game::piece::Piece;
use crate::game::position::has_right;
use crate::game::position::lemma_list_unique;
use crate::game::position::Position;

verus! {

/// A board as far as the placement is read: the squares of the field
/// before `upto` are as on `squares`, the rest is without men.
pub open spec fn read_so_far(squares: Seq<Piece>, upto: int) -> Seq<Piece> {
    Seq::new(
        128,
        |i: int|
            if on_board(i) && i < upto {
                squares[i]
            } else {
                blank_squares()[i]
            },
    )
}

/// The letter of a man names that man.
pub proof fn lemma_man_letter(piece: Piece)
    requires
        piece.is_man(),
    ensures
        is_man_char(piece.spec_to_char()),
        man_of_char(piece.spec_to_char()) == piece,
        !('1' <= piece.spec_to_char() <= '8'),
        piece.spec_to_char() != '/',
{
}

proof fn lemma_read_digit(text: Seq<char>, i: int, at: int, board: Seq<Piece>, run: int)
    requires
        0 <= i < text.len(),
        text[i] == digit_char(run),
        1 <= run <= 8,
        0 <= at <= 0x77,
        at % 16 + run <= 8,
    ensures
        read_placement(text, i, at, board) == read_placement(text, i + 1, at + run, board),
{
}

proof fn lemma_read_man(text: Seq<char>, i: int, at: int, board: Seq<Piece>, piece: Piece)
    requires
        0 <= i < text.len(),
        text[i] == piece.spec_to_char(),
        piece.is_man(),
        on_board(at),
        at <= 0x77,
    ensures
        read_placement(text, i, at, board) == read_placement(
            text,
            i + 1,
            at + 1,
            board.update(at, piece),
        ),
{
    lemma_man_letter(piece);
}

proof fn lemma_read_slash(text: Seq<char>, i: int, at: int, board: Seq<Piece>)
    requires
        0 <= i < text.len(),
        text[i] == '/',
        0 <= at <= 0x77,
        at % 16 == 8,
    ensures
        read_placement(text, i, at, board) == read_placement(text, i + 1, at + 8, board),
{
}

/// Reading the rest of a rank as it is written leads to the end of the
/// rank, with the men of the rank on the board.
proof fn lemma_read_rank(
    text: Seq<char>,
    at_text: int,
    squares: Seq<Piece>,
    row: int,
    base: int,
    col: int,
    spaces: int,
)
    requires
        squares.len() == 128,
        forall|sq: int| 0 <= sq < 128 && on_board(sq) ==> #[trigger] squares[sq] != Piece::Border,
        0 <= row < 8,
        base == row * 16,
        0 <= spaces <= col <= 8,
        forall|c: int| col - spaces <= c < col ==> squares[#[trigger] (base + c)] == Piece::Empty,
        0 <= at_text,
        at_text + rank_text(squares, row, col, spaces).len() <= text.len(),
        text.subrange(at_text, at_text + rank_text(squares, row, col, spaces).len()) == rank_text(
            squares,
            row,
            col,
            spaces,
        ),
    ensures
        read_placement(text, at_text, base + col - spaces, read_so_far(squares, base + col))
            == read_placement(
            text,
            at_text + rank_text(squares, row, col, spaces).len(),
            base + 8,
            read_so_far(squares, base + 8),
        ),
    decreases 8 - col,
{
    let written = rank_text(squares, row, col, spaces);
    let part = text.subrange(at_text, at_text + written.len());
    let board = read_so_far(squares, base + col);
    assert(base % 16 == 0);
    if col >= 8 {
        if spaces > 0 {
            assert(written =~= seq![digit_char(spaces)]);
            assert(text[at_text] == part[0]);
            lemma_read_digit(text, at_text, base + 8 - spaces, board, spaces);
        }
    } else if squares[base + col] == Piece::Empty {
        assert(read_so_far(squares, base + col + 1) =~= board);
        lemma_read_rank(text, at_text, squares, row, base, col + 1, spaces + 1);
    } else {
        let piece = squares[base + col];
        let run = run_text(spaces);
        let rest = rank_text(squares, row, col + 1, 0);
        assert(written == run.push(piece.spec_to_char()) + rest);
        assert(on_board(base + col));
        let here = at_text + run.len();
        assert(text[here] == part[run.len() as int]);
        assert(text.subrange(here + 1, here + 1 + rest.len()) =~= rest) by {
            assert forall|k: int| 0 <= k < rest.len() implies text[here + 1 + k] == rest[k] by {
                assert(text[here + 1 + k] == part[run.len() + 1 + k]);
            }
        }
        let placed = board.update(base + col, piece);
        assert(placed =~= read_so_far(squares, base + col + 1));
        lemma_read_rank(text, here + 1, squares, row, base, col + 1, 0);
        if spaces > 0 {
            assert(text[at_text] == part[0]);
            lemma_read_digit(text, at_text, base + col - spaces, board, spaces);
        }
        lemma_read_man(text, here, base + col, board, piece);
    }
}

/// The text of fewer ranks is the beginning of the text of more.
proof fn lemma_placement_grows(squares: Seq<Piece>, rows: int, more: int)
    requires
        0 <= rows <= more,
    ensures
        placement_text(squares, rows).len() <= placement_text(squares, more).len(),
        placement_text(squares, more).subrange(0, placement_text(squares, rows).len() as int)
            == placement_text(squares, rows),
    decreases more - rows,
{
    if rows < more {
        lemma_placement_grows(squares, rows, more - 1);
        let shorter = placement_text(squares, more - 1);
        let longer = placement_text(squares, more);
        let first = placement_text(squares, rows);
        assert(longer.len() >= shorter.len());
        assert(longer.subrange(0, shorter.len() as int) =~= shorter) by {
            if more - 1 >= 1 {
                assert(longer == shorter.push('/') + rank_text(squares, more - 1, 0, 0));
            }
        }
        assert(longer.subrange(0, first.len() as int) =~= shorter.subrange(0, first.len() as int));
    } else {
        assert(placement_text(squares, more).subrange(
            0,
            placement_text(squares, rows).len() as int,
        ) =~= placement_text(squares, rows));
    }
}

/// Reading the first ranks of a placement as it is written leads to the
/// end of the last of them, with their men on the board.
proof fn lemma_read_ranks(text: Seq<char>, squares: Seq<Piece>, rows: int)
    requires
        squares.len() == 128,
        forall|sq: int| 0 <= sq < 128 && on_board(sq) ==> #[trigger] squares[sq] != Piece::Border,
        1 <= rows <= 8,
        placement_text(squares, 8).len() <= text.len(),
        text.subrange(0, placement_text(squares, 8).len() as int) == placement_text(squares, 8),
    ensures
        read_placement(text, 0, 0, blank_squares()) == read_placement(
            text,
            placement_text(squares, rows).len() as int,
            (rows - 1) * 16 + 8,
            read_so_far(squares, (rows - 1) * 16 + 8),
        ),
    decreases rows,
{
    let all = placement_text(squares, 8);
    let upto = placement_text(squares, rows);
    lemma_placement_grows(squares, rows, 8);
    assert(text.subrange(0, upto.len() as int) =~= upto) by {
        assert forall|k: int| 0 <= k < upto.len() implies text[k] == upto[k] by {
            assert(text[k] == text.subrange(0, all.len() as int)[k]);
            assert(all[k] == all.subrange(0, upto.len() as int)[k]);
        }
    }
    let rank = rank_text(squares, rows - 1, 0, 0);
    let base = (rows - 1) * 16;
    if rows == 1 {
        assert(read_so_far(squares, 0) =~= blank_squares());
        assert(text.subrange(0, rank.len() as int) == rank);
        lemma_read_rank(text, 0, squares, 0, 0, 0, 0);
    } else {
        let before = placement_text(squares, rows - 1);
        lemma_read_ranks(text, squares, rows - 1);
        assert(upto == before.push('/') + rank);
        let slash = before.len() as int;
        assert(text[slash] == upto[slash]);
        assert(text[slash] == '/');
        assert(read_so_far(squares, base - 8) =~= read_so_far(squares, base));
        assert(text.subrange(slash + 1, slash + 1 + rank.len()) =~= rank) by {
            assert forall|k: int| 0 <= k < rank.len() implies text[slash + 1 + k] == rank[k] by {
                assert(text[slash + 1 + k] == upto[slash + 1 + k]);
            }
        }
        lemma_read_rank(text, slash + 1, squares, rows - 1, base, 0, 0);
        lemma_read_slash(text, slash, base - 8, read_so_far(squares, base - 8));
    }
}

/// Reading a placement as it is written gives the board it was written
/// from, and the place behind it.
pub proof fn lemma_read_placement(text: Seq<char>, squares: Seq<Piece>)
    requires
        squares.len() == 128,
        forall|sq: int| 0 <= sq < 128 ==> (on_board(sq) <==> #[trigger] squares[sq] != Piece::Border),
        placement_text(squares, 8).len() <= text.len(),
        text.subrange(0, placement_text(squares, 8).len() as int) == placement_text(squares, 8),
    ensures
        read_placement(text, 0, 0, blank_squares()) == Ok::<(Seq<Piece>, int), FenError>(
            (squares, placement_text(squares, 8).len() as int),
        ),
{
    lemma_read_ranks(text, squares, 8);
    assert(read_so_far(squares, 120) =~= squares);
}

proof fn lemma_read_right(text: Seq<char>, i: int, rights: u8, flag: u8, letter: char)
    requires
        0 <= i < text.len(),
        text[i] == letter,
        (letter == 'K' && flag == WHITE_KINGSIDE) || (letter == 'Q' && flag == WHITE_QUEENSIDE) || (
        letter == 'k' && flag == BLACK_KINGSIDE) || (letter == 'q' && flag == BLACK_QUEENSIDE),
    ensures
        read_castling(text, i, rights) == read_castling(text, i + 1, rights | flag),
{
}

proof fn lemma_rights_add_up(rights: u8)
    by (bit_vector)
    requires
        rights < 16,
    ensures
        ({
            let a = if rights & 8 != 0 {
                0u8 | 8
            } else {
                0u8
            };
            let b = if rights & 4 != 0 {
                a | 4
            } else {
                a
            };
            let c = if rights & 2 != 0 {
                b | 2
            } else {
                b
            };
            let d = if rights & 1 != 0 {
                c | 1
            } else {
                c
            };
            d == rights
        }),
{
}

/// Reading a castling field as it is written gives the rights it was
/// written from.
pub proof fn lemma_read_castling(text: Seq<char>, i: int, rights: u8)
    requires
        rights < 16,
        0 <= i,
        i + castling_text(rights).len() < text.len(),
        text.subrange(i, i + castling_text(rights).len()) == castling_text(rights),
        text[i + castling_text(rights).len()] == ' ',
    ensures
        read_castling(text, i, 0) == Ok::<(u8, int), FenError>(
            (rights, i + castling_text(rights).len() + 1),
        ),
{
    let written = castling_text(rights);
    let part = text.subrange(i, i + written.len());
    if rights == 0 {
        assert(text[i] == part[0]);
        assert(read_castling(text, i, 0) == read_castling(text, i + 1, 0));
    } else {
        lemma_rights_add_up(rights);
        let k = right_text(rights, WHITE_KINGSIDE, 'K');
        let q = right_text(rights, WHITE_QUEENSIDE, 'Q');
        let bk = right_text(rights, BLACK_KINGSIDE, 'k');
        let bq = right_text(rights, BLACK_QUEENSIDE, 'q');
        assert(written == k + q + bk + bq);
        let a: u8 = if has_right(rights, 8) {
            0u8 | 8
        } else {
            0u8
        };
        let b: u8 = if has_right(rights, 4) {
            a | 4
        } else {
            a
        };
        let c: u8 = if has_right(rights, 2) {
            b | 2
        } else {
            b
        };
        let i1 = i + k.len();
        let i2 = i1 + q.len();
        let i3 = i2 + bk.len();
        if has_right(rights, 8) {
            assert(text[i] == part[0]);
            lemma_read_right(text, i, 0, WHITE_KINGSIDE, 'K');
        }
        if has_right(rights, 4) {
            assert(text[i1] == part[i1 - i]);
            lemma_read_right(text, i1, a, WHITE_QUEENSIDE, 'Q');
        }
        if has_right(rights, 2) {
            assert(text[i2] == part[i2 - i]);
            lemma_read_right(text, i2, b, BLACK_KINGSIDE, 'k');
        }
        if has_right(rights, 1) {
            assert(text[i3] == part[i3 - i]);
            lemma_read_right(text, i3, c, BLACK_QUEENSIDE, 'q');
        }
    }
}

/// Reading an en-passant field as it is written gives the target it was
/// written from.
pub proof fn lemma_read_en_passant(text: Seq<char>, i: int, target: Option<u8>)
    requires
        target is Some ==> on_board(target->0 as int),
        0 <= i,
        i + en_passant_text(target).len() <= text.len(),
        text.subrange(i, i + en_passant_text(target).len()) == en_passant_text(target),
    ensures
        read_en_passant(text, i) == Ok::<(Option<u8>, int), FenError>(
            (target, i + en_passant_text(target).len()),
        ),
{
    let part = text.subrange(i, i + en_passant_text(target).len());
    assert(text[i] == part[0]);
    if target is Some {
        assert(text[i + 1] == part[1]);
    }
}

/// The digits of a number hold no blank.
proof fn lemma_number_has_digits(n: nat)
    ensures
        number_text(n).len() >= 1,
        forall|k: int| 0 <= k < number_text(n).len() ==> '0' <= #[trigger] number_text(n)[k] <= '9',
    decreases n,
{
    if n >= 10 {
        lemma_number_has_digits(n / 10);
    }
}

/// Reading a number as it is written gives the number.
pub proof fn lemma_read_number(text: Seq<char>, from: int, to: int, n: nat)
    requires
        n <= u32::MAX,
        0 <= from <= to <= text.len(),
        text.subrange(from, to) == number_text(n),
    ensures
        read_number(text, from, to) == Some(n),
    decreases n,
{
    let written = number_text(n);
    lemma_number_has_digits(n);
    assert(text[to - 1] == text.subrange(from, to)[to - 1 - from]);
    if n >= 10 {
        lemma_number_has_digits(n / 10);
        assert(written == number_text(n / 10).push(digit_char((n % 10) as int)));
        let high = number_text(n / 10);
        assert(text.subrange(from, to - 1) =~= high) by {
            assert forall|k: int| 0 <= k < to - 1 - from implies text.subrange(from, to - 1)[k]
                == #[trigger] high[k] by {
                assert(text[from + k] == text.subrange(from, to)[k]);
            }
        }
        lemma_read_number(text, from, to - 1, n / 10);
    }
}

/// A field of digits that reaches the end of the text ends there.
proof fn lemma_field_of_digits(text: Seq<char>, i: int)
    requires
        0 <= i <= text.len(),
        forall|k: int| i <= k < text.len() ==> #[trigger] text[k] != ' ',
    ensures
        field_end(text, i) == text.len(),
    decreases text.len() - i,
{
    if i < text.len() {
        lemma_field_of_digits(text, i + 1);
    }
}

/// Reading the counters as they are written gives the half moves they were
/// written from, where White is to move after an even number of them.
pub proof fn lemma_read_turns(text: Seq<char>, i: int, side: Colour, turns: u32)
    requires
        (turns % 2 == 0) == (side == Colour::White),
        0 <= i,
        i + 3 <= text.len(),
        text[i] == ' ',
        text[i + 1] == '0',
        text[i + 2] == ' ',
        text.subrange(i + 3, text.len() as int) == number_text((turns / 2 + 1) as nat),
    ensures
        read_turns(text, i, side) == turns,
{
    let n = (turns / 2 + 1) as nat;
    lemma_number_has_digits(n);
    assert(field_end(text, i + 1) == i + 2) by {
        assert(field_end(text, i + 2) == i + 2);
    }
    assert forall|k: int| i + 3 <= k < text.len() implies #[trigger] text[k] != ' ' by {
        assert(text[k] == text.subrange(i + 3, text.len() as int)[k - (i + 3)]);
    }
    lemma_field_of_digits(text, i + 3);
    lemma_read_number(text, i + 3, text.len() as int, n);
}

/// A position as it is before any move is made from it.
pub open spec fn without_history(p: Position) -> Position {
    Position { history: Seq::empty(), ..p }
}

/// Reading what is written of a position gives that position, without its
/// history, where White is to move after an even number of half moves.
pub proof fn lemma_fen_round_trip(p: Position)
    requires
        p.ok(),
        (p.turns_taken % 2 == 0) == (p.side_to_move == Colour::White),
    ensures
        fen_position(fen_text(p)) == Ok::<Position, FenError>(without_history(p)),
{
    let text = fen_text(p);
    let a = placement_text(p.squares, 8);
    let b = seq![' ', p.side_to_move.spec_to_char(), ' '];
    let c = castling_text(p.castling_rights);
    let d = seq![' '];
    let e = en_passant_text(p.en_passant);
    let f = seq![' ', '0', ' '];
    let g = number_text((p.turns_taken / 2 + 1) as nat);
    assert(text == a + b + c + d + e + f + g);
    let at_side = a.len() as int;
    let at_rights = at_side + 3;
    let at_target = at_rights + c.len() + 1;
    let at_clock = at_target + e.len();
    assert(text.subrange(0, at_side) =~= a);
    assert(text[at_side] == b[0] && text[at_side + 1] == b[1] && text[at_side + 2] == b[2]);
    assert(text.subrange(at_rights, at_rights + c.len()) =~= c);
    assert(text[at_rights + c.len()] == d[0]);
    assert(text.subrange(at_target, at_target + e.len()) =~= e);
    assert(text[at_clock] == f[0] && text[at_clock + 1] == f[1] && text[at_clock + 2] == f[2]);
    assert(text.subrange(at_clock + 3, text.len() as int) =~= g);
    lemma_read_placement(text, p.squares);
    lemma_read_castling(text, at_rights, p.castling_rights);
    lemma_read_en_passant(text, at_target, p.en_passant);
    lemma_read_turns(text, at_clock, p.side_to_move, p.turns_taken);
    let placed = Position {
        squares: p.squares,
        side_to_move: p.side_to_move,
        castling_rights: p.castling_rights,
        en_passant: p.en_passant,
        white_king: 0,
        black_king: 0,
        turns_taken: p.turns_taken,
        history: Seq::empty(),
    };
    let whites = seq![p.white_king];
    let blacks = seq![p.black_king];
    assert(placed.lists(Piece::WhiteKing, whites)) by {
        assert forall|sq: int| on_board(sq) && #[trigger] placed.squares[sq]
            == Piece::WhiteKing implies whites.contains(sq as u8) by {
            assert(whites[0] == sq as u8);
        }
    }
    assert(placed.lists(Piece::BlackKing, blacks)) by {
        assert forall|sq: int| on_board(sq) && #[trigger] placed.squares[sq]
            == Piece::BlackKing implies blacks.contains(sq as u8) by {
            assert(blacks[0] == sq as u8);
        }
    }
    lemma_list_unique(placed, Piece::WhiteKing, whites);
    lemma_list_unique(placed, Piece::BlackKing, blacks);
    let read = Position { white_king: p.white_king, black_king: p.black_king, ..placed };
    assert(read == without_history(p));
    assert(read.rights_ok());
    assert(read.en_passant_ok());
}

} // verus!
