use chess::game::an_to_square;
use chess::game::chess_util::{A1, A8, C3, E4, H1, H8};
use chess::game::get_king_move_board;
use chess::game::get_knight_move_board;
use chess::game::get_possible_moves;
use chess::game::is_back_rank;
use chess::game::is_back_two_ranks;
use chess::game::square_is_on_board;
use chess::game::square_to_an;
use chess::game::Board;
use chess::game::Colour;
use chess::game::Move;
use chess::game::MoveType;
use chess::game::Piece;
use chess::game::SquareSet;

fn an_of(board: &Board, long_an: &str) -> String {
    let moves = get_possible_moves(board);
    Move::from_long_an(long_an, board).unwrap().as_an(&moves)
}

#[test]
fn squares_and_names() {
    assert_eq!(square_to_an(A8), "a8");
    assert_eq!(square_to_an(H1), "h1");
    assert_eq!(square_to_an(E4), "e4");
    assert_eq!(an_to_square(String::from("a8")), A8);
    assert_eq!(an_to_square(String::from("h1")), H1);
    assert_eq!(an_to_square(String::from("e4e5")), E4);
    assert!(square_is_on_board(H8));
    assert!(!square_is_on_board(0x08));
    assert!(!square_is_on_board(0x80));
    assert!(is_back_rank(Colour::White, A1));
    assert!(!is_back_rank(Colour::White, 0x67));
    assert!(is_back_rank(Colour::Black, H8));
    assert!(is_back_two_ranks(Colour::White, 0x60));
    assert!(!is_back_two_ranks(Colour::White, 0x57));
    assert!(is_back_two_ranks(Colour::Black, 0x17));
    assert!(!is_back_two_ranks(Colour::Black, 0x20));
}

#[test]
fn move_boards() {
    let corner = get_knight_move_board(A1);
    assert_eq!(corner.bits, (1u128 << 0x51) | (1u128 << 0x62));
    let king = get_king_move_board(A8);
    assert_eq!(king.bits, (1u128 << 0x01) | (1u128 << 0x10) | (1u128 << 0x11));
    let mut set = SquareSet::empty();
    assert!(set.is_empty());
    set.insert(C3);
    assert!(set.contains(C3));
    assert!(!set.contains(E4));
    assert!(!set.contains(200));
    set.add_all(SquareSet::single(E4));
    assert!(set.contains(E4) && set.contains(C3));
    assert!(!set.is_empty());
}

#[test]
fn pieces_and_colours() {
    assert_eq!(Colour::from_char('w'), Colour::White);
    assert_eq!(Colour::from_char('b'), Colour::Black);
    assert_eq!(Colour::White.to_char(), 'w');
    assert_eq!(Colour::Black.opposite(), Colour::White);
    assert_eq!(Colour::White.offset_rank(0x64), 0x54);
    assert_eq!(Colour::Black.offset_rank(0x14), 0x24);
    assert_eq!(Colour::White.offset_rank(0x04), 0xf4);
    assert_eq!(Colour::White.to_dir(), -1);
    assert_eq!(Colour::Black.to_dir(), 1);
    for c in ['P', 'N', 'B', 'R', 'Q', 'K', 'p', 'n', 'b', 'r', 'q', 'k', ' '] {
        assert_eq!(Piece::from_char(c).to_char(), c);
    }
    assert_eq!(Piece::BlackQueen.to_an_char(), 'Q');
    assert_eq!(Piece::WhiteKnight.get_colour(), Colour::White);
    assert_eq!(Piece::BlackPawn.get_colour(), Colour::Black);
    assert!(Piece::BlackPawn.is_colour(Colour::Black));
    assert!(Piece::WhiteRook.same_colour(Piece::WhiteKing));
    assert!(!Piece::WhiteRook.same_colour(Piece::BlackKing));
    assert!(Piece::WhitePawn.is_pawn() && Piece::BlackKnight.is_knight() && Piece::WhiteBishop.is_bishop());
    assert!(Piece::BlackRook.is_rook() && Piece::WhiteQueen.is_queen() && Piece::BlackKing.is_king());
    assert!(!Piece::Empty.is_pawn() && !Piece::Border.is_king());
    assert_eq!(Piece::of(Colour::Black, chess::game::ROOK), Piece::BlackRook);
    assert_eq!(Piece::BlackRook.code(), chess::game::BLACK | chess::game::ROOK);
}

#[test]
fn long_notation() {
    let board = Board::default();
    let pawn = Move::from_long_an("e2e4", &board).unwrap();
    assert_eq!(pawn.move_type, MoveType::PawnDouble);
    assert_eq!(pawn.as_long_an(), "e2e4");
    assert_eq!(pawn.to_long_an(), "e2e4");
    assert_eq!(Move::from_long_an("g1f3", &board).unwrap().moved_piece, Piece::WhiteKnight);
    assert!(Move::from_long_an("e2e5", &board).is_none());
    assert!(Move::from_long_an("e7e5", &board).is_none());
    assert!(Move::from_long_an("e2e4 ", &board).is_none());
    assert!(Move::from_long_an("", &board).is_none());
    let promo = Board::from_fen(String::from("3r3k/4P3/8/8/8/8/8/4K3 w - - 0 1")).unwrap();
    let knight = Move::from_long_an("e7d8n", &promo).unwrap();
    assert_eq!(knight.move_type, MoveType::Promotion(Piece::WhiteKnight));
    assert_eq!(knight.replaced_piece, Piece::BlackRook);
    assert_eq!(knight.as_long_an(), "e7d8n");
    assert!(Move::from_long_an("e7e8", &promo).is_none());
    assert_eq!(Move::from_long_an("e7e8q", &promo).unwrap().as_an(&get_possible_moves(&promo)), "e8=Q");
    assert_eq!(knight.as_an(&get_possible_moves(&promo)), "exd8=N");
    let castle = Board::from_fen(String::from("r3k2r/8/8/8/8/8/8/R3K2R b KQkq - 0 1")).unwrap();
    assert_eq!(Move::from_long_an("e8c8", &castle).unwrap().move_type, MoveType::Castle);
}

#[test]
fn short_notation() {
    let board = Board::default();
    assert_eq!(an_of(&board, "g1f3"), "Nf3");
    assert_eq!(an_of(&board, "e2e4"), "e4");
    let takes = Board::from_fen(String::from("rnbqkbnr/ppp1pppp/8/3p4/4P3/8/PPPP1PPP/RNBQKBNR w KQkq d6 0 2")).unwrap();
    assert_eq!(an_of(&takes, "e4d5"), "exd5");
    let castle = Board::from_fen(String::from("r3k2r/8/8/8/8/8/8/R3K2R w KQkq - 0 1")).unwrap();
    assert_eq!(an_of(&castle, "e1g1"), "O-O");
    assert_eq!(an_of(&castle, "e1c1"), "O-O-O");
    assert_eq!(an_of(&castle, "a1a8"), "Rxa8");
    assert_eq!(an_of(&castle, "a1d1"), "Rd1");
    let rooks = Board::from_fen(String::from("4k3/8/8/8/8/8/4K3/R6R w - - 0 1")).unwrap();
    assert_eq!(an_of(&rooks, "a1d1"), "Rad1");
    assert_eq!(an_of(&rooks, "h1d1"), "Rhd1");
    let files = Board::from_fen(String::from("4k3/8/8/8/8/8/R7/R3K3 w - - 0 1")).unwrap();
    assert_eq!(an_of(&files, "a1b1"), "Rb1");
    let ranks = Board::from_fen(String::from("4k3/8/8/R7/8/8/8/R3K3 w - - 0 1")).unwrap();
    assert_eq!(an_of(&ranks, "a1a3"), "R1a3");
    assert_eq!(an_of(&ranks, "a5a3"), "R5a3");
    let both = Board::from_fen(String::from("7k/8/8/8/1Q5Q/8/8/K6Q w - - 0 1")).unwrap();
    assert_eq!(an_of(&both, "h4e1"), "Qh4e1");
    assert_eq!(an_of(&both, "h1e1"), "Q1e1");
    assert_eq!(an_of(&both, "b4e4"), "Qbe4");
    let knights = Board::from_fen(String::from("4k3/8/8/8/8/5N2/8/1N2K3 w - - 0 1")).unwrap();
    assert_eq!(an_of(&knights, "b1d2"), "Nbd2");
    assert_eq!(an_of(&knights, "f3d2"), "Nfd2");
}

#[test]
fn short_notation_is_read_back() {
    let board = Board::from_fen(String::from("r3k2r/p1ppqpb1/bn2pnp1/3PN3/1p2P3/2N2Q1p/PPPBBPPP/R3K2R w KQkq - 0 1")).unwrap();
    let moves = get_possible_moves(&board);
    assert_eq!(moves.len(), 48);
    for m in &moves {
        let text = m.as_an(&moves);
        let found = Move::from_an(&text, &board).unwrap();
        assert_eq!(found.as_long_an(), m.as_long_an());
        let marked = format!("{}+", text);
        assert_eq!(Move::from_an(&marked, &board).unwrap().as_long_an(), m.as_long_an());
    }
    assert!(Move::from_an("O-O#", &board).is_some());
    assert!(Move::from_an("Ke2", &board).is_none());
    assert!(Move::from_an("", &board).is_none());
    assert!(Move::from_an("+", &board).is_none());
    assert!(Move::from_an("Nf3++", &board).is_none());
}

#[test]
fn default_move_is_empty() {
    let m = Move::default();
    assert_eq!(m.start_square, 0);
    assert_eq!(m.end_square, 0);
    assert_eq!(m.moved_piece, Piece::Empty);
    assert_eq!(m.replaced_piece, Piece::Empty);
    assert_eq!(m.old_castling_rights, 0);
    assert_eq!(m.old_en_passant, None);
    assert_eq!(m.move_type, MoveType::Normal);
}

#[test]
fn generated_moves_come_in_a_fixed_order() {
    let board = Board::default();
    let moves: Vec<String> = get_possible_moves(&board).iter().map(|m| m.as_long_an()).collect();
    assert_eq!(
        moves,
        vec![
            "a2a3", "a2a4", "b2b3", "b2b4", "c2c3", "c2c4", "d2d3", "d2d4", "e2e3", "e2e4", "f2f3", "f2f4",
            "g2g3", "g2g4", "h2h3", "h2h4", "b1a3", "b1c3", "g1f3", "g1h3"
        ]
    );
}
