use chess::game::chess_util::{D2, D3};
use chess::game::get_num_moves;
use chess::game::get_possible_moves;
use chess::game::Board;
use chess::game::Move;
use chess::hash::HashTable;
use chess::hash::Zobrist;
use chess::player::basic_eval;
use chess::player::AlphaBetaPlayer;
use chess::player::Player;

#[test]
fn test_shannon_number_1ply() {
    assert_eq!(get_num_moves(&mut Board::from_fen(String::from("rnbqkbnr/pppppppp/8/8/8/8/PPPPPPPP/RNBQKBNR w KQkq - 0 1")).unwrap(), 2), 400);
}

#[test]
fn test_shannon_number_2ply() {
    assert_eq!(get_num_moves(&mut Board::from_fen(String::from("rnbqkbnr/pppppppp/8/8/8/8/PPPPPPPP/RNBQKBNR w KQkq - 0 1")).unwrap(), 4), 197281);
}

#[test]
fn test_shannon_number_3ply() {
    assert_eq!(get_num_moves(&mut Board::from_fen(String::from("rnbqkbnr/pppppppp/8/8/8/8/PPPPPPPP/RNBQKBNR w KQkq - 0 1")).unwrap(), 6), 119060324);
}

#[test]
fn test_position_2_2ply() {
    assert_eq!(get_num_moves(&mut Board::from_fen(String::from("r3k2r/p1ppqpb1/bn2pnp1/3PN3/1p2P3/2N2Q1p/PPPBBPPP/R3K2R w KQkq - ")).unwrap(), 4), 4085603);
}

#[test]
fn test_position_6_2ply() {
    assert_eq!(get_num_moves(&mut Board::from_fen(String::from("r4rk1/1pp1qppp/p1np1n2/2b1p1B1/2B1P1b1/P1NP1N2/1PP1QPPP/R4RK1 w - - 0 10 ")).unwrap(), 4), 3894594);
}

#[test]
fn test_capture_queen() {
    let mut board = Board::from_fen(String::from("rnb1kbnr/pppppppp/8/8/3Qq3/8/PPPPPPPP/RNB1KBNR w KQkq - 0 1")).unwrap();
    let mut alphabeta = AlphaBetaPlayer::new(6, basic_eval);
    let possible_moves = get_possible_moves(&board);
    assert_eq!(alphabeta.get_move(&mut board, &possible_moves).unwrap().to_long_an(), "d4e4");
}

#[test]
fn test_hashing() {
    let zobrist = Zobrist::new();
    let mut table = HashTable::<i32, 20, 4>::new();
    let mut board = Board::default();

    let hash = zobrist.get_board_hash(&board);
    table.set(hash, 1000);
    assert_eq!(table.get(hash).copied(), Some(1000));

    let test_move = Move::new(&board, D2, D3);
    board.make_move(&test_move);
    board.undo_move();
    assert_eq!(table.get(zobrist.get_board_hash(&board)).copied(), Some(1000));
}
