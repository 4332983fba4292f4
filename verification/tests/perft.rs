use chess::game::get_num_moves;
use chess::game::Board;

#[test]
fn shannon_number_1ply() {
    assert_eq!(get_num_moves(&mut Board::from_fen(String::from("rnbqkbnr/pppppppp/8/8/8/8/PPPPPPPP/RNBQKBNR w KQkq - 0 1")).unwrap(), 2), 400);
}

#[test]
fn shannon_number_2ply() {
    assert_eq!(get_num_moves(&mut Board::from_fen(String::from("rnbqkbnr/pppppppp/8/8/8/8/PPPPPPPP/RNBQKBNR w KQkq - 0 1")).unwrap(), 4), 197281);
}

#[test]
fn shannon_number_3ply() {
    assert_eq!(get_num_moves(&mut Board::from_fen(String::from("rnbqkbnr/pppppppp/8/8/8/8/PPPPPPPP/RNBQKBNR w KQkq - 0 1")).unwrap(), 6), 119060324);
}

#[test]
fn position_2_2ply() {
    assert_eq!(get_num_moves(&mut Board::from_fen(String::from("r3k2r/p1ppqpb1/bn2pnp1/3PN3/1p2P3/2N2Q1p/PPPBBPPP/R3K2R w KQkq - ")).unwrap(), 4), 4085603);
}

#[test]
fn position_6_2ply() {
    assert_eq!(get_num_moves(&mut Board::from_fen(String::from("r4rk1/1pp1qppp/p1np1n2/2b1p1B1/2B1P1b1/P1NP1N2/1PP1QPPP/R4RK1 w - - 0 10 ")).unwrap(), 4), 3894594);
}

#[test]
fn start_position_depths() {
    let mut board = Board::default();
    assert_eq!(get_num_moves(&mut board, 0), 1);
    assert_eq!(get_num_moves(&mut board, 1), 20);
    assert_eq!(get_num_moves(&mut board, 3), 8902);
    assert_eq!(get_num_moves(&mut board, 5), 4865609);
}

#[test]
fn position_3_depths() {
    let mut board = Board::from_fen(String::from("8/2p5/3p4/KP5r/1R3p1k/8/4P1P1/8 w - - ")).unwrap();
    assert_eq!(get_num_moves(&mut board, 1), 14);
    assert_eq!(get_num_moves(&mut board, 2), 191);
    assert_eq!(get_num_moves(&mut board, 3), 2812);
    assert_eq!(get_num_moves(&mut board, 4), 43238);
    assert_eq!(get_num_moves(&mut board, 5), 674624);
}

#[test]
fn position_4_depths() {
    let mut board = Board::from_fen(String::from("r3k2r/Pppp1ppp/1b3nbN/nP6/BBP1P3/q4N2/Pp1P2PP/R2Q1RK1 w kq - 0 1")).unwrap();
    assert_eq!(get_num_moves(&mut board, 1), 6);
    assert_eq!(get_num_moves(&mut board, 2), 264);
    assert_eq!(get_num_moves(&mut board, 3), 9467);
    assert_eq!(get_num_moves(&mut board, 4), 422333);
}

#[test]
fn position_5_depths() {
    let mut board = Board::from_fen(String::from("rnbq1k1r/pp1Pbppp/2p5/8/2B5/8/PPP1NnPP/RNBQK2R w KQ - 1 8")).unwrap();
    assert_eq!(get_num_moves(&mut board, 1), 44);
    assert_eq!(get_num_moves(&mut board, 2), 1486);
    assert_eq!(get_num_moves(&mut board, 3), 62379);
    assert_eq!(get_num_moves(&mut board, 4), 2103487);
}
