use chess::game::chess_util::{C5, C7, D2, D3, E1, G1};
use chess::game::get_position_info;
use chess::game::get_possible_moves;
use chess::game::Board;
use chess::game::Colour;
use chess::game::Move;
use chess::hash::HashTable;
use chess::hash::Zobrist;
use chess::player::advanced_eval;
use chess::player::basic_eval;
use chess::player::AlphaBetaPlayer;
use chess::player::IterativeDeepening;
use chess::player::MiniMaxPlayer;
use chess::player::Player;
use chess::player::{LOSE_SCORE, MAX_SCORE, MIN_SCORE};

#[test]
fn capture_queen() {
    let mut board = Board::from_fen(String::from("rnb1kbnr/pppppppp/8/8/3Qq3/8/PPPPPPPP/RNB1KBNR w KQkq - 0 1")).unwrap();
    let mut alphabeta: Box<dyn Player> = Box::new(AlphaBetaPlayer::new(6, &basic_eval));
    let possible_moves = get_possible_moves(&board);
    assert_eq!(alphabeta.get_move(&mut board, &possible_moves).unwrap().to_long_an(), "d4e4");
}

#[test]
fn hashing() {
    let zobrist = Zobrist::new();
    let mut table = HashTable::<i32, 20, 4>::new();
    let mut board = Board::default();

    let hash = zobrist.get_board_hash(&board);
    table.set(hash, 1000);
    assert_eq!(table.get(hash), Some(&1000));

    let test_move = Move::new(&board, D2, D3);
    board.make_move(&test_move);
    board.undo_move();
    assert_eq!(table.get(zobrist.get_board_hash(&board)), Some(&1000));
}

#[test]
fn hashing_update() {
    let zobrist = Zobrist::new();
    let mut board = Board::from_fen(String::from("r3k2r/p1ppqpb1/bn2pnp1/3PN3/1p2P3/2N2Q1p/PPPBBPPP/R3K2R w KQkq - ")).unwrap();

    let mut hash = zobrist.get_board_hash(&board);
    let first_hash = hash;

    let old_en_passant_chance1 = board.en_passant_chance;
    let mut old_castling_rights1 = board.castling_rights;

    let move1 = Move::new_castle(&board, E1, G1);
    board.make_move(&move1);

    hash = zobrist.update_hash(hash, &move1, old_en_passant_chance1, old_castling_rights1, board.castling_rights);
    old_castling_rights1 = board.castling_rights;

    let old_en_passant_chance2 = board.en_passant_chance;
    let mut old_castling_rights2 = board.castling_rights;

    let move2 = Move::new_pawn_double(&board, C7, C5);
    board.make_move(&move2);

    hash = zobrist.update_hash(hash, &move2, old_en_passant_chance2, old_castling_rights2, board.castling_rights);
    old_castling_rights2 = board.castling_rights;

    board.undo_move();
    hash = zobrist.update_hash(hash, &move2, old_en_passant_chance2, old_castling_rights2, board.castling_rights);

    board.undo_move();
    hash = zobrist.update_hash(hash, &move1, old_en_passant_chance1, old_castling_rights1, board.castling_rights);
    assert_eq!(hash, first_hash);
}

#[test]
fn stalemate_gives_no_move_and_a_draw() {
    let mut board = Board::from_fen(String::from("7k/5Q2/6K1/8/8/8/8/8 b - - 0 1")).unwrap();
    let possible_moves = get_possible_moves(&board);
    assert!(possible_moves.is_empty());
    assert_eq!(get_position_info(&board, Colour::Black).king_attacker_count, 0);
    let mut player = AlphaBetaPlayer::new(3, basic_eval);
    let hash = player.zobrist_hasher.get_board_hash(&board);
    let answer = player.find_board_score(&mut board, 3, MIN_SCORE, MAX_SCORE, hash);
    assert_eq!(answer.0, 0);
    assert!(answer.1.is_none());
    assert!(player.get_move(&mut board, &possible_moves).is_none());
    let mut deepening = IterativeDeepening::new(20, advanced_eval);
    assert!(deepening.get_move(&mut board, &possible_moves).is_none());
    let mut minimax = MiniMaxPlayer::new(2, basic_eval);
    assert!(minimax.get_move(&mut board, &possible_moves).is_none());
}

#[test]
fn checkmate_gives_no_move_and_the_loss() {
    let mut board = Board::from_fen(String::from("7k/6Q1/6K1/8/8/8/8/8 b - - 0 1")).unwrap();
    let possible_moves = get_possible_moves(&board);
    assert!(possible_moves.is_empty());
    assert_eq!(get_position_info(&board, Colour::Black).king_attacker_count, 1);
    let mut player = AlphaBetaPlayer::new(3, basic_eval);
    let hash = player.zobrist_hasher.get_board_hash(&board);
    let answer = player.find_board_score(&mut board, 3, MIN_SCORE, MAX_SCORE, hash);
    assert_eq!(answer.0, LOSE_SCORE);
    assert_eq!(LOSE_SCORE, i32::MIN + 2);
    assert!(answer.1.is_none());
    assert!(player.get_move(&mut board, &possible_moves).is_none());
    let mut deepening = IterativeDeepening::new(20, advanced_eval);
    assert!(deepening.get_move(&mut board, &possible_moves).is_none());
}

#[test]
fn search_finds_mate_in_one() {
    let mut board = Board::from_fen(String::from("6k1/5ppp/8/8/8/8/8/R3K3 w Q - 0 1")).unwrap();
    let before = board.get_fen();
    let possible_moves = get_possible_moves(&board);
    let mut player = AlphaBetaPlayer::new(2, basic_eval);
    assert_eq!(player.get_move(&mut board, &possible_moves).unwrap().as_long_an(), "a1a8");
    assert_eq!(board.get_fen(), before);
    let mut minimax = MiniMaxPlayer::new(2, basic_eval);
    assert_eq!(minimax.get_move(&mut board, &possible_moves).unwrap().as_long_an(), "a1a8");
    assert_eq!(board.get_fen(), before);
    let mut deepening = IterativeDeepening::new(50, basic_eval);
    assert_eq!(deepening.get_move(&mut board, &possible_moves).unwrap().as_long_an(), "a1a8");
    assert_eq!(board.get_fen(), before);
}

#[test]
fn depth_zero_scores_and_gives_no_move() {
    let mut board = Board::from_fen(String::from("rnb1kbnr/pppppppp/8/8/8/8/PPPPPPPP/RNBQKBNR w KQkq - 0 1")).unwrap();
    let mut player = AlphaBetaPlayer::new(0, basic_eval);
    let hash = player.zobrist_hasher.get_board_hash(&board);
    let answer = player.find_board_score(&mut board, 0, MIN_SCORE, MAX_SCORE, hash);
    assert_eq!(answer.0, 960);
    assert!(answer.1.is_none());
    let possible_moves = get_possible_moves(&board);
    assert!(player.get_move(&mut board, &possible_moves).is_none());
}

#[test]
fn deepening_without_time_gives_no_move() {
    let mut board = Board::default();
    let possible_moves = get_possible_moves(&board);
    let mut deepening = IterativeDeepening::new(0, basic_eval);
    assert!(deepening.get_move(&mut board, &possible_moves).is_none());
}

#[test]
fn deepening_takes_the_queen() {
    let mut board = Board::from_fen(String::from("rnb1kbnr/pppppppp/8/8/3Qq3/8/PPPPPPPP/RNB1KBNR w KQkq - 0 1")).unwrap();
    let possible_moves = get_possible_moves(&board);
    let mut deepening = IterativeDeepening::new(300, advanced_eval);
    assert_eq!(deepening.get_move(&mut board, &possible_moves).unwrap().as_long_an(), "d4e4");
    assert!(deepening.nodes_searched > 0);
}

#[test]
fn evaluations_have_their_values() {
    let start = Board::default();
    assert_eq!(basic_eval(&start), 0);
    assert_eq!(advanced_eval(&start), 0);
    let queen_up = Board::from_fen(String::from("rnb1kbnr/pppppppp/8/8/8/8/PPPPPPPP/RNBQKBNR w KQkq - 0 1")).unwrap();
    assert_eq!(basic_eval(&queen_up), 960);
    let queen_up_black = Board::from_fen(String::from("rnb1kbnr/pppppppp/8/8/8/8/PPPPPPPP/RNBQKBNR b KQkq - 0 1")).unwrap();
    assert_eq!(basic_eval(&queen_up_black), -960);
    let pieces = Board::from_fen(String::from("4k3/8/8/8/8/8/PPPP4/RNB1K3 w Q - 0 1")).unwrap();
    assert_eq!(basic_eval(&pieces), 4 * 100 + 530 + 320 + 330);
    let pushed = Board::from_fen(String::from("rnbqkbnr/pppppppp/8/8/4P3/8/PPPP1PPP/RNBQKBNR b KQkq e3 0 1")).unwrap();
    assert_eq!(advanced_eval(&pushed), -40);
    let bare = Board::from_fen(String::from("4k3/8/8/8/8/8/8/4KN2 w - - 0 1")).unwrap();
    assert!(bare.is_draw_by_insufficient_material());
    assert_eq!(basic_eval(&bare), 0);
    assert_eq!(advanced_eval(&bare), 0);
    let late = Board::from_fen(String::from("4k3/8/8/8/3K4/8/1P6/8 w - - 0 1")).unwrap();
    assert_eq!(advanced_eval(&late), 110 + 40 + 30);
}

#[test]
fn deepening_goes_on_while_time_and_depth_allow() {
    let deepening = IterativeDeepening::new(100, basic_eval);
    assert_eq!(deepening.max_depth, 64);
    assert!(deepening.goes_deeper(0, 0));
    assert!(deepening.goes_deeper(99, 63));
    assert!(!deepening.goes_deeper(100, 1));
    assert!(!deepening.goes_deeper(5, 64));
}

#[test]
fn deepening_stops_at_its_depth_limit() {
    let mut board = Board::from_fen(String::from("rnb1kbnr/pppppppp/8/8/3Qq3/8/PPPPPPPP/RNB1KBNR w KQkq - 0 1")).unwrap();
    let possible_moves = get_possible_moves(&board);
    let mut deepening = IterativeDeepening::new(1_000_000, basic_eval);
    deepening.max_depth = 1;
    assert_eq!(deepening.get_move(&mut board, &possible_moves).unwrap().as_long_an(), "d4e4");
    assert_eq!(deepening.nodes_searched as usize, 1 + possible_moves.len());
    let hash = deepening.zobrist_hasher.get_board_hash(&board);
    assert_eq!(deepening.pv_table.get(hash).unwrap().as_long_an(), "d4e4");
}

#[test]
fn minimax_scores_a_move_for_its_side() {
    let mut board = Board::from_fen(String::from("rnb1kbnr/pppppppp/8/8/3Qq3/8/PPPPPPPP/RNB1KBNR w KQkq - 0 1")).unwrap();
    let possible_moves = get_possible_moves(&board);
    let capture = *possible_moves.iter().find(|m| m.as_long_an() == "d4e4").unwrap();
    let mut minimax = MiniMaxPlayer::new(1, basic_eval);
    assert_eq!(minimax.find_move_score(&capture, &mut board, 0), 960);
    board.make_move(&capture);
    let hash = minimax.zobrist_hasher.get_board_hash(&board);
    board.undo_move();
    assert_eq!(minimax.transposition_table.get(hash), Some(&960));
    assert_eq!(minimax.get_move(&mut board, &possible_moves).unwrap().as_long_an(), "d4e4");
    let mut deeper = MiniMaxPlayer::new(3, basic_eval);
    assert_eq!(deeper.get_move(&mut board, &possible_moves).unwrap().as_long_an(), "d4e4");
}

#[test]
fn search_remembers_the_score_of_a_leaf() {
    let mut board = Board::from_fen(String::from("rnb1kbnr/pppppppp/8/8/8/8/PPPPPPPP/RNBQKBNR w KQkq - 0 1")).unwrap();
    let mut player = AlphaBetaPlayer::new(1, basic_eval);
    let hash = player.zobrist_hasher.get_board_hash(&board);
    assert_eq!(player.transposition_table.get(hash), None);
    let answer = player.find_board_score(&mut board, 0, MIN_SCORE, MAX_SCORE, hash);
    assert_eq!(answer.0, 960);
    assert_eq!(player.transposition_table.get(hash), Some(&960));
}
