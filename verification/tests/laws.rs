use chess::game::chess_util::{A1, A8, E1, E4, E5, E8, F3, G1, H1, H8};
use chess::game::get_possible_moves;
use chess::game::Board;
use chess::game::Colour;
use chess::game::FenError;
use chess::game::Move;
use chess::game::MoveType;
use chess::game::Piece;
use chess::hash::HashTable;
use chess::hash::Zobrist;

fn walk(board: &mut Board, zobrist: &Zobrist, depth: u32, kinds: &mut [u32; 5]) {
    let fen_before = board.get_fen();
    let hash_before = zobrist.get_board_hash(board);
    for m in get_possible_moves(board) {
        let old_en_passant = board.en_passant_chance;
        let old_rights = board.castling_rights;
        board.make_move(&m);
        let kind = match m.move_type {
            MoveType::Normal => 0,
            MoveType::PawnDouble => 1,
            MoveType::EnPassant => 2,
            MoveType::Promotion(_) => 3,
            MoveType::Castle => 4,
        };
        kinds[kind] += 1;
        let updated = zobrist.update_hash(hash_before, &m, old_en_passant, old_rights, board.castling_rights);
        assert_eq!(updated, zobrist.get_board_hash(board), "after {}", m.as_long_an());
        assert_eq!(board.castling_rights & !old_rights, 0);
        if depth > 1 {
            walk(board, zobrist, depth - 1, kinds);
        }
        board.undo_move();
        assert_eq!(board.get_fen(), fen_before, "after {}", m.as_long_an());
        assert_eq!(zobrist.get_board_hash(board), hash_before);
    }
}

#[test]
fn make_and_undo_restore_fen_and_hash() {
    let zobrist = Zobrist::new();
    let mut kinds = [0u32; 5];
    for fen in [
        "rnbqkbnr/pppppppp/8/8/8/8/PPPPPPPP/RNBQKBNR w KQkq - 0 1",
        "r3k2r/p1ppqpb1/bn2pnp1/3PN3/1p2P3/2N2Q1p/PPPBBPPP/R3K2R w KQkq - 0 1",
        "8/2p5/3p4/KP5r/1R3p1k/8/4P1P1/8 w - - 0 1",
        "r3k2r/Pppp1ppp/1b3nbN/nP6/BBP1P3/q4N2/Pp1P2PP/R2Q1RK1 w kq - 0 1",
        "rnbq1k1r/pp1Pbppp/2p5/8/2B5/8/PPP1NnPP/RNBQK2R w KQ - 0 8",
        "rnbqkbnr/ppp1p1pp/8/3pPp2/8/8/PPPP1PPP/RNBQKBNR w KQkq f6 0 3",
    ] {
        let mut board = Board::from_fen(String::from(fen)).unwrap();
        assert_eq!(board.get_fen(), fen);
        walk(&mut board, &zobrist, 3, &mut kinds);
        assert_eq!(board.get_fen(), fen);
    }
    for count in kinds {
        assert!(count > 0);
    }
}

#[test]
fn many_makes_then_as_many_undos() {
    let mut board = Board::default();
    let start = board.get_fen();
    let mut made = 0;
    for _ in 0..40 {
        let moves = get_possible_moves(&board);
        if moves.is_empty() {
            break;
        }
        board.make_move(&moves[(made * 7) % moves.len()]);
        made += 1;
    }
    assert_eq!(board.previous_moves.len(), made);
    assert_eq!(board.turns_taken as usize, made);
    for _ in 0..made {
        board.undo_move();
    }
    assert_eq!(board.get_fen(), start);
    assert!(board.previous_moves.is_empty());
}

#[test]
fn table_set_get_clear() {
    let mut table = HashTable::<i32, 4, 2>::new();
    assert_eq!(table.get(5), None);
    table.set(5, 50);
    assert_eq!(table.get(5), Some(&50));
    table.set(5, 51);
    assert_eq!(table.get(5), Some(&51));
    table.set(6, 60);
    assert_eq!(table.get(5), Some(&51));
    assert_eq!(table.get(6), Some(&60));
    assert_eq!(table.get(5 + 16), None);
    table.clear();
    assert_eq!(table.get(5), None);
    assert_eq!(table.get(6), None);
}

#[test]
fn table_drops_the_oldest_of_a_full_bucket() {
    let mut table = HashTable::<u8, 4, 2>::new();
    table.set(3, 1);
    table.set(3 + 16, 2);
    assert_eq!(table.get(3), Some(&1));
    assert_eq!(table.get(3 + 16), Some(&2));
    table.set(3 + 32, 3);
    assert_eq!(table.get(3), None);
    assert_eq!(table.get(3 + 16), Some(&2));
    assert_eq!(table.get(3 + 32), Some(&3));
    assert_eq!(table.get(0), None);
    table.set(0, 9);
    assert_eq!(table.get(0), Some(&9));
    assert_eq!(table.get(16), None);
}

#[test]
fn table_with_one_bucket() {
    let mut table = HashTable::<u64, 0, 1>::new();
    table.set(7, 70);
    assert_eq!(table.get(7), Some(&70));
    table.set(8, 80);
    assert_eq!(table.get(7), None);
    assert_eq!(table.get(8), Some(&80));
}

#[test]
fn hasher_words_are_the_generator_words() {
    let zobrist = Zobrist::new();
    assert_eq!(zobrist.piece_positions[0][0], 10441546278040697864);
    assert_eq!(zobrist.piece_positions[0][1], 8122103399436248616);
    assert_eq!(zobrist.piece_positions[1][0], 11218359215387548763);
    assert_eq!(zobrist.side_to_move_is_black, 5051226199488726612);
    assert_eq!(zobrist.castling_rights[0], 2598589056500343776);
    assert_eq!(zobrist.en_passant_file[0], 16998129756158091476);
    assert_eq!(zobrist.en_passant_file[7], 4124794760975841550);
    for word in zobrist.piece_positions[15] {
        assert_eq!(word, 0);
    }
    let again = Zobrist::new();
    let board = Board::default();
    assert_eq!(zobrist.get_board_hash(&board), again.get_board_hash(&board));
}

#[test]
fn hash_tells_side_rights_and_target_apart() {
    let zobrist = Zobrist::new();
    let hash_of = |fen: &str| zobrist.get_board_hash(&Board::from_fen(String::from(fen)).unwrap());
    let base = hash_of("r3k2r/8/8/8/8/8/8/R3K2R w KQkq - 0 1");
    assert_eq!(hash_of("r3k2r/8/8/8/8/8/8/R3K2R b KQkq - 0 1"), base ^ zobrist.side_to_move_is_black);
    assert_eq!(
        hash_of("r3k2r/8/8/8/8/8/8/R3K2R w Kkq - 0 1"),
        base ^ zobrist.castling_rights[15] ^ zobrist.castling_rights[11]
    );
    let pushed = hash_of("4k3/8/8/8/4P3/8/8/4K3 b - - 0 1");
    assert_eq!(hash_of("4k3/8/8/8/4P3/8/8/4K3 b - e3 0 1"), pushed ^ zobrist.en_passant_file[4]);
    assert_eq!(
        hash_of("4k3/8/8/8/8/8/8/4K3 w - - 0 1"),
        zobrist.piece_positions[13][E8 as usize]
            ^ zobrist.piece_positions[5][E1 as usize]
            ^ zobrist.castling_rights[0]
    );
}

#[test]
fn castling_rights_only_fall() {
    let mut board = Board::from_fen(String::from("r3k2r/8/8/8/8/8/8/R3K2R w KQkq - 0 1")).unwrap();
    assert_eq!(board.castling_rights, 15);
    board.make_move(&Move::new(&board, H1, H8));
    assert_eq!(board.castling_rights, 0b0101);
    board.make_move(&Move::new(&board, A8, A1));
    assert_eq!(board.castling_rights, 0);
    board.undo_move();
    assert_eq!(board.castling_rights, 0b0101);
    board.undo_move();
    assert_eq!(board.castling_rights, 15);
    board.make_move(&Move::new_castle(&board, E1, G1));
    assert_eq!(board.castling_rights, 0b0011);
    assert_eq!(board.get_piece(G1), Piece::WhiteKing);
    assert_eq!(board.get_piece(chess::game::chess_util::F1), Piece::WhiteRook);
    assert_eq!(board.get_piece(H1), Piece::Empty);
    assert_eq!(board.white_king, G1);
    assert_eq!(board.side_to_move, Colour::Black);
    board.undo_move();
    assert_eq!(board.get_fen(), "r3k2r/8/8/8/8/8/8/R3K2R w KQkq - 0 1");
}

#[test]
fn en_passant_takes_the_pawn_beside() {
    let mut board = Board::from_fen(String::from("4k3/8/8/3pP3/8/8/8/4K3 w - d6 0 2")).unwrap();
    let moves = get_possible_moves(&board);
    let capture = moves.iter().find(|m| m.move_type == MoveType::EnPassant).unwrap();
    assert_eq!(capture.as_long_an(), "e5d6");
    assert_eq!(capture.as_an(&moves), "exd6");
    board.make_move(capture);
    assert_eq!(board.get_fen(), "4k3/8/3P4/8/8/8/8/4K3 b - - 0 2");
    assert_eq!(board.get_piece_position(Piece::BlackPawn).len(), 0);
    board.undo_move();
    assert_eq!(board.get_fen(), "4k3/8/8/3pP3/8/8/8/4K3 w - d6 0 2");
    assert_eq!(board.get_piece_position(Piece::BlackPawn), &vec![chess::game::chess_util::D5]);
}

#[test]
fn en_passant_that_opens_the_rank_is_left_out() {
    let board = Board::from_fen(String::from("8/8/8/8/k2Pp2R/8/8/4K3 b - d3 0 1")).unwrap();
    let moves = get_possible_moves(&board);
    assert!(moves.iter().all(|m| m.move_type != MoveType::EnPassant));
    let free = Board::from_fen(String::from("8/8/8/8/k2Pp3/8/8/4K2R b - d3 0 1")).unwrap();
    let moves = get_possible_moves(&free);
    assert!(moves.iter().any(|m| m.move_type == MoveType::EnPassant));
}

#[test]
fn en_passant_may_take_the_checking_pawn() {
    let board = Board::from_fen(String::from("8/8/8/2k5/3Pp3/8/8/4K3 b - d3 0 1")).unwrap();
    assert_eq!(get_possible_moves(&board).iter().filter(|m| m.move_type == MoveType::EnPassant).count(), 1);
}

#[test]
fn pinned_man_stays_on_its_line() {
    let board = Board::from_fen(String::from("4k3/8/8/8/4r3/8/4R3/4K3 w - - 0 1")).unwrap();
    let info = chess::game::get_position_info(&board, Colour::White);
    assert_eq!(info.king_attacker_count, 0);
    assert_eq!(info.pinned_pieces.len(), 1);
    assert_eq!(info.pinned_pieces[0].0, chess::game::chess_util::E2);
    assert!(info.pinned_pieces[0].1.contains(E4));
    assert!(!info.pinned_pieces[0].1.contains(E5));
    let rook_moves: Vec<String> = get_possible_moves(&board)
        .iter()
        .filter(|m| m.moved_piece == Piece::WhiteRook)
        .map(|m| m.as_long_an())
        .collect();
    assert_eq!(rook_moves, vec!["e2e3", "e2e4"]);
    let two = Board::from_fen(String::from("4k3/8/8/8/4r3/4N3/4R3/4K3 w - - 0 1")).unwrap();
    assert!(chess::game::get_position_info(&two, Colour::White).pinned_pieces.is_empty());
}

#[test]
fn check_is_answered_or_fled() {
    let board = Board::from_fen(String::from("4k3/8/8/8/4r3/8/3N4/4K3 w - - 0 1")).unwrap();
    let info = chess::game::get_position_info(&board, Colour::White);
    assert_eq!(info.king_attacker_count, 1);
    assert!(info.king_block_board.contains(E4));
    assert!(info.king_block_board.contains(chess::game::chess_util::E2));
    assert!(!info.king_block_board.contains(F3));
    let mut moves: Vec<String> = get_possible_moves(&board).iter().map(|m| m.as_long_an()).collect();
    moves.sort();
    assert_eq!(moves, vec!["d2e4", "e1d1", "e1f1", "e1f2"]);
    let double = Board::from_fen(String::from("4k3/8/8/8/4r3/5n2/3N4/4K3 w - - 0 1")).unwrap();
    let info = chess::game::get_position_info(&double, Colour::White);
    assert_eq!(info.king_attacker_count, 2);
    assert!(get_possible_moves(&double).iter().all(|m| m.moved_piece == Piece::WhiteKing));
}

#[test]
fn no_castling_through_an_attack() {
    let board = Board::from_fen(String::from("4k3/8/8/8/8/5r2/8/R3K2R w KQ - 0 1")).unwrap();
    let castles: Vec<String> = get_possible_moves(&board)
        .iter()
        .filter(|m| m.move_type == MoveType::Castle)
        .map(|m| m.as_an(&[]))
        .collect();
    assert_eq!(castles, vec!["O-O-O"]);
}

#[test]
fn fen_errors() {
    let err = |fen: &str| Board::from_fen(String::from(fen)).err();
    assert_eq!(err(""), Some(FenError::Truncated));
    assert_eq!(err("rnbqkbnr/pppppppp/8/8"), Some(FenError::Truncated));
    assert_eq!(err("rnbqkbnr/pppppppp/8/8/8/8/PPPPPPPP/RNBQKBNR w KQkq"), Some(FenError::Truncated));
    assert_eq!(err("rnbqkbnr/pppppppp/8/8/8/8/PPPPPPPP/RNBQKBNR w KQkq "), Some(FenError::Truncated));
    assert_eq!(err("rnbqkbnr/pppppppp/8/8/8/8/PPPPPPPP/RNBQKBNR"), Some(FenError::Truncated));
    assert_eq!(err("rnbqkbnr/pppppppp/9/8/8/8/PPPPPPPP/RNBQKBNR w KQkq - 0 1"), Some(FenError::Placement));
    assert_eq!(err("rnbqkbnr/pppppppp/7/8/8/8/PPPPPPPP/RNBQKBNR w KQkq - 0 1"), Some(FenError::Placement));
    assert_eq!(err("rnbqkbnrr/pppppppp/8/8/8/8/PPPPPPPP/RNBQKBNR w KQkq - 0 1"), Some(FenError::Placement));
    assert_eq!(err("rnbqkbnx/pppppppp/8/8/8/8/PPPPPPPP/RNBQKBNR w KQkq - 0 1"), Some(FenError::Placement));
    assert_eq!(err("rnbqkbnr/pppppppp/8/8/8/8/PPPPPPPP/RNBQKBNR x KQkq - 0 1"), Some(FenError::Side));
    assert_eq!(err("rnbqkbnr/pppppppp/8/8/8/8/PPPPPPPP/RNBQKBNRw KQkq - 0 1"), Some(FenError::Side));
    assert_eq!(err("rnbqkbnr/pppppppp/8/8/8/8/PPPPPPPP/RNBQKBNR w KXkq - 0 1"), Some(FenError::Castling));
    assert_eq!(err("rnbqkbnr/pppppppp/8/8/8/8/PPPPPPPP/RNBQKBNR w KQkq x 0 1"), Some(FenError::EnPassant));
    assert_eq!(err("rnbqkbnr/pppppppp/8/8/8/8/PPPPPPPP/RNBQKBNR w KQkq e9 0 1"), Some(FenError::EnPassant));
    assert_eq!(err("rnbqkbnr/pppppppp/8/8/8/8/PPPPPPPP/RNBQKBNR w KQkq e"), Some(FenError::EnPassant));
    assert_eq!(err("rnbq1bnr/pppppppp/8/8/8/8/PPPPPPPP/RNBQKBNR w KQ - 0 1"), Some(FenError::Kings));
    assert_eq!(err("rnbqkbnr/pppppppp/8/8/4K3/8/PPPPPPPP/RNBQKBNR w kq - 0 1"), Some(FenError::Kings));
    assert_eq!(err("4k3/8/8/8/8/8/8/4K3 w K - 0 1"), Some(FenError::CastlingRights));
    assert_eq!(err("r3k2r/8/8/8/8/8/8/R2K3R w Q - 0 1"), Some(FenError::CastlingRights));
    assert_eq!(err("4k3/8/8/8/8/8/8/4K3 w - e3 0 1"), Some(FenError::EnPassantTarget));
    assert_eq!(err("4k3/8/8/8/4P3/8/8/4K3 w - e3 0 1"), Some(FenError::EnPassantTarget));
    assert!(Board::from_fen(String::from("4k3/8/8/8/4P3/8/8/4K3 b - e3 0 1")).is_ok());
}

#[test]
fn fen_counters() {
    let turns = |fen: &str| Board::from_fen(String::from(fen)).unwrap().turns_taken;
    assert_eq!(turns("4k3/8/8/8/8/8/8/4K3 w - - 0 1"), 0);
    assert_eq!(turns("4k3/8/8/8/8/8/8/4K3 b - - 0 1"), 1);
    assert_eq!(turns("4k3/8/8/8/8/8/8/4K3 w - - 17 10"), 18);
    assert_eq!(turns("4k3/8/8/8/8/8/8/4K3 b - - 17 10 "), 19);
    assert_eq!(turns("4k3/8/8/8/8/8/8/4K3 w - -"), 0);
    assert_eq!(turns("4k3/8/8/8/8/8/8/4K3 w - - 0 0"), 0);
    assert_eq!(turns("4k3/8/8/8/8/8/8/4K3 w - - 0 x"), 0);
    assert_eq!(turns("4k3/8/8/8/8/8/8/4K3 w - - 0 2147483648"), 4294967294);
    assert_eq!(turns("4k3/8/8/8/8/8/8/4K3 b - - 0 2147483648"), 4294967295);
    assert_eq!(turns("4k3/8/8/8/8/8/8/4K3 w - - 0 2147483649"), 0);
    assert_eq!(turns("4k3/8/8/8/8/8/8/4K3 w - - 0 99999999999"), 0);
    let board = Board::from_fen(String::from("4k3/8/8/8/8/8/8/4K3 b - - 17 10")).unwrap();
    assert_eq!(board.get_fen(), "4k3/8/8/8/8/8/8/4K3 b - - 0 10");
}

#[test]
fn default_is_the_start_position() {
    let board = Board::default();
    assert_eq!(board.get_fen(), "rnbqkbnr/pppppppp/8/8/8/8/PPPPPPPP/RNBQKBNR w KQkq - 0 1");
    assert_eq!(board.white_king, E1);
    assert_eq!(board.black_king, E8);
    assert_eq!(board.get_piece_counts(Colour::White), [8, 2, 2, 2, 1, 1]);
    assert_eq!(board.get_piece_counts(Colour::Black), [8, 2, 2, 2, 1, 1]);
    assert_eq!(board.get_piece(0x08), Piece::Border);
    assert_eq!(board.get_piece(200), Piece::Border);
    assert_eq!(board.get_piece_rc(7, 4), Piece::WhiteKing);
    assert!(!board.is_draw_by_insufficient_material());
}

#[test]
fn each_check_is_counted() {
    let knights = Board::from_fen(String::from("4k3/8/8/8/8/3n1n2/8/4K3 w - - 0 1")).unwrap();
    let info = chess::game::get_position_info(&knights, Colour::White);
    assert_eq!(info.king_attacker_count, 2);
    assert!(get_possible_moves(&knights).iter().all(|m| m.moved_piece == Piece::WhiteKing));
    let pawns = Board::from_fen(String::from("4k3/8/8/8/8/8/3p1p2/4K3 w - - 0 1")).unwrap();
    let info = chess::game::get_position_info(&pawns, Colour::White);
    assert_eq!(info.king_attacker_count, 2);
    let mut moves: Vec<String> = get_possible_moves(&pawns).iter().map(|m| m.as_long_an()).collect();
    moves.sort();
    assert_eq!(moves, vec!["e1d1", "e1d2", "e1e2", "e1f1", "e1f2"]);
    let kings = Board::from_fen(String::from("8/8/8/8/8/8/4k3/4K3 w - - 0 1")).unwrap();
    let info = chess::game::get_position_info(&kings, Colour::White);
    assert_eq!(info.king_attacker_count, 1);
    assert!(info.king_block_board.is_empty());
    assert!(get_possible_moves(&kings).is_empty());
    let quiet = Board::default();
    assert_eq!(chess::game::get_position_info(&quiet, Colour::White).king_attacker_count, 0);
}

#[test]
fn no_legal_move_leaves_the_king_attacked() {
    for fen in [
        "r3k2r/p1ppqpb1/bn2pnp1/3PN3/1p2P3/2N2Q1p/PPPBBPPP/R3K2R w KQkq - 0 1",
        "8/2p5/3p4/KP5r/1R3p1k/8/4P1P1/8 w - - 0 1",
        "rnbq1k1r/pp1Pbppp/2p5/8/2B5/8/PPP1NnPP/RNBQK2R w KQ - 0 8",
        "r3k2r/Pppp1ppp/1b3nbN/nP6/BBP1P3/q4N2/Pp1P2PP/R2Q1RK1 w kq - 0 1",
    ] {
        let mut board = Board::from_fen(String::from(fen)).unwrap();
        for m in get_possible_moves(&board) {
            let mover = board.side_to_move;
            board.make_move(&m);
            assert_eq!(chess::game::get_position_info(&board, mover).king_attacker_count, 0, "{}", m.as_long_an());
            for reply in get_possible_moves(&board) {
                let second = board.side_to_move;
                board.make_move(&reply);
                assert_eq!(chess::game::get_position_info(&board, second).king_attacker_count, 0);
                board.undo_move();
            }
            board.undo_move();
        }
    }
}
