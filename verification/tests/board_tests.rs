use chess_again::uci::from_uci;
use chess_again::zobrist;
use chess_again::{Board, CastlingRights, Color, Fen, Move, MoveType, PieceType};

const START: &str = "rnbqkbnr/pppppppp/8/8/8/8/PPPPPPPP/RNBQKBNR w KQkq - 0 1";
const KIWIPETE: &str = "r3k2r/p1ppqpb1/bn2pnp1/3PN3/1p2P3/2N2Q1p/PPPBBPPP/R3K2R w KQkq - 0 1";
const POSITION3: &str = "8/2p5/3p4/KP5r/1R3p1k/8/4P1P1/8 w - - 0 1";
const POSITION4: &str = "r3k2r/Pppp1ppp/1b3nbN/nP6/BBP1P3/q4N2/Pp1P2PP/R2Q1RK1 w kq - 0 1";
const POSITION5: &str = "rnbq1k1r/pp1Pbppp/2p5/8/2B5/8/PPP1NnPP/RNBQK2R w KQ - 1 8";

fn board(fen: &str) -> Board {
    Board::from_fen(fen).unwrap()
}

fn fen_error(fen: &str) -> String {
    match Board::from_fen(fen) {
        Ok(_) => panic!("the FEN should be refused"),
        Err(e) => e,
    }
}

#[test]
fn start_position_reads_back() {
    let b = board(START);
    assert_eq!(b.to_fen(), START);
    assert_eq!(b.active_color(), Color::White);
    assert_eq!(b.halfmove_number(), 0);
    assert_eq!(b.rule50(), 0);
    assert_eq!(b.en_passant_square(), None);
    assert_eq!(b.piece_at(4), Some((PieceType::King, Color::White)));
    assert_eq!(b.piece_at(59), Some((PieceType::Queen, Color::Black)));
    assert_eq!(b.piece_at(28), None);
    assert_eq!(b.all_pieces().count(), 32);
    assert_eq!(b.pieces_of_color(Color::Black).count(), 16);
    assert_eq!(b.pawns(Color::White).0, 0x0000_0000_0000_ff00);
    assert_eq!(b.knights(Color::White).0, (1u64 << 1) | (1u64 << 6));
    assert_eq!(b.bishops(Color::Black).0, (1u64 << 58) | (1u64 << 61));
    assert_eq!(b.rooks(Color::White).0, 1u64 | (1u64 << 7));
    assert_eq!(b.queens(Color::White).0, 1u64 << 3);
    assert_eq!(b.kings(Color::Black).0, 1u64 << 60);
    assert_eq!(b.king_index(Color::White), 4);
    assert_eq!(b.king_index(Color::Black), 60);
    let rights = b.castling_rights();
    assert!(rights.kingside(Color::White) && rights.queenside(Color::White));
    assert!(rights.kingside(Color::Black) && rights.queenside(Color::Black));
}

#[test]
fn fen_round_trips() {
    for fen in [
        START,
        KIWIPETE,
        POSITION3,
        POSITION4,
        POSITION5,
        "4k3/8/8/3Pp3/8/8/8/4K3 w - e6 0 1",
        "8/8/8/8/8/8/8/K6k b - - 12 40",
    ] {
        assert_eq!(board(fen).to_fen(), fen);
    }
}

#[test]
fn fen_fields_are_read() {
    let fen = match Fen::from_str("4k3/8/8/3Pp3/8/8/8/4K3 w Kq e6 3 17") {
        Ok(f) => f,
        Err(e) => panic!("{e}"),
    };
    assert_eq!(fen.active_color(), Color::White);
    assert_eq!(fen.en_passant(), Some(44));
    assert_eq!(fen.halfmove_clock(), 3);
    assert_eq!(fen.fullmove_number(), 17);
    let rights = fen.castling_rights();
    assert!(rights.kingside(Color::White));
    assert!(!rights.queenside(Color::White));
    assert!(!rights.kingside(Color::Black));
    assert!(rights.queenside(Color::Black));
    let placement = fen.piece_placement();
    assert_eq!(
        placement,
        vec![
            (60, PieceType::King, Color::Black),
            (35, PieceType::Pawn, Color::White),
            (36, PieceType::Pawn, Color::Black),
            (4, PieceType::King, Color::White),
        ]
    );
}

#[test]
fn fen_counters_accept_a_plus_sign() {
    let b = board("4k3/8/8/8/8/8/8/4K3 w - - +1 +2");
    assert_eq!(b.to_fen(), "4k3/8/8/8/8/8/8/4K3 w - - 1 2");
}

#[test]
fn fen_extra_whitespace_is_accepted() {
    let b = board("  4k3/8/8/8/8/8/8/4K3   b  -  -  0   5 ");
    assert_eq!(b.to_fen(), "4k3/8/8/8/8/8/8/4K3 b - - 0 5");
    assert_eq!(b.halfmove_number(), 9);
}

#[test]
fn fen_format_errors() {
    assert_eq!(fen_error(""), "Invalid FEN: FEN string must have 6 space-separated fields.");
    assert_eq!(
        fen_error("8/8/8/8/8/8/8/8 w - - 0"),
        "Invalid FEN: FEN string must have 6 space-separated fields."
    );
    assert_eq!(
        fen_error("8/8/8/8/8/8/8 w - - 0 1"),
        "Invalid FEN: FEN piece placement must contain 8 ranks."
    );
    assert_eq!(
        fen_error("rnbqkbnx/pppppppp/8/8/8/8/PPPPPPPP/RNBQKBNR w KQkq - 0 1"),
        "Invalid FEN: Invalid FEN piece placement character 'x' in rank 8."
    );
    assert_eq!(
        fen_error("rnbqkbnr/ppppppp/8/8/8/8/PPPPPPPP/RNBQKBNR w KQkq - 0 1"),
        "Invalid FEN: FEN rank 7 must contain exactly 8 files."
    );
    assert_eq!(
        fen_error("rnbqkbnr/pppppppp/9/8/8/8/PPPPPPPP/RNBQKBNR w KQkq - 0 1"),
        "Invalid FEN: Invalid FEN piece placement character '9' in rank 6."
    );
    assert_eq!(
        fen_error("rnbqkbnr/pppppppp/8/8/8/8/PPPPPPPP/RNBQKBNR x KQkq - 0 1"),
        "Invalid FEN: FEN active color must be 'w' or 'b'."
    );
    assert_eq!(
        fen_error("rnbqkbnr/pppppppp/8/8/8/8/PPPPPPPP/RNBQKBNR w KQkx - 0 1"),
        "Invalid FEN: Invalid FEN castling right 'x'."
    );
    assert_eq!(
        fen_error("rnbqkbnr/pppppppp/8/8/8/8/PPPPPPPP/RNBQKBNR w KK - 0 1"),
        "Invalid FEN: Duplicate FEN castling right 'K'."
    );
    assert_eq!(
        fen_error("rnbqkbnr/pppppppp/8/8/8/8/PPPPPPPP/RNBQKBNR w KQkq e9 0 1"),
        "Invalid FEN: Invalid FEN en passant square 'e9'."
    );
    assert_eq!(
        fen_error("rnbqkbnr/pppppppp/8/8/8/8/PPPPPPPP/RNBQKBNR w KQkq - a 1"),
        "Invalid FEN: Invalid FEN halfmove clock 'a'."
    );
    assert_eq!(
        fen_error("rnbqkbnr/pppppppp/8/8/8/8/PPPPPPPP/RNBQKBNR w KQkq - 0 0"),
        "Invalid FEN: Invalid FEN fullmove number '0'."
    );
    assert_eq!(
        fen_error("rnbqkbnr/pppppppp/8/8/8/8/PPPPPPPP/RNBQKBNR w KQkq - 0 -1"),
        "Invalid FEN: Invalid FEN fullmove number '-1'."
    );
}

#[test]
fn fen_position_errors() {
    assert_eq!(
        fen_error("8/8/8/8/8/8/8/k7 w - - 0 1"),
        "Invalid FEN position: There must be exactly one white king."
    );
    assert_eq!(
        fen_error("8/8/8/8/8/8/8/K7 w - - 0 1"),
        "Invalid FEN position: There must be exactly one black king."
    );
    assert_eq!(
        fen_error("4k3/8/8/8/8/8/8/4K3 w K - 0 1"),
        "Invalid FEN position: Invalid white kingside castling right. The king and rook do not reside on thier original squares"
    );
    assert_eq!(
        fen_error("4k3/8/8/8/8/8/8/4K3 w Q - 0 1"),
        "Invalid FEN position: Invalid white queenside castling right. The king and rook do not reside on thier original squares"
    );
    assert_eq!(
        fen_error("4k3/8/8/8/8/8/8/4K3 w k - 0 1"),
        "Invalid FEN position: Invalid black kingside castling right. The king and rook do not reside on thier original squares"
    );
    assert_eq!(
        fen_error("4k3/8/8/8/8/8/8/4K3 w q - 0 1"),
        "Invalid FEN position: Invalid black queenside castling right. The king and rook do not reside on thier original squares"
    );
    assert_eq!(
        fen_error("4k3/8/8/8/8/8/8/4K3 w - e4 0 1"),
        "Invalid FEN position: En passant square must be on either the 3rd or 6th ranks."
    );
    assert_eq!(
        fen_error("4k3/8/8/8/8/8/8/4K3 w - e6 0 1"),
        "Invalid FEN position: Invalid en passant square. A pawn double jump could not have occured on the last move"
    );
    assert_eq!(
        fen_error("4k3/8/8/8/8/8/8/4K3 w - - 5 1"),
        "Invalid FEN position: rule50 cannot be larger than the halfmove number."
    );
}

#[test]
fn board_new_from_pieces() {
    let pieces = [
        (4usize, PieceType::King, Color::White),
        (60usize, PieceType::King, Color::Black),
        (0usize, PieceType::Rook, Color::White),
    ];
    let mut rights = CastlingRights::empty();
    rights.set_queenside(Color::White, true);
    let b = Board::new(&pieces, rights, None, 3, 1).unwrap();
    assert_eq!(b.active_color(), Color::Black);
    assert_eq!(b.to_fen(), "4k3/8/8/8/8/8/8/R3K3 b Q - 1 2");
    let two_white_kings = [
        (4usize, PieceType::King, Color::White),
        (5usize, PieceType::King, Color::White),
        (60usize, PieceType::King, Color::Black),
    ];
    assert_eq!(
        Board::new(&two_white_kings, CastlingRights::empty(), None, 0, 0).unwrap_err(),
        "There must be exactly one white king."
    );
}

#[test]
fn start_position_hash() {
    let mut b = board(START);
    assert_eq!(b.zobrist(), 0xa1c8_3221_ed73_bfc7);
    b.make_move(Move { from: 12, to: 28, move_type: MoveType::Regular }).unwrap();
    assert_eq!(b.en_passant_square(), Some(20));
    assert_eq!(b.zobrist(), 0xa71f_831b_f56e_ec5d);
    assert_eq!(b.to_fen(), "rnbqkbnr/pppppppp/8/8/4P3/8/PPPP1PPP/RNBQKBNR b KQkq e3 0 1");
}

#[test]
fn make_then_unmake_restores_the_position() {
    for fen in [START, KIWIPETE, POSITION3, POSITION4, POSITION5] {
        let mut b = board(fen);
        let hash = b.zobrist();
        for mv in b.legal_moves() {
            b.make_move(mv).unwrap();
            assert_eq!(b.unmake_move(), mv);
            assert_eq!(b.to_fen(), fen);
            assert_eq!(b.zobrist(), hash ^ zobrist::color());
            // restore the exact starting hash for the next move
            b = board(fen);
        }
    }
}

#[test]
fn make_move_reports_captures() {
    let mut b = board("4k3/8/8/3p4/4P3/8/8/4K3 w - - 0 1");
    let capture = Move { from: 28, to: 35, move_type: MoveType::Regular };
    assert_eq!(b.make_move(capture), Ok(Some(PieceType::Pawn)));
    assert_eq!(b.to_fen(), "4k3/8/8/3P4/8/8/8/4K3 b - - 0 1");
    let mut ep = board("4k3/8/8/3Pp3/8/8/8/4K3 w - e6 0 1");
    let en_passant = Move { from: 35, to: 44, move_type: MoveType::EnPassant(36) };
    assert_eq!(ep.make_move(en_passant), Ok(Some(PieceType::Pawn)));
    assert_eq!(ep.to_fen(), "4k3/8/4P3/8/8/8/8/4K3 b - - 0 1");
}

#[test]
fn make_move_refuses_illegal_moves() {
    let mut b = board(START);
    let illegal = Move { from: 12, to: 36, move_type: MoveType::Regular };
    assert_eq!(b.make_move(illegal), Err("Illegal move: e2e5".to_string()));
    assert!(!b.is_legal_move(illegal));
    assert!(b.is_legal_move(Move { from: 6, to: 21, move_type: MoveType::Regular }));
    assert_eq!(b.to_fen(), START);
}

#[test]
fn castling_moves_rook_and_king() {
    let mut b = board("r3k2r/8/8/8/8/8/8/R3K2R w KQkq - 0 1");
    b.make_move(Move { from: 4, to: 6, move_type: MoveType::Castling(true) }).unwrap();
    assert_eq!(b.to_fen(), "r3k2r/8/8/8/8/8/8/R4RK1 b kq - 1 1");
    b.make_move(Move { from: 60, to: 58, move_type: MoveType::Castling(false) }).unwrap();
    assert_eq!(b.to_fen(), "2kr3r/8/8/8/8/8/8/R4RK1 w - - 2 2");
}

#[test]
fn promotion_replaces_the_pawn() {
    let mut b = board("1n5k/P7/8/8/8/8/8/7K w - - 0 1");
    let promo = Move { from: 48, to: 57, move_type: MoveType::Promotion(PieceType::Queen) };
    assert_eq!(b.make_move(promo), Ok(Some(PieceType::Knight)));
    assert_eq!(b.to_fen(), "1Q5k/8/8/8/8/8/8/7K b - - 0 1");
}

#[test]
fn perft_start_position() {
    let mut b = board(START);
    assert_eq!(b.perft(0), 1);
    assert_eq!(b.perft(1), 20);
    assert_eq!(b.perft(2), 400);
    assert_eq!(b.perft(3), 8902);
    assert_eq!(b.to_fen(), START);
}

#[test]
fn perft_kiwipete() {
    let mut b = board(KIWIPETE);
    assert_eq!(b.perft(1), 48);
    assert_eq!(b.perft(2), 2039);
    assert_eq!(b.perft(3), 97862);
    assert_eq!(b.to_fen(), KIWIPETE);
}

#[test]
fn perft_position3() {
    let mut b = board(POSITION3);
    assert_eq!(b.perft(1), 14);
    assert_eq!(b.perft(2), 191);
    assert_eq!(b.perft(3), 2812);
    assert_eq!(b.perft(4), 43238);
}

#[test]
fn perft_position4() {
    let mut b = board(POSITION4);
    assert_eq!(b.perft(1), 6);
    assert_eq!(b.perft(2), 264);
    assert_eq!(b.perft(3), 9467);
}

#[test]
fn perft_position5() {
    let mut b = board(POSITION5);
    assert_eq!(b.perft(1), 44);
    assert_eq!(b.perft(2), 1486);
    assert_eq!(b.perft(3), 62379);
}

#[test]
fn legal_moves_are_legal() {
    let mut b = board(KIWIPETE);
    let moves = b.legal_moves();
    assert_eq!(moves.len(), 48);
    for mv in &moves {
        assert!(b.is_legal_move(*mv));
    }
    let mut sink: Vec<Move> = Vec::new();
    b.generate_legal_moves(&mut sink);
    assert_eq!(sink, moves);
}

#[test]
fn checks_and_pins_limit_moves() {
    // the white king is in check from the rook on e8 and the knight cannot block
    let mut b = board("4r1k1/8/8/8/8/8/8/N3K3 w - - 0 1");
    assert!(b.in_check());
    let moves = b.legal_moves();
    assert!(moves.iter().all(|mv| mv.from == 4));
    assert_eq!(moves.len(), 4);
    // a pinned bishop may only slide along the pin
    let mut pinned = board("4k3/8/8/b7/8/8/3B4/4K3 w - - 0 1");
    assert!(!pinned.in_check());
    let bishop_moves: Vec<Move> = pinned.legal_moves().into_iter().filter(|mv| mv.from == 11).collect();
    assert_eq!(bishop_moves.len(), 3);
}

#[test]
fn en_passant_that_exposes_the_king_is_refused() {
    // capturing en passant would open the fifth rank to the rook
    let mut b = board("8/8/8/K2pP2r/8/8/8/7k w - d6 0 1");
    let ep = Move { from: 36, to: 43, move_type: MoveType::EnPassant(35) };
    assert!(!b.is_legal_move(ep));
    assert!(b.legal_moves().iter().all(|mv| !matches!(mv.move_type, MoveType::EnPassant(_))));
}

#[test]
fn castling_through_attack_is_refused() {
    // the black rook on f8 attacks f1, so white cannot castle kingside
    let mut b = board("5r1k/8/8/8/8/8/8/4K2R w K - 0 1");
    assert!(!b.is_legal_move(Move { from: 4, to: 6, move_type: MoveType::Castling(true) }));
    let mut free = board("7k/8/8/8/8/8/8/4K2R w K - 0 1");
    assert!(free.is_legal_move(Move { from: 4, to: 6, move_type: MoveType::Castling(true) }));
}

#[test]
fn insufficient_material() {
    assert!(board("7k/8/8/8/8/8/8/7K w - - 0 1").is_insufficient_material());
    assert!(board("7k/8/8/8/8/8/8/6NK w - - 0 1").is_insufficient_material());
    assert!(board("7k/8/8/8/8/8/8/6BK w - - 0 1").is_insufficient_material());
    assert!(!board("7k/8/8/8/8/8/8/6RK w - - 0 1").is_insufficient_material());
    assert!(!board("7k/8/8/8/8/8/8/6PK w - - 0 1").is_insufficient_material());
    assert!(!board("7k/8/8/8/8/8/8/5NNK w - - 0 1").is_insufficient_material());
    assert!(!board(START).is_insufficient_material());
}

#[test]
fn legal_positions() {
    assert!(board(START).is_legal_position());
    assert!(board(KIWIPETE).is_legal_position());
    // the side to move may be in check
    assert!(board("4k3/8/8/8/8/8/4R3/4K3 b - - 0 1").in_check());
    assert!(board("4k3/8/8/8/8/8/4R3/4K3 b - - 0 1").is_legal_position());
    // the side that just moved may not be
    assert!(!board("4k3/4R3/8/8/8/8/8/4K3 w - - 0 1").is_legal_position());
}

#[test]
fn threefold_repetition_is_detected() {
    let mut b = board(START);
    let shuffle = [
        Move { from: 6, to: 21, move_type: MoveType::Regular },
        Move { from: 62, to: 45, move_type: MoveType::Regular },
        Move { from: 21, to: 6, move_type: MoveType::Regular },
        Move { from: 45, to: 62, move_type: MoveType::Regular },
    ];
    for round in 0..2 {
        for (index, mv) in shuffle.iter().enumerate() {
            assert!(!b.is_threefold_repetition());
            b.make_move(*mv).unwrap();
            if round == 1 && index == 3 {
                assert!(b.is_threefold_repetition());
            }
        }
    }
    assert_eq!(b.to_fen(), "rnbqkbnr/pppppppp/8/8/8/8/PPPPPPPP/RNBQKBNR w KQkq - 8 5");
}

#[test]
fn coordinate_moves_are_read() {
    let b = board("r3k2r/8/8/3Pp3/8/8/6p1/R3K2R w KQkq e6 0 1");
    assert_eq!(from_uci(&b, "a1a8"), Ok(Move { from: 0, to: 56, move_type: MoveType::Regular }));
    assert_eq!(from_uci(&b, " E1G1 "), Ok(Move { from: 4, to: 6, move_type: MoveType::Castling(true) }));
    assert_eq!(from_uci(&b, "e1c1"), Ok(Move { from: 4, to: 2, move_type: MoveType::Castling(false) }));
    assert_eq!(from_uci(&b, "d5e6"), Ok(Move { from: 35, to: 44, move_type: MoveType::EnPassant(36) }));
    assert_eq!(from_uci(&b, "d5d6"), Ok(Move { from: 35, to: 43, move_type: MoveType::Regular }));
    assert_eq!(
        from_uci(&b, "g2h1Q"),
        Ok(Move { from: 14, to: 7, move_type: MoveType::Promotion(PieceType::Queen) })
    );
    assert_eq!(
        from_uci(&b, "g2g1n"),
        Ok(Move { from: 14, to: 6, move_type: MoveType::Promotion(PieceType::Knight) })
    );
    assert_eq!(from_uci(&b, "e2"), Err("Invalid UCI move: 'e2'".to_string()));
    assert_eq!(from_uci(&b, "e2e4qq"), Err("Invalid UCI move: 'e2e4qq'".to_string()));
    assert_eq!(from_uci(&b, "E9E4"), Err("Invalid UCI move: 'e9e4'".to_string()));
    assert_eq!(from_uci(&b, "e2i4"), Err("Invalid UCI move: 'e2i4'".to_string()));
    assert_eq!(from_uci(&b, "g2g1k"), Err("Invalid UCI promotion: 'g2g1k'".to_string()));
}

#[test]
fn divided_perft() {
    let mut b = board(START);
    let (counts, total) = b.perft_divide(2);
    assert_eq!(counts.len(), 20);
    assert!(counts.iter().all(|(_, n)| *n == 20));
    assert_eq!(total, 400);
    let (counts, total) = b.perft_divide(1);
    assert!(counts.iter().all(|(_, n)| *n == 1));
    assert_eq!(total, 20);
    assert_eq!(b.to_fen(), START);
    let mut k = board(KIWIPETE);
    let (counts, total) = k.perft_divide(3);
    assert_eq!(counts.len(), 48);
    assert_eq!(total, 97862);
    let sum: u64 = counts.iter().map(|(_, n)| *n).sum();
    assert_eq!(sum, total);
}

#[test]
fn board_picture() {
    let b = board("4k3/8/8/8/8/8/8/R3K3 w Q - 0 1");
    let frame = " +---+---+---+---+---+---+---+---+\n";
    let empty = " |   |   |   |   |   |   |   |   |\n";
    let mut expected = String::from("Board: 4k3/8/8/8/8/8/8/R3K3 w Q - 0 1\n");
    expected.push_str(frame);
    expected.push_str(" |   |   |   |   | k |   |   |   |\n");
    for _ in 0..6 {
        expected.push_str(frame);
        expected.push_str(empty);
    }
    expected.push_str(frame);
    expected.push_str(" | R |   |   |   | K |   |   |   |\n");
    expected.push_str(frame);
    assert_eq!(b.to_picture(), expected);
}

#[test]
fn legal_moves_are_listed_once() {
    for fen in [START, KIWIPETE, POSITION3, POSITION4, POSITION5] {
        let mut b = board(fen);
        let moves = b.legal_moves();
        for (i, a) in moves.iter().enumerate() {
            for c in moves.iter().skip(i + 1) {
                assert_ne!(a, c);
            }
        }
    }
}

#[test]
fn reachable_positions_stay_reachable() {
    for fen in [START, KIWIPETE, POSITION4] {
        let mut b = board(fen);
        for ply in 0..24usize {
            assert!(b.is_legal_position());
            let moves = b.legal_moves();
            if moves.is_empty() {
                break;
            }
            let mv = moves[(ply * 7) % moves.len()];
            b.make_move(mv).unwrap();
        }
        assert!(b.is_legal_position());
    }
}

#[test]
fn fen_written_after_moves_reads_back() {
    let mut b = board(START);
    for text in ["e2e4", "c7c5", "g1f3", "d7d5", "e4d5", "e8d7", "h1g1"] {
        let mv = from_uci(&b, text).unwrap();
        b.make_move(mv).unwrap();
        let fen = b.to_fen();
        let read = board(&fen);
        for sq in 0..64 {
            assert_eq!(read.piece_at(sq), b.piece_at(sq));
        }
        assert_eq!(read.active_color(), b.active_color());
        assert_eq!(read.halfmove_number(), b.halfmove_number());
        assert_eq!(read.rule50(), b.rule50());
        assert_eq!(read.en_passant_square(), b.en_passant_square());
        for color in [Color::White, Color::Black] {
            assert_eq!(read.castling_rights().kingside(color), b.castling_rights().kingside(color));
            assert_eq!(read.castling_rights().queenside(color), b.castling_rights().queenside(color));
        }
        assert_eq!(read.to_fen(), fen);
    }
    assert_eq!(b.to_fen(), "rnbq1bnr/pp1kpppp/8/2pP4/8/5N2/PPPP1PPP/RNBQKBR1 b Q - 2 4");
}

#[test]
fn king_index_and_piece_bitboards() {
    for fen in [START, KIWIPETE, POSITION3, POSITION4, POSITION5] {
        let b = board(fen);
        for color in [Color::White, Color::Black] {
            let k = b.king_index(color);
            assert!(k < 64);
            assert_eq!(b.kings(color).0, 1u64 << k);
            assert_eq!(b.piece_at(k), Some((PieceType::King, color)));
            let union = b.pawns(color).0 | b.knights(color).0 | b.bishops(color).0 | b.rooks(color).0
                | b.queens(color).0 | b.kings(color).0;
            assert_eq!(b.pieces_of_color(color).0, union);
            let parts = [b.pawns(color).0, b.knights(color).0, b.bishops(color).0, b.rooks(color).0,
                b.queens(color).0, b.kings(color).0];
            for i in 0..6 {
                for j in 0..6 {
                    if i != j {
                        assert_eq!(parts[i] & parts[j], 0);
                    }
                }
            }
        }
        assert_eq!(b.pieces_of_color(Color::White).0 & b.pieces_of_color(Color::Black).0, 0);
        assert_eq!(b.all_pieces().0, b.pieces_of_color(Color::White).0 | b.pieces_of_color(Color::Black).0);
    }
}

#[test]
fn uci_text_that_is_not_ascii() {
    let b = board(START);
    assert_eq!(from_uci(&b, "zzé"), Err("Invalid UCI move: 'zzé'".to_string()));
    assert_eq!(from_uci(&b, "zzzé"), Err("Invalid UCI move: 'zzzé'".to_string()));
    assert_eq!(from_uci(&b, "e2e4é"), Err("Invalid UCI move: 'e2e4é'".to_string()));
    assert_eq!(from_uci(&b, "\u{a0}e2e4\u{3000}"), Ok(Move { from: 12, to: 28, move_type: MoveType::Regular }));
}

#[test]
fn perft_toggles_the_side_key_once_per_root_move() {
    let mut b = board(START);
    let before = b.zobrist();
    assert_eq!(b.perft(2), 400);
    assert_eq!(b.zobrist(), before);
    let mut lone = board("8/8/8/8/8/8/8/K6k b - - 12 40");
    let before = lone.zobrist();
    assert_eq!(lone.perft(1), 3);
    assert_eq!(lone.zobrist(), before ^ zobrist::color());
    let (counts, total) = lone.perft_divide(2);
    assert_eq!(counts.len(), 3);
    assert_eq!(total, counts.iter().map(|c| c.1).sum::<u64>());
    assert_eq!(lone.zobrist(), before);
}

#[test]
fn legal_moves_come_group_by_group() {
    let mut b = board(START);
    let moves = b.legal_moves();
    assert_eq!(moves.len(), 20);
    for mv in &moves[..16] {
        assert_eq!(b.piece_at(mv.from as usize), Some((PieceType::Pawn, Color::White)));
    }
    for mv in &moves[16..] {
        assert_eq!(b.piece_at(mv.from as usize), Some((PieceType::Knight, Color::White)));
    }
}

#[test]
fn double_push_sets_the_en_passant_square_and_the_side_follows_the_count() {
    let mut b = board(START);
    b.make_move(Move { from: 12, to: 28, move_type: MoveType::Regular }).unwrap();
    assert_eq!(b.en_passant_square(), Some(20));
    assert_eq!(b.active_color(), Color::Black);
    assert_eq!(b.halfmove_number() % 2, 1);
    b.make_move(Move { from: 57, to: 42, move_type: MoveType::Regular }).unwrap();
    assert_eq!(b.en_passant_square(), None);
    assert_eq!(b.halfmove_number() % 2, 0);
    b.unmake_move();
    assert_eq!(b.active_color(), Color::Black);
    assert_eq!(b.halfmove_number() % 2, 1);
}
