use chess_again::{Board, Color, Game, GameResult, Move, MoveType, PieceType};

fn san(text: &str, board: &Board) -> Result<Move, String> {
    Move::from_san(text, board)
}

fn game_at(fen: &str) -> Game {
    match Game::starting_at_fen(fen) {
        Ok(g) => g,
        Err(e) => panic!("{e}"),
    }
}

fn play(game: &mut Game, moves: &[&str]) {
    for text in moves {
        let mv = san(text, game.board()).unwrap();
        game.make_move(mv).unwrap();
    }
}

#[test]
fn san_of_simple_moves() {
    let board = Board::from_fen("rnbqkbnr/pppppppp/8/8/8/8/PPPPPPPP/RNBQKBNR w KQkq - 0 1").unwrap();
    assert_eq!(san("e4", &board), Ok(Move { from: 12, to: 28, move_type: MoveType::Regular }));
    assert_eq!(san("Nf3", &board), Ok(Move { from: 6, to: 21, move_type: MoveType::Regular }));
    assert_eq!(san("  e3+ ", &board), Ok(Move { from: 12, to: 20, move_type: MoveType::Regular }));
    let e4 = Move { from: 12, to: 28, move_type: MoveType::Regular };
    assert_eq!(e4.to_san(&board), Ok("e4".to_string()));
    let nf3 = Move { from: 6, to: 21, move_type: MoveType::Regular };
    assert_eq!(nf3.to_san(&board), Ok("Nf3".to_string()));
    let illegal = Move { from: 12, to: 36, move_type: MoveType::Regular };
    assert_eq!(illegal.to_san(&board), Err("Illegal move: e2e5".to_string()));
}

#[test]
fn san_errors() {
    let board = Board::from_fen("rnbqkbnr/pppppppp/8/8/8/8/PPPPPPPP/RNBQKBNR w KQkq - 0 1").unwrap();
    assert_eq!(san("", &board), Err("SAN move cannot be empty.".to_string()));
    assert_eq!(san("   ", &board), Err("SAN move cannot be empty.".to_string()));
    assert_eq!(san("e5", &board), Err("Invalid or illegal SAN move: e5".to_string()));
    assert_eq!(san("e", &board), Err("Invalid SAN move: e".to_string()));
    assert_eq!(san("e9", &board), Err("Invalid square: 'e9'".to_string()));
    assert_eq!(san("Ze4", &board), Err("Invalid SAN move: Ze4".to_string()));
    assert_eq!(san("Nbd2", &board), Err("Invalid or illegal SAN move: Nbd2".to_string()));
    assert_eq!(san("O-O", &board), Err("Invalid or illegal SAN move: O-O".to_string()));
}

#[test]
fn san_disambiguation() {
    let board = Board::from_fen("4k3/8/8/8/8/8/8/R4RK1 w - - 0 1").unwrap();
    assert_eq!(san("Rd1", &board), Err("Ambiguous SAN move: Rd1".to_string()));
    let from_a = Move { from: 0, to: 3, move_type: MoveType::Regular };
    let from_f = Move { from: 5, to: 3, move_type: MoveType::Regular };
    assert_eq!(san("Rad1", &board), Ok(from_a));
    assert_eq!(san("Rfd1", &board), Ok(from_f));
    assert_eq!(san("Raxd1", &board), Ok(from_a));
    assert_eq!(from_a.to_san(&board), Ok("Rad1".to_string()));
    assert_eq!(from_f.to_san(&board), Ok("Rfd1".to_string()));
    // two rooks on one file are told apart by rank
    let stacked = Board::from_fen("4k3/8/8/8/R7/8/8/R5K1 w - - 0 1").unwrap();
    let up = Move { from: 0, to: 8, move_type: MoveType::Regular };
    assert_eq!(up.to_san(&stacked), Ok("R1a2".to_string()));
    assert_eq!(san("R1a2", &stacked), Ok(up));
}

#[test]
fn san_castling_and_promotion() {
    let board = Board::from_fen("r3k2r/8/8/8/8/8/8/R3K2R w KQkq - 0 1").unwrap();
    let short = Move { from: 4, to: 6, move_type: MoveType::Castling(true) };
    let long = Move { from: 4, to: 2, move_type: MoveType::Castling(false) };
    assert_eq!(san("O-O", &board), Ok(short));
    assert_eq!(san("0-0", &board), Ok(short));
    assert_eq!(san("O-O-O", &board), Ok(long));
    assert_eq!(san("0-0-0+", &board), Ok(long));
    assert_eq!(short.to_san(&board), Ok("O-O".to_string()));
    assert_eq!(long.to_san(&board), Ok("O-O-O".to_string()));

    let promo = Board::from_fen("1n5k/P7/8/8/8/8/8/7K w - - 0 1").unwrap();
    let queen = Move { from: 48, to: 56, move_type: MoveType::Promotion(PieceType::Queen) };
    let capture = Move { from: 48, to: 57, move_type: MoveType::Promotion(PieceType::Knight) };
    assert_eq!(san("a8=Q", &promo), Ok(queen));
    assert_eq!(san("axb8=N", &promo), Ok(capture));
    assert_eq!(queen.to_san(&promo), Ok("a8=Q".to_string()));
    assert_eq!(capture.to_san(&promo), Ok("axb8=N".to_string()));
    assert_eq!(san("a8", &promo), Err("Invalid or illegal SAN move: a8".to_string()));
    assert_eq!(san("a8=X", &promo), Err("Invalid promotion piece in SAN move.".to_string()));
    assert_eq!(san("a8=QQ", &promo), Err("Invalid promotion in SAN move: a8=QQ".to_string()));
    assert_eq!(san("a8=", &promo), Err("Invalid promotion in SAN move: a8=".to_string()));
}

#[test]
fn san_en_passant_is_a_capture() {
    let board = Board::from_fen("4k3/8/8/3Pp3/8/8/8/4K3 w - e6 0 1").unwrap();
    let ep = Move { from: 35, to: 44, move_type: MoveType::EnPassant(36) };
    assert_eq!(ep.to_san(&board), Ok("dxe6".to_string()));
    assert_eq!(san("dxe6", &board), Ok(ep));
}

#[test]
fn new_game_starts_at_the_standard_position() {
    let game = Game::new();
    assert_eq!(game.result(), None);
    assert_eq!(game.legal_moves().len(), 20);
    assert_eq!(game.board().to_fen(), "rnbqkbnr/pppppppp/8/8/8/8/PPPPPPPP/RNBQKBNR w KQkq - 0 1");
}

#[test]
fn fools_mate() {
    let mut game = Game::new();
    play(&mut game, &["f3", "e5", "g4"]);
    assert_eq!(game.result(), None);
    let mate = san("Qh4", game.board()).unwrap();
    assert_eq!(game.make_move(mate), Ok(None));
    assert_eq!(game.result(), Some(GameResult::BlackWin));
    assert!(game.legal_moves().is_empty());
    game.set_date("2024.01.01".to_string());
    let pgn = game.to_pgn().unwrap();
    assert_eq!(
        pgn,
        "[Event \"?\"]\n[Site \"?\"]\n[Date \"2024.01.01\"]\n[Round \"?\"]\n[White \"?\"]\n[Black \"?\"]\n[Result \"0-1\"]\n\n1. f3 e5 2. g4 Qh4# 0-1"
    );
}

#[test]
fn checks_are_marked_in_pgn() {
    let mut game = Game::new();
    play(&mut game, &["e4", "f5", "Qh5+"]);
    assert_eq!(game.result(), None);
    game.draw().unwrap();
    game.set_date("D".to_string());
    assert_eq!(
        game.to_pgn().unwrap(),
        "[Event \"?\"]\n[Site \"?\"]\n[Date \"D\"]\n[Round \"?\"]\n[White \"?\"]\n[Black \"?\"]\n[Result \"1/2-1/2\"]\n\n1. e4 f5 2. Qh5+ 1/2-1/2"
    );
}

#[test]
fn illegal_game_move_is_refused() {
    let mut game = Game::new();
    let illegal = Move { from: 12, to: 36, move_type: MoveType::Regular };
    assert_eq!(game.make_move(illegal), Err("Illegal move: e2e5".to_string()));
    assert_eq!(game.legal_moves().len(), 20);
}

#[test]
fn game_from_a_set_up_position() {
    let fen = "7k/8/1p6/8/8/P7/8/7K b - - 0 1";
    let mut game = game_at(fen);
    play(&mut game, &["b5", "a4", "bxa4"]);
    game.forfeit(Color::White).unwrap();
    assert_eq!(game.result(), Some(GameResult::BlackWin));
    assert!(game.legal_moves().is_empty());
    game.set_event("Casual".to_string());
    game.set_site("Home".to_string());
    game.set_date("2025.02.03".to_string());
    game.set_round("1".to_string());
    game.set_white("Alice".to_string());
    game.set_black("Bob \"B\" \\ C".to_string());
    assert_eq!(
        game.to_pgn().unwrap(),
        "[Event \"Casual\"]\n[Site \"Home\"]\n[Date \"2025.02.03\"]\n[Round \"1\"]\n[White \"Alice\"]\n[Black \"Bob \\\"B\\\" \\\\ C\"]\n[Result \"0-1\"]\n[SetUp \"1\"]\n[FEN \"7k/8/1p6/8/8/P7/8/7K b - - 0 1\"]\n\n1... b5 2. a4 bxa4 0-1"
    );
}

#[test]
fn results_cannot_be_declared_twice() {
    let mut game = Game::new();
    assert_eq!(game.to_pgn(), Err("Cannot export an unfinished game as PGN.".to_string()));
    game.forfeit(Color::Black).unwrap();
    assert_eq!(game.result(), Some(GameResult::WhiteWin));
    assert_eq!(
        game.forfeit(Color::White),
        Err("Cannot forfeit a game that already has a result.".to_string())
    );
    assert_eq!(
        game.draw(),
        Err("Cannot declare a draw for a game that already has a result.".to_string())
    );
    assert_eq!(game.result(), Some(GameResult::WhiteWin));
}

#[test]
fn extra_tags() {
    let mut game = Game::new();
    assert_eq!(game.add_tag("Annotator".to_string(), "Me".to_string()), Ok(()));
    assert_eq!(
        game.add_tag("Annotator".to_string(), "You".to_string()),
        Err("Duplicate PGN tag: Annotator".to_string())
    );
    for roster in ["Event", "Site", "Date", "Round", "White", "Black", "Result"] {
        assert_eq!(
            game.add_tag(roster.to_string(), "x".to_string()),
            Err(format!("The tag '{roster}' belongs to the Seven Tag Roster."))
        );
    }
    game.draw().unwrap();
    game.set_date("?".to_string());
    assert_eq!(
        game.to_pgn().unwrap(),
        "[Event \"?\"]\n[Site \"?\"]\n[Date \"?\"]\n[Round \"?\"]\n[White \"?\"]\n[Black \"?\"]\n[Result \"1/2-1/2\"]\n[Annotator \"Me\"]\n\n1/2-1/2"
    );
}

#[test]
fn set_up_positions_end_at_once() {
    // checkmate
    let mate = game_at("7k/6Q1/6K1/8/8/8/8/8 b - - 0 1");
    assert_eq!(mate.result(), Some(GameResult::WhiteWin));
    assert!(mate.legal_moves().is_empty());
    // stalemate
    let stalemate = game_at("7k/5Q2/6K1/8/8/8/8/8 b - - 0 1");
    assert_eq!(stalemate.result(), Some(GameResult::Draw));
    // bare kings
    let bare = game_at("7k/8/8/8/8/8/8/7K w - - 0 1");
    assert_eq!(bare.result(), Some(GameResult::Draw));
    assert!(bare.legal_moves().is_empty());
}

#[test]
fn starting_fen_errors() {
    match Game::starting_at_fen("not a fen") {
        Ok(_) => panic!("refused"),
        Err(e) => assert_eq!(e, "Invalid FEN: FEN string must have 6 space-separated fields."),
    }
    match Game::starting_at_fen("8/8/8/8/8/8/8/K7 w - - 0 1") {
        Ok(_) => panic!("refused"),
        Err(e) => assert_eq!(e, "Invalid FEN position: There must be exactly one black king."),
    }
}

#[test]
fn repetition_ends_the_game_in_a_draw() {
    let mut game = Game::new();
    play(&mut game, &["Nf3", "Nf6", "Ng1", "Ng8", "Nf3", "Nf6", "Ng1"]);
    assert_eq!(game.result(), None);
    play(&mut game, &["Ng8"]);
    assert_eq!(game.result(), Some(GameResult::Draw));
    assert!(game.legal_moves().is_empty());
}

#[test]
fn capture_down_to_bare_kings_is_a_draw() {
    let mut game = game_at("7k/8/8/8/8/8/6n1/6QK w - - 0 1");
    assert_eq!(game.result(), None);
    let take = san("Kxg2", game.board()).unwrap();
    assert_eq!(game.make_move(take), Ok(Some(PieceType::Knight)));
    // the queen on g1 remains, so play goes on
    assert_eq!(game.result(), None);
    let mut bare = game_at("7k/8/8/8/8/8/6q1/7K w - - 0 1");
    let take = san("Kxg2", bare.board()).unwrap();
    assert_eq!(bare.make_move(take), Ok(Some(PieceType::Queen)));
    assert_eq!(bare.result(), Some(GameResult::Draw));
}

#[test]
fn game_offers_exactly_the_board_moves() {
    let mut game = Game::new();
    play(&mut game, &["e4", "d5", "exd5", "Qxd5"]);
    let mut board = game.board().clone();
    let mut offered = game.legal_moves().clone();
    let mut legal = board.legal_moves();
    offered.sort_by_key(|m| (m.from, m.to));
    legal.sort_by_key(|m| (m.from, m.to));
    assert_eq!(offered, legal);
}

#[test]
fn notation_reads_back_as_the_move() {
    for fen in [
        "rnbqkbnr/pppppppp/8/8/8/8/PPPPPPPP/RNBQKBNR w KQkq - 0 1",
        "r3k2r/p1ppqpb1/bn2pnp1/3PN3/1p2P3/2N2Q1p/PPPBBPPP/R3K2R w KQkq - 0 1",
        "r3k2r/Pppp1ppp/1b3nbN/nP6/BBP1P3/q4N2/Pp1P2PP/R2Q1RK1 w kq - 0 1",
        "4k3/8/8/3Pp3/8/8/8/4K3 w - e6 0 1",
        "4k3/8/8/8/R7/8/8/R5K1 w - - 0 1",
        "1n5k/P7/8/8/8/8/8/7K w - - 0 1",
    ] {
        let mut board = Board::from_fen(fen).unwrap();
        for mv in board.legal_moves() {
            let text = mv.to_san(&board).unwrap();
            assert_eq!(san(&text, &board), Ok(mv), "{text}");
        }
    }
}

#[test]
fn san_with_marks_reads_back() {
    let kiwipete = "r3k2r/p1ppqpb1/bn2pnp1/3PN3/1p2P3/2N2Q1p/PPPBBPPP/R3K2R w KQkq - 0 1";
    let mut board = Board::from_fen(kiwipete).unwrap();
    for mv in board.legal_moves() {
        let text = mv.to_san(&board).unwrap();
        for mark in ["", "+", "#"] {
            assert_eq!(san(&format!("{text}{mark}"), &board), Ok(mv));
        }
    }
}

#[test]
fn moves_on_a_board_whose_other_king_is_in_check() {
    // Black's king on e8 is attacked by the rook on e1, with white to move:
    // the generator still lists white's moves, the capture of the king among
    // them, and reads and writes their notation.
    let mut board = Board::from_fen("4k3/8/8/8/8/8/8/K3R3 w - - 0 1").unwrap();
    let moves = board.legal_moves();
    let take = Move { from: 4, to: 60, move_type: MoveType::Regular };
    assert!(moves.contains(&take));
    assert_eq!(take.to_san(&board), Ok("Rxe8".to_string()));
    assert_eq!(san("Rxe8", &board), Ok(take));
    assert!(board.is_legal_move(take));
    assert_eq!(Game::starting_at_fen("4k3/8/8/8/8/8/8/K3R3 w - - 0 1").err(),
        Some("Invalid FEN position: the position cannot arise in play.".to_string()));
}

#[test]
fn san_text_that_is_not_ascii() {
    let board = Board::from_fen("rnbqkbnr/pppppppp/8/8/8/8/PPPPPPPP/RNBQKBNR w KQkq - 0 1").unwrap();
    let e4 = Move { from: 12, to: 28, move_type: MoveType::Regular };
    assert_eq!(san("\u{a0}e4", &board), Ok(e4));
    assert_eq!(san("Ñf3", &board), Err("Invalid SAN move: Ñf3".to_string()));
    assert_eq!(san("e8=é", &board), Err("Invalid promotion piece in SAN move.".to_string()));
}
