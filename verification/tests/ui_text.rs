use chess::engine::{Engine, EngineConfig};
use chess::game::{Chess, Color, GameStatus, Move, PieceKind};
use chess::ui::{
    append_uci_move, board_piece_counts, frame_text, captured_pieces_display, engine_config_summary,
    game_result_line, handle_key, idx_to_square, initial_piece_counts, material_balance_line,
    material_balance_pawns, material_value_pawns, move_to_uci, parse_uci_move, parse_uci_square,
    piece_kind_idx, piece_symbol, position_header, refresh_cached_state, square_to_idx,
    step_file, step_rank, CapturedDisplay, GameMode, Key, KeyOutcome, Panel, StockfishConfig,
};

#[test]
fn square_names() {
    assert_eq!(idx_to_square(0), "a1");
    assert_eq!(idx_to_square(12), "e2");
    assert_eq!(idx_to_square(63), "h8");
    assert_eq!(square_to_idx(4, 1), 12);
}

#[test]
fn cursor_steps_stop_at_the_edge() {
    assert_eq!(step_file(0, -1), 0);
    assert_eq!(step_file(7, 1), 7);
    assert_eq!(step_file(12, 1), 13);
    assert_eq!(step_file(12, -1), 11);
    assert_eq!(step_rank(60, 1), 60);
    assert_eq!(step_rank(4, -1), 4);
    assert_eq!(step_rank(12, 1), 20);
    assert_eq!(step_rank(12, -1), 4);
}

#[test]
fn uci_text_of_moves() {
    assert_eq!(move_to_uci(Move { from: 12, to: 28, promotion: None }), "e2e4");
    assert_eq!(
        move_to_uci(Move { from: 52, to: 60, promotion: Some(PieceKind::Knight) }),
        "e7e8n"
    );
    let mut history = String::new();
    append_uci_move(&mut history, Move { from: 12, to: 28, promotion: None });
    assert_eq!(history, "e2e4");
    append_uci_move(&mut history, Move { from: 52, to: 36, promotion: None });
    assert_eq!(history, "e2e4 e7e5");
}

#[test]
fn uci_moves_are_parsed() {
    assert_eq!(parse_uci_move("e2e4"), Some(Move { from: 12, to: 28, promotion: None }));
    assert_eq!(
        parse_uci_move("e7e8Q"),
        Some(Move { from: 52, to: 60, promotion: Some(PieceKind::Queen) })
    );
    assert_eq!(parse_uci_move("e7e8x"), Some(Move { from: 52, to: 60, promotion: None }));
    assert_eq!(parse_uci_move("e7e8qq"), Some(Move { from: 52, to: 60, promotion: None }));
    assert_eq!(parse_uci_move("e2"), None);
    assert_eq!(parse_uci_move("z2e4"), None);
    assert_eq!(parse_uci_square("h8"), Some(63));
    assert_eq!(parse_uci_square("i1"), None);
    assert_eq!(parse_uci_square("e44"), None);
}

#[test]
fn result_lines() {
    assert_eq!(game_result_line(&GameStatus::Checkmate { winner: Color::White }), "Checkmate. White wins.");
    assert_eq!(game_result_line(&GameStatus::Checkmate { winner: Color::Black }), "Checkmate. Black wins.");
    assert_eq!(game_result_line(&GameStatus::Stalemate), "Draw by stalemate.");
    assert_eq!(game_result_line(&GameStatus::DrawFiftyMove), "Draw by fifty-move rule.");
    assert_eq!(
        game_result_line(&GameStatus::DrawThreefoldRepetition),
        "Draw by threefold repetition."
    );
    assert_eq!(
        game_result_line(&GameStatus::DrawInsufficientMaterial),
        "Draw by insufficient material."
    );
    assert_eq!(game_result_line(&GameStatus::Ongoing), "");
    assert_eq!(Color::White.name(), "White");
}

#[test]
fn engine_summary_text() {
    assert_eq!(engine_config_summary(EngineConfig::default()), "Str 8 | Depth 2-4 | Think 150-1500 ms");
    let c = EngineConfig { strength: 10, min_depth: 1, max_depth: 12, min_think_time: 0, max_think_time: 120000 };
    assert_eq!(engine_config_summary(c), "Str 10 | Depth 1-12 | Think 0-120000 ms");
}

#[test]
fn material_balance() {
    assert_eq!(material_balance_line(3), "White +3");
    assert_eq!(material_balance_line(-5), "Black +5");
    assert_eq!(material_balance_line(0), "Equal");
    assert_eq!(material_balance_pawns(&Chess::new()), 0);
    let up = Chess::from_fen("4k3/8/8/8/8/8/8/3QK3 w - - 0 1").unwrap();
    assert_eq!(material_balance_pawns(&up), 9);
    let down = Chess::from_fen("r3k3/pp6/8/8/8/8/8/4K3 w - - 0 1").unwrap();
    assert_eq!(material_balance_pawns(&down), -7);
}

#[test]
fn piece_tables() {
    assert_eq!(initial_piece_counts(), [8, 2, 2, 2, 1, 1]);
    assert_eq!(piece_kind_idx(PieceKind::Queen), 4);
    assert_eq!(material_value_pawns(PieceKind::Rook), 5);
    assert_eq!(material_value_pawns(PieceKind::King), 0);
    assert_eq!(piece_symbol(Color::White, PieceKind::Knight), '♘');
    assert_eq!(piece_symbol(Color::Black, PieceKind::Queen), '♛');
    let counts = board_piece_counts(&Chess::new());
    assert_eq!(counts.white, [8, 2, 2, 2, 1, 1]);
    assert_eq!(counts.black, [8, 2, 2, 2, 1, 1]);
}

#[test]
fn captured_pieces() {
    let start = captured_pieces_display(&Chess::new());
    assert_eq!(start.white_captured_display, "-");
    assert_eq!(start.black_captured_display, "-");
    let game = Chess::from_fen("rnbqkbnr/pppp2pp/8/8/8/8/PPPPPPPP/RNB1KBNR w KQkq - 0 1").unwrap();
    let shown = captured_pieces_display(&game);
    assert_eq!(shown.white_captured_display, "♟ ♟");
    assert_eq!(shown.black_captured_display, "♕");
}

#[test]
fn modes_and_header() {
    let human = GameMode::HumanVsHuman;
    assert_eq!(human.label(), "Human vs Human");
    assert_eq!(human.engine_color(), None);
    assert!(human.engine_config().is_none());
    let engine = GameMode::HumanVsEngine { human_color: Color::White, engine_config: EngineConfig::default() };
    assert_eq!(engine.label(), "Human vs Engine");
    assert_eq!(engine.engine_color(), Some(Color::Black));
    assert_eq!(engine.engine_config().unwrap().max_depth, 4);
    assert!(engine.stockfish_config().is_none());
    let fish = GameMode::HumanVsStockfish {
        human_color: Color::White,
        stockfish_config: StockfishConfig { path: "stockfish".to_string(), move_time_ms: 1000, skill_level: 12 },
    };
    assert_eq!(fish.label(), "Human vs Stockfish");
    let cfg = fish.stockfish_config().unwrap();
    assert_eq!(cfg.path, "stockfish");
    assert_eq!(cfg.move_time_ms, 1000);
    assert_eq!(cfg.skill_level, 12);
    assert_eq!(position_header(&Chess::new(), &human), "Turn: White | Mode: Human vs Human");
}

#[test]
fn keys_select_and_move() {
    let mut game = Chess::new();
    let mut panel = Panel { cursor_sq: 12, selected_sq: None, status_line: String::new() };
    assert_eq!(handle_key(&mut game, &mut panel, false, Key::Enter), KeyOutcome::Continue);
    assert_eq!(panel.selected_sq, Some(12));
    assert_eq!(panel.status_line, "Selected e2");
    handle_key(&mut game, &mut panel, false, Key::Up);
    handle_key(&mut game, &mut panel, false, Key::Up);
    assert_eq!(panel.cursor_sq, 28);
    let played = handle_key(&mut game, &mut panel, false, Key::Enter);
    assert_eq!(played, KeyOutcome::Played(Move { from: 12, to: 28, promotion: None }));
    assert_eq!(panel.status_line, "Played e2 -> e4");
    assert_eq!(panel.selected_sq, None);
    assert_eq!(game.current_turn(), Color::Black);

    handle_key(&mut game, &mut panel, false, Key::Enter);
    assert_eq!(panel.status_line, "That piece belongs to the other side. Select one of your own.");
    handle_key(&mut game, &mut panel, false, Key::Down);
    assert_eq!(panel.cursor_sq, 20);
    handle_key(&mut game, &mut panel, false, Key::Enter);
    assert_eq!(panel.status_line, "No piece on that square to select.");
    handle_key(&mut game, &mut panel, false, Key::Escape);
    assert_eq!(panel.status_line, "Selection cleared.");
    assert_eq!(handle_key(&mut game, &mut panel, false, Key::Quit), KeyOutcome::Quit);
}

#[test]
fn invalid_moves_are_reported() {
    let mut game = Chess::new();
    let mut panel = Panel { cursor_sq: 12, selected_sq: Some(12), status_line: String::new() };
    panel.cursor_sq = 36;
    let outcome = handle_key(&mut game, &mut panel, false, Key::Enter);
    assert_eq!(outcome, KeyOutcome::Continue);
    assert_eq!(panel.status_line, "Invalid move: Illegal move");
    assert_eq!(panel.selected_sq, Some(12));
    panel.cursor_sq = 12;
    handle_key(&mut game, &mut panel, false, Key::Enter);
    assert_eq!(panel.selected_sq, None);
    assert_eq!(panel.status_line, "Selection cleared.");
}

#[test]
fn finished_game_only_quits() {
    let mut game = Chess::new();
    let mut panel = Panel { cursor_sq: 12, selected_sq: None, status_line: String::new() };
    assert_eq!(handle_key(&mut game, &mut panel, true, Key::Left), KeyOutcome::Continue);
    assert_eq!(panel.cursor_sq, 12);
    assert_eq!(handle_key(&mut game, &mut panel, true, Key::Enter), KeyOutcome::Quit);
    assert_eq!(handle_key(&mut game, &mut panel, true, Key::Escape), KeyOutcome::Quit);
}

#[test]
fn cached_state_is_refreshed() {
    let game = Chess::from_fen("7k/5Q2/6K1/8/8/8/8/8 b - - 0 1").unwrap();
    let engine = Engine::new(1);
    let mut status = GameStatus::Ongoing;
    let mut eval = 0;
    let mut captures = CapturedDisplay { white_captured_display: String::new(), black_captured_display: String::new() };
    let mut balance = 0;
    let mut checked = vec![1, 2, 3];
    refresh_cached_state(&game, &engine, &mut status, &mut eval, &mut captures, &mut balance, &mut checked);
    assert_eq!(status, GameStatus::Stalemate);
    assert_eq!(eval, engine.evaluate_position(&game));
    assert_eq!(balance, 9);
    assert!(checked.is_empty());
    assert_eq!(captures.black_captured_display, "♖ ♖ ♗ ♗ ♘ ♘ ♙ ♙ ♙ ♙ ♙ ♙ ♙ ♙");
    assert_eq!(captures.white_captured_display, "♛ ♜ ♜ ♝ ♝ ♞ ♞ ♟ ♟ ♟ ♟ ♟ ♟ ♟ ♟");
}

#[test]
fn frame_lists_every_line() {
    let game = Chess::new();
    let panel = Panel { cursor_sq: 12, selected_sq: Some(12), status_line: "Selected e2".to_string() };
    let captures = captured_pieces_display(&game);
    let text = frame_text(&game, &GameMode::HumanVsHuman, &panel, &GameStatus::Ongoing, "Eval: -0.02 (Black better)", &captures, 0, &[]);
    assert!(text.starts_with("Terminal Chess\r\n  +-----+"));
    assert!(!text.contains("|\n"));
    assert!(text.contains("Turn: White | Mode: Human vs Human\r\nEval: -0.02 (Black better)\r\n"));
    assert!(text.contains("Captured by White: -\r\nCaptured by Black: -\r\nMaterial: Equal\r\n"));
    assert!(text.ends_with("Cursor: e2\r\nSelected: e2\r\nSelected e2\r\n"));
    assert!(!text.contains("Press Enter"));
    assert_eq!(text.matches("48;5;58").count(), 2);
    let over = frame_text(&game, &GameMode::HumanVsHuman, &Panel { cursor_sq: 0, selected_sq: None, status_line: String::new() }, &GameStatus::Stalemate, "", &captures, 0, &[]);
    assert!(over.contains("Draw by stalemate.\r\nPress Enter, Esc, or q to quit.\r\nCursor: a1\r\nSelected: (none)\r\n"));
}

#[test]
fn uci_text_reads_back() {
    let moves = [
        Move { from: 0, to: 63, promotion: None },
        Move { from: 12, to: 28, promotion: None },
        Move { from: 52, to: 60, promotion: Some(PieceKind::Queen) },
        Move { from: 49, to: 56, promotion: Some(PieceKind::Rook) },
        Move { from: 9, to: 0, promotion: Some(PieceKind::Bishop) },
        Move { from: 14, to: 7, promotion: Some(PieceKind::Knight) },
    ];
    for mv in moves {
        assert_eq!(parse_uci_move(&move_to_uci(mv)), Some(mv));
    }
    let mut game = Chess::new();
    let text = move_to_uci(Move { from: 6, to: 21, promotion: None });
    assert_eq!(text, "g1f3");
    assert_eq!(game.try_make_move_str(&text), Ok(()));
    assert_eq!(game.last_move(), Some(Move { from: 6, to: 21, promotion: None }));
}
