use chess::game::board::file_rank_to_idx;
use chess::game::{CastlingRights, Chess, Color, GameStatus, Move, Piece, PieceKind};

const START: &str = "rnbqkbnr/pppppppp/8/8/8/8/PPPPPPPP/RNBQKBNR w KQkq - 0 1";

#[test]
fn initial_position_has_20_moves() {
    let game = Chess::from_fen("rnbqkbnr/pppppppp/8/8/8/8/PPPPPPPP/RNBQKBNR w KQkq - 0 1")
        .expect("valid FEN");
    assert_eq!(game.legal_move_count(), 20);
    assert_eq!(game.status(), GameStatus::Ongoing);
}

#[test]
fn en_passant_is_legal_when_available() {
    let mut game =
        Chess::from_fen("rnbqkbnr/pppp1ppp/8/4p3/3P4/8/PPP1PPPP/RNBQKBNR w KQkq e6 0 2")
            .expect("valid FEN");
    game.try_make_move_str("d4e5")
        .expect("en passant should be legal");
}

#[test]
fn castling_moves_work() {
    let mut game = Chess::from_fen("r3k2r/8/8/8/8/8/8/R3K2R w KQkq - 0 1").expect("valid FEN");
    game.try_make_move_str("e1g1")
        .expect("white castles kingside");
    game.try_make_move_str("e8c8")
        .expect("black castles queenside");
}

#[test]
fn promotion_requires_valid_piece() {
    let mut game = Chess::from_fen("7k/P7/8/8/8/8/8/K7 w - - 0 1").expect("valid FEN");
    game.try_make_move_str("a7a8q")
        .expect("promotion should succeed");
    assert_eq!(
        game.piece_at(file_rank_to_idx(0, 7)),
        Some(Piece {
            color: Color::White,
            kind: PieceKind::Queen
        })
    );
}

#[test]
fn checkmate_is_detected() {
    let mut game = Chess::from_fen("rnbqkbnr/pppppppp/8/8/8/8/PPPPPPPP/RNBQKBNR w KQkq - 0 1")
        .expect("valid FEN");
    game.try_make_move_str("f2f3").unwrap();
    game.try_make_move_str("e7e5").unwrap();
    game.try_make_move_str("g2g4").unwrap();
    game.try_make_move_str("d8h4").unwrap();
    assert_eq!(
        game.status(),
        GameStatus::Checkmate {
            winner: Color::Black
        }
    );
}

#[test]
fn stalemate_is_detected() {
    let game = Chess::from_fen("7k/5Q2/6K1/8/8/8/8/8 b - - 0 1").expect("valid FEN");
    assert_eq!(game.status(), GameStatus::Stalemate);
}

#[test]
fn insufficient_material_is_detected() {
    let game = Chess::from_fen("8/8/8/8/8/8/6k1/7K w - - 0 1").expect("valid FEN");
    assert_eq!(game.status(), GameStatus::DrawInsufficientMaterial);
}

#[test]
fn threefold_repetition_is_detected() {
    let mut game = Chess::from_fen("7k/8/8/8/8/8/8/KN6 w - - 0 1").expect("valid FEN");
    let sequence = [
        "b1c3", "h8g8", "c3b1", "g8h8", "b1c3", "h8g8", "c3b1", "g8h8",
    ];
    for mv in sequence {
        game.try_make_move_str(mv)
            .expect("move in repetition line should be legal");
    }
    assert_eq!(game.status(), GameStatus::DrawThreefoldRepetition);
}

// ---------------------------------------------------------------------------
// Further scenarios
// ---------------------------------------------------------------------------

fn square(name: &str) -> usize {
    let b = name.as_bytes();
    file_rank_to_idx((b[0] - b'a') as usize, (b[1] - b'1') as usize)
}

#[test]
fn new_game_matches_start_fen() {
    let a = Chess::new();
    let b = Chess::from_fen(START).unwrap();
    for idx in 0..64 {
        assert_eq!(a.piece_at(idx), b.piece_at(idx));
    }
    assert_eq!(a.current_turn(), Color::White);
    assert_eq!(a.last_move(), None);
    assert_eq!(a.legal_move_count(), 20);
    assert_eq!(a.piece_at(square("e1")), Some(Piece { color: Color::White, kind: PieceKind::King }));
    assert_eq!(a.piece_at(square("d8")), Some(Piece { color: Color::Black, kind: PieceKind::Queen }));
    assert_eq!(a.piece_at(64), None);
}

#[test]
fn init_falls_back_to_start_position() {
    let game = Chess::init("not a fen");
    let start = Chess::new();
    for idx in 0..64 {
        assert_eq!(game.piece_at(idx), start.piece_at(idx));
    }
    let other = Chess::init("7k/8/8/8/8/8/8/K7 b - - 0 1");
    assert_eq!(other.current_turn(), Color::Black);
    assert_eq!(other.piece_at(square("e1")), None);
}

#[test]
fn fen_errors_are_reported() {
    let cases: [(&str, &str); 11] = [
        ("8/8/8/8/8/8/8/8 w - - 0", "FEN must have exactly 6 fields"),
        ("8/8/8/8/8/8/8 w - - 0 1", "FEN board must have 8 ranks"),
        ("8/8/8/8/8/8/8/7 w - - 0 1", "FEN rank does not sum to 8 files"),
        ("8/8/8/8/8/8/8/44k w - - 0 1", "Too many files in FEN rank"),
        ("8/8/8/8/8/8/8/7x w - - 0 1", "Invalid piece character in FEN"),
        ("8/8/8/8/8/8/8/8 x - - 0 1", "Invalid side-to-move field"),
        ("8/8/8/8/8/8/8/8 w KX - 0 1", "Invalid castling rights"),
        ("8/8/8/8/8/8/8/8 w - z3 0 1", "Invalid file in square: z3"),
        ("8/8/8/8/8/8/8/8 w - e9 0 1", "Invalid rank in square: e9"),
        ("8/8/8/8/8/8/8/8 w - - x 1", "Invalid halfmove clock"),
        ("8/8/8/8/8/8/8/8 w - - 0 -1", "Invalid fullmove number"),
    ];
    for (fen, msg) in cases {
        match Chess::from_fen(fen) {
            Ok(_) => panic!("expected an error for {fen}"),
            Err(e) => assert_eq!(e, msg),
        }
    }
    match Chess::from_fen("8/8/8/8/8/8/8/8 w - e34 0 1") {
        Ok(_) => panic!("expected an error"),
        Err(e) => assert_eq!(e, "Square must be two characters, e.g. e4"),
    }
}

#[test]
fn move_text_errors_leave_game_unchanged() {
    let mut game = Chess::new();
    assert_eq!(
        game.try_make_move_str("e2"),
        Err("Move must be in format e2e4 or e7e8q".to_string())
    );
    assert_eq!(
        game.try_make_move_str("e2e4qq"),
        Err("Move must be in format e2e4 or e7e8q".to_string())
    );
    assert_eq!(game.try_make_move_str("i2e4"), Err("Invalid file in square: i2".to_string()));
    assert_eq!(game.try_make_move_str("e2e0"), Err("Invalid rank in square: e0".to_string()));
    assert_eq!(
        game.try_make_move_str("e2e4x"),
        Err("Promotion piece must be one of q, r, b, n".to_string())
    );
    assert_eq!(game.try_make_move_str("e2e5"), Err("Illegal move".to_string()));
    assert_eq!(game.current_turn(), Color::White);
    assert_eq!(game.last_move(), None);
    assert_eq!(game.legal_move_count(), 20);
}

#[test]
fn move_text_is_trimmed_and_lowercased() {
    let mut game = Chess::new();
    game.try_make_move_str("  E2E4 \n").expect("normalized text is accepted");
    assert_eq!(game.current_turn(), Color::Black);
    assert_eq!(
        game.last_move(),
        Some(Move { from: square("e2"), to: square("e4"), promotion: None })
    );
    assert_eq!(game.piece_at(square("e4")), Some(Piece { color: Color::White, kind: PieceKind::Pawn }));
    assert_eq!(game.piece_at(square("e2")), None);
}

#[test]
fn move_text_with_split_characters_is_refused() {
    let mut game = Chess::new();
    let format = Err("Move must be in format e2e4 or e7e8q".to_string());
    assert_eq!(game.try_make_move_str("e\u{20ac}4"), format);
    assert_eq!(game.try_make_move_str("a\u{e9}4"), format);
    assert_eq!(game.current_turn(), Color::White);
    assert_eq!(game.last_move(), None);
    assert_eq!(
        game.try_make_move_str("e2\u{e9}4"),
        Err("Invalid file in square: \u{e9}".to_string())
    );
    assert_eq!(game.try_make_move_str("e2e4"), Ok(()));
    assert_eq!(game.current_turn(), Color::Black);
}

#[test]
fn promotion_defaults_to_queen_and_accepts_underpromotion() {
    let mut game = Chess::from_fen("7k/P7/8/8/8/8/8/K7 w - - 0 1").unwrap();
    game.try_make_move_str("a7a8").unwrap();
    assert_eq!(game.piece_at(square("a8")), Some(Piece { color: Color::White, kind: PieceKind::Queen }));

    let mut game = Chess::from_fen("7k/P7/8/8/8/8/8/K7 w - - 0 1").unwrap();
    game.try_make_move_str("a7a8n").unwrap();
    assert_eq!(game.piece_at(square("a8")), Some(Piece { color: Color::White, kind: PieceKind::Knight }));
}

#[test]
fn en_passant_removes_the_captured_pawn() {
    let mut game =
        Chess::from_fen("rnbqkbnr/ppp1p1pp/8/3pPp2/8/8/PPPP1PPP/RNBQKBNR w KQkq f6 0 3").unwrap();
    game.try_make_move_str("e5f6").unwrap();
    assert_eq!(game.piece_at(square("f5")), None);
    assert_eq!(game.piece_at(square("f6")), Some(Piece { color: Color::White, kind: PieceKind::Pawn }));
}

#[test]
fn castling_moves_the_rook_and_removes_rights() {
    let mut game = Chess::from_fen("r3k2r/8/8/8/8/8/8/R3K2R w KQkq - 0 1").unwrap();
    game.try_make_move_str("e1g1").unwrap();
    assert_eq!(game.piece_at(square("g1")), Some(Piece { color: Color::White, kind: PieceKind::King }));
    assert_eq!(game.piece_at(square("f1")), Some(Piece { color: Color::White, kind: PieceKind::Rook }));
    assert_eq!(game.piece_at(square("h1")), None);
    game.try_make_move_str("e8c8").unwrap();
    assert_eq!(game.piece_at(square("c8")), Some(Piece { color: Color::Black, kind: PieceKind::King }));
    assert_eq!(game.piece_at(square("d8")), Some(Piece { color: Color::Black, kind: PieceKind::Rook }));
    assert_eq!(game.piece_at(square("a8")), None);
}

#[test]
fn castling_through_check_is_illegal() {
    let mut game = Chess::from_fen("r3k2r/8/8/8/8/8/5r2/R3K2R w KQkq - 0 1").unwrap();
    assert_eq!(game.try_make_move_str("e1g1"), Err("Illegal move".to_string()));
    let _ = CastlingRights {
        white_kingside: true,
        white_queenside: true,
        black_kingside: true,
        black_queenside: true,
    };
}

#[test]
fn pinned_piece_cannot_move() {
    let mut game = Chess::from_fen("4r2k/8/8/8/8/8/4N3/4K3 w - - 0 1").unwrap();
    assert_eq!(game.try_make_move_str("e2c3"), Err("Illegal move".to_string()));
    assert!(game.legal_targets_from(square("e2")).is_empty());
}

#[test]
fn legal_targets_are_listed_once() {
    let game = Chess::new();
    let targets = game.legal_targets_from(square("g1"));
    assert_eq!(targets, vec![square("h3"), square("f3")]);
    assert!(game.legal_targets_from(square("g8")).is_empty());
    assert!(game.legal_targets_from(square("e4")).is_empty());
    assert!(game.legal_targets_from(99).is_empty());
}

#[test]
fn legal_moves_for_turn_lists_every_move() {
    let game = Chess::new();
    let moves = game.legal_moves_for_turn();
    assert_eq!(moves.len(), game.legal_move_count());
    assert!(moves.contains(&Move { from: square("e2"), to: square("e4"), promotion: None }));
    assert!(!moves.contains(&Move { from: square("e2"), to: square("e5"), promotion: None }));
}

#[test]
fn checked_kings_are_reported() {
    let game = Chess::from_fen("4k3/8/8/8/8/8/8/4K2r w - - 0 1").unwrap();
    assert_eq!(game.checked_king_squares(), vec![square("e1")]);
    let quiet = Chess::new();
    assert!(quiet.checked_king_squares().is_empty());
}

#[test]
fn fifty_move_rule_is_detected() {
    let game = Chess::from_fen("4k3/8/8/8/8/8/8/R3K3 w - - 100 80").unwrap();
    assert_eq!(game.status(), GameStatus::DrawFiftyMove);
    let game = Chess::from_fen("4k3/8/8/8/8/8/8/R3K3 w - - 99 80").unwrap();
    assert_eq!(game.status(), GameStatus::Ongoing);
}

#[test]
fn promotion_resets_the_fifty_move_count() {
    let mut game = Chess::from_fen("7k/P7/8/8/8/8/8/K7 w - - 99 80").unwrap();
    assert_eq!(game.status(), GameStatus::Ongoing);
    game.try_make_move_str("a7a8q").unwrap();
    assert_eq!(game.status(), GameStatus::Ongoing);
    let mut game = Chess::from_fen("7k/8/8/8/8/8/8/K6R w - - 99 80").unwrap();
    game.try_make_move_str("h1h2").unwrap();
    assert_eq!(game.status(), GameStatus::DrawFiftyMove);
}

#[test]
fn minor_pieces_alone_cannot_mate() {
    let game = Chess::from_fen("4k3/8/8/8/8/8/8/2B1K3 w - - 0 1").unwrap();
    assert_eq!(game.status(), GameStatus::DrawInsufficientMaterial);
    let game = Chess::from_fen("2b1k3/8/8/8/8/8/8/2B1K3 w - - 0 1").unwrap();
    assert_eq!(game.status(), GameStatus::Ongoing);
    let game = Chess::from_fen("4k3/8/8/8/8/8/8/1NN1K3 w - - 0 1").unwrap();
    assert_eq!(game.status(), GameStatus::Ongoing);
}

#[test]
fn clone_is_independent() {
    let game = Chess::new();
    let mut copy = game.clone();
    copy.try_make_move_str("e2e4").unwrap();
    assert_eq!(game.current_turn(), Color::White);
    assert_eq!(copy.current_turn(), Color::Black);
}

#[test]
fn color_opposite_flips() {
    assert_eq!(Color::White.opposite(), Color::Black);
    assert_eq!(Color::Black.opposite(), Color::White);
}

#[test]
fn castling_rights_are_not_regained() {
    let mut game = Chess::from_fen("4k3/8/8/8/8/8/8/4K2R w K - 0 1").unwrap();
    game.try_make_move_str("e1f1").unwrap();
    game.try_make_move_str("e8d8").unwrap();
    game.try_make_move_str("f1e1").unwrap();
    game.try_make_move_str("d8e8").unwrap();
    assert_eq!(game.try_make_move_str("e1g1"), Err("Illegal move".to_string()));
    let mut fresh = Chess::from_fen("4k3/8/8/8/8/8/8/4K2R w K - 0 1").unwrap();
    assert_eq!(fresh.try_make_move_str("e1g1"), Ok(()));
}

#[test]
fn no_legal_move_is_listed_twice() {
    for fen in [
        "r3k2r/1P6/8/8/8/8/6p1/R3K2R w KQkq - 0 1",
        "r3k2r/1P6/8/8/8/8/6p1/R3K2R b KQkq - 0 1",
        "rnbqkbnr/pppp1ppp/8/4p3/3P4/8/PPP1PPPP/RNBQKBNR w KQkq e6 0 2",
        "4k3/8/8/3Q4/8/8/8/4K3 w - - 0 1",
    ] {
        let game = Chess::from_fen(fen).unwrap();
        let moves = game.legal_moves_for_turn();
        assert!(!moves.is_empty());
        for i in 0..moves.len() {
            for j in 0..moves.len() {
                if i != j {
                    assert_ne!(moves[i], moves[j]);
                }
            }
        }
    }
}
