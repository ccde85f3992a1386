use chess::game::Chess;

const BORDER: &str = "  +-----+-----+-----+-----+-----+-----+-----+-----+\n";
const FILES: &str = "     a     b     c     d     e     f     g     h\n";

#[test]
fn plain_render_layout() {
    let text = Chess::new().render();
    assert!(text.starts_with(BORDER));
    assert!(text.ends_with(FILES));
    assert_eq!(text.matches(BORDER).count(), 9);
    let lines: Vec<&str> = text.lines().collect();
    assert_eq!(lines.len(), 1 + 8 * 2 + 1);
    assert!(lines[1].starts_with("8 |"));
    assert!(lines[15].starts_with("1 |"));
    // a8: light square (file 0 + rank 7 is odd), black rook.
    assert!(lines[1].starts_with("8 |\x1b[48;5;242;1;34m  ♜  \x1b[0m|"));
    // a1: dark square, white rook.
    assert!(lines[15].starts_with("1 |\x1b[48;5;236;1;97m  ♖  \x1b[0m|"));
    // An empty square.
    assert!(lines[9].contains("\x1b[48;5;236;39m     \x1b[0m|"));
}

#[test]
fn overlays_are_coloured() {
    let mut game = Chess::new();
    let targets = game.legal_targets_from(12);
    let text = game.render_with_selection(12, Some(12), &targets, &[]);
    // Selected e2 pawn is green, e3/e4 targets olive with a dot.
    assert!(text.contains("\x1b[48;5;22;1;97m  ♙  \x1b[0m|"));
    assert!(text.contains("\x1b[48;5;58;1;97m  ·  \x1b[0m|"));
    assert_eq!(text.matches("48;5;58").count(), 2);

    game.try_make_move_str("e2e4").unwrap();
    let after = game.render();
    assert_eq!(after.matches("48;5;240").count(), 2);

    let check = Chess::from_fen("4k3/8/8/8/8/8/8/4K2r w - - 0 1").unwrap();
    let kings = check.checked_king_squares();
    let text = check.render_with_selection(99, None, &[], &kings);
    assert!(text.contains("\x1b[48;5;124;1;97m  ♔  \x1b[0m|"));
}

#[test]
fn plain_render_has_no_overlay_colours() {
    let mut game = Chess::new();
    for _ in 0..2 {
        let text = game.render();
        assert!(!text.contains("48;5;124"));
        assert!(!text.contains("48;5;22;"));
        assert!(!text.contains("48;5;58"));
        game.try_make_move_str("e2e4").ok();
    }
    // After a move its squares are gray.
    assert!(game.render().contains("48;5;240"));
}
