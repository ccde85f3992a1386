use chess::tiles::{Board, Color, Move, Piece, PieceType, Tile};
use chess::visuals::draw;

const START: &str = "rnbqkbnr/pppppppp/8/8/8/8/PPPPPPPP/RNBQKBNR w KQkq - 0 1";

fn board_from(fen: &str) -> Board {
    let mut board = Board::new();
    board.setup(fen);
    board
}

#[test]
fn new_board_is_empty() {
    let board = Board::new();
    assert!(board.tiles.is_empty());
    assert_eq!(board.current_player, Color::White);
    assert!(!board.white_castle_king_side && !board.white_castle_queen_side);
    assert!(!board.black_castle_king_side && !board.black_castle_queen_side);
}

#[test]
fn setup_reads_pieces_side_and_castling() {
    let board = board_from(START);
    assert_eq!(board.tiles.len(), 64);
    assert_eq!(board.tiles[0].piece_on_tile, Piece::new(Color::Black, PieceType::Rook, 0));
    assert_eq!(board.tiles[4].piece_on_tile, Piece::new(Color::Black, PieceType::King, 4));
    assert_eq!(board.tiles[60].piece_on_tile, Piece::new(Color::White, PieceType::King, 60));
    assert_eq!(board.tiles[52].piece_on_tile, Piece::new(Color::White, PieceType::Pawn, 52));
    assert_eq!(board.tiles[30], Tile::new(30, Piece::new(Color::White, PieceType::Empty, 30)));
    assert_eq!(board.current_player, Color::White);
    assert!(board.white_castle_king_side && board.white_castle_queen_side);
    assert!(board.black_castle_king_side && board.black_castle_queen_side);

    let other = board_from("4k3/8/8/8/8/8/8/4K3 b Kq - 0 1");
    assert_eq!(other.current_player, Color::Black);
    assert!(other.white_castle_king_side && !other.white_castle_queen_side);
    assert!(!other.black_castle_king_side && other.black_castle_queen_side);
}

#[test]
fn start_position_has_twenty_moves() {
    let mut board = board_from(START);
    let moves = board.get_all_legal_moves(Color::White, true);
    assert_eq!(moves.len(), 20);
    assert!(moves.contains(&Move::new(52, 36)));
    assert!(moves.contains(&Move::new(57, 42)));
    // Without check detection a king's castling is listed as far as the
    // rights go, whether or not the way is free.
    let black = board.get_all_legal_moves(Color::Black, false);
    assert_eq!(black.len(), 22);
    assert!(black.contains(&Move::new(4, 6)) && black.contains(&Move::new(4, 2)));
    assert_eq!(board.get_all_legal_moves(Color::Black, true).len(), 20);
}

#[test]
fn pawn_moves_and_captures() {
    let mut board = board_from("4k3/8/8/3p4/4P3/8/8/4K3 w - - 0 1");
    let pawn = board.get_piece_at_pos(36);
    assert_eq!(pawn.piece_type, PieceType::Pawn);
    let moves = pawn.get_legal_moves(&mut board, true, true);
    // An unmoved pawn may step twice; e4 sees d5 to capture.
    assert_eq!(moves, vec![Move::new(36, 28), Move::new(36, 20), Move::new(36, 27)]);
}

#[test]
fn make_move_executes_and_passes_turn() {
    let mut board = board_from(START);
    assert!(board.make_move(Move::new(52, 36)));
    assert_eq!(board.current_player, Color::Black);
    let moved = board.tiles[36].piece_on_tile;
    assert_eq!(moved.piece_type, PieceType::Pawn);
    assert_eq!(moved.pos, 36);
    assert_eq!(moved.move_count, 1);
    assert_eq!(board.tiles[52].piece_on_tile.piece_type, PieceType::Empty);
}

#[test]
fn illegal_moves_are_refused() {
    let mut board = board_from(START);
    assert!(!board.make_move(Move::new(52, 28)));
    assert_eq!(board.current_player, Color::White);
    // A piece of the side not to move.
    assert!(!board.make_move(Move::new(12, 28)));
    assert_eq!(board.tiles[12].piece_on_tile.piece_type, PieceType::Pawn);
}

#[test]
fn castling_moves_the_rook() {
    let mut board = board_from("r3k2r/8/8/8/8/8/8/R3K2R w KQkq - 0 1");
    assert!(board.make_move(Move::new(60, 62)));
    assert_eq!(board.tiles[62].piece_on_tile.piece_type, PieceType::King);
    assert_eq!(board.tiles[61].piece_on_tile.piece_type, PieceType::Rook);
    assert_eq!(board.tiles[63].piece_on_tile.piece_type, PieceType::Empty);
    assert!(board.make_move(Move::new(4, 2)));
    assert_eq!(board.tiles[2].piece_on_tile.piece_type, PieceType::King);
    assert_eq!(board.tiles[3].piece_on_tile.piece_type, PieceType::Rook);
    assert_eq!(board.tiles[0].piece_on_tile.piece_type, PieceType::Empty);
}

#[test]
fn castling_through_attacked_square_is_refused() {
    let mut board = board_from("r3k2r/8/8/8/8/8/5r2/R3K2R w KQkq - 0 1");
    assert!(!board.make_move(Move::new(60, 62)));
    // A refused move changes nothing, the castling rights included.
    assert!(board.white_castle_king_side);
    assert!(board.white_castle_queen_side);
    assert_eq!(board.current_player, Color::White);
    // Queen side is still open.
    assert!(board.make_move(Move::new(60, 58)));
    assert!(!board.white_castle_king_side && !board.white_castle_queen_side);
    assert!(board.black_castle_king_side && board.black_castle_queen_side);
}

#[test]
fn castling_needs_the_right_from_the_fen() {
    let mut board = board_from("r3k2r/8/8/8/8/8/8/R3K2R w - - 0 1");
    let old = board.clone();
    assert!(!board.make_move(Move::new(60, 62)));
    assert!(board.tiles == old.tiles);
    assert_eq!(board.current_player, Color::White);
    assert!(!board.make_move(Move::new(60, 58)));
    let mut board = board_from("r3k2r/8/8/8/8/8/8/R3K2R w Kq - 0 1");
    assert!(!board.make_move(Move::new(60, 58)));
    assert!(board.make_move(Move::new(60, 62)));
    assert!(!board.make_move(Move::new(4, 6)));
    assert!(board.make_move(Move::new(4, 2)));
}

#[test]
fn rook_move_gives_up_its_side() {
    let mut board = board_from("r3k2r/8/8/8/8/8/8/R3K2R w KQkq - 0 1");
    assert!(board.make_move(Move::new(63, 62)));
    assert!(!board.white_castle_king_side && board.white_castle_queen_side);
    assert!(board.make_move(Move::new(0, 1)));
    assert!(board.black_castle_king_side && !board.black_castle_queen_side);
    // The rook came back, but the right stays lost.
    assert!(board.make_move(Move::new(62, 63)));
    assert!(!board.white_castle_king_side);
}

#[test]
fn pinned_piece_has_no_moves() {
    let mut board = board_from("4r2k/8/8/8/8/8/4N3/4K3 w - - 0 1");
    let knight = board.get_piece_at_pos(52);
    assert!(knight.get_legal_moves(&mut board, true, true).is_empty());
    assert!(!board.make_move(Move::new(52, 42)));
    // Without check detection the knight's jumps are all listed.
    let knight = board.get_piece_at_pos(52);
    assert_eq!(knight.get_legal_moves(&mut board, true, false).len(), 6);
}

#[test]
fn king_cannot_step_into_check() {
    let mut board = board_from("4k3/8/8/8/8/8/8/3rK3 w - - 0 1");
    let king = board.get_piece_at_pos(60);
    let moves = king.get_legal_moves(&mut board, true, true);
    // Capturing the rook and stepping off its lines are fine.
    assert!(moves.contains(&Move::new(60, 59)));
    assert!(moves.contains(&Move::new(60, 52)));
    // f1 and d2 stay on the rook's lines.
    assert!(!moves.contains(&Move::new(60, 61)));
    assert!(!moves.contains(&Move::new(60, 51)));
}

#[test]
fn other_sides_piece_needs_no_turn_check() {
    let mut board = board_from(START);
    let pawn = board.get_piece_at_pos(12);
    assert!(pawn.get_legal_moves(&mut board, true, true).is_empty());
    assert_eq!(pawn.get_legal_moves(&mut board, false, true).len(), 2);
}

#[test]
fn change_player_alternates() {
    let mut board = Board::new();
    board.change_player();
    assert_eq!(board.current_player, Color::Black);
    board.change_player();
    assert_eq!(board.current_player, Color::White);
}

#[test]
fn clone_copies_everything() {
    let board = board_from(START);
    let copy = board.clone();
    assert_eq!(copy.tiles, board.tiles);
    assert_eq!(copy.current_player, board.current_player);
}

#[test]
fn draw_shows_pieces_cursor_and_targets() {
    let board = board_from(START);
    let screen = draw(&board, &52, &Color::White, &vec![44, 36], Some(60));
    assert!(screen.starts_with("\x1B[2J\x1B[H"));
    assert!(screen.contains("Use arrow keys to move the cursor, press Enter to select a piece.\n"));
    assert!(screen.contains("Current player: \x1B[97mWhite\x1B[0m\n\n"));
    let first_line = "\x1B[90m♜\x1B[0m \x1B[90m♞\x1B[0m \x1B[90m♝\x1B[0m \x1B[90m♛\x1B[0m \x1B[90m♚\x1B[0m \x1B[90m♝\x1B[0m \x1B[90m♞\x1B[0m \x1B[90m♜\x1B[0m \n";
    assert!(screen.contains(first_line));
    assert!(screen.contains("\x1B[42m♙\x1B[0m "));
    assert!(screen.contains("\x1B[43m \x1B[0m "));
    assert!(screen.contains("\x1B[41m♔\x1B[0m "));
    assert_eq!(screen.matches('\n').count(), 4 + 8);
    let black = draw(&board, &99, &Color::Black, &vec![], None);
    assert!(black.contains("Current player: \x1B[90mBlack\x1B[0m"));
}

#[test]
fn no_listed_move_leaves_the_king_reachable() {
    let mut board = board_from("4k3/8/8/8/8/2n5/4r3/4K3 w - - 0 1");
    let moves = board.get_all_legal_moves(Color::White, true);
    assert!(!moves.is_empty());
    for m in moves {
        let piece = board.get_piece_at_pos(m.from as i32);
        assert_eq!(piece.color, Color::White);
        assert_ne!(piece.piece_type, PieceType::Empty);
        let mut after = board.clone();
        assert!(after.make_move(m));
        let king = after
            .tiles
            .iter()
            .find(|t| t.piece_on_tile.piece_type == PieceType::King && t.piece_on_tile.color == Color::White)
            .unwrap()
            .pos;
        let replies = after.get_all_legal_moves(Color::Black, false);
        assert!(replies.iter().all(|r| r.to != king));
    }
}
