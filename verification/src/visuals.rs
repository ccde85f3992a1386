//! Terminal picture of a tile board: the screen text with colour codes.

use vstd::prelude::*;
use vstd::string::StringExecFns;

use crate::text::{push_char, text};
use crate::tiles::{Board, Color, Piece, PieceType, Tile};

verus! {

/// Glyph of a piece; blank for the empty piece.
pub open spec fn piece_glyph(p: Piece) -> char {
    match (p.piece_type, p.color) {
        (PieceType::Empty, _) => ' ',
        (PieceType::Pawn, Color::White) => '♙',
        (PieceType::Pawn, Color::Black) => '♟',
        (PieceType::King, Color::White) => '♔',
        (PieceType::King, Color::Black) => '♚',
        (PieceType::Bishop, Color::White) => '♗',
        (PieceType::Bishop, Color::Black) => '♝',
        (PieceType::Knight, Color::White) => '♘',
        (PieceType::Knight, Color::Black) => '♞',
        (PieceType::Rook, Color::White) => '♖',
        (PieceType::Rook, Color::Black) => '♜',
        (PieceType::Queen, Color::White) => '♕',
        (PieceType::Queen, Color::Black) => '♛',
    }
}

/// Glyph shown on square `sq`: that of the last tile of `ts` naming `sq`, blank if none does.
pub open spec fn shown_glyph(ts: Seq<Tile>, sq: int) -> char
    decreases ts.len(),
{
    if ts.len() == 0 {
        ' '
    } else if ts.last().pos == sq {
        piece_glyph(ts.last().piece_on_tile)
    } else {
        shown_glyph(ts.drop_last(), sq)
    }
}

/// Colour code of a glyph: bright white for white pieces, dark gray for black ones.
pub open spec fn glyph_color(c: char) -> Seq<char> {
    if c == '♙' || c == '♔' || c == '♗' || c == '♘' || c == '♖' || c == '♕' {
        "\x1B[97m"@
    } else if c == '♟' || c == '♚' || c == '♝' || c == '♞' || c == '♜' || c == '♛' {
        "\x1B[90m"@
    } else {
        "\x1B[0m"@
    }
}

/// Colour code of square `i`: red for the selected piece, green for the
/// cursor, yellow for a legal target, else the glyph's colour.
pub open spec fn square_color(i: int, c: char, cursor: usize, targets: Seq<usize>, selected: Option<usize>) -> Seq<char> {
    if selected == Some(i as usize) {
        "\x1B[41m"@
    } else if i == cursor {
        "\x1B[42m"@
    } else if targets.contains(i as usize) {
        "\x1B[43m"@
    } else {
        glyph_color(c)
    }
}

/// The first `n` squares of the picture, eight to a line.
pub open spec fn board_picture(ts: Seq<Tile>, cursor: usize, targets: Seq<usize>, selected: Option<usize>, n: int) -> Seq<char>
    decreases n,
{
    if n <= 0 {
        seq![]
    } else {
        let i = n - 1;
        let c = shown_glyph(ts, i);
        board_picture(ts, cursor, targets, selected, n - 1) + square_color(i, c, cursor, targets, selected)
            + seq![c] + "\x1B[0m"@ + seq![' '] + if i % 8 == 7 {
            seq!['\n']
        } else {
            seq![]
        }
    }
}

/// Name of the side to move with its colour code.
pub open spec fn player_label(c: Color) -> Seq<char> {
    match c {
        Color::White => "\x1B[97mWhite\x1B[0m"@,
        Color::Black => "\x1B[90mBlack\x1B[0m"@,
    }
}

/// The whole screen: clear, help line, side to move, and the board.
pub open spec fn screen(ts: Seq<Tile>, cursor: usize, player: Color, targets: Seq<usize>, selected: Option<usize>) -> Seq<char> {
    "\x1B[2J\x1B[H"@ + "Use arrow keys to move the cursor, press Enter to select a piece.\n"@ + "\n"@
        + "Current player: "@ + player_label(player) + "\n"@ + "\n"@ + board_picture(
        ts,
        cursor,
        targets,
        selected,
        64,
    )
}

fn glyph_of(p: Piece) -> (r: char)
    ensures
        r == piece_glyph(p),
{
    match (p.piece_type, p.color) {
        (PieceType::Empty, _) => ' ',
        (PieceType::Pawn, Color::White) => '♙',
        (PieceType::Pawn, Color::Black) => '♟',
        (PieceType::King, Color::White) => '♔',
        (PieceType::King, Color::Black) => '♚',
        (PieceType::Bishop, Color::White) => '♗',
        (PieceType::Bishop, Color::Black) => '♝',
        (PieceType::Knight, Color::White) => '♘',
        (PieceType::Knight, Color::Black) => '♞',
        (PieceType::Rook, Color::White) => '♖',
        (PieceType::Rook, Color::Black) => '♜',
        (PieceType::Queen, Color::White) => '♕',
        (PieceType::Queen, Color::Black) => '♛',
    }
}

fn color_code(i: usize, c: char, cursor: usize, targets: &Vec<usize>, selected: Option<usize>) -> (r: &'static str)
    ensures
        r@ == square_color(i as int, c, cursor, targets@, selected),
{
    let is_selected = match selected {
        Some(s) => s == i,
        None => false,
    };
    if is_selected {
        return "\x1B[41m";
    }
    if i == cursor {
        return "\x1B[42m";
    }
    let mut k: usize = 0;
    while k < targets.len()
        invariant
            0 <= k <= targets@.len(),
            forall|j: int| 0 <= j < k ==> targets@[j] != i,
            selected != Some(i),
            i != cursor,
        decreases targets@.len() - k,
    {
        if targets[k] == i {
            assert(targets@[k as int] == i);
            assert(targets@.contains((i as int) as usize));
            return "\x1B[43m";
        }
        k += 1;
    }
    if c == '♙' || c == '♔' || c == '♗' || c == '♘' || c == '♖' || c == '♕' {
        "\x1B[97m"
    } else if c == '♟' || c == '♚' || c == '♝' || c == '♞' || c == '♜' || c == '♛' {
        "\x1B[90m"
    } else {
        "\x1B[0m"
    }
}

/// The screen text that shows `board` (see [`screen`]).
pub fn draw(
    board: &Board,
    cursor_pos: &usize,
    current_player: &Color,
    legal_moves: &Vec<usize>,
    selected_piece: Option<usize>,
) -> (r: String)
    requires
        forall|i: int| 0 <= i < board.tiles@.len() ==> (#[trigger] board.tiles@[i]).pos < 64,
    ensures
        r@ == screen(board.tiles@, *cursor_pos, *current_player, legal_moves@, selected_piece),
{
    let ghost ts = board.tiles@;
    let mut rep = [' '; 64];
    let mut k: usize = 0;
    while k < board.tiles.len()
        invariant
            0 <= k <= ts.len(),
            ts == board.tiles@,
            forall|i: int| 0 <= i < ts.len() ==> (#[trigger] ts[i]).pos < 64,
            forall|sq: int| 0 <= sq < 64 ==> #[trigger] rep@[sq] == shown_glyph(ts.take(k as int), sq),
        decreases ts.len() - k,
    {
        let tile = board.tiles[k];
        rep[tile.pos] = glyph_of(tile.piece_on_tile);
        assert(ts.take(k + 1).drop_last() == ts.take(k as int));
        k += 1;
    }
    assert(ts.take(k as int) == ts);
    let mut out = text("\x1B[2J\x1B[H");
    out.append("Use arrow keys to move the cursor, press Enter to select a piece.\n");
    out.append("\n");
    out.append("Current player: ");
    match current_player {
        Color::White => out.append("\x1B[97mWhite\x1B[0m"),
        Color::Black => out.append("\x1B[90mBlack\x1B[0m"),
    }
    out.append("\n");
    out.append("\n");
    let ghost head = out@;
    let mut i: usize = 0;
    while i < 64
        invariant
            0 <= i <= 64,
            forall|sq: int| 0 <= sq < 64 ==> #[trigger] rep@[sq] == shown_glyph(ts, sq),
            out@ == head + board_picture(ts, *cursor_pos, legal_moves@, selected_piece, i as int),
        decreases 64 - i,
    {
        let cell = rep[i];
        let ghost before = out@;
        out.append(color_code(i, cell, *cursor_pos, legal_moves, selected_piece));
        push_char(&mut out, cell);
        out.append("\x1B[0m");
        push_char(&mut out, ' ');
        if i % 8 == 7 {
            push_char(&mut out, '\n');
        }
        assert(out@ =~= head + board_picture(ts, *cursor_pos, legal_moves@, selected_piece, i + 1));
        i += 1;
    }
    out
}

} // verus!
