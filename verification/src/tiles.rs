//! A tile-based board: pieces that carry their own square and move count,
//! move generation with castling and check detection, and FEN setup.
//!
//! Squares are numbered `0..64` from a8 (index 0) to h1 (index 63): the
//! first FEN rank comes first. White pawns move towards lower indices.

use vstd::prelude::*;

use crate::game::board::{on_board, room, unit_step};

pub mod moves;
pub mod setup;
pub mod laws;


verus! {

/// A move from one square to another.
#[derive(Clone, Copy, PartialEq, Eq, Debug, Structural)]
pub struct Move {
    pub from: usize,
    pub to: usize,
}

/// Side of a piece.
#[derive(Clone, Copy, PartialEq, Eq, Debug, Structural)]
pub enum Color {
    Black,
    White,
}

/// A square of the board and what stands on it.
#[derive(Clone, Copy, PartialEq, Eq, Debug, Structural)]
pub struct Tile {
    pub pos: usize,
    pub piece_on_tile: Piece,
}

/// A piece (or the empty piece of an empty square) with its square and
/// the number of moves it has made.
#[derive(Clone, Copy, PartialEq, Eq, Debug, Structural)]
pub struct Piece {
    pub color: Color,
    pub piece_type: PieceType,
    pub pos: usize,
    pub move_count: i32,
}

/// Kind of a piece; `Empty` marks an empty square.
#[derive(Clone, Copy, PartialEq, Eq, Debug, Structural)]
pub enum PieceType {
    Empty,
    Pawn,
    King,
    Bishop,
    Knight,
    Rook,
    Queen,
}

/// The board: its tiles, the side to move and the castling rights.
pub struct Board {
    pub tiles: Vec<Tile>,
    pub current_player: Color,
    pub white_castle_queen_side: bool,
    pub white_castle_king_side: bool,
    pub black_castle_queen_side: bool,
    pub black_castle_king_side: bool,
}

/// Abstract value of a [`Board`].
pub struct BoardView {
    pub tiles: Seq<Tile>,
    pub current_player: Color,
    pub white_castle_queen_side: bool,
    pub white_castle_king_side: bool,
    pub black_castle_queen_side: bool,
    pub black_castle_king_side: bool,
}

impl View for Board {
    type V = BoardView;

    open spec fn view(&self) -> BoardView {
        BoardView {
            tiles: self.tiles@,
            current_player: self.current_player,
            white_castle_queen_side: self.white_castle_queen_side,
            white_castle_king_side: self.white_castle_king_side,
            black_castle_queen_side: self.black_castle_queen_side,
            black_castle_king_side: self.black_castle_king_side,
        }
    }
}

impl Clone for Board {
    fn clone(&self) -> (r: Self)
        ensures
            r@ == self@,
    {
        let mut tiles: Vec<Tile> = Vec::new();
        let mut i: usize = 0;
        while i < self.tiles.len()
            invariant
                0 <= i <= self.tiles@.len(),
                tiles@ == self.tiles@.take(i as int),
            decreases self.tiles@.len() - i,
        {
            tiles.push(self.tiles[i]);
            assert(self.tiles@.take(i + 1) == self.tiles@.take(i as int).push(self.tiles@[i as int]));
            i += 1;
        }
        assert(self.tiles@.take(i as int) == self.tiles@);
        Board {
            tiles,
            current_player: self.current_player,
            white_castle_queen_side: self.white_castle_queen_side,
            white_castle_king_side: self.white_castle_king_side,
            black_castle_queen_side: self.black_castle_queen_side,
            black_castle_king_side: self.black_castle_king_side,
        }
    }
}

// ---------------------------------------------------------------------------
// Basic board facts
// ---------------------------------------------------------------------------

/// A board of 64 tiles whose pieces all name a square of the board.
pub open spec fn well_formed(b: BoardView) -> bool {
    &&& b.tiles.len() == 64
    &&& forall|i: int| 0 <= i < 64 ==> (#[trigger] b.tiles[i]).piece_on_tile.pos < 64
}

/// The piece on tile `pos`.
pub open spec fn at(b: BoardView, pos: int) -> Piece {
    b.tiles[pos].piece_on_tile
}

/// Tile `pos` exists.
pub open spec fn in_board(b: BoardView, pos: int) -> bool {
    0 <= pos < b.tiles.len()
}

/// The move between two squares.
pub open spec fn mv(from: int, to: int) -> Move {
    Move { from: from as usize, to: to as usize }
}

/// The other side.
pub open spec fn other(c: Color) -> Color {
    match c {
        Color::White => Color::Black,
        Color::Black => Color::White,
    }
}

/// The empty piece of square `pos`.
pub open spec fn empty_piece(pos: usize) -> Piece {
    Piece { color: Color::White, piece_type: PieceType::Empty, pos, move_count: 0 }
}

impl Move {
    /// The move from `from` to `to`.
    pub fn new(from: usize, to: usize) -> (r: Self)
        ensures
            r == (Move { from, to }),
    {
        Move { from, to }
    }
}

impl Tile {
    /// The tile of square `pos` holding `piece_on_tile`.
    pub fn new(pos: usize, piece_on_tile: Piece) -> (r: Self)
        ensures
            r == (Tile { pos, piece_on_tile }),
    {
        Tile { pos, piece_on_tile }
    }
}

impl Piece {
    /// A piece that has not moved yet.
    pub fn new(color: Color, piece_type: PieceType, pos: usize) -> (r: Self)
        ensures
            r == (Piece { color, piece_type, pos, move_count: 0 }),
    {
        Piece { color, piece_type, pos, move_count: 0 }
    }
}

impl Board {
    /// An empty board (no tiles), White to move, no castling rights.
    pub fn new() -> (r: Self)
        ensures
            r@.tiles.len() == 0,
            r@.current_player == Color::White,
            !r@.white_castle_queen_side && !r@.white_castle_king_side,
            !r@.black_castle_queen_side && !r@.black_castle_king_side,
    {
        Board {
            tiles: Vec::new(),
            current_player: Color::White,
            black_castle_king_side: false,
            white_castle_king_side: false,
            black_castle_queen_side: false,
            white_castle_queen_side: false,
        }
    }

    fn is_in_board(&self, pos: i32) -> (r: bool)
        ensures
            r == in_board(self@, pos as int),
    {
        if pos >= 0 {
            (pos as usize) < self.tiles.len()
        } else {
            false
        }
    }

    /// The piece on tile `pos` (a copy).
    pub fn get_piece_at_pos(&self, pos: i32) -> (r: Piece)
        requires
            in_board(self@, pos as int),
        ensures
            r == at(self@, pos as int),
    {
        self.tiles[pos as usize].piece_on_tile
    }

    fn is_completly_left(&self, pos: usize) -> (r: bool)
        ensures
            r == (pos % 8 == 0),
    {
        pos % 8 == 0
    }

    fn is_completly_right(&self, pos: usize) -> (r: bool)
        ensures
            r == (pos % 8 == 7),
    {
        pos % 8 == 7
    }

    /// Passes the move to the other side.
    pub fn change_player(&mut self)
        ensures
            final(self)@ == (BoardView { current_player: other(old(self)@.current_player), ..old(self)@ }),
    {
        if self.current_player == Color::White {
            self.current_player = Color::Black;
        } else {
            self.current_player = Color::White;
        }
    }
}

// ---------------------------------------------------------------------------
// Move patterns of each piece kind, in generation order
// ---------------------------------------------------------------------------

/// Square offset of one pawn step: White moves towards index 0.
pub open spec fn pawn_step(c: Color) -> int {
    match c {
        Color::White => -8,
        Color::Black => 8,
    }
}

/// Pawn moves: one step to an empty tile, then two steps for an unmoved
/// pawn when both are empty; then captures of enemy pieces diagonally left
/// and right (not across the board edge).
pub open spec fn pawn_moves(b: BoardView, p: Piece) -> Seq<Move> {
    let pos = p.pos as int;
    let t1 = pos + pawn_step(p.color);
    let t2 = pos + 2 * pawn_step(p.color);
    let pushes = if in_board(b, t1) && at(b, t1).piece_type == PieceType::Empty {
        if p.move_count == 0 && in_board(b, t2) && at(b, t2).piece_type == PieceType::Empty {
            seq![mv(pos, t1), mv(pos, t2)]
        } else {
            seq![mv(pos, t1)]
        }
    } else {
        seq![]
    };
    let l = t1 - 1;
    let r = t1 + 1;
    let left = if in_board(b, l) && pos % 8 != 0 && at(b, l).color != p.color && at(b, l).piece_type
        != PieceType::Empty {
        seq![mv(pos, l)]
    } else {
        seq![]
    };
    let right = if in_board(b, r) && pos % 8 != 7 && at(b, r).color != p.color && at(b, r).piece_type
        != PieceType::Empty {
        seq![mv(pos, r)]
    } else {
        seq![]
    };
    pushes + left + right
}

/// File/rank offsets of knight jumps, in generation order.
pub open spec fn knight_dirs() -> Seq<(i32, i32)> {
    seq![(2i32, 1i32), (2i32, -1i32), (-2i32, 1i32), (-2i32, -1i32), (1i32, 2i32), (1i32, -2i32), (-1i32, 2i32), (-1i32, -2i32)]
}

/// Rook directions, in generation order.
pub open spec fn rook_dirs() -> Seq<(i32, i32)> {
    seq![(1i32, 0i32), (-1i32, 0i32), (0i32, 1i32), (0i32, -1i32)]
}

/// Bishop directions, in generation order.
pub open spec fn bishop_dirs() -> Seq<(i32, i32)> {
    seq![(1i32, 1i32), (1i32, -1i32), (-1i32, 1i32), (-1i32, -1i32)]
}

/// Queen (and king) directions, in generation order.
pub open spec fn queen_dirs() -> Seq<(i32, i32)> {
    rook_dirs() + bishop_dirs()
}

/// Piece `p` may land on `(x, y)`: on the board, and empty or holding an enemy piece.
pub open spec fn lands(b: BoardView, p: Piece, x: int, y: int) -> bool {
    0 <= x < 8 && 0 <= y < 8 && (at(b, y * 8 + x).piece_type == PieceType::Empty || at(
        b,
        y * 8 + x,
    ).color != p.color)
}

/// One move per offset of `dirs` that lands (knight jumps, king steps).
pub open spec fn jump_moves(b: BoardView, p: Piece, dirs: Seq<(i32, i32)>) -> Seq<Move>
    decreases dirs.len(),
{
    if dirs.len() == 0 {
        seq![]
    } else {
        let prev = jump_moves(b, p, dirs.drop_last());
        let x = p.pos % 8 + dirs.last().0;
        let y = p.pos / 8 + dirs.last().1;
        if lands(b, p, x, y) {
            prev.push(mv(p.pos as int, y * 8 + x))
        } else {
            prev
        }
    }
}

/// Moves along one ray from `(x, y)`: every empty square, then the first
/// occupied square if it holds an enemy piece.
pub open spec fn ray(b: BoardView, p: Piece, x: int, y: int, dx: int, dy: int) -> Seq<Move>
    decreases room(x, dx) + room(y, dy),
    when unit_step(dx, dy) && -1 <= x <= 8 && -1 <= y <= 8
{
    if !on_board(x, y) {
        seq![]
    } else if at(b, y * 8 + x).piece_type == PieceType::Empty {
        seq![mv(p.pos as int, y * 8 + x)] + ray(b, p, x + dx, y + dy, dx, dy)
    } else if at(b, y * 8 + x).color != p.color {
        seq![mv(p.pos as int, y * 8 + x)]
    } else {
        seq![]
    }
}

/// Moves along each direction of `dirs` in turn.
pub open spec fn rays(b: BoardView, p: Piece, dirs: Seq<(i32, i32)>) -> Seq<Move>
    decreases dirs.len(),
{
    if dirs.len() == 0 {
        seq![]
    } else {
        let d = dirs.last();
        rays(b, p, dirs.drop_last()) + ray(b, p, p.pos % 8 + d.0, p.pos / 8 + d.1, d.0 as int, d.1 as int)
    }
}

/// Square two to the left of `pos`, wrapping below zero.
pub open spec fn two_left(pos: usize) -> usize {
    if pos >= 2 {
        (pos - 2) as usize
    } else {
        (pos - 2 + usize::MAX + 1) as usize
    }
}

/// Castling moves of king `p` as the board's castling rights allow:
/// king side (two squares right), then queen side (two squares left).
pub open spec fn castle_pushes(b: BoardView, p: Piece) -> Seq<Move> {
    let (king_side, queen_side) = match p.color {
        Color::Black => (b.black_castle_king_side, b.black_castle_queen_side),
        Color::White => (b.white_castle_king_side, b.white_castle_queen_side),
    };
    (if king_side {
        seq![Move { from: p.pos, to: (p.pos + 2) as usize }]
    } else {
        seq![]
    }) + (if queen_side {
        seq![Move { from: p.pos, to: two_left(p.pos) }]
    } else {
        seq![]
    })
}

/// Moves of `p` by its pattern, without check detection; an empty piece has none.
pub open spec fn pattern_moves(b: BoardView, p: Piece) -> Seq<Move> {
    match p.piece_type {
        PieceType::Pawn => pawn_moves(b, p),
        PieceType::Knight => jump_moves(b, p, knight_dirs()),
        PieceType::Rook => rays(b, p, rook_dirs()),
        PieceType::Bishop => rays(b, p, bishop_dirs()),
        PieceType::Queen => rays(b, p, queen_dirs()),
        PieceType::King => jump_moves(b, p, queen_dirs()) + castle_pushes(b, p),
        PieceType::Empty => seq![],
    }
}

} // verus!
