//! Move generation, move execution, castling rights and check detection.

use vstd::prelude::*;

use crate::game::board::{on_board, room, unit_step};
use super::{
    at, bishop_dirs, castle_pushes, in_board, jump_moves, knight_dirs, lands, mv, pattern_moves,
    pawn_moves, pawn_step, queen_dirs, ray, rays, rook_dirs, two_left, well_formed, Board,
    BoardView, Color, Move, Piece, PieceType,
};

verus! {

// ---------------------------------------------------------------------------
// Generating the pattern moves
// ---------------------------------------------------------------------------

fn gen_pawn(board: &Board, p: Piece, out: &mut Vec<Move>)
    requires
        well_formed(board@),
        p.pos < 64,
    ensures
        final(out)@ == old(out)@ + pawn_moves(board@, p),
{
    let ghost start = out@;
    let one_step: i32 = match p.color {
        Color::White => -8,
        Color::Black => 8,
    };
    let two_steps = one_step * 2;
    let pos = p.pos as i32;
    let one_step_pos = pos + one_step;
    if board.is_in_board(one_step_pos) {
        if board.get_piece_at_pos(one_step_pos).piece_type == PieceType::Empty {
            out.push(Move::new(p.pos, one_step_pos as usize));
            if p.move_count == 0 {
                let two_steps_pos = pos + two_steps;
                if board.is_in_board(two_steps_pos) {
                    if board.get_piece_at_pos(two_steps_pos).piece_type == PieceType::Empty {
                        out.push(Move::new(p.pos, two_steps_pos as usize));
                    }
                }
            }
        }
    }
    let ghost after_push = out@;
    let left_capture_pos = pos + one_step - 1;
    let right_capture_pos = pos + one_step + 1;
    if board.is_in_board(left_capture_pos) && !board.is_completly_left(p.pos) {
        let q = board.get_piece_at_pos(left_capture_pos);
        if q.color != p.color && q.piece_type != PieceType::Empty {
            out.push(Move::new(p.pos, left_capture_pos as usize));
        }
    }
    let ghost after_left = out@;
    if board.is_in_board(right_capture_pos) && !board.is_completly_right(p.pos) {
        let q = board.get_piece_at_pos(right_capture_pos);
        if q.color != p.color && q.piece_type != PieceType::Empty {
            out.push(Move::new(p.pos, right_capture_pos as usize));
        }
    }
    assert(out@ =~= start + pawn_moves(board@, p));
}

fn gen_jumps(board: &Board, p: Piece, dirs: &[(i32, i32)], out: &mut Vec<Move>)
    requires
        well_formed(board@),
        p.pos < 64,
        forall|i: int| 0 <= i < dirs@.len() ==> -2 <= #[trigger] dirs@[i].0 <= 2 && -2 <= dirs@[i].1 <= 2,
    ensures
        final(out)@ == old(out)@ + jump_moves(board@, p, dirs@),
{
    let ghost start = out@;
    let mut i: usize = 0;
    while i < dirs.len()
        invariant
            0 <= i <= dirs@.len(),
            well_formed(board@),
            p.pos < 64,
            forall|j: int| 0 <= j < dirs@.len() ==> -2 <= #[trigger] dirs@[j].0 <= 2 && -2 <= dirs@[j].1 <= 2,
            out@ == start + jump_moves(board@, p, dirs@.take(i as int)),
        decreases dirs@.len() - i,
    {
        let (dx, dy) = dirs[i];
        assert(dirs@.take(i + 1).drop_last() == dirs@.take(i as int));
        let new_x = (p.pos % 8) as i32 + dx;
        let new_y = (p.pos / 8) as i32 + dy;
        if new_x >= 0 && new_x < 8 && new_y >= 0 && new_y < 8 {
            let new_pos = new_y * 8 + new_x;
            let q = board.get_piece_at_pos(new_pos);
            if q.piece_type == PieceType::Empty || q.color != p.color {
                out.push(Move::new(p.pos, new_pos as usize));
            }
        }
        i += 1;
    }
    assert(dirs@.take(i as int) == dirs@);
}

fn gen_ray(board: &Board, p: Piece, dx: i32, dy: i32, out: &mut Vec<Move>)
    requires
        well_formed(board@),
        p.pos < 64,
        unit_step(dx as int, dy as int),
    ensures
        final(out)@ == old(out)@ + ray(board@, p, p.pos % 8 + dx, p.pos / 8 + dy, dx as int, dy as int),
{
    let ghost start = out@;
    let mut x = (p.pos % 8) as i32 + dx;
    let mut y = (p.pos / 8) as i32 + dy;
    while 0 <= x && x < 8 && 0 <= y && y < 8
        invariant_except_break
            out@ + ray(board@, p, x as int, y as int, dx as int, dy as int) == start + ray(
                board@,
                p,
                p.pos % 8 + dx,
                p.pos / 8 + dy,
                dx as int,
                dy as int,
            ),
        invariant
            well_formed(board@),
            p.pos < 64,
            unit_step(dx as int, dy as int),
            -1 <= x <= 8,
            -1 <= y <= 8,
        ensures
            out@ == start + ray(board@, p, p.pos % 8 + dx, p.pos / 8 + dy, dx as int, dy as int),
        decreases room(x as int, dx as int) + room(y as int, dy as int),
    {
        let new_pos = y * 8 + x;
        let q = board.get_piece_at_pos(new_pos);
        let ghost before = out@;
        if q.piece_type == PieceType::Empty {
            out.push(Move::new(p.pos, new_pos as usize));
            assert(out@ + ray(board@, p, x + dx, y + dy, dx as int, dy as int) == before + ray(
                board@,
                p,
                x as int,
                y as int,
                dx as int,
                dy as int,
            ));
        } else {
            if q.color != p.color {
                out.push(Move::new(p.pos, new_pos as usize));
            }
            break;
        }
        x = x + dx;
        y = y + dy;
    }
}

fn gen_rays(board: &Board, p: Piece, dirs: &[(i32, i32)], out: &mut Vec<Move>)
    requires
        well_formed(board@),
        p.pos < 64,
        forall|i: int| 0 <= i < dirs@.len() ==> unit_step(#[trigger] dirs@[i].0 as int, dirs@[i].1 as int),
    ensures
        final(out)@ == old(out)@ + rays(board@, p, dirs@),
{
    let ghost start = out@;
    let mut i: usize = 0;
    while i < dirs.len()
        invariant
            0 <= i <= dirs@.len(),
            well_formed(board@),
            p.pos < 64,
            forall|j: int| 0 <= j < dirs@.len() ==> unit_step(#[trigger] dirs@[j].0 as int, dirs@[j].1 as int),
            out@ == start + rays(board@, p, dirs@.take(i as int)),
        decreases dirs@.len() - i,
    {
        let (dx, dy) = dirs[i];
        assert(dirs@.take(i + 1).drop_last() == dirs@.take(i as int));
        assert(unit_step(dirs@[i as int].0 as int, dirs@[i as int].1 as int));
        gen_ray(board, p, dx, dy, out);
        i += 1;
    }
    assert(dirs@.take(i as int) == dirs@);
}

fn gen_castle_pushes(board: &Board, p: Piece, out: &mut Vec<Move>)
    requires
        p.pos < 64,
    ensures
        final(out)@ == old(out)@ + castle_pushes(board@, p),
{
    let ghost start = out@;
    let (king_side, queen_side) = match p.color {
        Color::Black => (board.black_castle_king_side, board.black_castle_queen_side),
        Color::White => (board.white_castle_king_side, board.white_castle_queen_side),
    };
    if king_side {
        out.push(Move::new(p.pos, p.pos + 2));
    }
    if queen_side {
        out.push(Move::new(p.pos, p.pos.wrapping_sub(2)));
    }
    assert(out@ =~= start + castle_pushes(board@, p));
}

/// Appends the pattern moves of `p` (see [`pattern_moves`]).
fn gen_pattern(board: &Board, p: Piece, out: &mut Vec<Move>)
    requires
        well_formed(board@),
        p.pos < 64,
    ensures
        final(out)@ == old(out)@ + pattern_moves(board@, p),
{
    let ghost start = out@;
    match p.piece_type {
        PieceType::Pawn => gen_pawn(board, p, out),
        PieceType::Knight => {
            let dirs = [(2i32, 1i32), (2, -1), (-2, 1), (-2, -1), (1, 2), (1, -2), (-1, 2), (-1, -2)];
            assert(dirs@ == knight_dirs());
            gen_jumps(board, p, &dirs, out);
        },
        PieceType::Rook => {
            let dirs = [(1i32, 0i32), (-1, 0), (0, 1), (0, -1)];
            assert(dirs@ == rook_dirs());
            gen_rays(board, p, &dirs, out);
        },
        PieceType::Bishop => {
            let dirs = [(1i32, 1i32), (1, -1), (-1, 1), (-1, -1)];
            assert(dirs@ == bishop_dirs());
            gen_rays(board, p, &dirs, out);
        },
        PieceType::Queen => {
            let dirs = [(1i32, 0i32), (-1, 0), (0, 1), (0, -1), (1, 1), (1, -1), (-1, 1), (-1, -1)];
            assert(dirs@ == queen_dirs());
            gen_rays(board, p, &dirs, out);
        },
        PieceType::King => {
            let dirs = [(1i32, 0i32), (-1, 0), (0, 1), (0, -1), (1, 1), (1, -1), (-1, 1), (-1, -1)];
            assert(dirs@ == queen_dirs());
            gen_jumps(board, p, &dirs, out);
            gen_castle_pushes(board, p, out);
            assert(out@ =~= start + pattern_moves(board@, p));
        },
        PieceType::Empty => {
            assert(out@ =~= start + pattern_moves(board@, p));
        },
    }
}

// ---------------------------------------------------------------------------
// All pattern moves of a side
// ---------------------------------------------------------------------------

/// Pattern moves of the pieces of `c` on the first `n` tiles, tile by tile.
pub open spec fn side_moves_upto(b: BoardView, c: Color, n: int) -> Seq<Move>
    decreases n,
{
    if n <= 0 {
        seq![]
    } else {
        side_moves_upto(b, c, n - 1) + if at(b, n - 1).color == c {
            pattern_moves(b, at(b, n - 1))
        } else {
            seq![]
        }
    }
}

/// Pattern moves of every piece of `c` (the squares `c` attacks, and more).
pub open spec fn side_moves(b: BoardView, c: Color) -> Seq<Move> {
    side_moves_upto(b, c, b.tiles.len() as int)
}

impl Board {
    /// Pattern moves of all pieces of `color` (see [`side_moves`]).
    fn side_pattern_moves(&self, color: Color) -> (r: Vec<Move>)
        requires
            well_formed(self@),
        ensures
            r@ == side_moves(self@, color),
    {
        let mut out: Vec<Move> = Vec::new();
        let mut i: usize = 0;
        while i < self.tiles.len()
            invariant
                0 <= i <= self.tiles@.len(),
                well_formed(self@),
                out@ == side_moves_upto(self@, color, i as int),
            decreases self.tiles@.len() - i,
        {
            let piece = self.tiles[i].piece_on_tile;
            if piece.color == color {
                assert(piece.pos < 64);
                gen_pattern(self, piece, &mut out);
            }
            i += 1;
        }
        out
    }
}

// ---------------------------------------------------------------------------
// Executing a move
// ---------------------------------------------------------------------------

/// The board after the piece on `from` moves to `to` (counting the move)
/// and `from` is left with an empty piece.
pub open spec fn shift(b: BoardView, from: int, to: int) -> BoardView {
    let piece = at(b, from);
    let count = if piece.move_count == i32::MAX {
        i32::MIN
    } else {
        (piece.move_count + 1) as i32
    };
    let moved = Piece { pos: to as usize, move_count: count, ..piece };
    let t1 = b.tiles.update(to, super::Tile { piece_on_tile: moved, ..b.tiles[to] });
    let t2 = t1.update(from, super::Tile { piece_on_tile: super::empty_piece(from as usize), ..t1[from] });
    BoardView { tiles: t2, ..b }
}

/// How many nested rook moves executing `m` may take (see [`execute`]).
pub open spec fn castle_rank(m: Move) -> int {
    if m.from + 2 == m.to {
        2
    } else if m.from >= 2 && m.from - 2 == m.to {
        1
    } else {
        0
    }
}

/// The board after move `m`. A king moving two squares right first moves
/// the piece three squares right of it to the square between; a king moving
/// two squares left first moves the piece four squares left of it to the
/// square between.
pub open spec fn execute(b: BoardView, m: Move) -> BoardView
    decreases castle_rank(m),
{
    let f = m.from as int;
    if at(b, f).piece_type == PieceType::King && m.from + 2 == m.to && f + 3 <= usize::MAX {
        shift(execute(b, mv(f + 3, f + 1)), f, m.to as int)
    } else if at(b, f).piece_type == PieceType::King && m.from >= 2 && m.from - 2 == m.to && f >= 4 {
        shift(execute(b, mv(f - 4, f - 1)), f, m.to as int)
    } else {
        shift(b, f, m.to as int)
    }
}

/// Executing `m` touches only existing tiles.
pub open spec fn executable(b: BoardView, m: Move) -> bool
    decreases castle_rank(m),
{
    let f = m.from as int;
    &&& in_board(b, f)
    &&& in_board(b, m.to as int)
    &&& (at(b, f).piece_type == PieceType::King && m.from + 2 == m.to ==> in_board(b, f + 3) && f
        + 3 <= usize::MAX && executable(b, mv(f + 3, f + 1)))
    &&& (at(b, f).piece_type == PieceType::King && m.from >= 2 && m.from - 2 == m.to ==> f >= 4
        && executable(b, mv(f - 4, f - 1)))
}

pub proof fn lemma_shift_well_formed(b: BoardView, from: int, to: int)
    requires
        well_formed(b),
        0 <= from < 64,
        0 <= to < 64,
    ensures
        well_formed(shift(b, from, to)),
        shift(b, from, to).current_player == b.current_player,
{
    let s = shift(b, from, to);
    assert forall|i: int| 0 <= i < 64 implies (#[trigger] s.tiles[i]).piece_on_tile.pos < 64 by {
        if i != from && i != to {
            assert(s.tiles[i] == b.tiles[i]);
        }
    }
}

pub proof fn lemma_execute_well_formed(b: BoardView, m: Move)
    requires
        well_formed(b),
        executable(b, m),
    ensures
        well_formed(execute(b, m)),
        execute(b, m).current_player == b.current_player,
    decreases castle_rank(m),
{
    let f = m.from as int;
    if at(b, f).piece_type == PieceType::King && m.from + 2 == m.to && f + 3 <= usize::MAX {
        lemma_execute_well_formed(b, mv(f + 3, f + 1));
        lemma_shift_well_formed(execute(b, mv(f + 3, f + 1)), f, m.to as int);
    } else if at(b, f).piece_type == PieceType::King && m.from >= 2 && m.from - 2 == m.to && f >= 4 {
        lemma_execute_well_formed(b, mv(f - 4, f - 1));
        lemma_shift_well_formed(execute(b, mv(f - 4, f - 1)), f, m.to as int);
    } else {
        lemma_shift_well_formed(b, f, m.to as int);
    }
}

impl Board {
    fn shift_piece(&mut self, from_pos: usize, to_pos: usize)
        requires
            in_board(old(self)@, from_pos as int),
            in_board(old(self)@, to_pos as int),
        ensures
            final(self)@ == shift(old(self)@, from_pos as int, to_pos as int),
    {
        let mut piece = self.tiles[from_pos].piece_on_tile;
        piece.pos = to_pos;
        piece.move_count = piece.move_count.wrapping_add(1);
        let mut t = self.tiles[to_pos];
        t.piece_on_tile = piece;
        self.tiles.set(to_pos, t);
        let mut f = self.tiles[from_pos];
        f.piece_on_tile = super::Piece::new(Color::White, PieceType::Empty, from_pos);
        self.tiles.set(from_pos, f);
        assert(self@ == shift(old(self)@, from_pos as int, to_pos as int));
    }

    /// Executes `player_move` (see [`execute`]).
    fn execute_move(&mut self, player_move: &Move)
        requires
            well_formed(old(self)@),
            executable(old(self)@, *player_move),
        ensures
            final(self)@ == execute(old(self)@, *player_move),
        decreases castle_rank(*player_move),
    {
        let from_pos = player_move.from;
        let to_pos = player_move.to;
        if self.tiles[from_pos].piece_on_tile.piece_type == PieceType::King {
            if from_pos + 2 == to_pos {
                let rook_pos = from_pos + 3;
                proof {
                    lemma_execute_well_formed(self@, mv(rook_pos as int, rook_pos - 2));
                }
                self.execute_move(&Move::new(rook_pos, rook_pos - 2));
            } else if from_pos >= 2 && from_pos - 2 == to_pos {
                let rook_pos = from_pos - 4;
                self.execute_move(&Move::new(rook_pos, rook_pos + 3));
            }
        }
        self.shift_piece(from_pos, to_pos);
    }
}

// ---------------------------------------------------------------------------
// Kings and check
// ---------------------------------------------------------------------------

/// Index of the first tile at or after `i` holding a king of `c`.
pub open spec fn king_index_from(ts: Seq<super::Tile>, c: Color, i: int) -> Option<int>
    decreases ts.len() - i,
{
    if i >= ts.len() || i < 0 {
        None
    } else if ts[i].piece_on_tile.piece_type == PieceType::King && ts[i].piece_on_tile.color == c {
        Some(i)
    } else {
        king_index_from(ts, c, i + 1)
    }
}

/// Index of the first tile holding a king of `c`.
pub open spec fn king_index(b: BoardView, c: Color) -> Option<int> {
    king_index_from(b.tiles, c, 0)
}

impl Board {
    /// The first tile holding a king of `color`.
    fn get_king_pos(&self, color: Color) -> (r: super::Tile)
        requires
            king_index(self@, color) is Some,
        ensures
            r == self@.tiles[king_index(self@, color)->0],
    {
        let mut i: usize = 0;
        while i < self.tiles.len()
            invariant
                0 <= i <= self.tiles@.len(),
                king_index(self@, color) == king_index_from(self@.tiles, color, i as int),
            decreases self.tiles@.len() - i,
        {
            let tile = self.tiles[i];
            if tile.piece_on_tile.piece_type == PieceType::King && tile.piece_on_tile.color == color {
                return tile;
            }
            i += 1;
        }
        proof {
            assert(king_index_from(self@.tiles, color, i as int) is None);
        }
        self.tiles[0]
    }
}

/// Some move of `ms` ends on `target`.
pub open spec fn reaches(ms: Seq<Move>, target: usize) -> bool {
    exists|j: int| 0 <= j < ms.len() && (#[trigger] ms[j]).to == target
}

fn any_reaches(ms: &Vec<Move>, target: usize) -> (r: bool)
    ensures
        r == reaches(ms@, target),
{
    let mut i: usize = 0;
    while i < ms.len()
        invariant
            0 <= i <= ms@.len(),
            forall|j: int| 0 <= j < i ==> (#[trigger] ms@[j]).to != target,
        decreases ms@.len() - i,
    {
        if ms[i].to == target {
            return true;
        }
        i += 1;
    }
    false
}

/// After `m`, some pattern move of the other side ends on the tile of the
/// (first) king of `c`.
pub open spec fn causes_check(b: BoardView, c: Color, m: Move) -> bool {
    let s = execute(b, m);
    reaches(side_moves(s, super::other(c)), s.tiles[king_index(s, c)->0].pos)
}

/// `m` can be executed and leaves a king of `c` on the board.
pub open spec fn checkable(b: BoardView, c: Color, m: Move) -> bool {
    executable(b, m) && king_index(execute(b, m), c) is Some
}

impl Board {
    // `color` is the side that wants to move.
    fn move_causes_check(&self, color: Color, m: &Move) -> (r: bool)
        requires
            well_formed(self@),
            checkable(self@, color, *m),
        ensures
            r == causes_check(self@, color, *m),
    {
        let mut simulation = self.clone();
        simulation.execute_move(m);
        proof {
            lemma_execute_well_formed(self@, *m);
        }
        let opponent_color = match color {
            Color::White => Color::Black,
            Color::Black => Color::White,
        };
        let king_pos = simulation.get_king_pos(color).pos;
        let opponent_moves = simulation.side_pattern_moves(opponent_color);
        any_reaches(&opponent_moves, king_pos)
    }
}

// ---------------------------------------------------------------------------
// Castling options
// ---------------------------------------------------------------------------

/// The tiles from `pos` up to (not including) `rook`, walking by `dir`, are
/// empty and no move of `attacks` ends on one of them or on `king`.
pub open spec fn path_clear(b: BoardView, attacks: Seq<Move>, king: int, rook: int, dir: int, pos: int) -> bool
    decreases (if dir > 0 { rook - pos } else { pos - rook }),
    when (dir == 1 && pos <= rook) || (dir == -1 && pos >= rook)
{
    if pos == rook {
        true
    } else if at(b, pos).piece_type != PieceType::Empty {
        false
    } else if reaches(attacks, pos as usize) || reaches(attacks, king as usize) {
        false
    } else {
        path_clear(b, attacks, king, rook, dir, pos + dir)
    }
}

/// Castling between the king on `king` and the rook square `rook` is open:
/// both tiles exist, neither piece has moved, and the tiles between are
/// empty and not reached by the side not to move, nor is the king's tile.
pub open spec fn castle_open(b: BoardView, king: int, rook: int) -> bool {
    let dir = if king > rook {
        -1int
    } else {
        1int
    };
    if in_board(b, king) && in_board(b, rook) && at(b, king).move_count == 0 && at(b, rook).move_count
        == 0 {
        path_clear(b, side_moves(b, super::other(b.current_player)), king, rook, dir, king + dir)
    } else {
        false
    }
}

impl Board {
    fn castle_check(&self, king_pos: i32, rook_pos: i32) -> (r: bool)
        requires
            well_formed(self@),
            king_pos == rook_pos + 4 || rook_pos == king_pos + 3,
            -8 <= king_pos <= 72,
        ensures
            r == castle_open(self@, king_pos as int, rook_pos as int),
    {
        let dir: i32 = if king_pos > rook_pos {
            -1
        } else {
            1
        };
        if self.is_in_board(king_pos) && self.is_in_board(rook_pos) {
            let k = king_pos as usize;
            let r = rook_pos as usize;
            if self.tiles[k].piece_on_tile.move_count == 0 && self.tiles[r].piece_on_tile.move_count == 0 {
                let ghost attacks = side_moves(self@, super::other(self@.current_player));
                let mut pos: i32 = king_pos + dir;
                while pos != rook_pos
                    invariant
                        well_formed(self@),
                        in_board(self@, king_pos as int),
                        in_board(self@, rook_pos as int),
                        dir == 1 ==> king_pos < pos <= rook_pos,
                        dir == -1 ==> rook_pos <= pos < king_pos,
                        dir == 1 || dir == -1,
                        dir == (if king_pos > rook_pos { -1int } else { 1int }),
                        attacks == side_moves(self@, super::other(self@.current_player)),
                        castle_open(self@, king_pos as int, rook_pos as int) == path_clear(
                            self@,
                            attacks,
                            king_pos as int,
                            rook_pos as int,
                            dir as int,
                            pos as int,
                        ),
                    decreases (if dir > 0 { rook_pos - pos } else { pos - rook_pos }),
                {
                    if self.tiles[pos as usize].piece_on_tile.piece_type != PieceType::Empty {
                        return false;
                    }
                    let opp_col = match self.current_player {
                        Color::Black => Color::White,
                        Color::White => Color::Black,
                    };
                    let opp_move = self.side_pattern_moves(opp_col);
                    if any_reaches(&opp_move, pos as usize) || any_reaches(&opp_move, king_pos as usize) {
                        return false;
                    }
                    pos += dir;
                }
                return true;
            }
        }
        false
    }
}

// ---------------------------------------------------------------------------
// Legal moves
// ---------------------------------------------------------------------------

/// The moves of `cands` that do not cause check for `c`, in order.
pub open spec fn keep_safe(b: BoardView, c: Color, cands: Seq<Move>) -> Seq<Move>
    decreases cands.len(),
{
    if cands.len() == 0 {
        seq![]
    } else {
        let prev = keep_safe(b, c, cands.drop_last());
        if !causes_check(b, c, cands.last()) {
            prev.push(cands.last())
        } else {
            prev
        }
    }
}

/// Every move of `cands` can be checked for check (see [`checkable`]).
pub open spec fn all_checkable(b: BoardView, c: Color, cands: Seq<Move>) -> bool {
    forall|j: int| 0 <= j < cands.len() ==> checkable(b, c, #[trigger] cands[j])
}

/// The board on which the moves of `p` are generated: when the moves of a
/// king are checked, a castling right of its side counts only where
/// castling is open now (see [`castle_open`], from the king's square).
pub open spec fn prepared(b: BoardView, p: Piece, checks: bool) -> BoardView {
    if checks && p.piece_type == PieceType::King {
        let k = p.pos as int;
        let king_side = castle_open(b, k, k + 3);
        let queen_side = castle_open(b, k, k - 4);
        match p.color {
            Color::White => BoardView {
                white_castle_king_side: b.white_castle_king_side && king_side,
                white_castle_queen_side: b.white_castle_queen_side && queen_side,
                ..b
            },
            Color::Black => BoardView {
                black_castle_king_side: b.black_castle_king_side && king_side,
                black_castle_queen_side: b.black_castle_queen_side && queen_side,
                ..b
            },
        }
    } else {
        b
    }
}

/// The moves of `p`: none when `own` is set and `p` is not of the side to
/// move, or for an empty piece; otherwise the pattern moves (on the
/// prepared board), without those that cause check when `checks` is set.
pub open spec fn piece_moves(p: Piece, b: BoardView, own: bool, checks: bool) -> Seq<Move> {
    if own && p.color != b.current_player {
        seq![]
    } else if p.piece_type == PieceType::Empty {
        seq![]
    } else {
        let cands = pattern_moves(prepared(b, p, checks), p);
        if checks {
            keep_safe(b, p.color, cands)
        } else {
            cands
        }
    }
}

/// Computing the moves of `p` with check detection touches only existing
/// tiles and finds the mover's king after each candidate move.
pub open spec fn piece_moves_ok(p: Piece, b: BoardView, own: bool, checks: bool) -> bool {
    if own && p.color != b.current_player {
        true
    } else if p.piece_type == PieceType::Empty {
        true
    } else {
        checks ==> all_checkable(b, p.color, pattern_moves(prepared(b, p, checks), p))
    }
}

pub proof fn lemma_jumps_same_tiles(b: BoardView, b2: BoardView, p: Piece, dirs: Seq<(i32, i32)>)
    requires
        b.tiles == b2.tiles,
    ensures
        jump_moves(b, p, dirs) == jump_moves(b2, p, dirs),
    decreases dirs.len(),
{
    if dirs.len() > 0 {
        lemma_jumps_same_tiles(b, b2, p, dirs.drop_last());
    }
}

pub proof fn lemma_keep_safe_subset(b: BoardView, c: Color, cands: Seq<Move>, m: Move)
    requires
        keep_safe(b, c, cands).contains(m),
    ensures
        cands.contains(m),
    decreases cands.len(),
{
    if cands.len() > 0 {
        let prev = keep_safe(b, c, cands.drop_last());
        let cur = keep_safe(b, c, cands);
        let j = choose|j: int| 0 <= j < cur.len() && cur[j] == m;
        if j < prev.len() {
            assert(prev[j] == m);
            lemma_keep_safe_subset(b, c, cands.drop_last(), m);
            let k = choose|k: int| 0 <= k < cands.drop_last().len() && cands.drop_last()[k] == m;
            assert(cands[k] == m);
        } else {
            assert(cands[cands.len() - 1] == m);
        }
    }
}

impl Board {
    fn keep_safe_moves(&self, color: Color, cands: &Vec<Move>) -> (r: Vec<Move>)
        requires
            well_formed(self@),
            all_checkable(self@, color, cands@),
        ensures
            r@ == keep_safe(self@, color, cands@),
    {
        let mut out: Vec<Move> = Vec::new();
        let mut i: usize = 0;
        while i < cands.len()
            invariant
                0 <= i <= cands@.len(),
                well_formed(self@),
                all_checkable(self@, color, cands@),
                out@ == keep_safe(self@, color, cands@.take(i as int)),
            decreases cands@.len() - i,
        {
            let m = cands[i];
            assert(cands@.take(i + 1).drop_last() == cands@.take(i as int));
            assert(checkable(self@, color, cands@[i as int]));
            if !self.move_causes_check(color, &m) {
                out.push(m);
            }
            i += 1;
        }
        assert(cands@.take(i as int) == cands@);
        out
    }
}

impl Piece {
    /// The moves of this piece on `board` (see [`piece_moves`]): with
    /// `check_if_own_piece`, only when it belongs to the side to move; with
    /// `checks`, without the moves after which the other side reaches this
    /// side's king, and with a king's castling limited to open castling.
    /// The board is left as it was.
    pub fn get_legal_moves(&self, board: &mut Board, check_if_own_piece: bool, checks: bool) -> (r: Vec<Move>)
        requires
            well_formed(old(board)@),
            self.pos < 64,
            piece_moves_ok(*self, old(board)@, check_if_own_piece, checks),
        ensures
            r@ == piece_moves(*self, old(board)@, check_if_own_piece, checks),
            final(board)@ == old(board)@,
    {
        let ghost b0 = board@;
        if check_if_own_piece && self.color != board.current_player {
            return Vec::new();
        }
        let mut results: Vec<Move> = Vec::new();
        match self.piece_type {
            PieceType::Empty => {
                return Vec::new();
            },
            PieceType::King => {
                let dirs = [(1i32, 0i32), (-1, 0), (0, 1), (0, -1), (1, 1), (1, -1), (-1, 1), (-1, -1)];
                assert(dirs@ == queen_dirs());
                gen_jumps(board, *self, &dirs, &mut results);
                let ghost b2 = prepared(b0, *self, checks);
                proof {
                    lemma_jumps_same_tiles(b0, b2, *self, queen_dirs());
                }
                if checks {
                    let ghost jumps = results@;
                    let king_pos = self.pos as i32;
                    let (king_side, queen_side) = match self.color {
                        Color::Black => (board.black_castle_king_side, board.black_castle_queen_side),
                        Color::White => (board.white_castle_king_side, board.white_castle_queen_side),
                    };
                    if king_side && board.castle_check(king_pos, king_pos + 3) {
                        results.push(Move::new(self.pos, self.pos + 2));
                    }
                    if queen_side && board.castle_check(king_pos, king_pos - 4) {
                        results.push(Move::new(self.pos, self.pos.wrapping_sub(2)));
                    }
                    assert(results@ =~= jumps + castle_pushes(b2, *self));
                } else {
                    gen_castle_pushes(board, *self, &mut results);
                }
                assert(results@ =~= pattern_moves(b2, *self));
            },
            _ => {
                gen_pattern(board, *self, &mut results);
            },
        }
        if checks {
            results = board.keep_safe_moves(self.color, &results);
        }
        results
    }
}

/// The moves of the pieces of `c` among the first `n` tiles of `ts` (see
/// [`piece_moves`], never restricted to the side to move), on board `b`.
pub open spec fn all_moves_upto(ts: Seq<super::Tile>, b: BoardView, c: Color, check: bool, n: int) -> Seq<Move>
    decreases n,
{
    if n <= 0 {
        seq![]
    } else {
        let ms = all_moves_upto(ts, b, c, check, n - 1);
        let p = ts[n - 1].piece_on_tile;
        if p.color == c {
            ms + piece_moves(p, b, false, check)
        } else {
            ms
        }
    }
}

/// Every step of [`all_moves_upto`] can be computed.
pub open spec fn all_moves_ok_upto(ts: Seq<super::Tile>, b: BoardView, c: Color, check: bool, n: int) -> bool
    decreases n,
{
    if n <= 0 {
        true
    } else {
        let p = ts[n - 1].piece_on_tile;
        all_moves_ok_upto(ts, b, c, check, n - 1) && (p.color == c ==> piece_moves_ok(p, b, false, check))
    }
}

impl Board {
    /// Moves of all pieces of `player_color`, tile by tile (see
    /// [`all_moves_upto`]); with `check`, moves that cause check are left
    /// out. The board is left as it was.
    pub fn get_all_legal_moves(&mut self, player_color: Color, check: bool) -> (r: Vec<Move>)
        requires
            well_formed(old(self)@),
            all_moves_ok_upto(old(self)@.tiles, old(self)@, player_color, check, 64),
        ensures
            r@ == all_moves_upto(old(self)@.tiles, old(self)@, player_color, check, 64),
            final(self)@ == old(self)@,
    {
        let ghost b0 = self@;
        let tiles = self.tiles.clone();
        let mut result: Vec<Move> = Vec::new();
        let mut i: usize = 0;
        while i < tiles.len()
            invariant
                0 <= i <= 64,
                tiles@ == b0.tiles,
                well_formed(b0),
                self@ == b0,
                all_moves_ok_upto(b0.tiles, b0, player_color, check, 64),
                result@ == all_moves_upto(b0.tiles, b0, player_color, check, i as int),
            decreases 64 - i,
        {
            proof {
                lemma_ok_prefix(b0.tiles, b0, player_color, check, 64, i + 1);
            }
            let piece = tiles[i].piece_on_tile;
            if piece.color == player_color {
                let moves = piece.get_legal_moves(self, false, check);
                result.append(&mut moves.clone());
            }
            i += 1;
        }
        result
    }
}

pub proof fn lemma_ok_prefix(ts: Seq<super::Tile>, b: BoardView, c: Color, check: bool, n: int, k: int)
    requires
        0 <= k <= n,
        all_moves_ok_upto(ts, b, c, check, n),
    ensures
        all_moves_ok_upto(ts, b, c, check, k),
    decreases n - k,
{
    if k < n {
        lemma_ok_prefix(ts, b, c, check, n - 1, k);
    }
}

/// The castling rights after `p` left square `from`: a king gives up both
/// rights of its side, a rook leaving its corner (a1 or h1 for White, a8 or
/// h8 for Black) the right on that side; other moves keep them.
pub open spec fn rights_after(b: BoardView, p: Piece, from: int) -> BoardView {
    match (p.piece_type, p.color) {
        (PieceType::King, Color::White) => BoardView {
            white_castle_king_side: false,
            white_castle_queen_side: false,
            ..b
        },
        (PieceType::King, Color::Black) => BoardView {
            black_castle_king_side: false,
            black_castle_queen_side: false,
            ..b
        },
        (PieceType::Rook, Color::White) => BoardView {
            white_castle_queen_side: b.white_castle_queen_side && from != 56,
            white_castle_king_side: b.white_castle_king_side && from != 63,
            ..b
        },
        (PieceType::Rook, Color::Black) => BoardView {
            black_castle_queen_side: b.black_castle_queen_side && from != 0,
            black_castle_king_side: b.black_castle_king_side && from != 7,
            ..b
        },
        _ => b,
    }
}

/// The answer of `make_move(m)` and the board afterwards: if `m` is among
/// the moves of the piece on `m.from` (computed as for the side to move,
/// with check detection), it is executed, the castling rights it gives up
/// are cleared and the other side is to move; otherwise nothing changes.
pub open spec fn make_move_result(b: BoardView, m: Move) -> (bool, BoardView) {
    let p = at(b, m.from as int);
    if piece_moves(p, b, true, true).contains(m) {
        (
            true,
            BoardView {
                current_player: super::other(b.current_player),
                ..rights_after(execute(b, m), p, m.from as int)
            },
        )
    } else {
        (false, b)
    }
}

impl Board {
    fn give_up_castling(&mut self, p: Piece, from: usize)
        ensures
            final(self)@ == rights_after(old(self)@, p, from as int),
    {
        match p.piece_type {
            PieceType::King => match p.color {
                Color::White => {
                    self.white_castle_king_side = false;
                    self.white_castle_queen_side = false;
                },
                Color::Black => {
                    self.black_castle_king_side = false;
                    self.black_castle_queen_side = false;
                },
            },
            PieceType::Rook => match p.color {
                Color::White => {
                    if from == 56 {
                        self.white_castle_queen_side = false;
                    }
                    if from == 63 {
                        self.white_castle_king_side = false;
                    }
                },
                Color::Black => {
                    if from == 0 {
                        self.black_castle_queen_side = false;
                    }
                    if from == 7 {
                        self.black_castle_king_side = false;
                    }
                },
            },
            _ => {},
        }
    }

    /// Makes `player_move` if it is legal for the side to move (see
    /// [`make_move_result`]).
    pub fn make_move(&mut self, player_move: Move) -> (r: bool)
        requires
            well_formed(old(self)@),
            player_move.from < 64,
            piece_moves_ok(at(old(self)@, player_move.from as int), old(self)@, true, true),
        ensures
            (r, final(self)@) == make_move_result(old(self)@, player_move),
    {
        let ghost b0 = self@;
        let selected_piece = self.tiles[player_move.from].piece_on_tile;
        let legal_moves = selected_piece.get_legal_moves(self, true, true);
        let mut found = false;
        let mut i: usize = 0;
        while i < legal_moves.len()
            invariant
                0 <= i <= legal_moves@.len(),
                !found ==> forall|j: int| 0 <= j < i ==> legal_moves@[j] != player_move,
                found ==> legal_moves@.contains(player_move),
            decreases legal_moves@.len() - i,
        {
            if legal_moves[i] == player_move {
                found = true;
            }
            i += 1;
        }
        if found {
            proof {
                let b2 = prepared(b0, selected_piece, true);
                lemma_keep_safe_subset(b0, selected_piece.color, pattern_moves(b2, selected_piece), player_move);
                let k = choose|k: int| 0 <= k < pattern_moves(b2, selected_piece).len() && pattern_moves(b2, selected_piece)[k] == player_move;
                assert(checkable(b0, selected_piece.color, pattern_moves(b2, selected_piece)[k]));
                lemma_execute_well_formed(b0, player_move);
            }
            self.execute_move(&player_move);
            self.give_up_castling(selected_piece, player_move.from);
            self.change_player();
            return true;
        }
        false
    }
}

} // verus!
