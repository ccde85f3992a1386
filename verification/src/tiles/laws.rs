//! Properties of move generation and making moves on a tile board.

use vstd::prelude::*;

use crate::game::board::{on_board, room, unit_step};
use crate::game::movegen::away_from;
use super::moves::{
    all_moves_upto, castle_open, castle_rank, causes_check, checkable, execute, executable, keep_safe,
    lemma_execute_well_formed, lemma_keep_safe_subset, make_move_result, piece_moves, piece_moves_ok,
    prepared,
};
use super::{
    at, bishop_dirs, castle_pushes, jump_moves, knight_dirs, lands, mv, other, pattern_moves, queen_dirs, ray,
    rays, rook_dirs, well_formed, BoardView, Color, Move, Piece, PieceType,
};

verus! {

/// Every move kept by the check filter leaves the other side unable to reach the king.
pub proof fn lemma_kept_moves_are_safe(b: BoardView, c: Color, cands: Seq<Move>, m: Move)
    requires
        keep_safe(b, c, cands).contains(m),
    ensures
        !causes_check(b, c, m),
    decreases cands.len(),
{
    if cands.len() > 0 {
        let prev = keep_safe(b, c, cands.drop_last());
        let cur = keep_safe(b, c, cands);
        let j = choose|j: int| 0 <= j < cur.len() && cur[j] == m;
        if j < prev.len() {
            assert(prev[j] == m);
            lemma_kept_moves_are_safe(b, c, cands.drop_last(), m);
        }
    }
}

/// With check detection, no generated move lets the other side reach the
/// mover's king afterwards.
pub proof fn lemma_checked_moves_keep_king_safe(p: Piece, b: BoardView, own: bool, m: Move)
    requires
        piece_moves(p, b, own, true).contains(m),
    ensures
        !causes_check(b, p.color, m),
{
    if !(own && p.color != b.current_player) && p.piece_type != PieceType::Empty {
        let b2 = prepared(b, p, true);
        lemma_kept_moves_are_safe(b, p.color, pattern_moves(b2, p), m);
    }
}

/// A move that `Board::make_move` accepts moves a piece of the side to move,
/// does not leave that side's king reachable, and passes the turn; a refused
/// move leaves the board as it was.
pub proof fn lemma_make_move_outcome(b: BoardView, m: Move)
    ensures
        ({
            let p = at(b, m.from as int);
            let (ok, after) = make_move_result(b, m);
            &&& ok ==> p.color == b.current_player && p.piece_type != PieceType::Empty
                && !causes_check(b, p.color, m) && after.current_player == other(b.current_player)
            &&& !ok ==> after == b
        }),
{
    let p = at(b, m.from as int);
    if make_move_result(b, m).0 {
        lemma_checked_moves_keep_king_safe(p, b, true, m);
    }
}

/// Making a move keeps the board well formed.
pub proof fn lemma_make_move_keeps_well_formed(b: BoardView, m: Move)
    requires
        well_formed(b),
        m.from < 64,
        piece_moves_ok(at(b, m.from as int), b, true, true),
    ensures
        well_formed(make_move_result(b, m).1),
{
    let p = at(b, m.from as int);
    if piece_moves(p, b, true, true).contains(m) {
        let b2 = prepared(b, p, true);
        lemma_keep_safe_subset(b, p.color, pattern_moves(b2, p), m);
        let k = choose|k: int| 0 <= k < pattern_moves(b2, p).len() && pattern_moves(b2, p)[k] == m;
        assert(checkable(b, p.color, pattern_moves(b2, p)[k]));
        lemma_execute_well_formed(b, m);
    }
}

/// Executing a move changes only the tiles.
pub proof fn lemma_execute_keeps_rights(b: BoardView, m: Move)
    ensures
        execute(b, m) == (BoardView { tiles: execute(b, m).tiles, ..b }),
    decreases castle_rank(m),
{
    let f = m.from as int;
    if at(b, f).piece_type == PieceType::King && m.from + 2 == m.to && f + 3 <= usize::MAX {
        lemma_execute_keeps_rights(b, mv(f + 3, f + 1));
    } else if at(b, f).piece_type == PieceType::King && m.from >= 2 && m.from - 2 == m.to && f >= 4 {
        lemma_execute_keeps_rights(b, mv(f - 4, f - 1));
    }
}

/// Castling rights are never granted by a move: each right after
/// `Board::make_move` was held before it.
pub proof fn lemma_castling_rights_only_shrink(b: BoardView, m: Move)
    ensures
        ({
            let after = make_move_result(b, m).1;
            &&& after.white_castle_king_side ==> b.white_castle_king_side
            &&& after.white_castle_queen_side ==> b.white_castle_queen_side
            &&& after.black_castle_king_side ==> b.black_castle_king_side
            &&& after.black_castle_queen_side ==> b.black_castle_queen_side
        }),
{
    lemma_execute_keeps_rights(b, m);
}

proof fn lemma_steps_not_two_aside(b: BoardView, p: Piece, dirs: Seq<(i32, i32)>)
    requires
        p.pos < 64,
        forall|i: int| 0 <= i < dirs.len() ==> -1 <= #[trigger] dirs[i].0 <= 1 && -1 <= dirs[i].1 <= 1,
    ensures
        forall|j: int| 0 <= j < jump_moves(b, p, dirs).len() ==> (#[trigger] jump_moves(b, p, dirs)[j]).to
            != p.pos + 2 && jump_moves(b, p, dirs)[j].to + 2 != p.pos && jump_moves(b, p, dirs)[j].from == p.pos,
    decreases dirs.len(),
{
    if dirs.len() > 0 {
        assert forall|i: int| 0 <= i < dirs.drop_last().len() implies -1 <= #[trigger] dirs.drop_last()[i].0 <= 1
            && -1 <= dirs.drop_last()[i].1 <= 1 by {
            assert(dirs.drop_last()[i] == dirs[i]);
        }
        lemma_steps_not_two_aside(b, p, dirs.drop_last());
        let d = dirs[dirs.len() - 1];
        assert(-1 <= d.0 <= 1 && -1 <= d.1 <= 1);
        let prev = jump_moves(b, p, dirs.drop_last());
        let x = p.pos % 8 + d.0;
        let y = p.pos / 8 + d.1;
        assert(p.pos == (p.pos / 8) * 8 + p.pos % 8);
        if lands(b, p, x, y) {
            assert(y * 8 + x != p.pos + 2 && y * 8 + x + 2 != p.pos);
            assert(0 <= y * 8 + x < 64);
            let all = jump_moves(b, p, dirs);
            assert(all == prev.push(mv(p.pos as int, y * 8 + x)));
            assert forall|j: int| 0 <= j < all.len() implies (#[trigger] all[j]).to != p.pos + 2 && all[j].to + 2
                != p.pos && all[j].from == p.pos by {
                if j < prev.len() {
                    assert(all[j] == prev[j]);
                }
            }
        }
    }
}

/// A king move of two squares that `Board::make_move` accepts is castling
/// that the side held the right to before the move, on a side where
/// castling is open (see [`castle_open`]).
pub proof fn lemma_castling_needs_right(b: BoardView, m: Move)
    requires
        well_formed(b),
        m.from < 64,
        make_move_result(b, m).0,
        at(b, m.from as int).piece_type == PieceType::King,
    ensures
        m.to == m.from + 2 ==> castle_open(b, m.from as int, m.from + 3) && match b.current_player {
            Color::White => b.white_castle_king_side,
            Color::Black => b.black_castle_king_side,
        },
        m.to + 2 == m.from ==> castle_open(b, m.from as int, m.from - 4) && match b.current_player {
            Color::White => b.white_castle_queen_side,
            Color::Black => b.black_castle_queen_side,
        },
{
    let p = at(b, m.from as int);
    let b2 = prepared(b, p, true);
    lemma_keep_safe_subset(b, p.color, pattern_moves(b2, p), m);
    let k = choose|k: int| 0 <= k < pattern_moves(b2, p).len() && pattern_moves(b2, p)[k] == m;
    assert forall|i: int| 0 <= i < queen_dirs().len() implies -1 <= #[trigger] queen_dirs()[i].0 <= 1
        && -1 <= queen_dirs()[i].1 <= 1 by {
        if i < 4 {
            assert(queen_dirs()[i] == rook_dirs()[i]);
        } else {
            assert(queen_dirs()[i] == bishop_dirs()[i - 4]);
        }
    }
    lemma_steps_not_two_aside(b2, p, queen_dirs());
    let a = jump_moves(b2, p, queen_dirs());
    let c = castle_pushes(b2, p);
    if m.to == m.from + 2 || m.to + 2 == m.from {
        if k < a.len() {
            assert(pattern_moves(b2, p)[k] == a[k]);
            assert(false);
        } else {
            assert(pattern_moves(b2, p)[k] == c[k - a.len()]);
        }
    }
}

// ---------------------------------------------------------------------------
// Where an executed move puts its piece
// ---------------------------------------------------------------------------

/// Executing `m` writes tile `i` (see [`execute`]).
pub open spec fn touches(b: BoardView, m: Move, i: int) -> bool
    decreases castle_rank(m),
{
    let f = m.from as int;
    ||| i == f
    ||| i == m.to
    ||| (at(b, f).piece_type == PieceType::King && m.from + 2 == m.to && f + 3 <= usize::MAX
        && touches(b, mv(f + 3, f + 1), i))
    ||| (at(b, f).piece_type == PieceType::King && m.from >= 2 && m.from - 2 == m.to && f >= 4
        && touches(b, mv(f - 4, f - 1), i))
}

pub proof fn lemma_execute_untouched(b: BoardView, m: Move, i: int)
    requires
        executable(b, m),
        0 <= i < b.tiles.len(),
        !touches(b, m, i),
    ensures
        execute(b, m).tiles[i] == b.tiles[i],
        execute(b, m).tiles.len() == b.tiles.len(),
    decreases castle_rank(m),
{
    let f = m.from as int;
    if at(b, f).piece_type == PieceType::King && m.from + 2 == m.to && f + 3 <= usize::MAX {
        lemma_execute_untouched(b, mv(f + 3, f + 1), i);
    } else if at(b, f).piece_type == PieceType::King && m.from >= 2 && m.from - 2 == m.to && f >= 4 {
        lemma_execute_untouched(b, mv(f - 4, f - 1), i);
    }
}

/// After executing `m` (from a tile other than its target), the target tile
/// holds the moved piece, now naming the target square, and the origin tile
/// holds the empty piece.
pub proof fn lemma_execute_lands(b: BoardView, m: Move)
    requires
        executable(b, m),
        m.from != m.to,
    ensures
        execute(b, m).tiles[m.to as int].piece_on_tile.piece_type == at(b, m.from as int).piece_type,
        execute(b, m).tiles[m.to as int].piece_on_tile.color == at(b, m.from as int).color,
        execute(b, m).tiles[m.to as int].piece_on_tile.pos == m.to,
        execute(b, m).tiles[m.from as int].piece_on_tile == super::empty_piece(m.from),
{
    let f = m.from as int;
    if at(b, f).piece_type == PieceType::King && m.from + 2 == m.to && f + 3 <= usize::MAX {
        assert(!touches(b, mv(f + 3, f + 1), f)) by {
            reveal_with_fuel(touches, 3);
        }
        lemma_execute_untouched(b, mv(f + 3, f + 1), f);
    } else if at(b, f).piece_type == PieceType::King && m.from >= 2 && m.from - 2 == m.to && f >= 4 {
        assert(!touches(b, mv(f - 4, f - 1), f)) by {
            reveal_with_fuel(touches, 2);
        }
        lemma_execute_untouched(b, mv(f - 4, f - 1), f);
    }
}

proof fn lemma_jumps_leave(b: BoardView, p: Piece, dirs: Seq<(i32, i32)>)
    requires
        p.pos < 64,
        forall|i: int| 0 <= i < dirs.len() ==> -2 <= #[trigger] dirs[i].0 <= 2 && -2 <= dirs[i].1 <= 2
            && (dirs[i].0 != 0 || dirs[i].1 != 0),
    ensures
        forall|j: int| 0 <= j < jump_moves(b, p, dirs).len() ==> (#[trigger] jump_moves(b, p, dirs)[j]).from
            == p.pos && jump_moves(b, p, dirs)[j].to != p.pos,
    decreases dirs.len(),
{
    if dirs.len() > 0 {
        assert forall|i: int| 0 <= i < dirs.drop_last().len() implies -2 <= #[trigger] dirs.drop_last()[i].0 <= 2
            && -2 <= dirs.drop_last()[i].1 <= 2 && (dirs.drop_last()[i].0 != 0 || dirs.drop_last()[i].1 != 0) by {
            assert(dirs.drop_last()[i] == dirs[i]);
        }
        lemma_jumps_leave(b, p, dirs.drop_last());
        let d = dirs[dirs.len() - 1];
        assert(-2 <= d.0 <= 2 && -2 <= d.1 <= 2 && (d.0 != 0 || d.1 != 0));
        let prev = jump_moves(b, p, dirs.drop_last());
        let x = p.pos % 8 + d.0;
        let y = p.pos / 8 + d.1;
        assert(p.pos == (p.pos / 8) * 8 + p.pos % 8);
        if lands(b, p, x, y) {
            assert(y * 8 + x != p.pos as int);
            assert(0 <= y * 8 + x < 64);
            let all = jump_moves(b, p, dirs);
            assert(all == prev.push(mv(p.pos as int, y * 8 + x)));
            assert forall|j: int| 0 <= j < all.len() implies (#[trigger] all[j]).from == p.pos && all[j].to
                != p.pos by {
                if j < prev.len() {
                    assert(all[j] == prev[j]);
                }
            }
        }
    }
}

proof fn lemma_ray_leaves(b: BoardView, p: Piece, x: int, y: int, dx: int, dy: int)
    requires
        p.pos < 64,
        unit_step(dx, dy),
        -1 <= x <= 8,
        -1 <= y <= 8,
        away_from(p.pos as int, x, y, dx, dy),
    ensures
        forall|j: int| 0 <= j < ray(b, p, x, y, dx, dy).len() ==> (#[trigger] ray(b, p, x, y, dx, dy)[j]).from
            == p.pos && ray(b, p, x, y, dx, dy)[j].to != p.pos,
    decreases room(x, dx) + room(y, dy),
{
    if on_board(x, y) && at(b, y * 8 + x).piece_type == PieceType::Empty {
        lemma_ray_leaves(b, p, x + dx, y + dy, dx, dy);
        let rest = ray(b, p, x + dx, y + dy, dx, dy);
        assert forall|j: int| 0 <= j < ray(b, p, x, y, dx, dy).len() implies (#[trigger] ray(b, p, x, y, dx, dy)[j]).from
            == p.pos && ray(b, p, x, y, dx, dy)[j].to != p.pos by {
            if j > 0 {
                assert(ray(b, p, x, y, dx, dy)[j] == rest[j - 1]);
            }
        }
    }
}

proof fn lemma_rays_leave(b: BoardView, p: Piece, dirs: Seq<(i32, i32)>)
    requires
        p.pos < 64,
        forall|i: int| 0 <= i < dirs.len() ==> unit_step(#[trigger] dirs[i].0 as int, dirs[i].1 as int),
    ensures
        forall|j: int| 0 <= j < rays(b, p, dirs).len() ==> (#[trigger] rays(b, p, dirs)[j]).from == p.pos
            && rays(b, p, dirs)[j].to != p.pos,
    decreases dirs.len(),
{
    if dirs.len() > 0 {
        assert forall|i: int| 0 <= i < dirs.drop_last().len() implies unit_step(
            #[trigger] dirs.drop_last()[i].0 as int,
            dirs.drop_last()[i].1 as int,
        ) by {
            assert(dirs.drop_last()[i] == dirs[i]);
        }
        lemma_rays_leave(b, p, dirs.drop_last());
        let d = dirs.last();
        assert(unit_step(dirs[dirs.len() - 1].0 as int, dirs[dirs.len() - 1].1 as int));
        lemma_ray_leaves(b, p, p.pos % 8 + d.0, p.pos / 8 + d.1, d.0 as int, d.1 as int);
        let a = rays(b, p, dirs.drop_last());
        let r = ray(b, p, p.pos % 8 + d.0, p.pos / 8 + d.1, d.0 as int, d.1 as int);
        assert forall|j: int| 0 <= j < rays(b, p, dirs).len() implies (#[trigger] rays(b, p, dirs)[j]).from == p.pos
            && rays(b, p, dirs)[j].to != p.pos by {
            if j < a.len() {
                assert(rays(b, p, dirs)[j] == a[j]);
            } else {
                assert(rays(b, p, dirs)[j] == r[j - a.len()]);
            }
        }
    }
}

/// Every pattern move of a piece starts on the piece's square and leaves it.
pub proof fn lemma_pattern_moves_leave(b: BoardView, p: Piece)
    requires
        p.pos < 64,
    ensures
        forall|j: int| 0 <= j < pattern_moves(b, p).len() ==> (#[trigger] pattern_moves(b, p)[j]).from == p.pos
            && pattern_moves(b, p)[j].to != p.pos,
{
    assert forall|i: int| 0 <= i < knight_dirs().len() implies -2 <= #[trigger] knight_dirs()[i].0 <= 2
        && -2 <= knight_dirs()[i].1 <= 2 && (knight_dirs()[i].0 != 0 || knight_dirs()[i].1 != 0) by {
    }
    assert forall|i: int| 0 <= i < queen_dirs().len() implies -2 <= #[trigger] queen_dirs()[i].0 <= 2
        && -2 <= queen_dirs()[i].1 <= 2 && (queen_dirs()[i].0 != 0 || queen_dirs()[i].1 != 0) by {
        if i < 4 {
            assert(queen_dirs()[i] == rook_dirs()[i]);
        } else {
            assert(queen_dirs()[i] == bishop_dirs()[i - 4]);
        }
    }
    assert forall|i: int| 0 <= i < queen_dirs().len() implies unit_step(
        #[trigger] queen_dirs()[i].0 as int,
        queen_dirs()[i].1 as int,
    ) by {
        if i < 4 {
            assert(queen_dirs()[i] == rook_dirs()[i]);
        } else {
            assert(queen_dirs()[i] == bishop_dirs()[i - 4]);
        }
    }
    assert forall|i: int| 0 <= i < rook_dirs().len() implies unit_step(
        #[trigger] rook_dirs()[i].0 as int,
        rook_dirs()[i].1 as int,
    ) by {
    }
    assert forall|i: int| 0 <= i < bishop_dirs().len() implies unit_step(
        #[trigger] bishop_dirs()[i].0 as int,
        bishop_dirs()[i].1 as int,
    ) by {
    }
    match p.piece_type {
        PieceType::Knight => lemma_jumps_leave(b, p, knight_dirs()),
        PieceType::Rook => lemma_rays_leave(b, p, rook_dirs()),
        PieceType::Bishop => lemma_rays_leave(b, p, bishop_dirs()),
        PieceType::Queen => lemma_rays_leave(b, p, queen_dirs()),
        PieceType::King => {
            lemma_jumps_leave(b, p, queen_dirs());
            let a = jump_moves(b, p, queen_dirs());
            let c = castle_pushes(b, p);
            assert forall|j: int| 0 <= j < pattern_moves(b, p).len() implies (#[trigger] pattern_moves(b, p)[j]).from
                == p.pos && pattern_moves(b, p)[j].to != p.pos by {
                if j < a.len() {
                    assert(pattern_moves(b, p)[j] == a[j]);
                } else {
                    assert(pattern_moves(b, p)[j] == c[j - a.len()]);
                }
            }
        },
        _ => {},
    }
}

/// An accepted `Board::make_move` moves the piece of its origin tile to its
/// target tile (naming the target square) and leaves the empty piece behind.
pub proof fn lemma_made_move_lands(b: BoardView, m: Move)
    requires
        well_formed(b),
        m.from < 64,
        piece_moves_ok(at(b, m.from as int), b, true, true),
        make_move_result(b, m).0,
    ensures
        ({
            let after = make_move_result(b, m).1;
            &&& after.tiles[m.to as int].piece_on_tile.piece_type == at(b, m.from as int).piece_type
            &&& after.tiles[m.to as int].piece_on_tile.color == at(b, m.from as int).color
            &&& after.tiles[m.to as int].piece_on_tile.pos == m.to
            &&& after.tiles[m.from as int].piece_on_tile == super::empty_piece(m.from)
        }),
{
    let p = at(b, m.from as int);
    let b2 = prepared(b, p, true);
    lemma_keep_safe_subset(b, p.color, pattern_moves(b2, p), m);
    let k = choose|k: int| 0 <= k < pattern_moves(b2, p).len() && pattern_moves(b2, p)[k] == m;
    assert(checkable(b, p.color, pattern_moves(b2, p)[k]));
    lemma_pattern_moves_leave(b2, p);
    assert(m.from == p.pos && m.to != p.pos);
    lemma_execute_lands(b, m);
}

/// With check detection, every move that `Board::get_all_legal_moves`
/// lists for `c` (here over the first `n` tiles) starts on the square of a
/// piece of `c` and does not let the other side reach `c`'s king.
pub proof fn lemma_all_checked_moves_are_safe(b: BoardView, c: Color, n: int, m: Move)
    requires
        well_formed(b),
        n <= 64,
        all_moves_upto(b.tiles, b, c, true, n).contains(m),
    ensures
        !causes_check(b, c, m),
        exists|i: int|
            0 <= i < n && (#[trigger] b.tiles[i]).piece_on_tile.color == c && b.tiles[i].piece_on_tile.piece_type
                != PieceType::Empty && b.tiles[i].piece_on_tile.pos == m.from,
    decreases n,
{
    if n > 0 {
        let ms = all_moves_upto(b.tiles, b, c, true, n - 1);
        let p = b.tiles[n - 1].piece_on_tile;
        let all = all_moves_upto(b.tiles, b, c, true, n);
        let j = choose|j: int| 0 <= j < all.len() && all[j] == m;
        if p.color == c && j >= ms.len() {
            let own = piece_moves(p, b, false, true);
            assert(all == ms + own);
            assert(own[j - ms.len()] == m);
            assert(own.contains(m));
            assert(p.piece_type != PieceType::Empty);
            lemma_checked_moves_keep_king_safe(p, b, false, m);
            let b2 = prepared(b, p, true);
            lemma_keep_safe_subset(b, p.color, pattern_moves(b2, p), m);
            let k = choose|k: int| 0 <= k < pattern_moves(b2, p).len() && pattern_moves(b2, p)[k] == m;
            assert(p.pos < 64);
            lemma_pattern_moves_leave(b2, p);
            assert(b.tiles[n - 1].piece_on_tile.pos == m.from);
        } else {
            if p.color == c {
                assert(all == ms + piece_moves(p, b, false, true));
            }
            assert(ms[j] == m);
            lemma_all_checked_moves_are_safe(b, c, n - 1, m);
            let i = choose|i: int|
                0 <= i < n - 1 && (#[trigger] b.tiles[i]).piece_on_tile.color == c && b.tiles[i].piece_on_tile.piece_type
                    != PieceType::Empty && b.tiles[i].piece_on_tile.pos == m.from;
            assert(0 <= i < n);
        }
    }
}

} // verus!
