//! Static evaluation in centipawns from White's perspective, and the move
//! ordering heuristic.

use vstd::prelude::*;

use crate::game::{Chess, Color, Move, Piece, PieceKind};
use crate::game::board::{in_bounds, king_steps, knight_jumps, on_board, sq, unit_step};
use crate::game::movegen::{free_for, pawn_forward, slider_moves, step_moves};

verus! {

pub const CHECK_BONUS: i32 = 35;

// ---------------------------------------------------------------------------
// Piece values and piece-square terms
// ---------------------------------------------------------------------------

pub open spec fn material_value_of(kind: PieceKind) -> int {
    match kind {
        PieceKind::Pawn => 100,
        PieceKind::Knight => 320,
        PieceKind::Bishop => 330,
        PieceKind::Rook => 500,
        PieceKind::Queen => 900,
        PieceKind::King => 0,
    }
}

/// Material value of a piece kind in centipawns.
pub fn material_value(kind: PieceKind) -> (r: i32)
    ensures
        r == material_value_of(kind),
{
    match kind {
        PieceKind::Pawn => 100,
        PieceKind::Knight => 320,
        PieceKind::Bishop => 330,
        PieceKind::Rook => 500,
        PieceKind::Queen => 900,
        PieceKind::King => 0,
    }
}

pub open spec fn abs_int(x: int) -> int {
    if x < 0 {
        -x
    } else {
        x
    }
}

pub open spec fn relative_rank(color: Color, idx: int) -> int {
    if color == Color::White {
        idx / 8
    } else {
        7 - idx / 8
    }
}

/// Bonus for standing near the center, seen from `color`'s side.
pub open spec fn center_bonus(color: Color, idx: int) -> int {
    8 - (abs_int(idx % 8 - 3) + abs_int(relative_rank(color, idx) - 3))
}

/// Positional bonus of a piece of `kind` and `color` on `idx`.
pub open spec fn piece_square_of(kind: PieceKind, color: Color, idx: int) -> int {
    let rr = relative_rank(color, idx);
    let cb = center_bonus(color, idx);
    match kind {
        PieceKind::Pawn => rr * 10 + cb,
        PieceKind::Knight => cb * 4,
        PieceKind::Bishop => cb * 3,
        PieceKind::Rook => rr * 2,
        PieceKind::Queen => cb * 2,
        PieceKind::King => if rr >= 6 {
            10
        } else {
            -cb * 3
        },
    }
}

fn abs_i32(x: i32) -> (r: i32)
    requires
        x > i32::MIN,
    ensures
        r == abs_int(x as int),
{
    if x < 0 {
        -x
    } else {
        x
    }
}

/// Positional bonus of a piece (see [`piece_square_of`]).
pub(crate) fn piece_square(kind: PieceKind, color: Color, idx: usize) -> (r: i32)
    requires
        idx < 64,
    ensures
        r == piece_square_of(kind, color, idx as int),
{
    let file = idx % 8;
    let rank = idx / 8;
    let relative_rank = if color == Color::White {
        rank
    } else {
        7 - rank
    };
    let center_bonus = {
        let f = file as i32;
        let r = relative_rank as i32;
        8 - (abs_i32(f - 3) + abs_i32(r - 3))
    };
    match kind {
        PieceKind::Pawn => relative_rank as i32 * 10 + center_bonus,
        PieceKind::Knight => center_bonus * 4,
        PieceKind::Bishop => center_bonus * 3,
        PieceKind::Rook => relative_rank as i32 * 2,
        PieceKind::Queen => center_bonus * 2,
        PieceKind::King => {
            if relative_rank >= 6 {
                10
            } else {
                -center_bonus * 3
            }
        },
    }
}

// ---------------------------------------------------------------------------
// Mobility
// ---------------------------------------------------------------------------

pub open spec fn engine_diagonals() -> Seq<(i32, i32)> {
    seq![(1i32, 1i32), (1i32, -1i32), (-1i32, 1i32), (-1i32, -1i32)]
}

pub open spec fn engine_straights() -> Seq<(i32, i32)> {
    seq![(1i32, 0i32), (-1i32, 0i32), (0i32, 1i32), (0i32, -1i32)]
}

pub open spec fn engine_queen_dirs() -> Seq<(i32, i32)> {
    engine_diagonals() + engine_straights()
}

/// Number of the two diagonal squares in front of a pawn that are on the
/// board and empty or enemy-held.
pub open spec fn pawn_diagonal_targets(b: Seq<Option<Piece>>, from: int, color: Color) -> int {
    let f = from % 8;
    let nr = from / 8 + pawn_forward(color);
    (if on_board(f - 1, nr) && free_for(b, sq(f - 1, nr), color) {
        1int
    } else {
        0int
    }) + (if on_board(f + 1, nr) && free_for(b, sq(f + 1, nr), color) {
        1int
    } else {
        0int
    })
}

/// Squares a piece could move to ignoring checks, castling and pawn pushes:
/// pawn diagonals, knight jumps, king steps, and slider rays up to and
/// including the first enemy piece.
pub open spec fn pseudo_targets(b: Seq<Option<Piece>>, from: int, p: Piece) -> int {
    match p.kind {
        PieceKind::Pawn => pawn_diagonal_targets(b, from, p.color),
        PieceKind::Knight => step_moves(b, from, p.color, knight_jumps()).len() as int,
        PieceKind::Bishop => slider_moves(b, from, p.color, engine_diagonals()).len() as int,
        PieceKind::Rook => slider_moves(b, from, p.color, engine_straights()).len() as int,
        PieceKind::Queen => slider_moves(b, from, p.color, engine_queen_dirs()).len() as int,
        PieceKind::King => step_moves(b, from, p.color, king_steps()).len() as int,
    }
}

/// Sum of [`pseudo_targets`] over the pieces of `color` on squares `0..n`.
pub open spec fn targets_upto(b: Seq<Option<Piece>>, color: Color, n: int) -> int
    decreases n,
{
    if n <= 0 {
        0
    } else {
        targets_upto(b, color, n - 1) + match b[n - 1] {
            Some(p) => if p.color == color {
                pseudo_targets(b, n - 1, p)
            } else {
                0
            },
            None => 0,
        }
    }
}

/// Mobility term: twice the number of pseudo targets of all pieces of `color`.
pub open spec fn mobility_of(b: Seq<Option<Piece>>, color: Color) -> int {
    targets_upto(b, color, 64) * 2
}

pub proof fn lemma_step_count(b: Seq<Option<Piece>>, from: int, color: Color, offs: Seq<(i32, i32)>)
    ensures
        step_moves(b, from, color, offs).len() <= offs.len(),
    decreases offs.len(),
{
    if offs.len() > 0 {
        lemma_step_count(b, from, color, offs.drop_last());
    }
}

fn count_steps(game: &Chess, from: usize, color: Color, offs: &[(i32, i32)]) -> (r: usize)
    requires
        from < 64,
        offs@.len() <= 8,
        forall|i: int| 0 <= i < offs@.len() ==> -2 <= #[trigger] offs@[i].0 <= 2 && -2 <= offs@[i].1 <= 2,
    ensures
        r == step_moves(game@.board, from as int, color, offs@).len(),
        r <= offs@.len(),
{
    let ghost b = game@.board;
    let file = from % 8;
    let rank = from / 8;
    let mut count: usize = 0;
    let mut i: usize = 0;
    while i < offs.len()
        invariant
            0 <= i <= offs@.len(),
            offs@.len() <= 8,
            from < 64,
            b == game@.board,
            file == from % 8,
            rank == from / 8,
            forall|j: int| 0 <= j < offs@.len() ==> -2 <= #[trigger] offs@[j].0 <= 2 && -2 <= offs@[j].1 <= 2,
            count == step_moves(b, from as int, color, offs@.take(i as int)).len(),
            count <= i,
        decreases offs@.len() - i,
    {
        let (df, dr) = offs[i];
        assert(offs@.take(i + 1).drop_last() == offs@.take(i as int));
        let nf = file as i32 + df;
        let nr = rank as i32 + dr;
        if in_bounds(nf, nr) {
            let to = (nr * 8 + nf) as usize;
            let free = match game.piece_at(to) {
                None => true,
                Some(p) => p.color != color,
            };
            if free {
                count += 1;
            }
        }
        i += 1;
    }
    assert(offs@.take(i as int) == offs@);
    count
}

pub proof fn lemma_ray_short(
    b: Seq<Option<Piece>>,
    from: int,
    color: Color,
    f: int,
    r: int,
    df: int,
    dr: int,
)
    requires
        unit_step(df, dr),
        -1 <= f <= 8,
        -1 <= r <= 8,
    ensures
        crate::game::movegen::ray_moves(b, from, color, f, r, df, dr).len() <= crate::game::board::room(f, df) + crate::game::board::room(r, dr),
        crate::game::board::room(f, df) + crate::game::board::room(r, dr) <= 18,
    decreases crate::game::board::room(f, df) + crate::game::board::room(r, dr),
{
    if on_board(f, r) && b[sq(f, r)] is None {
        lemma_ray_short(b, from, color, f + df, r + dr, df, dr);
    }
}

fn count_slider_targets(game: &Chess, from: usize, color: Color, dirs: &[(i32, i32)]) -> (r: usize)
    requires
        from < 64,
        dirs@.len() <= 8,
        forall|i: int| 0 <= i < dirs@.len() ==> unit_step(#[trigger] dirs@[i].0 as int, dirs@[i].1 as int),
    ensures
        r == slider_moves(game@.board, from as int, color, dirs@).len(),
        r <= 144,
{
    let ghost b = game@.board;
    let file = from % 8;
    let rank = from / 8;
    let mut count: usize = 0;
    let mut i: usize = 0;
    while i < dirs.len()
        invariant
            0 <= i <= dirs@.len(),
            dirs@.len() <= 8,
            from < 64,
            b == game@.board,
            file == from % 8,
            rank == from / 8,
            forall|j: int| 0 <= j < dirs@.len() ==> unit_step(#[trigger] dirs@[j].0 as int, dirs@[j].1 as int),
            count == slider_moves(b, from as int, color, dirs@.take(i as int)).len(),
            count <= 18 * i,
        decreases dirs@.len() - i,
    {
        let (df, dr) = dirs[i];
        assert(dirs@.take(i + 1).drop_last() == dirs@.take(i as int));
        assert(unit_step(dirs@[i as int].0 as int, dirs@[i as int].1 as int));
        let ghost c0 = count;
        let mut nf = file as i32 + df;
        let mut nr = rank as i32 + dr;
        proof {
            lemma_ray_short(b, from as int, color, nf as int, nr as int, df as int, dr as int);
        }
        while in_bounds(nf, nr)
            invariant_except_break
                count + crate::game::movegen::ray_moves(b, from as int, color, nf as int, nr as int, df as int, dr as int).len()
                    == c0 + crate::game::movegen::ray_moves(b, from as int, color, file + df, rank + dr, df as int, dr as int).len(),
            invariant
                unit_step(df as int, dr as int),
                -1 <= nf <= 8,
                -1 <= nr <= 8,
                b == game@.board,
                from < 64,
                file == from % 8,
                rank == from / 8,
                i < 8,
                c0 <= 18 * i,
                count <= c0 + 18,
            ensures
                count == c0 + crate::game::movegen::ray_moves(b, from as int, color, file + df, rank + dr, df as int, dr as int).len(),
            decreases crate::game::board::room(nf as int, df as int) + crate::game::board::room(nr as int, dr as int),
        {
            proof {
                lemma_ray_short(b, from as int, color, nf as int, nr as int, df as int, dr as int);
                lemma_ray_short(b, from as int, color, file + df, rank + dr, df as int, dr as int);
                lemma_ray_short(b, from as int, color, nf + df, nr + dr, df as int, dr as int);
            }
            let to = (nr * 8 + nf) as usize;
            match game.piece_at(to) {
                Some(target) => {
                    if target.color != color {
                        count += 1;
                    }
                    break;
                },
                None => {},
            }
            count += 1;
            nf += df;
            nr += dr;
        }
        i += 1;
    }
    assert(dirs@.take(i as int) == dirs@);
    count
}

/// Pseudo targets of the piece `p` on `from` (see [`pseudo_targets`]).
pub(crate) fn count_pseudo_targets(game: &Chess, from: usize, piece: Piece) -> (r: usize)
    requires
        from < 64,
    ensures
        r == pseudo_targets(game@.board, from as int, piece),
        r <= 144,
{
    let ghost b = game@.board;
    let file = from % 8;
    let rank = from / 8;
    match piece.kind {
        PieceKind::Pawn => {
            let forward: i32 = if piece.color == Color::White {
                1
            } else {
                -1
            };
            assert(forward == pawn_forward(piece.color));
            let mut count: usize = 0;
            let nr = rank as i32 + forward;
            let nf = file as i32 - 1;
            if in_bounds(nf, nr) {
                let sq = (nr * 8 + nf) as usize;
                let free = match game.piece_at(sq) {
                    None => true,
                    Some(p) => p.color != piece.color,
                };
                if free {
                    count += 1;
                }
            }
            let nf = file as i32 + 1;
            if in_bounds(nf, nr) {
                let sq = (nr * 8 + nf) as usize;
                let free = match game.piece_at(sq) {
                    None => true,
                    Some(p) => p.color != piece.color,
                };
                if free {
                    count += 1;
                }
            }
            count
        },
        PieceKind::Knight => {
            let jumps = [(1i32, 2i32), (2, 1), (2, -1), (1, -2), (-1, -2), (-2, -1), (-2, 1), (-1, 2)];
            assert(jumps@ == knight_jumps());
            count_steps(game, from, piece.color, &jumps)
        },
        PieceKind::Bishop => {
            let dirs = [(1i32, 1i32), (1, -1), (-1, 1), (-1, -1)];
            assert(dirs@ == engine_diagonals());
            count_slider_targets(game, from, piece.color, &dirs)
        },
        PieceKind::Rook => {
            let dirs = [(1i32, 0i32), (-1, 0), (0, 1), (0, -1)];
            assert(dirs@ == engine_straights());
            count_slider_targets(game, from, piece.color, &dirs)
        },
        PieceKind::Queen => {
            let dirs = [(1i32, 1i32), (1, -1), (-1, 1), (-1, -1), (1, 0), (-1, 0), (0, 1), (0, -1)];
            assert(dirs@ == engine_queen_dirs());
            count_slider_targets(game, from, piece.color, &dirs)
        },
        PieceKind::King => {
            let steps = [(-1i32, -1i32), (-1, 0), (-1, 1), (0, -1), (0, 1), (1, -1), (1, 0), (1, 1)];
            assert(steps@ == king_steps());
            count_steps(game, from, piece.color, &steps)
        },
    }
}

/// Mobility term of `color` (see [`mobility_of`]).
pub fn mobility_estimate(game: &Chess, color: Color) -> (r: i32)
    ensures
        r == mobility_of(game@.board, color),
        0 <= r <= 2 * 144 * 64,
{
    let ghost b = game@.board;
    let mut moves: i32 = 0;
    let mut from: usize = 0;
    while from < 64
        invariant
            0 <= from <= 64,
            b == game@.board,
            moves == targets_upto(b, color, from as int),
            0 <= moves <= 144 * from,
        decreases 64 - from,
    {
        match game.piece_at(from) {
            Some(piece) => {
                if piece.color == color {
                    let c = count_pseudo_targets(game, from, piece);
                    moves += c as i32;
                }
            },
            None => {},
        }
        from += 1;
    }
    moves * 2
}

// ---------------------------------------------------------------------------
// Attacks
// ---------------------------------------------------------------------------

pub open spec fn sign(x: int) -> int {
    if x > 0 {
        1
    } else if x < 0 {
        -1
    } else {
        0
    }
}

/// `k` steps of direction `s` (a sign) along one coordinate.
pub open spec fn steps(k: int, s: int) -> int {
    if s > 0 {
        k
    } else if s < 0 {
        -k
    } else {
        0
    }
}

/// Walking from `(f, r)` in direction `(sf, sr)`, the squares before the
/// one `left` steps away are empty.
pub open spec fn clear_walk(b: Seq<Option<Piece>>, f: int, r: int, sf: int, sr: int, left: int) -> bool
    decreases left,
{
    if left <= 1 {
        true
    } else {
        b[sq(f + sf, r + sr)] is None && clear_walk(b, f + sf, r + sr, sf, sr, left - 1)
    }
}

/// A slider on `from` reaches `target` (displacement `(df, dr)`) along an
/// allowed line with every square in between empty.
pub open spec fn slider_reaches(
    b: Seq<Option<Piece>>,
    from: int,
    df: int,
    dr: int,
    allow_diag: bool,
    allow_straight: bool,
) -> bool {
    let is_diag = abs_int(df) == abs_int(dr) && abs_int(df) != 0;
    let is_straight = (df == 0) != (dr == 0);
    if !(allow_diag && is_diag || allow_straight && is_straight) {
        false
    } else {
        let n = if abs_int(df) > abs_int(dr) {
            abs_int(df)
        } else {
            abs_int(dr)
        };
        clear_walk(b, from % 8, from / 8, sign(df), sign(dr), n)
    }
}

/// The piece `p` on `from` attacks `target`.
pub open spec fn attacks(b: Seq<Option<Piece>>, from: int, p: Piece, target: int) -> bool {
    let df = target % 8 - from % 8;
    let dr = target / 8 - from / 8;
    if from == target {
        false
    } else {
        match p.kind {
            PieceKind::Pawn => dr == pawn_forward(p.color) && abs_int(df) == 1,
            PieceKind::Knight => (abs_int(df) == 1 && abs_int(dr) == 2) || (abs_int(df) == 2
                && abs_int(dr) == 1),
            PieceKind::King => abs_int(df) <= 1 && abs_int(dr) <= 1,
            PieceKind::Bishop => slider_reaches(b, from, df, dr, true, false),
            PieceKind::Rook => slider_reaches(b, from, df, dr, false, true),
            PieceKind::Queen => slider_reaches(b, from, df, dr, true, true),
        }
    }
}

fn slider_attacks(
    game: &Chess,
    from: usize,
    target: usize,
    df: i32,
    dr: i32,
    allow_diag: bool,
    allow_straight: bool,
) -> (r: bool)
    requires
        from < 64,
        target < 64,
        df == target % 8 - from % 8,
        dr == target / 8 - from / 8,
    ensures
        r == slider_reaches(game@.board, from as int, df as int, dr as int, allow_diag, allow_straight),
{
    let ghost b = game@.board;
    let abs_df = abs_i32(df);
    let abs_dr = abs_i32(dr);
    let is_diag = abs_df == abs_dr && abs_df != 0;
    let is_straight = (df == 0) != (dr == 0);
    if !(allow_diag && is_diag || allow_straight && is_straight) {
        return false;
    }
    let ghost n: int = if abs_df > abs_dr {
        abs_df as int
    } else {
        abs_dr as int
    };
    let step_f: i32 = if df > 0 {
        1
    } else if df < 0 {
        -1
    } else {
        0
    };
    let step_r: i32 = if dr > 0 {
        1
    } else if dr < 0 {
        -1
    } else {
        0
    };
    let ff = from % 8;
    let fr = from / 8;
    let mut f = ff;
    let mut r = fr;
    let ghost mut k: int = 0;
    assert(df as int == steps(n, step_f as int));
    assert(dr as int == steps(n, step_r as int));
    loop
        invariant
            from < 64,
            target < 64,
            b == game@.board,
            ff == from % 8,
            fr == from / 8,
            1 <= n <= 7,
            0 <= k < n,
            df as int == steps(n, step_f as int),
            dr as int == steps(n, step_r as int),
            -1 <= step_f <= 1,
            -1 <= step_r <= 1,
            step_f != 0 || step_r != 0,
            step_f as int == sign(df as int),
            step_r as int == sign(dr as int),
            n == (if abs_int(df as int) > abs_int(dr as int) { abs_int(df as int) } else { abs_int(dr as int) }),
            allow_diag && (abs_int(df as int) == abs_int(dr as int) && abs_int(df as int) != 0) || allow_straight && ((df == 0) != (dr == 0)),
            target % 8 == ff + df,
            target / 8 == fr + dr,
            f as int == ff + steps(k, step_f as int),
            r as int == fr + steps(k, step_r as int),
            clear_walk(b, ff as int, fr as int, step_f as int, step_r as int, n) == clear_walk(
                b,
                f as int,
                r as int,
                step_f as int,
                step_r as int,
                n - k,
            ),
        decreases n - k,
    {
        f = (f as i32 + step_f) as usize;
        r = (r as i32 + step_r) as usize;
        proof {
            k = k + 1;
        }
        proof {
            assert(0 <= f < 8 && 0 <= r < 8);
            assert(target == (target / 8) * 8 + target % 8);
            if k == n {
                assert(f == target % 8 && r == target / 8);
            }
        }
        let s = r * 8 + f;
        if s == target {
            proof {
                assert(f == target % 8 && r == target / 8);
                assert(k == n);
            }
            return true;
        }
        if game.piece_at(s).is_some() {
            return false;
        }
    }
}

/// Whether the piece `p` on `from` attacks `target` (see [`attacks`]).
pub(crate) fn attacks_square(game: &Chess, from: usize, piece: Piece, target: usize) -> (r: bool)
    requires
        from < 64,
        target < 64,
    ensures
        r == attacks(game@.board, from as int, piece, target as int),
{
    if from == target {
        return false;
    }
    let file = (from % 8) as i32;
    let rank = (from / 8) as i32;
    let to_file = (target % 8) as i32;
    let to_rank = (target / 8) as i32;
    let df = to_file - file;
    let dr = to_rank - rank;
    match piece.kind {
        PieceKind::Pawn => {
            let forward: i32 = if piece.color == Color::White {
                1
            } else {
                -1
            };
            dr == forward && abs_i32(df) == 1
        },
        PieceKind::Knight => (abs_i32(df) == 1 && abs_i32(dr) == 2) || (abs_i32(df) == 2 && abs_i32(
            dr,
        ) == 1),
        PieceKind::King => abs_i32(df) <= 1 && abs_i32(dr) <= 1,
        PieceKind::Bishop => slider_attacks(game, from, target, df, dr, true, false),
        PieceKind::Rook => slider_attacks(game, from, target, df, dr, false, true),
        PieceKind::Queen => slider_attacks(game, from, target, df, dr, true, true),
    }
}

/// Some piece of `by` on squares `0..n` attacks `s`.
pub open spec fn attacked_upto(b: Seq<Option<Piece>>, s: int, by: Color, n: int) -> bool
    decreases n,
{
    if n <= 0 {
        false
    } else {
        attacked_upto(b, s, by, n - 1) || match b[n - 1] {
            Some(p) => p.color == by && attacks(b, n - 1, p, s),
            None => false,
        }
    }
}

/// Whether any piece of `by` attacks `sq` (see [`attacks`]).
pub(crate) fn is_square_attacked(game: &Chess, sq: usize, by: Color) -> (r: bool)
    requires
        sq < 64,
    ensures
        r == attacked_upto(game@.board, sq as int, by, 64),
{
    let ghost b = game@.board;
    let mut from: usize = 0;
    while from < 64
        invariant
            0 <= from <= 64,
            sq < 64,
            b == game@.board,
            !attacked_upto(b, sq as int, by, from as int),
        decreases 64 - from,
    {
        match game.piece_at(from) {
            Some(piece) => {
                if piece.color == by && attacks_square(game, from, piece, sq) {
                    proof {
                        lemma_attacked_grows(b, sq as int, by, from as int + 1);
                    }
                    return true;
                }
            },
            None => {},
        }
        from += 1;
    }
    false
}

pub proof fn lemma_attacked_grows(b: Seq<Option<Piece>>, s: int, by: Color, n: int)
    requires
        0 <= n <= 64,
        attacked_upto(b, s, by, n),
    ensures
        attacked_upto(b, s, by, 64),
    decreases 64 - n,
{
    if n < 64 {
        lemma_attacked_grows(b, s, by, n + 1);
    }
}

// ---------------------------------------------------------------------------
// King terms
// ---------------------------------------------------------------------------

pub open spec fn pressure_weight(kind: PieceKind) -> int {
    match kind {
        PieceKind::Queen => 16,
        PieceKind::Rook => 10,
        PieceKind::Bishop => 7,
        PieceKind::Knight => 7,
        PieceKind::Pawn => 3,
        PieceKind::King => 0,
    }
}

/// Pressure of `attacker`'s pieces on squares `0..n` against the enemy king on
/// `k`: a weight per piece within Manhattan distance 3, plus 8 per piece
/// attacking the king's square.
pub open spec fn pressure_upto(b: Seq<Option<Piece>>, k: int, attacker: Color, n: int) -> int
    decreases n,
{
    if n <= 0 {
        0
    } else {
        pressure_upto(b, k, attacker, n - 1) + match b[n - 1] {
            Some(p) => if p.color != attacker {
                0
            } else {
                let from = n - 1;
                let dist = abs_int(k % 8 - from % 8) + abs_int(k / 8 - from / 8);
                (if dist <= 3 {
                    pressure_weight(p.kind)
                } else {
                    0
                }) + (if attacks(b, from, p, k) {
                    8int
                } else {
                    0int
                })
            },
            None => 0,
        }
    }
}

pub(crate) fn king_pressure(game: &Chess, enemy_king: usize, attacker: Color) -> (r: i32)
    requires
        enemy_king < 64,
    ensures
        r == pressure_upto(game@.board, enemy_king as int, attacker, 64),
        0 <= r <= 24 * 64,
{
    let ghost b = game@.board;
    let mut pressure: i32 = 0;
    let kf = enemy_king % 8;
    let kr = enemy_king / 8;
    let mut from: usize = 0;
    while from < 64
        invariant
            0 <= from <= 64,
            enemy_king < 64,
            kf == enemy_king % 8,
            kr == enemy_king / 8,
            b == game@.board,
            pressure == pressure_upto(b, enemy_king as int, attacker, from as int),
            0 <= pressure <= 24 * from,
        decreases 64 - from,
    {
        match game.piece_at(from) {
            Some(piece) => {
                if piece.color == attacker {
                    let ff = from % 8;
                    let fr = from / 8;
                    let dist = abs_i32(kf as i32 - ff as i32) + abs_i32(kr as i32 - fr as i32);
                    if dist <= 3 {
                        pressure += match piece.kind {
                            PieceKind::Queen => 16,
                            PieceKind::Rook => 10,
                            PieceKind::Bishop | PieceKind::Knight => 7,
                            PieceKind::Pawn => 3,
                            PieceKind::King => 0,
                        };
                    }
                    if attacks_square(game, from, piece, enemy_king) {
                        pressure += 8;
                    }
                }
            },
            None => {},
        }
        from += 1;
    }
    pressure
}

/// One square of the pawn shelter in front of a king: +12 for an own pawn,
/// -10 otherwise, nothing off the board.
pub open spec fn shelter_term(b: Seq<Option<Piece>>, f: int, r: int, color: Color) -> int {
    if !on_board(f, r) {
        0
    } else if b[sq(f, r)] == Some(Piece { color, kind: PieceKind::Pawn }) {
        12
    } else {
        -10
    }
}

/// King safety in middlegames (total material above 2200): pawn shelter on
/// the three squares in front of the king, plus twice the king's distance
/// from the center; zero otherwise.
pub open spec fn king_safety_of(b: Seq<Option<Piece>>, k: int, color: Color, total_material: int) -> int {
    if total_material > 2200 {
        let f = k % 8;
        let r = k / 8;
        let fw = pawn_forward(color);
        shelter_term(b, f - 1, r + fw, color) + shelter_term(b, f, r + fw, color) + shelter_term(
            b,
            f + 1,
            r + fw,
            color,
        ) + (abs_int(f - 3) + abs_int(r - 3)) * 2
    } else {
        0
    }
}

pub(crate) fn king_safety(game: &Chess, king_sq: usize, color: Color, total_material: i32) -> (r: i32)
    requires
        king_sq < 64,
    ensures
        r == king_safety_of(game@.board, king_sq as int, color, total_material as int),
        -100 <= r <= 100,
{
    let file = (king_sq % 8) as i32;
    let rank = (king_sq / 8) as i32;
    let mut score: i32 = 0;
    if total_material > 2200 {
        let forward: i32 = if color == Color::White {
            1
        } else {
            -1
        };
        assert(forward == pawn_forward(color));
        let dfs = [-1i32, 0, 1];
        let mut k: usize = 0;
        while k < 3
            invariant
                0 <= k <= 3,
                dfs@ == seq![-1i32, 0i32, 1i32],
                0 <= file < 8,
                0 <= rank < 8,
                file == king_sq % 8,
                rank == king_sq / 8,
                forward == pawn_forward(color),
                score == (if k >= 1 { shelter_term(game@.board, file - 1, rank + forward, color) } else { 0 })
                    + (if k >= 2 { shelter_term(game@.board, file as int, rank + forward, color) } else { 0 })
                    + (if k >= 3 { shelter_term(game@.board, file + 1, rank + forward, color) } else { 0 }),
                -30 <= score <= 36,
            decreases 3 - k,
        {
            let nf = file + dfs[k];
            let nr = rank + forward;
            if in_bounds(nf, nr) {
                let sq = (nr * 8 + nf) as usize;
                let own_pawn = match game.piece_at(sq) {
                    Some(p) => p.color == color && p.kind == PieceKind::Pawn,
                    None => false,
                };
                if own_pawn {
                    score += 12;
                } else {
                    score -= 10;
                }
            }
            k += 1;
        }
        let center_distance = abs_i32(file - 3) + abs_i32(rank - 3);
        score += center_distance * 2;
    }
    score
}

// ---------------------------------------------------------------------------
// Whole-board evaluation
// ---------------------------------------------------------------------------

/// Material plus piece-square score of squares `0..n`, White minus Black.
pub open spec fn placement_upto(b: Seq<Option<Piece>>, n: int) -> int
    decreases n,
{
    if n <= 0 {
        0
    } else {
        placement_upto(b, n - 1) + match b[n - 1] {
            Some(p) => {
                let add = material_value_of(p.kind) + piece_square_of(p.kind, p.color, n - 1);
                if p.color == Color::White {
                    add
                } else {
                    -add
                }
            },
            None => 0,
        }
    }
}

/// Material of `color` on squares `0..n`.
pub open spec fn material_upto(b: Seq<Option<Piece>>, color: Color, n: int) -> int
    decreases n,
{
    if n <= 0 {
        0
    } else {
        material_upto(b, color, n - 1) + match b[n - 1] {
            Some(p) => if p.color == color {
                material_value_of(p.kind)
            } else {
                0
            },
            None => 0,
        }
    }
}

/// The highest square below `n` holding the king of `color`.
pub open spec fn last_king_upto(b: Seq<Option<Piece>>, color: Color, n: int) -> Option<int>
    decreases n,
{
    if n <= 0 {
        None
    } else if b[n - 1] == Some(Piece { color, kind: PieceKind::King }) {
        Some(n - 1)
    } else {
        last_king_upto(b, color, n - 1)
    }
}

/// Static evaluation in centipawns from White's perspective: material and
/// piece-square terms, mobility, king safety, a penalty of 35 for a king in
/// check, and pressure against the enemy king.
pub open spec fn evaluation(b: Seq<Option<Piece>>) -> int {
    let total = material_upto(b, Color::White, 64) + material_upto(b, Color::Black, 64);
    let wk = last_king_upto(b, Color::White, 64);
    let bk = last_king_upto(b, Color::Black, 64);
    let base = placement_upto(b, 64) + mobility_of(b, Color::White) - mobility_of(b, Color::Black);
    let white_terms = match wk {
        Some(k) => king_safety_of(b, k, Color::White, total) - (if attacked_upto(b, k, Color::Black, 64) {
            35int
        } else {
            0int
        }),
        None => 0,
    };
    let black_terms = match bk {
        Some(k) => -king_safety_of(b, k, Color::Black, total) + (if attacked_upto(b, k, Color::White, 64) {
            35int
        } else {
            0int
        }),
        None => 0,
    };
    let pressure = (match bk {
        Some(k) => pressure_upto(b, k, Color::White, 64),
        None => 0,
    }) - (match wk {
        Some(k) => pressure_upto(b, k, Color::Black, 64),
        None => 0,
    });
    base + white_terms + black_terms + pressure
}

pub proof fn lemma_last_king_range(b: Seq<Option<Piece>>, color: Color, n: int)
    ensures
        last_king_upto(b, color, n) matches Some(k) ==> 0 <= k < n,
    decreases n,
{
    if n > 0 {
        lemma_last_king_range(b, color, n - 1);
    }
}

/// Static evaluation of `game` (see [`evaluation`]).
pub fn evaluate_for_white(game: &Chess) -> (r: i32)
    ensures
        r == evaluation(game@.board),
        -200_000 <= r <= 200_000,
{
    let ghost b = game@.board;
    let mut score: i32 = 0;
    let mut white_material: i32 = 0;
    let mut black_material: i32 = 0;
    let mut white_king: Option<usize> = None;
    let mut black_king: Option<usize> = None;
    let mut idx: usize = 0;
    while idx < 64
        invariant
            0 <= idx <= 64,
            b == game@.board,
            score == placement_upto(b, idx as int),
            white_material == material_upto(b, Color::White, idx as int),
            black_material == material_upto(b, Color::Black, idx as int),
            -1000 * idx <= score <= 1000 * idx,
            0 <= white_material <= 900 * idx,
            0 <= black_material <= 900 * idx,
            match white_king {
                Some(k) => last_king_upto(b, Color::White, idx as int) == Some(k as int) && k < 64,
                None => last_king_upto(b, Color::White, idx as int) is None,
            },
            match black_king {
                Some(k) => last_king_upto(b, Color::Black, idx as int) == Some(k as int) && k < 64,
                None => last_king_upto(b, Color::Black, idx as int) is None,
            },
        decreases 64 - idx,
    {
        match game.piece_at(idx) {
            Some(piece) => {
                let piece_value = material_value(piece.kind);
                let pst = piece_square(piece.kind, piece.color, idx);
                let add = piece_value + pst;
                match piece.color {
                    Color::White => {
                        score += add;
                        white_material += piece_value;
                        if piece.kind == PieceKind::King {
                            white_king = Some(idx);
                        }
                    },
                    Color::Black => {
                        score -= add;
                        black_material += piece_value;
                        if piece.kind == PieceKind::King {
                            black_king = Some(idx);
                        }
                    },
                }
            },
            None => {},
        }
        idx += 1;
    }
    score += mobility_estimate(game, Color::White);
    score -= mobility_estimate(game, Color::Black);
    let total = white_material + black_material;
    match white_king {
        Some(king_sq) => {
            score += king_safety(game, king_sq, Color::White, total);
            if is_square_attacked(game, king_sq, Color::Black) {
                score -= CHECK_BONUS;
            }
        },
        None => {},
    }
    match black_king {
        Some(king_sq) => {
            score -= king_safety(game, king_sq, Color::Black, total);
            if is_square_attacked(game, king_sq, Color::White) {
                score += CHECK_BONUS;
            }
        },
        None => {},
    }
    match black_king {
        Some(enemy_king) => {
            score += king_pressure(game, enemy_king, Color::White);
        },
        None => {},
    }
    match white_king {
        Some(enemy_king) => {
            score -= king_pressure(game, enemy_king, Color::Black);
        },
        None => {},
    }
    score
}

/// Evaluation from the side to move's perspective.
pub open spec fn side_evaluation(b: Seq<Option<Piece>>, turn: Color) -> int {
    if turn == Color::White {
        evaluation(b)
    } else {
        -evaluation(b)
    }
}

/// Converts White-centric evaluation to side-to-move perspective.
pub fn eval_for_side_to_move(game: &Chess) -> (r: i32)
    ensures
        r == side_evaluation(game@.board, game@.turn),
        -200_000 <= r <= 200_000,
{
    let white_eval = evaluate_for_white(game);
    match game.current_turn() {
        Color::White => white_eval,
        Color::Black => -white_eval,
    }
}

// ---------------------------------------------------------------------------
// Move ordering
// ---------------------------------------------------------------------------

/// Ordering score of a move: eight times the value of a captured piece, five
/// times the value of a promotion piece, plus closeness of the target to the
/// center.
pub open spec fn heuristic(b: Seq<Option<Piece>>, mv: Move) -> int {
    let cap = if mv.to < 64 && b[mv.to as int] is Some {
        8 * material_value_of(b[mv.to as int]->0.kind)
    } else {
        0
    };
    let promo = match mv.promotion {
        Some(k) => 5 * material_value_of(k),
        None => 0,
    };
    cap + promo + (3 - abs_int(mv.to % 8 - 3)) + (3 - abs_int(mv.to / 8 - 3))
}

/// Lightweight tactical/positional move score for ordering.
pub(crate) fn move_heuristic(game: &Chess, mv: Move) -> (r: i32)
    requires
        mv.to < 64,
    ensures
        r == heuristic(game@.board, mv),
        -20 <= r <= 12000,
{
    let mut score: i32 = 0;
    match game.piece_at(mv.to) {
        Some(captured) => {
            score += 8 * material_value(captured.kind);
        },
        None => {},
    }
    match mv.promotion {
        Some(promo) => {
            score += 5 * material_value(promo);
        },
        None => {},
    }
    let to_file = (mv.to % 8) as i32;
    let to_rank = (mv.to / 8) as i32;
    score + (3 - abs_i32(to_file - 3)) + (3 - abs_i32(to_rank - 3))
}

} // verus!
