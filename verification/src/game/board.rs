//! Board geometry and attack detection on a raw board.

use vstd::prelude::*;

use super::{Color, Piece, PieceKind};

verus! {

// ---------------------------------------------------------------------------
// Board geometry
// ---------------------------------------------------------------------------

pub open spec fn opposite(c: Color) -> Color {
    match c {
        Color::White => Color::Black,
        Color::Black => Color::White,
    }
}

/// Index of the square on `file` and `rank`.
pub open spec fn sq(f: int, r: int) -> int {
    r * 8 + f
}

pub open spec fn on_board(f: int, r: int) -> bool {
    0 <= f < 8 && 0 <= r < 8
}

/// Distance to the edge of the board when walking from `x` in direction `d`.
pub open spec fn room(x: int, d: int) -> int {
    if d > 0 {
        8 - x
    } else if d < 0 {
        x + 1
    } else {
        0
    }
}

/// A direction of a ray: one step in each coordinate, not standing still.
pub open spec fn unit_step(df: int, dr: int) -> bool {
    -1 <= df <= 1 && -1 <= dr <= 1 && (df != 0 || dr != 0)
}

pub open spec fn has_piece(b: Seq<Option<Piece>>, f: int, r: int, p: Piece) -> bool {
    on_board(f, r) && b[sq(f, r)] == Some(p)
}

/// Whether `p` stands on one of the squares `(f, r) + offs[i]`.
pub open spec fn piece_at_offsets(
    b: Seq<Option<Piece>>,
    f: int,
    r: int,
    offs: Seq<(i32, i32)>,
    p: Piece,
) -> bool
    decreases offs.len(),
{
    if offs.len() == 0 {
        false
    } else {
        piece_at_offsets(b, f, r, offs.drop_last(), p) || has_piece(
            b,
            f + offs.last().0,
            r + offs.last().1,
            p,
        )
    }
}

/// The first piece met when walking from `(f, r)` (inclusive) in direction `(df, dr)`.
pub open spec fn ray_blocker(b: Seq<Option<Piece>>, f: int, r: int, df: int, dr: int) -> Option<
    Piece,
>
    decreases room(f, df) + room(r, dr),
    when unit_step(df, dr) && -1 <= f <= 8 && -1 <= r <= 8
{
    if !on_board(f, r) {
        None
    } else if b[sq(f, r)] is Some {
        b[sq(f, r)]
    } else {
        ray_blocker(b, f + df, r + dr, df, dr)
    }
}

/// Whether the first piece seen from `(f, r)` along `(df, dr)` is of color `by`
/// and of kind `k1` or `k2`.
pub open spec fn ray_hits(
    b: Seq<Option<Piece>>,
    f: int,
    r: int,
    df: int,
    dr: int,
    by: Color,
    k1: PieceKind,
    k2: PieceKind,
) -> bool {
    match ray_blocker(b, f + df, r + dr, df, dr) {
        Some(p) => p.color == by && (p.kind == k1 || p.kind == k2),
        None => false,
    }
}

pub open spec fn any_ray_hits(
    b: Seq<Option<Piece>>,
    f: int,
    r: int,
    dirs: Seq<(i32, i32)>,
    by: Color,
    k1: PieceKind,
    k2: PieceKind,
) -> bool
    decreases dirs.len(),
{
    if dirs.len() == 0 {
        false
    } else {
        any_ray_hits(b, f, r, dirs.drop_last(), by, k1, k2) || ray_hits(
            b,
            f,
            r,
            dirs.last().0 as int,
            dirs.last().1 as int,
            by,
            k1,
            k2,
        )
    }
}

pub open spec fn knight_jumps() -> Seq<(i32, i32)> {
    seq![(1i32, 2i32), (2i32, 1i32), (2i32, -1i32), (1i32, -2i32), (-1i32, -2i32), (-2i32, -1i32), (-2i32, 1i32), (-1i32, 2i32)]
}

pub open spec fn king_steps() -> Seq<(i32, i32)> {
    seq![(-1i32, -1i32), (-1i32, 0i32), (-1i32, 1i32), (0i32, -1i32), (0i32, 1i32), (1i32, -1i32), (1i32, 0i32), (1i32, 1i32)]
}

pub open spec fn bishop_dirs() -> Seq<(i32, i32)> {
    seq![(1i32, 1i32), (-1i32, 1i32), (1i32, -1i32), (-1i32, -1i32)]
}

pub open spec fn rook_dirs() -> Seq<(i32, i32)> {
    seq![(1i32, 0i32), (-1i32, 0i32), (0i32, 1i32), (0i32, -1i32)]
}

pub open spec fn queen_dirs() -> Seq<(i32, i32)> {
    bishop_dirs() + rook_dirs()
}

/// Rank step from a square to the squares from which a pawn of `by` attacks it.
pub open spec fn pawn_attack_dir(by: Color) -> i32 {
    match by {
        Color::White => -1i32,
        Color::Black => 1i32,
    }
}

/// Whether square `s` is attacked by a piece of color `by`: a pawn diagonally
/// behind it (from `by`'s point of view), a knight a knight's jump away, a
/// bishop/queen or rook/queen as the first piece along a diagonal or straight
/// ray, or a king on an adjacent square.
pub open spec fn attacked_by(b: Seq<Option<Piece>>, s: int, by: Color) -> bool {
    let f = s % 8;
    let r = s / 8;
    let pd = pawn_attack_dir(by);
    ||| piece_at_offsets(b, f, r, seq![(-1i32, pd), (1i32, pd)], Piece { color: by, kind: PieceKind::Pawn })
    ||| piece_at_offsets(b, f, r, knight_jumps(), Piece { color: by, kind: PieceKind::Knight })
    ||| any_ray_hits(b, f, r, bishop_dirs(), by, PieceKind::Bishop, PieceKind::Queen)
    ||| any_ray_hits(b, f, r, rook_dirs(), by, PieceKind::Rook, PieceKind::Queen)
    ||| piece_at_offsets(b, f, r, king_steps(), Piece { color: by, kind: PieceKind::King })
}

/// The lowest square holding the king of `color`, scanning from square `i`.
pub open spec fn king_square_from(b: Seq<Option<Piece>>, color: Color, i: int) -> Option<int>
    decreases 64 - i,
{
    if i >= 64 || i < 0 {
        None
    } else if b[i] == Some(Piece { color, kind: PieceKind::King }) {
        Some(i)
    } else {
        king_square_from(b, color, i + 1)
    }
}

pub open spec fn king_square(b: Seq<Option<Piece>>, color: Color) -> Option<int> {
    king_square_from(b, color, 0)
}

/// The king of `color` (the first one found) stands on an attacked square.
pub open spec fn in_check(b: Seq<Option<Piece>>, color: Color) -> bool {
    match king_square(b, color) {
        Some(k) => attacked_by(b, k, opposite(color)),
        None => false,
    }
}

// ---------------------------------------------------------------------------
// Small executable helpers
// ---------------------------------------------------------------------------

impl Color {
    /// The other side.
    pub fn opposite(self) -> (r: Color)
        ensures
            r == opposite(self),
    {
        match self {
            Color::White => Color::Black,
            Color::Black => Color::White,
        }
    }
}

/// Converts board index to `(file, rank)`.
pub fn idx_to_file_rank(idx: usize) -> (r: (usize, usize))
    ensures
        r.0 == idx % 8,
        r.1 == idx / 8,
{
    (idx % 8, idx / 8)
}

/// Converts `(file, rank)` to board index.
pub fn file_rank_to_idx(file: usize, rank: usize) -> (r: usize)
    requires
        rank * 8 + file <= usize::MAX,
    ensures
        r == rank * 8 + file,
{
    rank * 8 + file
}

/// Returns whether a `(file, rank)` pair is on board.
pub fn in_bounds(file: i32, rank: i32) -> (r: bool)
    ensures
        r == on_board(file as int, rank as int),
{
    0 <= file && file < 8 && 0 <= rank && rank < 8
}

/// Returns square color parity used for bishop-color comparisons.
pub fn square_color(idx: usize) -> (r: bool)
    ensures
        r == ((idx % 8 + idx / 8) % 2 == 0),
{
    let (file, rank) = idx_to_file_rank(idx);
    (file + rank) % 2 == 0
}

/// Whether two squares hold the same content.
pub fn same_square_content(a: Option<Piece>, b: Option<Piece>) -> (r: bool)
    ensures
        r == (a == b),
{
    match (a, b) {
        (None, None) => true,
        (Some(x), Some(y)) => x == y,
        _ => false,
    }
}

// ---------------------------------------------------------------------------
// Attack detection on a raw board
// ---------------------------------------------------------------------------

fn board_has_piece(board: &[Option<Piece>; 64], f: i32, r: i32, p: Piece) -> (res: bool)
    ensures
        res == has_piece(board@, f as int, r as int, p),
{
    if in_bounds(f, r) {
        let idx = file_rank_to_idx(f as usize, r as usize);
        same_square_content(board[idx], Some(p))
    } else {
        false
    }
}

fn board_piece_at_offsets(
    board: &[Option<Piece>; 64],
    f: i32,
    r: i32,
    offs: &[(i32, i32)],
    p: Piece,
) -> (res: bool)
    requires
        -8 <= f <= 8,
        -8 <= r <= 8,
        forall|i: int| 0 <= i < offs@.len() ==> -2 <= #[trigger] offs@[i].0 <= 2 && -2 <= offs@[i].1 <= 2,
    ensures
        res == piece_at_offsets(board@, f as int, r as int, offs@, p),
{
    let mut i: usize = 0;
    while i < offs.len()
        invariant
            0 <= i <= offs@.len(),
            -8 <= f <= 8,
            -8 <= r <= 8,
            forall|j: int| 0 <= j < offs@.len() ==> -2 <= #[trigger] offs@[j].0 <= 2 && -2 <= offs@[j].1 <= 2,
            !piece_at_offsets(board@, f as int, r as int, offs@.take(i as int), p),
        decreases offs@.len() - i,
    {
        let (df, dr) = offs[i];
        assert(offs@.take(i + 1).drop_last() == offs@.take(i as int));
        if board_has_piece(board, f + df, r + dr, p) {
            proof {
                lemma_offsets_prefix(board@, f as int, r as int, offs@, p, i as int + 1);
            }
            return true;
        }
        i += 1;
    }
    assert(offs@.take(i as int) == offs@);
    false
}

pub proof fn lemma_offsets_prefix(
    b: Seq<Option<Piece>>,
    f: int,
    r: int,
    offs: Seq<(i32, i32)>,
    p: Piece,
    n: int,
)
    requires
        0 <= n <= offs.len(),
        piece_at_offsets(b, f, r, offs.take(n), p),
    ensures
        piece_at_offsets(b, f, r, offs, p),
    decreases offs.len() - n,
{
    if n < offs.len() {
        assert(offs.take(n + 1).drop_last() == offs.take(n));
        lemma_offsets_prefix(b, f, r, offs, p, n + 1);
    } else {
        assert(offs.take(n) == offs);
    }
}

fn board_ray_hits(
    board: &[Option<Piece>; 64],
    f: i32,
    r: i32,
    df: i32,
    dr: i32,
    by: Color,
    k1: PieceKind,
    k2: PieceKind,
) -> (res: bool)
    requires
        on_board(f as int, r as int),
        unit_step(df as int, dr as int),
    ensures
        res == ray_hits(board@, f as int, r as int, df as int, dr as int, by, k1, k2),
{
    let mut nf = f + df;
    let mut nr = r + dr;
    while in_bounds(nf, nr)
        invariant
            unit_step(df as int, dr as int),
            -1 <= nf <= 8,
            -1 <= nr <= 8,
            ray_blocker(board@, nf as int, nr as int, df as int, dr as int) == ray_blocker(
                board@,
                f + df,
                r + dr,
                df as int,
                dr as int,
            ),
        decreases room(nf as int, df as int) + room(nr as int, dr as int),
    {
        let idx = file_rank_to_idx(nf as usize, nr as usize);
        if let Some(piece) = board[idx] {
            return piece.color == by && (piece.kind == k1 || piece.kind == k2);
        }
        nf = nf + df;
        nr = nr + dr;
    }
    false
}

fn board_any_ray_hits(
    board: &[Option<Piece>; 64],
    f: i32,
    r: i32,
    dirs: &[(i32, i32)],
    by: Color,
    k1: PieceKind,
    k2: PieceKind,
) -> (res: bool)
    requires
        on_board(f as int, r as int),
        forall|i: int| 0 <= i < dirs@.len() ==> unit_step(#[trigger] dirs@[i].0 as int, dirs@[i].1 as int),
    ensures
        res == any_ray_hits(board@, f as int, r as int, dirs@, by, k1, k2),
{
    let mut i: usize = 0;
    while i < dirs.len()
        invariant
            0 <= i <= dirs@.len(),
            on_board(f as int, r as int),
            forall|j: int| 0 <= j < dirs@.len() ==> unit_step(#[trigger] dirs@[j].0 as int, dirs@[j].1 as int),
            !any_ray_hits(board@, f as int, r as int, dirs@.take(i as int), by, k1, k2),
        decreases dirs@.len() - i,
    {
        let (df, dr) = dirs[i];
        assert(dirs@.take(i + 1).drop_last() == dirs@.take(i as int));
        assert(unit_step(dirs@[i as int].0 as int, dirs@[i as int].1 as int));
        if board_ray_hits(board, f, r, df, dr, by, k1, k2) {
            proof {
                lemma_rays_prefix(board@, f as int, r as int, dirs@, by, k1, k2, i as int + 1);
            }
            return true;
        }
        i += 1;
    }
    assert(dirs@.take(i as int) == dirs@);
    false
}

pub proof fn lemma_rays_prefix(
    b: Seq<Option<Piece>>,
    f: int,
    r: int,
    dirs: Seq<(i32, i32)>,
    by: Color,
    k1: PieceKind,
    k2: PieceKind,
    n: int,
)
    requires
        0 <= n <= dirs.len(),
        any_ray_hits(b, f, r, dirs.take(n), by, k1, k2),
    ensures
        any_ray_hits(b, f, r, dirs, by, k1, k2),
    decreases dirs.len() - n,
{
    if n < dirs.len() {
        assert(dirs.take(n + 1).drop_last() == dirs.take(n));
        lemma_rays_prefix(b, f, r, dirs, by, k1, k2, n + 1);
    } else {
        assert(dirs.take(n) == dirs);
    }
}

/// Whether square `sq` is attacked by any piece of color `by`.
pub(crate) fn board_square_attacked(board: &[Option<Piece>; 64], sq: usize, by: Color) -> (res: bool)
    requires
        sq < 64,
    ensures
        res == attacked_by(board@, sq as int, by),
{
    let (file, rank) = idx_to_file_rank(sq);
    let file = file as i32;
    let rank = rank as i32;
    let pawn_dir: i32 = match by {
        Color::White => -1,
        Color::Black => 1,
    };
    let pawn_offsets = [(-1i32, pawn_dir), (1i32, pawn_dir)];
    assert(pawn_offsets@ == seq![(-1i32, pawn_attack_dir(by)), (1i32, pawn_attack_dir(by))]);
    if board_piece_at_offsets(board, file, rank, &pawn_offsets, Piece { color: by, kind: PieceKind::Pawn }) {
        return true;
    }
    let knight_offsets = [(1i32, 2i32), (2, 1), (2, -1), (1, -2), (-1, -2), (-2, -1), (-2, 1), (-1, 2)];
    assert(knight_offsets@ == knight_jumps());
    if board_piece_at_offsets(board, file, rank, &knight_offsets, Piece { color: by, kind: PieceKind::Knight }) {
        return true;
    }
    let diagonals = [(1i32, 1i32), (-1, 1), (1, -1), (-1, -1)];
    assert(diagonals@ == bishop_dirs());
    if board_any_ray_hits(board, file, rank, &diagonals, by, PieceKind::Bishop, PieceKind::Queen) {
        return true;
    }
    let straights = [(1i32, 0i32), (-1, 0), (0, 1), (0, -1)];
    assert(straights@ == rook_dirs());
    if board_any_ray_hits(board, file, rank, &straights, by, PieceKind::Rook, PieceKind::Queen) {
        return true;
    }
    let neighbours = [(-1i32, -1i32), (-1, 0), (-1, 1), (0, -1), (0, 1), (1, -1), (1, 0), (1, 1)];
    assert(neighbours@ == king_steps());
    board_piece_at_offsets(board, file, rank, &neighbours, Piece { color: by, kind: PieceKind::King })
}

/// The lowest square holding the king of `color`, if any.
pub fn board_king_square(board: &[Option<Piece>; 64], color: Color) -> (res: Option<usize>)
    ensures
        match res {
            Some(i) => king_square(board@, color) == Some(i as int),
            None => king_square(board@, color) is None,
        },
{
    let mut i: usize = 0;
    while i < 64
        invariant
            0 <= i <= 64,
            king_square_from(board@, color, 0) == king_square_from(board@, color, i as int),
        decreases 64 - i,
    {
        if same_square_content(board[i], Some(Piece { color, kind: PieceKind::King })) {
            return Some(i);
        }
        i += 1;
    }
    None
}

/// Whether the king of `color` is attacked on this board.
pub fn board_in_check(board: &[Option<Piece>; 64], color: Color) -> (res: bool)
    ensures
        res == in_check(board@, color),
{
    match board_king_square(board, color) {
        Some(k) => {
            proof {
                lemma_king_square_range(board@, color, 0);
            }
            board_square_attacked(board, k, color.opposite())
        },
        None => false,
    }
}

pub proof fn lemma_king_square_range(b: Seq<Option<Piece>>, color: Color, i: int)
    ensures
        king_square_from(b, color, i) matches Some(k) ==> 0 <= k < 64,
    decreases 64 - i,
{
    if 0 <= i < 64 {
        lemma_king_square_range(b, color, i + 1);
    }
}

} // verus!
