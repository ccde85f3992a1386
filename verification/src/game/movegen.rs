//! Pseudo-legal move generation.
//!
//! Moves are produced square by square from `a1` (index 0) to `h8` (index
//! 63); the order is fixed and the specifications below describe it.

use vstd::prelude::*;

use super::{CastlingRights, Color, LegalMove, Move, MoveKind, Piece, PieceKind};
use super::board::{
    attacked_by, bishop_dirs, board_square_attacked, file_rank_to_idx, idx_to_file_rank,
    in_bounds, king_steps, knight_jumps, on_board, opposite, queen_dirs, rook_dirs, room, sq,
    unit_step,
};

verus! {

// ---------------------------------------------------------------------------
// Specification of the generated move lists
// ---------------------------------------------------------------------------

/// A plain move (including captures) from `from` to `to`.
pub open spec fn quiet(from: int, to: int) -> LegalMove {
    LegalMove {
        mv: Move { from: from as usize, to: to as usize, promotion: None },
        kind: MoveKind::Quiet,
    }
}

/// A pawn move from `from` to `to` that promotes to `k`.
pub open spec fn promotion_move(from: int, to: int, k: PieceKind) -> LegalMove {
    LegalMove {
        mv: Move { from: from as usize, to: to as usize, promotion: Some(k) },
        kind: MoveKind::Promotion,
    }
}

/// Square `s` is empty or holds a piece of the other side.
pub open spec fn free_for(b: Seq<Option<Piece>>, s: int, color: Color) -> bool {
    match b[s] {
        None => true,
        Some(p) => p.color != color,
    }
}

/// One move per offset that lands on the board on an empty or enemy square.
pub open spec fn step_moves(
    b: Seq<Option<Piece>>,
    from: int,
    color: Color,
    offs: Seq<(i32, i32)>,
) -> Seq<LegalMove>
    decreases offs.len(),
{
    if offs.len() == 0 {
        seq![]
    } else {
        let prev = step_moves(b, from, color, offs.drop_last());
        let nf = from % 8 + offs.last().0;
        let nr = from / 8 + offs.last().1;
        if on_board(nf, nr) && free_for(b, sq(nf, nr), color) {
            prev.push(quiet(from, sq(nf, nr)))
        } else {
            prev
        }
    }
}

/// Moves along one ray starting at `(f, r)`: every empty square, then the
/// first occupied square if it holds an enemy piece.
pub open spec fn ray_moves(
    b: Seq<Option<Piece>>,
    from: int,
    color: Color,
    f: int,
    r: int,
    df: int,
    dr: int,
) -> Seq<LegalMove>
    decreases room(f, df) + room(r, dr),
    when unit_step(df, dr) && -1 <= f <= 8 && -1 <= r <= 8
{
    if !on_board(f, r) {
        seq![]
    } else {
        match b[sq(f, r)] {
            None => seq![quiet(from, sq(f, r))] + ray_moves(b, from, color, f + df, r + dr, df, dr),
            Some(p) => if p.color != color {
                seq![quiet(from, sq(f, r))]
            } else {
                seq![]
            },
        }
    }
}

/// Moves of a sliding piece along each of `dirs`, direction by direction.
pub open spec fn slider_moves(
    b: Seq<Option<Piece>>,
    from: int,
    color: Color,
    dirs: Seq<(i32, i32)>,
) -> Seq<LegalMove>
    decreases dirs.len(),
{
    if dirs.len() == 0 {
        seq![]
    } else {
        slider_moves(b, from, color, dirs.drop_last()) + ray_moves(
            b,
            from,
            color,
            from % 8 + dirs.last().0,
            from / 8 + dirs.last().1,
            dirs.last().0 as int,
            dirs.last().1 as int,
        )
    }
}

pub open spec fn pawn_forward(color: Color) -> int {
    match color {
        Color::White => 1,
        Color::Black => -1,
    }
}

pub open spec fn pawn_start_rank(color: Color) -> int {
    match color {
        Color::White => 1,
        Color::Black => 6,
    }
}

/// The rank from which a pawn move promotes.
pub open spec fn pawn_promo_rank(color: Color) -> int {
    match color {
        Color::White => 6,
        Color::Black => 1,
    }
}

/// A pawn arriving on `to`: four promotions (queen, rook, bishop, knight)
/// when `promote`, otherwise one plain move.
pub open spec fn pawn_arrivals(from: int, to: int, promote: bool) -> Seq<LegalMove> {
    if promote {
        seq![
            promotion_move(from, to, PieceKind::Queen),
            promotion_move(from, to, PieceKind::Rook),
            promotion_move(from, to, PieceKind::Bishop),
            promotion_move(from, to, PieceKind::Knight),
        ]
    } else {
        seq![quiet(from, to)]
    }
}

/// Pawn advances: one square forward onto an empty square, and two squares
/// from the start rank when both squares are empty.
pub open spec fn pawn_pushes(b: Seq<Option<Piece>>, from: int, color: Color) -> Seq<LegalMove> {
    let f = from % 8;
    let r = from / 8;
    let fw = pawn_forward(color);
    if on_board(f, r + fw) && b[sq(f, r + fw)] is None {
        let single = pawn_arrivals(from, sq(f, r + fw), r == pawn_promo_rank(color));
        if r == pawn_start_rank(color) && on_board(f, r + 2 * fw) && b[sq(f, r + 2 * fw)] is None {
            single.push(quiet(from, sq(f, r + 2 * fw)))
        } else {
            single
        }
    } else {
        seq![]
    }
}

/// Pawn capture toward file offset `df`: onto an enemy piece, or en passant
/// onto the empty en-passant square.
pub open spec fn pawn_capture(
    b: Seq<Option<Piece>>,
    ep: Option<usize>,
    from: int,
    color: Color,
    df: int,
) -> Seq<LegalMove> {
    let nf = from % 8 + df;
    let nr = from / 8 + pawn_forward(color);
    if !on_board(nf, nr) {
        seq![]
    } else {
        match b[sq(nf, nr)] {
            Some(t) => if t.color != color {
                pawn_arrivals(from, sq(nf, nr), from / 8 == pawn_promo_rank(color))
            } else {
                seq![]
            },
            None => if ep == Some(sq(nf, nr) as usize) {
                seq![
                    LegalMove {
                        mv: Move { from: from as usize, to: sq(nf, nr) as usize, promotion: None },
                        kind: MoveKind::EnPassant,
                    },
                ]
            } else {
                seq![]
            },
        }
    }
}

pub open spec fn pawn_moves(
    b: Seq<Option<Piece>>,
    ep: Option<usize>,
    from: int,
    color: Color,
) -> Seq<LegalMove> {
    pawn_pushes(b, from, color) + pawn_capture(b, ep, from, color, -1) + pawn_capture(
        b,
        ep,
        from,
        color,
        1,
    )
}

pub open spec fn home_rank(color: Color) -> int {
    match color {
        Color::White => 0,
        Color::Black => 7,
    }
}

pub open spec fn can_castle_kingside(c: CastlingRights, color: Color) -> bool {
    match color {
        Color::White => c.white_kingside,
        Color::Black => c.black_kingside,
    }
}

pub open spec fn can_castle_queenside(c: CastlingRights, color: Color) -> bool {
    match color {
        Color::White => c.white_queenside,
        Color::Black => c.black_queenside,
    }
}

/// King-side castling is available: the right is held, the squares between
/// king and rook are empty, the king's start, transit and target squares are
/// not attacked, and the own rook stands on its corner.
pub open spec fn kingside_ok(b: Seq<Option<Piece>>, c: CastlingRights, color: Color) -> bool {
    let h = home_rank(color) * 8;
    let opp = opposite(color);
    &&& can_castle_kingside(c, color)
    &&& b[h + 5] is None
    &&& b[h + 6] is None
    &&& !attacked_by(b, h + 4, opp)
    &&& !attacked_by(b, h + 5, opp)
    &&& !attacked_by(b, h + 6, opp)
    &&& b[h + 7] == Some(Piece { color, kind: PieceKind::Rook })
}

/// Queen-side castling is available (see [`kingside_ok`]).
pub open spec fn queenside_ok(b: Seq<Option<Piece>>, c: CastlingRights, color: Color) -> bool {
    let h = home_rank(color) * 8;
    let opp = opposite(color);
    &&& can_castle_queenside(c, color)
    &&& b[h + 1] is None
    &&& b[h + 2] is None
    &&& b[h + 3] is None
    &&& !attacked_by(b, h + 4, opp)
    &&& !attacked_by(b, h + 3, opp)
    &&& !attacked_by(b, h + 2, opp)
    &&& b[h] == Some(Piece { color, kind: PieceKind::Rook })
}

/// Castling moves of a king standing on its start square.
pub open spec fn castle_moves(
    b: Seq<Option<Piece>>,
    c: CastlingRights,
    from: int,
    color: Color,
) -> Seq<LegalMove> {
    let h = home_rank(color) * 8;
    if from != h + 4 {
        seq![]
    } else {
        let ks = if kingside_ok(b, c, color) {
            seq![
                LegalMove {
                    mv: Move { from: from as usize, to: (h + 6) as usize, promotion: None },
                    kind: MoveKind::CastleKingside,
                },
            ]
        } else {
            seq![]
        };
        let qs = if queenside_ok(b, c, color) {
            seq![
                LegalMove {
                    mv: Move { from: from as usize, to: (h + 2) as usize, promotion: None },
                    kind: MoveKind::CastleQueenside,
                },
            ]
        } else {
            seq![]
        };
        ks + qs
    }
}

/// All pseudo-legal moves of the piece on `from`, if it belongs to `color`.
pub open spec fn piece_moves(
    b: Seq<Option<Piece>>,
    c: CastlingRights,
    ep: Option<usize>,
    from: int,
    color: Color,
) -> Seq<LegalMove> {
    match b[from] {
        None => seq![],
        Some(p) => if p.color != color {
            seq![]
        } else {
            match p.kind {
                PieceKind::Pawn => pawn_moves(b, ep, from, color),
                PieceKind::Knight => step_moves(b, from, color, knight_jumps()),
                PieceKind::Bishop => slider_moves(b, from, color, bishop_dirs()),
                PieceKind::Rook => slider_moves(b, from, color, rook_dirs()),
                PieceKind::Queen => slider_moves(b, from, color, queen_dirs()),
                PieceKind::King => step_moves(b, from, color, king_steps()) + castle_moves(
                    b,
                    c,
                    from,
                    color,
                ),
            }
        },
    }
}

/// Pseudo-legal moves of the pieces on squares `0..n`.
pub open spec fn pseudo_upto(
    b: Seq<Option<Piece>>,
    c: CastlingRights,
    ep: Option<usize>,
    color: Color,
    n: int,
) -> Seq<LegalMove>
    decreases n,
{
    if n <= 0 {
        seq![]
    } else {
        pseudo_upto(b, c, ep, color, n - 1) + piece_moves(b, c, ep, n - 1, color)
    }
}

/// All pseudo-legal moves of `color`: moves that follow the piece rules but
/// may leave the own king attacked.
pub open spec fn pseudo_moves(
    b: Seq<Option<Piece>>,
    c: CastlingRights,
    ep: Option<usize>,
    color: Color,
) -> Seq<LegalMove> {
    pseudo_upto(b, c, ep, color, 64)
}

// ---------------------------------------------------------------------------
// Generators
// ---------------------------------------------------------------------------

fn quiet_move(from: usize, to: usize) -> (r: LegalMove)
    ensures
        r == quiet(from as int, to as int),
{
    LegalMove { mv: Move { from, to, promotion: None }, kind: MoveKind::Quiet }
}

fn push_pawn_arrivals(out: &mut Vec<LegalMove>, from: usize, to: usize, promote: bool)
    ensures
        final(out)@ == old(out)@ + pawn_arrivals(from as int, to as int, promote),
{
    if promote {
        let kinds = [PieceKind::Queen, PieceKind::Rook, PieceKind::Bishop, PieceKind::Knight];
        let ghost start = out@;
        let mut i: usize = 0;
        while i < 4
            invariant
                0 <= i <= 4,
                kinds@ == seq![PieceKind::Queen, PieceKind::Rook, PieceKind::Bishop, PieceKind::Knight],
                out@ == start + pawn_arrivals(from as int, to as int, true).take(i as int),
            decreases 4 - i,
        {
            out.push(
                LegalMove {
                    mv: Move { from, to, promotion: Some(kinds[i]) },
                    kind: MoveKind::Promotion,
                },
            );
            assert(pawn_arrivals(from as int, to as int, true).take(i + 1) == pawn_arrivals(
                from as int,
                to as int,
                true,
            ).take(i as int).push(pawn_arrivals(from as int, to as int, true)[i as int]));
            i += 1;
        }
        assert(pawn_arrivals(from as int, to as int, true).take(4) == pawn_arrivals(
            from as int,
            to as int,
            true,
        ));
    } else {
        out.push(quiet_move(from, to));
    }
}

/// Pawn moves of the pawn of `color` on `from`.
pub(crate) fn gen_pawn_moves(
    board: &[Option<Piece>; 64],
    en_passant: Option<usize>,
    from: usize,
    color: Color,
    out: &mut Vec<LegalMove>,
)
    requires
        from < 64,
    ensures
        final(out)@ == old(out)@ + pawn_moves(board@, en_passant, from as int, color),
{
    let ghost b = board@;
    let ghost start = out@;
    let (file, rank) = idx_to_file_rank(from);
    let (forward, start_rank, promo_rank) = match color {
        Color::White => (1i32, 1usize, 6usize),
        Color::Black => (-1i32, 6usize, 1usize),
    };
    assert(forward == pawn_forward(color) && start_rank == pawn_start_rank(color)
        && promo_rank == pawn_promo_rank(color));

    let one_rank = rank as i32 + forward;
    if in_bounds(file as i32, one_rank) {
        let to = file_rank_to_idx(file, one_rank as usize);
        if board[to].is_none() {
            push_pawn_arrivals(out, from, to, rank == promo_rank);
            if rank == start_rank {
                let two_rank = rank as i32 + forward * 2;
                if in_bounds(file as i32, two_rank) {
                    let to2 = file_rank_to_idx(file, two_rank as usize);
                    if board[to2].is_none() {
                        out.push(quiet_move(from, to2));
                    }
                }
            }
        }
    }
    assert(out@ == start + pawn_pushes(b, from as int, color));
    let ghost after_push = out@;

    let dfs = [-1i32, 1i32];
    let mut k: usize = 0;
    while k < 2
        invariant
            0 <= k <= 2,
            from < 64,
            file == from % 8,
            rank == from / 8,
            forward == pawn_forward(color),
            promo_rank == pawn_promo_rank(color),
            dfs@ == seq![-1i32, 1i32],
            b == board@,
            k == 0 ==> out@ == after_push,
            k == 1 ==> out@ == after_push + pawn_capture(b, en_passant, from as int, color, -1),
            k == 2 ==> out@ == after_push + pawn_capture(b, en_passant, from as int, color, -1)
                + pawn_capture(b, en_passant, from as int, color, 1),
        decreases 2 - k,
    {
        let df = dfs[k];
        let ghost before = out@;
        let nf = file as i32 + df;
        let nr = rank as i32 + forward;
        if in_bounds(nf, nr) {
            let to = file_rank_to_idx(nf as usize, nr as usize);
            match board[to] {
                Some(target) => {
                    if target.color != color {
                        push_pawn_arrivals(out, from, to, rank == promo_rank);
                    }
                },
                None => {
                    let is_ep = match en_passant {
                        Some(e) => e == to,
                        None => false,
                    };
                    if is_ep {
                        out.push(
                            LegalMove {
                                mv: Move { from, to, promotion: None },
                                kind: MoveKind::EnPassant,
                            },
                        );
                    }
                },
            }
        }
        assert(out@ == before + pawn_capture(b, en_passant, from as int, color, df as int));
        k += 1;
    }
}

/// Moves of a piece that steps by each of `offs` (knight jumps, king steps).
pub(crate) fn gen_step_moves(
    board: &[Option<Piece>; 64],
    from: usize,
    color: Color,
    out: &mut Vec<LegalMove>,
    offs: &[(i32, i32)],
)
    requires
        from < 64,
        forall|i: int| 0 <= i < offs@.len() ==> -2 <= #[trigger] offs@[i].0 <= 2 && -2 <= offs@[i].1 <= 2,
    ensures
        final(out)@ == old(out)@ + step_moves(board@, from as int, color, offs@),
{
    let ghost start = out@;
    let (file, rank) = idx_to_file_rank(from);
    let mut i: usize = 0;
    while i < offs.len()
        invariant
            0 <= i <= offs@.len(),
            from < 64,
            file == from % 8,
            rank == from / 8,
            forall|j: int| 0 <= j < offs@.len() ==> -2 <= #[trigger] offs@[j].0 <= 2 && -2 <= offs@[j].1 <= 2,
            out@ == start + step_moves(board@, from as int, color, offs@.take(i as int)),
        decreases offs@.len() - i,
    {
        let (df, dr) = offs[i];
        assert(offs@.take(i + 1).drop_last() == offs@.take(i as int));
        let nf = file as i32 + df;
        let nr = rank as i32 + dr;
        if in_bounds(nf, nr) {
            let to = file_rank_to_idx(nf as usize, nr as usize);
            let free = match board[to] {
                None => true,
                Some(p) => p.color != color,
            };
            if free {
                out.push(quiet_move(from, to));
            }
        }
        i += 1;
    }
    assert(offs@.take(i as int) == offs@);
}

/// Moves along the ray from `from` in direction `(df, dr)`.
pub(crate) fn gen_ray_moves(
    board: &[Option<Piece>; 64],
    from: usize,
    color: Color,
    out: &mut Vec<LegalMove>,
    df: i32,
    dr: i32,
)
    requires
        from < 64,
        unit_step(df as int, dr as int),
    ensures
        final(out)@ == old(out)@ + ray_moves(
            board@,
            from as int,
            color,
            from % 8 + df,
            from / 8 + dr,
            df as int,
            dr as int,
        ),
{
    let ghost start = out@;
    let (file, rank) = idx_to_file_rank(from);
    let mut nf = file as i32 + df;
    let mut nr = rank as i32 + dr;
    while in_bounds(nf, nr)
        invariant_except_break
            out@ + ray_moves(board@, from as int, color, nf as int, nr as int, df as int, dr as int)
                == start + ray_moves(
                board@,
                from as int,
                color,
                from % 8 + df,
                from / 8 + dr,
                df as int,
                dr as int,
            ),
        invariant
            from < 64,
            unit_step(df as int, dr as int),
            -1 <= nf <= 8,
            -1 <= nr <= 8,
        ensures
            out@ == start + ray_moves(
                board@,
                from as int,
                color,
                from % 8 + df,
                from / 8 + dr,
                df as int,
                dr as int,
            ),
        decreases room(nf as int, df as int) + room(nr as int, dr as int),
    {
        let to = file_rank_to_idx(nf as usize, nr as usize);
        let ghost before = out@;
        match board[to] {
            None => {
                out.push(quiet_move(from, to));
                assert(out@ + ray_moves(board@, from as int, color, nf + df, nr + dr, df as int, dr as int)
                    == before + ray_moves(board@, from as int, color, nf as int, nr as int, df as int, dr as int));
            },
            Some(p) => {
                if p.color != color {
                    out.push(quiet_move(from, to));
                }
                break;
            },
        }
        nf = nf + df;
        nr = nr + dr;
    }
}

/// Moves of a sliding piece along each direction of `dirs`.
pub(crate) fn gen_slider_moves(
    board: &[Option<Piece>; 64],
    from: usize,
    color: Color,
    out: &mut Vec<LegalMove>,
    dirs: &[(i32, i32)],
)
    requires
        from < 64,
        forall|i: int| 0 <= i < dirs@.len() ==> unit_step(#[trigger] dirs@[i].0 as int, dirs@[i].1 as int),
    ensures
        final(out)@ == old(out)@ + slider_moves(board@, from as int, color, dirs@),
{
    let ghost start = out@;
    let mut i: usize = 0;
    while i < dirs.len()
        invariant
            0 <= i <= dirs@.len(),
            from < 64,
            forall|j: int| 0 <= j < dirs@.len() ==> unit_step(#[trigger] dirs@[j].0 as int, dirs@[j].1 as int),
            out@ == start + slider_moves(board@, from as int, color, dirs@.take(i as int)),
        decreases dirs@.len() - i,
    {
        let (df, dr) = dirs[i];
        assert(dirs@.take(i + 1).drop_last() == dirs@.take(i as int));
        assert(unit_step(dirs@[i as int].0 as int, dirs@[i as int].1 as int));
        gen_ray_moves(board, from, color, out, df, dr);
        i += 1;
    }
    assert(dirs@.take(i as int) == dirs@);
}

/// Knight moves of the knight on `from`.
pub(crate) fn gen_knight_moves(
    board: &[Option<Piece>; 64],
    from: usize,
    color: Color,
    out: &mut Vec<LegalMove>,
)
    requires
        from < 64,
    ensures
        final(out)@ == old(out)@ + step_moves(board@, from as int, color, knight_jumps()),
{
    let jumps = [(1i32, 2i32), (2, 1), (2, -1), (1, -2), (-1, -2), (-2, -1), (-2, 1), (-1, 2)];
    assert(jumps@ == knight_jumps());
    gen_step_moves(board, from, color, out, &jumps);
}

/// King steps and castling moves of the king on `from`.
pub(crate) fn gen_king_moves(
    board: &[Option<Piece>; 64],
    castling: CastlingRights,
    from: usize,
    color: Color,
    out: &mut Vec<LegalMove>,
)
    requires
        from < 64,
    ensures
        final(out)@ == old(out)@ + step_moves(board@, from as int, color, king_steps())
            + castle_moves(board@, castling, from as int, color),
{
    let ghost start = out@;
    let steps = [(-1i32, -1i32), (-1, 0), (-1, 1), (0, -1), (0, 1), (1, -1), (1, 0), (1, 1)];
    assert(steps@ == king_steps());
    gen_step_moves(board, from, color, out, &steps);
    let ghost after_steps = out@;

    let (home, can_ks, can_qs) = match color {
        Color::White => (0usize, castling.white_kingside, castling.white_queenside),
        Color::Black => (7usize, castling.black_kingside, castling.black_queenside),
    };
    assert(home == home_rank(color));
    let h = home * 8;
    let king_start = h + 4;
    if from != king_start {
        return;
    }
    let opp = color.opposite();
    let rook = Some(Piece { color, kind: PieceKind::Rook });

    let kingside = can_ks && board[h + 5].is_none() && board[h + 6].is_none()
        && !board_square_attacked(board, h + 4, opp) && !board_square_attacked(board, h + 5, opp)
        && !board_square_attacked(board, h + 6, opp) && super::board::same_square_content(
        board[h + 7],
        rook,
    );
    if kingside {
        out.push(
            LegalMove {
                mv: Move { from, to: h + 6, promotion: None },
                kind: MoveKind::CastleKingside,
            },
        );
    }
    let queenside = can_qs && board[h + 1].is_none() && board[h + 2].is_none() && board[h
        + 3].is_none() && !board_square_attacked(board, h + 4, opp) && !board_square_attacked(
        board,
        h + 3,
        opp,
    ) && !board_square_attacked(board, h + 2, opp) && super::board::same_square_content(
        board[h],
        rook,
    );
    if queenside {
        out.push(
            LegalMove {
                mv: Move { from, to: h + 2, promotion: None },
                kind: MoveKind::CastleQueenside,
            },
        );
    }
    assert(out@ == after_steps + castle_moves(board@, castling, from as int, color));
}

/// All pseudo-legal moves of `color`.
pub(crate) fn pseudo_legal_moves(
    board: &[Option<Piece>; 64],
    castling: CastlingRights,
    en_passant: Option<usize>,
    color: Color,
) -> (out: Vec<LegalMove>)
    ensures
        out@ == pseudo_moves(board@, castling, en_passant, color),
{
    let mut out: Vec<LegalMove> = Vec::new();
    let mut from: usize = 0;
    while from < 64
        invariant
            0 <= from <= 64,
            out@ == pseudo_upto(board@, castling, en_passant, color, from as int),
        decreases 64 - from,
    {
        let ghost before = out@;
        match board[from] {
            None => {},
            Some(piece) => {
                if piece.color == color {
                    match piece.kind {
                        PieceKind::Pawn => gen_pawn_moves(board, en_passant, from, color, &mut out),
                        PieceKind::Knight => gen_knight_moves(board, from, color, &mut out),
                        PieceKind::Bishop => {
                            let dirs = [(1i32, 1i32), (-1, 1), (1, -1), (-1, -1)];
                            assert(dirs@ == bishop_dirs());
                            gen_slider_moves(board, from, color, &mut out, &dirs);
                        },
                        PieceKind::Rook => {
                            let dirs = [(1i32, 0i32), (-1, 0), (0, 1), (0, -1)];
                            assert(dirs@ == rook_dirs());
                            gen_slider_moves(board, from, color, &mut out, &dirs);
                        },
                        PieceKind::Queen => {
                            let dirs = [
                                (1i32, 1i32),
                                (-1, 1),
                                (1, -1),
                                (-1, -1),
                                (1, 0),
                                (-1, 0),
                                (0, 1),
                                (0, -1),
                            ];
                            assert(dirs@ == queen_dirs());
                            gen_slider_moves(board, from, color, &mut out, &dirs);
                        },
                        PieceKind::King => gen_king_moves(board, castling, from, color, &mut out),
                    }
                }
            },
        }
        assert(out@ == before + piece_moves(board@, castling, en_passant, from as int, color));
        from += 1;
    }
    out
}

// ---------------------------------------------------------------------------
// Shape of generated moves
// ---------------------------------------------------------------------------

/// A generated move of `color`: both squares on the board, the mover's own
/// piece on the source square, promotions carry their piece, and an en-passant
/// capture has the captured pawn's square on the board.
pub open spec fn move_shape_ok(b: Seq<Option<Piece>>, color: Color, lm: LegalMove) -> bool {
    &&& lm.mv.from < 64
    &&& lm.mv.to < 64
    &&& lm.mv.from != lm.mv.to
    &&& (lm.kind == MoveKind::CastleKingside ==> lm.mv.from == home_rank(color) * 8 + 4 && lm.mv.to
        == home_rank(color) * 8 + 6)
    &&& (lm.kind == MoveKind::CastleQueenside ==> lm.mv.from == home_rank(color) * 8 + 4 && lm.mv.to
        == home_rank(color) * 8 + 2)
    &&& b[lm.mv.from as int] is Some
    &&& b[lm.mv.from as int]->0.color == color
    &&& (lm.kind == MoveKind::Promotion ==> lm.mv.promotion is Some)
    &&& (lm.kind == MoveKind::EnPassant ==> (color == Color::White ==> lm.mv.to >= 8) && (color
        == Color::Black ==> lm.mv.to + 8 < 64))
}

pub open spec fn all_shape_ok(b: Seq<Option<Piece>>, color: Color, s: Seq<LegalMove>) -> bool {
    forall|i: int| 0 <= i < s.len() ==> move_shape_ok(b, color, #[trigger] s[i])
}

pub open spec fn own_piece_on(b: Seq<Option<Piece>>, from: int, color: Color) -> bool {
    0 <= from < 64 && b[from] is Some && b[from]->0.color == color
}

pub proof fn lemma_concat_shape(b: Seq<Option<Piece>>, color: Color, s: Seq<LegalMove>, t: Seq<LegalMove>)
    requires
        all_shape_ok(b, color, s),
        all_shape_ok(b, color, t),
    ensures
        all_shape_ok(b, color, s + t),
{
    assert forall|i: int| 0 <= i < (s + t).len() implies move_shape_ok(b, color, #[trigger] (s + t)[i]) by {
        if i < s.len() {
            assert((s + t)[i] == s[i]);
        } else {
            assert((s + t)[i] == t[i - s.len()]);
        }
    }
}

pub proof fn lemma_step_shape(b: Seq<Option<Piece>>, from: int, color: Color, offs: Seq<(i32, i32)>)
    requires
        own_piece_on(b, from, color),
        forall|i: int| 0 <= i < offs.len() ==> -2 <= #[trigger] offs[i].0 <= 2 && -2 <= offs[i].1 <= 2
            && (offs[i].0 != 0 || offs[i].1 != 0),
    ensures
        all_shape_ok(b, color, step_moves(b, from, color, offs)),
    decreases offs.len(),
{
    if offs.len() > 0 {
        assert(offs.drop_last().len() < offs.len());
        assert forall|i: int| 0 <= i < offs.drop_last().len() implies -2 <= #[trigger] offs.drop_last()[i].0 <= 2
            && -2 <= offs.drop_last()[i].1 <= 2 && (offs.drop_last()[i].0 != 0 || offs.drop_last()[i].1 != 0) by {
            assert(offs.drop_last()[i] == offs[i]);
        }
        lemma_step_shape(b, from, color, offs.drop_last());
        let o = offs[offs.len() - 1];
        assert(-2 <= o.0 <= 2 && -2 <= o.1 <= 2 && (o.0 != 0 || o.1 != 0));
    }
}

/// `(f, r)` lies beyond the square `from` in direction `(df, dr)`.
pub open spec fn away_from(from: int, f: int, r: int, df: int, dr: int) -> bool {
    &&& (df == 1 ==> f > from % 8)
    &&& (df == -1 ==> f < from % 8)
    &&& (df == 0 ==> f == from % 8)
    &&& (dr == 1 ==> r > from / 8)
    &&& (dr == -1 ==> r < from / 8)
    &&& (dr == 0 ==> r == from / 8)
}

pub proof fn lemma_ray_shape(
    b: Seq<Option<Piece>>,
    from: int,
    color: Color,
    f: int,
    r: int,
    df: int,
    dr: int,
)
    requires
        own_piece_on(b, from, color),
        unit_step(df, dr),
        -1 <= f <= 8,
        -1 <= r <= 8,
        away_from(from, f, r, df, dr),
    ensures
        all_shape_ok(b, color, ray_moves(b, from, color, f, r, df, dr)),
    decreases room(f, df) + room(r, dr),
{
    if on_board(f, r) {
        if b[sq(f, r)] is None {
            lemma_ray_shape(b, from, color, f + df, r + dr, df, dr);
            lemma_concat_shape(
                b,
                color,
                seq![quiet(from, sq(f, r))],
                ray_moves(b, from, color, f + df, r + dr, df, dr),
            );
        }
    }
}

pub proof fn lemma_slider_shape(b: Seq<Option<Piece>>, from: int, color: Color, dirs: Seq<(i32, i32)>)
    requires
        own_piece_on(b, from, color),
        forall|i: int| 0 <= i < dirs.len() ==> unit_step(#[trigger] dirs[i].0 as int, dirs[i].1 as int),
    ensures
        all_shape_ok(b, color, slider_moves(b, from, color, dirs)),
    decreases dirs.len(),
{
    if dirs.len() > 0 {
        let d = dirs.last();
        assert(unit_step(dirs[dirs.len() - 1].0 as int, dirs[dirs.len() - 1].1 as int));
        assert forall|i: int| 0 <= i < dirs.drop_last().len() implies unit_step(
            #[trigger] dirs.drop_last()[i].0 as int,
            dirs.drop_last()[i].1 as int,
        ) by {
            assert(dirs.drop_last()[i] == dirs[i]);
        }
        lemma_slider_shape(b, from, color, dirs.drop_last());
        lemma_ray_shape(b, from, color, from % 8 + d.0, from / 8 + d.1, d.0 as int, d.1 as int);
        lemma_concat_shape(
            b,
            color,
            slider_moves(b, from, color, dirs.drop_last()),
            ray_moves(b, from, color, from % 8 + d.0, from / 8 + d.1, d.0 as int, d.1 as int),
        );
    }
}

pub proof fn lemma_pawn_shape(b: Seq<Option<Piece>>, ep: Option<usize>, from: int, color: Color)
    requires
        own_piece_on(b, from, color),
    ensures
        all_shape_ok(b, color, pawn_moves(b, ep, from, color)),
{
    let p = pawn_pushes(b, from, color);
    let l = pawn_capture(b, ep, from, color, -1);
    let r = pawn_capture(b, ep, from, color, 1);
    assert(all_shape_ok(b, color, p));
    assert(all_shape_ok(b, color, l));
    assert(all_shape_ok(b, color, r));
    lemma_concat_shape(b, color, p, l);
    lemma_concat_shape(b, color, p + l, r);
}

pub proof fn lemma_piece_shape(
    b: Seq<Option<Piece>>,
    c: CastlingRights,
    ep: Option<usize>,
    from: int,
    color: Color,
)
    requires
        0 <= from < 64,
        b.len() == 64,
    ensures
        all_shape_ok(b, color, piece_moves(b, c, ep, from, color)),
{
    match b[from] {
        None => {},
        Some(p) => {
            if p.color == color {
                match p.kind {
                    PieceKind::Pawn => lemma_pawn_shape(b, ep, from, color),
                    PieceKind::Knight => {
                        assert forall|i: int| 0 <= i < knight_jumps().len() implies -2 <= #[trigger] knight_jumps()[i].0 <= 2
                            && -2 <= knight_jumps()[i].1 <= 2 && (knight_jumps()[i].0 != 0 || knight_jumps()[i].1 != 0) by {
                        }
                        lemma_step_shape(b, from, color, knight_jumps())
                    },
                    PieceKind::Bishop => lemma_slider_shape(b, from, color, bishop_dirs()),
                    PieceKind::Rook => lemma_slider_shape(b, from, color, rook_dirs()),
                    PieceKind::Queen => {
                        assert forall|i: int| 0 <= i < queen_dirs().len() implies unit_step(
                            #[trigger] queen_dirs()[i].0 as int,
                            queen_dirs()[i].1 as int,
                        ) by {
                            if i < 4 {
                                assert(queen_dirs()[i] == bishop_dirs()[i]);
                            } else {
                                assert(queen_dirs()[i] == rook_dirs()[i - 4]);
                            }
                        }
                        lemma_slider_shape(b, from, color, queen_dirs());
                    },
                    PieceKind::King => {
                        assert forall|i: int| 0 <= i < king_steps().len() implies -2 <= #[trigger] king_steps()[i].0 <= 2
                            && -2 <= king_steps()[i].1 <= 2 && (king_steps()[i].0 != 0 || king_steps()[i].1 != 0) by {
                        }
                        lemma_step_shape(b, from, color, king_steps());
                        lemma_concat_shape(
                            b,
                            color,
                            step_moves(b, from, color, king_steps()),
                            castle_moves(b, c, from, color),
                        );
                    },
                }
            }
        },
    }
}

pub proof fn lemma_pseudo_shape(
    b: Seq<Option<Piece>>,
    c: CastlingRights,
    ep: Option<usize>,
    color: Color,
    n: int,
)
    requires
        n <= 64,
        b.len() == 64,
    ensures
        all_shape_ok(b, color, pseudo_upto(b, c, ep, color, n)),
    decreases n,
{
    if n > 0 {
        lemma_pseudo_shape(b, c, ep, color, n - 1);
        lemma_piece_shape(b, c, ep, n - 1, color);
        lemma_concat_shape(
            b,
            color,
            pseudo_upto(b, c, ep, color, n - 1),
            piece_moves(b, c, ep, n - 1, color),
        );
    }
}

} // verus!
