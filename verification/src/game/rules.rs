//! Executing moves, legality, position keys and draw rules on raw board parts.

use vstd::prelude::*;

use super::{CastlingRights, Color, LegalMove, MoveKind, Piece, PieceKind};
use super::board::{
    board_in_check, file_rank_to_idx, has_piece, idx_to_file_rank, in_bounds, in_check,
    same_square_content, square_color,
};
use super::movegen::{all_shape_ok, move_shape_ok};

verus! {

// ---------------------------------------------------------------------------
// Executing a move on the board
// ---------------------------------------------------------------------------

/// The piece that stands on the target square after the move: the moving
/// piece, or the promotion piece of its color.
pub open spec fn moved_piece(b: Seq<Option<Piece>>, lm: LegalMove) -> Piece {
    let p = b[lm.mv.from as int]->0;
    if lm.kind == MoveKind::Promotion {
        Piece { color: p.color, kind: lm.mv.promotion->0 }
    } else {
        p
    }
}

/// Index of the first square of `color`'s home rank.
pub open spec fn home_base(color: Color) -> int {
    match color {
        Color::White => 0,
        Color::Black => 56,
    }
}

/// The board after executing `lm`: the source square is emptied and the
/// moved piece placed on the target; en passant also removes the pawn behind
/// the target, castling also moves the rook to the other side of the king.
pub open spec fn board_after(b: Seq<Option<Piece>>, lm: LegalMove) -> Seq<Option<Piece>> {
    let from = lm.mv.from as int;
    let to = lm.mv.to as int;
    let p = b[from]->0;
    let b0 = b.update(from, None);
    let h = home_base(p.color);
    match lm.kind {
        MoveKind::EnPassant => {
            let cap = if p.color == Color::White {
                to - 8
            } else {
                to + 8
            };
            b0.update(cap, None).update(to, Some(p))
        },
        MoveKind::CastleKingside => {
            let b1 = b0.update(to, Some(p));
            b1.update(h + 5, b1[h + 7]).update(h + 7, None)
        },
        MoveKind::CastleQueenside => {
            let b1 = b0.update(to, Some(p));
            b1.update(h + 3, b1[h]).update(h, None)
        },
        MoveKind::Promotion => b0.update(to, Some(moved_piece(b, lm))),
        MoveKind::Quiet => b0.update(to, Some(p)),
    }
}

/// Executes `lm` on a copy of `board`.
pub(crate) fn board_after_move(board: &[Option<Piece>; 64], lm: LegalMove) -> (res: [Option<Piece>; 64])
    requires
        move_shape_ok(board@, board@[lm.mv.from as int]->0.color, lm),
    ensures
        res@ == board_after(board@, lm),
{
    let mv = lm.mv;
    let piece = match board[mv.from] {
        Some(p) => p,
        None => {
            proof {
                assert(false);
            }
            Piece { color: Color::White, kind: PieceKind::Pawn }
        },
    };
    let mut nb = *board;
    nb[mv.from] = None;
    match lm.kind {
        MoveKind::EnPassant => {
            let cap_sq = match piece.color {
                Color::White => mv.to - 8,
                Color::Black => mv.to + 8,
            };
            nb[cap_sq] = None;
            nb[mv.to] = Some(piece);
        },
        MoveKind::CastleKingside => {
            nb[mv.to] = Some(piece);
            let home_rank: usize = if piece.color == Color::White {
                0
            } else {
                7
            };
            let rook_from = home_rank * 8 + 7;
            let rook_to = home_rank * 8 + 5;
            nb[rook_to] = nb[rook_from];
            nb[rook_from] = None;
        },
        MoveKind::CastleQueenside => {
            nb[mv.to] = Some(piece);
            let home_rank: usize = if piece.color == Color::White {
                0
            } else {
                7
            };
            let rook_from = home_rank * 8;
            let rook_to = home_rank * 8 + 3;
            nb[rook_to] = nb[rook_from];
            nb[rook_from] = None;
        },
        MoveKind::Promotion => {
            let kind = match mv.promotion {
                Some(k) => k,
                None => {
                    proof {
                        assert(false);
                    }
                    PieceKind::Queen
                },
            };
            nb[mv.to] = Some(Piece { color: piece.color, kind });
        },
        MoveKind::Quiet => {
            nb[mv.to] = Some(piece);
        },
    }
    assert(nb@ =~= board_after(board@, lm));
    nb
}

// ---------------------------------------------------------------------------
// Castling rights and en passant
// ---------------------------------------------------------------------------

/// Drops the castling right tied to the rook corner `corner` of `color`
/// (a1/h1 for White, a8/h8 for Black); other squares change nothing.
pub open spec fn drop_corner_right(c: CastlingRights, color: Color, corner: int) -> CastlingRights {
    match color {
        Color::White => if corner == 0 {
            CastlingRights { white_queenside: false, ..c }
        } else if corner == 7 {
            CastlingRights { white_kingside: false, ..c }
        } else {
            c
        },
        Color::Black => if corner == 56 {
            CastlingRights { black_queenside: false, ..c }
        } else if corner == 63 {
            CastlingRights { black_kingside: false, ..c }
        } else {
            c
        },
    }
}

/// Castling rights after `moved` went from `from` to `to`, capturing `captured`:
/// a king move drops both rights of its side, a rook leaving its corner drops
/// that corner's right, and capturing a rook on its corner drops the right of
/// the captured side.
pub open spec fn castling_after(
    c: CastlingRights,
    moved: Piece,
    from: int,
    to: int,
    captured: Option<Piece>,
) -> CastlingRights {
    let c1 = match moved.kind {
        PieceKind::King => match moved.color {
            Color::White => CastlingRights { white_kingside: false, white_queenside: false, ..c },
            Color::Black => CastlingRights { black_kingside: false, black_queenside: false, ..c },
        },
        PieceKind::Rook => drop_corner_right(c, moved.color, from),
        _ => c,
    };
    match captured {
        Some(cap) => if cap.kind == PieceKind::Rook {
            drop_corner_right(c1, cap.color, to)
        } else {
            c1
        },
        None => c1,
    }
}

fn drop_corner(c: CastlingRights, color: Color, corner: usize) -> (r: CastlingRights)
    ensures
        r == drop_corner_right(c, color, corner as int),
{
    let mut r = c;
    match color {
        Color::White => {
            if corner == 0 {
                r.white_queenside = false;
            } else if corner == 7 {
                r.white_kingside = false;
            }
        },
        Color::Black => {
            if corner == 56 {
                r.black_queenside = false;
            } else if corner == 63 {
                r.black_kingside = false;
            }
        },
    }
    r
}

/// Castling rights after a move (see [`castling_after`]).
pub fn update_castling_rights(
    castling: CastlingRights,
    moved_piece: Piece,
    from: usize,
    to: usize,
    captured: Option<Piece>,
) -> (r: CastlingRights)
    ensures
        r == castling_after(castling, moved_piece, from as int, to as int, captured),
{
    let mut c = castling;
    match moved_piece.kind {
        PieceKind::King => {
            if moved_piece.color == Color::White {
                c.white_kingside = false;
                c.white_queenside = false;
            } else {
                c.black_kingside = false;
                c.black_queenside = false;
            }
        },
        PieceKind::Rook => {
            c = drop_corner(c, moved_piece.color, from);
        },
        _ => {},
    }
    match captured {
        Some(cap) => {
            if cap.kind == PieceKind::Rook {
                c = drop_corner(c, cap.color, to);
            }
        },
        None => {},
    }
    c
}

/// The en-passant square recorded for repetition purposes: only when a pawn
/// of the side to move stands next to the square from which it could capture.
pub open spec fn effective_ep(b: Seq<Option<Piece>>, turn: Color, ep: Option<usize>) -> Option<usize> {
    match ep {
        None => None,
        Some(e) => {
            let f = e % 8;
            let r = e / 8;
            if turn == Color::White && r == 0 {
                None
            } else {
                let cr = if turn == Color::White {
                    r - 1
                } else {
                    r + 1
                };
                let pawn = Piece { color: turn, kind: PieceKind::Pawn };
                if cr >= 8 {
                    None
                } else if has_piece(b, f - 1, cr, pawn) || has_piece(b, f + 1, cr, pawn) {
                    Some(e)
                } else {
                    None
                }
            }
        },
    }
}

/// See [`effective_ep`].
pub fn effective_en_passant(board: &[Option<Piece>; 64], turn: Color, en_passant: Option<usize>) -> (r:
    Option<usize>)
    ensures
        r == effective_ep(board@, turn, en_passant),
{
    let ep = match en_passant {
        Some(e) => e,
        None => return None,
    };
    let (file, rank) = idx_to_file_rank(ep);
    let capture_rank = match turn {
        Color::White => {
            if rank == 0 {
                return None;
            }
            rank - 1
        },
        Color::Black => rank + 1,
    };
    if capture_rank >= 8 {
        return None;
    }
    let pawn = Some(Piece { color: turn, kind: PieceKind::Pawn });
    let dfs = [-1i32, 1i32];
    let mut k: usize = 0;
    while k < 2
        invariant
            0 <= k <= 2,
            capture_rank < 8,
            capture_rank == (if turn == Color::White { ep / 8 - 1 } else { ep / 8 + 1 }),
            turn == Color::White ==> ep / 8 != 0,
            en_passant == Some(ep),
            file == ep % 8,
            dfs@ == seq![-1i32, 1i32],
            pawn == Some(Piece { color: turn, kind: PieceKind::Pawn }),
            k >= 1 ==> !has_piece(board@, file - 1, capture_rank as int, pawn->0),
            k >= 2 ==> !has_piece(board@, file + 1, capture_rank as int, pawn->0),
        decreases 2 - k,
    {
        let nf = file as i32 + dfs[k];
        if in_bounds(nf, capture_rank as i32) {
            let from = file_rank_to_idx(nf as usize, capture_rank);
            if same_square_content(board[from], pawn) {
                assert(has_piece(board@, nf as int, capture_rank as int, pawn->0));
                assert(k == 0 ==> nf == file - 1);
                assert(k == 1 ==> nf == file + 1);
                return Some(ep);
            }
        }
        k += 1;
    }
    None
}

// ---------------------------------------------------------------------------
// Legality
// ---------------------------------------------------------------------------

/// The moves of `s` (in order) after which the king of `color` is not attacked.
pub open spec fn legal_filter(b: Seq<Option<Piece>>, color: Color, s: Seq<LegalMove>) -> Seq<
    LegalMove,
>
    decreases s.len(),
{
    if s.len() == 0 {
        seq![]
    } else {
        let prev = legal_filter(b, color, s.drop_last());
        if !in_check(board_after(b, s.last()), color) {
            prev.push(s.last())
        } else {
            prev
        }
    }
}

/// Keeps the moves of `moves` that do not leave the king of `color` attacked.
pub(crate) fn filter_legal(board: &[Option<Piece>; 64], color: Color, moves: &Vec<LegalMove>) -> (res: Vec<
    LegalMove,
>)
    requires
        all_shape_ok(board@, color, moves@),
    ensures
        res@ == legal_filter(board@, color, moves@),
{
    let mut res: Vec<LegalMove> = Vec::new();
    let mut i: usize = 0;
    while i < moves.len()
        invariant
            0 <= i <= moves@.len(),
            all_shape_ok(board@, color, moves@),
            res@ == legal_filter(board@, color, moves@.take(i as int)),
        decreases moves@.len() - i,
    {
        let lm = moves[i];
        assert(moves@.take(i + 1).drop_last() == moves@.take(i as int));
        assert(move_shape_ok(board@, color, moves@[i as int]));
        let next = board_after_move(board, lm);
        if !board_in_check(&next, color) {
            res.push(lm);
        }
        i += 1;
    }
    assert(moves@.take(i as int) == moves@);
    res
}

/// Whether some move of `s` does not leave the king of `color` attacked.
pub(crate) fn any_legal(board: &[Option<Piece>; 64], color: Color, moves: &Vec<LegalMove>) -> (res: bool)
    requires
        all_shape_ok(board@, color, moves@),
    ensures
        res == (legal_filter(board@, color, moves@).len() > 0),
{
    let mut i: usize = 0;
    while i < moves.len()
        invariant
            0 <= i <= moves@.len(),
            all_shape_ok(board@, color, moves@),
            legal_filter(board@, color, moves@.take(i as int)).len() == 0,
        decreases moves@.len() - i,
    {
        let lm = moves[i];
        assert(moves@.take(i + 1).drop_last() == moves@.take(i as int));
        assert(move_shape_ok(board@, color, moves@[i as int]));
        let next = board_after_move(board, lm);
        if !board_in_check(&next, color) {
            proof {
                lemma_filter_grows(board@, color, moves@, i as int + 1);
            }
            return true;
        }
        i += 1;
    }
    assert(moves@.take(i as int) == moves@);
    false
}

pub proof fn lemma_filter_grows(b: Seq<Option<Piece>>, color: Color, s: Seq<LegalMove>, n: int)
    requires
        0 <= n <= s.len(),
        legal_filter(b, color, s.take(n)).len() > 0,
    ensures
        legal_filter(b, color, s).len() > 0,
    decreases s.len() - n,
{
    if n < s.len() {
        assert(s.take(n + 1).drop_last() == s.take(n));
        lemma_filter_grows(b, color, s, n + 1);
    } else {
        assert(s.take(n) == s);
    }
}

// ---------------------------------------------------------------------------
// Insufficient material
// ---------------------------------------------------------------------------

/// Bishops and knights of `color` on squares `0..n`, with their squares, in board order.
pub open spec fn minors_upto(b: Seq<Option<Piece>>, color: Color, n: int) -> Seq<(PieceKind, usize)>
    decreases n,
{
    if n <= 0 {
        seq![]
    } else {
        let prev = minors_upto(b, color, n - 1);
        match b[n - 1] {
            Some(p) => if p.color == color && (p.kind == PieceKind::Bishop || p.kind
                == PieceKind::Knight) {
                prev.push((p.kind, (n - 1) as usize))
            } else {
                prev
            },
            None => prev,
        }
    }
}

/// Number of pawns, rooks and queens of `color` on squares `0..n`.
pub open spec fn majors_upto(b: Seq<Option<Piece>>, color: Color, n: int) -> nat
    decreases n,
{
    if n <= 0 {
        0
    } else {
        let prev = majors_upto(b, color, n - 1);
        match b[n - 1] {
            Some(p) => if p.color == color && (p.kind == PieceKind::Pawn || p.kind == PieceKind::Rook
                || p.kind == PieceKind::Queen) {
                prev + 1
            } else {
                prev
            },
            None => prev,
        }
    }
}

pub open spec fn same_parity(a: usize, b: usize) -> bool {
    ((a % 8 + a / 8) % 2 == 0) == ((b % 8 + b / 8) % 2 == 0)
}

/// Neither side can mate: no pawns, rooks or queens, and at most a single
/// minor piece on the board, or one bishop each on squares of the same color.
pub open spec fn insufficient_material(b: Seq<Option<Piece>>) -> bool {
    let w = minors_upto(b, Color::White, 64);
    let k = minors_upto(b, Color::Black, 64);
    &&& majors_upto(b, Color::White, 64) == 0
    &&& majors_upto(b, Color::Black, 64) == 0
    &&& {
        ||| w.len() == 0 && k.len() == 0
        ||| w.len() == 1 && k.len() == 0
        ||| w.len() == 0 && k.len() == 1
        ||| w.len() == 1 && k.len() == 1 && w[0].0 == PieceKind::Bishop && k[0].0
            == PieceKind::Bishop && same_parity(w[0].1, k[0].1)
    }
}

pub proof fn lemma_majors_bound(b: Seq<Option<Piece>>, color: Color, n: int)
    ensures
        n >= 0 ==> majors_upto(b, color, n) <= n,
        minors_upto(b, color, n).len() <= if n >= 0 { n } else { 0 },
    decreases n,
{
    if n > 0 {
        lemma_majors_bound(b, color, n - 1);
    }
}

/// See [`insufficient_material`].
pub fn is_insufficient_material(board: &[Option<Piece>; 64]) -> (r: bool)
    ensures
        r == insufficient_material(board@),
{
    let mut white_minors: Vec<(PieceKind, usize)> = Vec::new();
    let mut black_minors: Vec<(PieceKind, usize)> = Vec::new();
    let mut white_other: usize = 0;
    let mut black_other: usize = 0;
    let mut idx: usize = 0;
    while idx < 64
        invariant
            0 <= idx <= 64,
            white_minors@ == minors_upto(board@, Color::White, idx as int),
            black_minors@ == minors_upto(board@, Color::Black, idx as int),
            white_other == majors_upto(board@, Color::White, idx as int),
            black_other == majors_upto(board@, Color::Black, idx as int),
        decreases 64 - idx,
    {
        proof {
            lemma_majors_bound(board@, Color::White, idx as int);
            lemma_majors_bound(board@, Color::Black, idx as int);
        }
        match board[idx] {
            None => {},
            Some(piece) => {
                match piece.kind {
                    PieceKind::King => {},
                    PieceKind::Bishop | PieceKind::Knight => {
                        if piece.color == Color::White {
                            white_minors.push((piece.kind, idx));
                        } else {
                            black_minors.push((piece.kind, idx));
                        }
                    },
                    _ => {
                        if piece.color == Color::White {
                            white_other += 1;
                        } else {
                            black_other += 1;
                        }
                    },
                }
            },
        }
        idx += 1;
    }
    if white_other > 0 || black_other > 0 {
        return false;
    }
    let white_count = white_minors.len();
    let black_count = black_minors.len();
    if white_count == 0 && black_count == 0 {
        return true;
    }
    if white_count == 1 && black_count == 0 {
        return true;
    }
    if white_count == 0 && black_count == 1 {
        return true;
    }
    if white_count == 1 && black_count == 1 && white_minors[0].0 == PieceKind::Bishop
        && black_minors[0].0 == PieceKind::Bishop {
        let white_color = square_color(white_minors[0].1);
        let black_color = square_color(black_minors[0].1);
        return white_color == black_color;
    }
    false
}

} // verus!
