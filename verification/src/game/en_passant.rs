//! A pawn that has just advanced two squares can be taken en passant.

use vstd::prelude::*;

use super::board::{in_check, on_board, opposite, sq};
use super::distinct::lemma_piece_moves_distinct;
use super::movegen::{
    pawn_arrivals, pawn_capture, pawn_forward, pawn_moves, pawn_promo_rank, pawn_pushes, pawn_start_rank,
    piece_moves, pseudo_upto, quiet,
};
use super::rules::{board_after, legal_filter};
use super::{apply, chosen_move, legal_moves, ChessView, Color, LegalMove, Move, MoveKind, Piece, PieceKind};

verus! {

/// The pawn moves of `from` that go two ranks: only the double step from
/// the start rank, over an empty square onto an empty square.
proof fn lemma_pawn_two_ranks(b: Seq<Option<Piece>>, ep: Option<usize>, from: int, color: Color)
    requires
        0 <= from < 64,
    ensures
        forall|k: int|
            0 <= k < pawn_moves(b, ep, from, color).len() && (#[trigger] pawn_moves(b, ep, from, color)[k]).mv.to
                / 8 != from / 8 + pawn_forward(color) ==> {
                let f = from % 8;
                let r = from / 8;
                let fw = pawn_forward(color);
                &&& pawn_moves(b, ep, from, color)[k] == quiet(from, sq(f, r + 2 * fw))
                &&& r == pawn_start_rank(color)
                &&& on_board(f, r + 2 * fw)
                &&& b[sq(f, r + fw)] is None
                &&& b[sq(f, r + 2 * fw)] is None
            },
{
    let f = from % 8;
    let r = from / 8;
    let fw = pawn_forward(color);
    let p = pawn_pushes(b, from, color);
    let cl = pawn_capture(b, ep, from, color, -1);
    let cr = pawn_capture(b, ep, from, color, 1);
    let all = pawn_moves(b, ep, from, color);
    assert(all == p + cl + cr);
    assert forall|k: int|
        0 <= k < all.len() && (#[trigger] all[k]).mv.to / 8 != r + fw implies {
        &&& all[k] == quiet(from, sq(f, r + 2 * fw))
        &&& r == pawn_start_rank(color)
        &&& on_board(f, r + 2 * fw)
        &&& b[sq(f, r + fw)] is None
        &&& b[sq(f, r + 2 * fw)] is None
    } by {
        if k < p.len() {
            assert(all[k] == p[k]);
            let single = pawn_arrivals(from, sq(f, r + fw), r == pawn_promo_rank(color));
            if k < single.len() {
                if p.len() > single.len() {
                    assert(p[k] == single[k]);
                }
                assert((sq(f, r + fw) as usize) / 8 == r + fw);
            }
        } else if k < p.len() + cl.len() {
            assert(all[k] == cl[k - p.len()]);
            let nf = f - 1;
            let nr = r + fw;
            assert((sq(nf, nr) as usize) / 8 == nr);
        } else {
            assert(all[k] == cr[k - p.len() - cl.len()]);
            let nf = f + 1;
            let nr = r + fw;
            assert((sq(nf, nr) as usize) / 8 == nr);
        }
    }
}

proof fn lemma_pseudo_origin(b: Seq<Option<Piece>>, c: super::CastlingRights, ep: Option<usize>, color: Color, n: int)
    requires
        n <= 64,
    ensures
        forall|k: int|
            0 <= k < pseudo_upto(b, c, ep, color, n).len() ==> exists|j: int|
                0 <= j < piece_moves(b, c, ep, pseudo_upto(b, c, ep, color, n)[k].mv.from as int, color).len()
                    && #[trigger] pseudo_upto(b, c, ep, color, n)[k] == piece_moves(
                    b,
                    c,
                    ep,
                    pseudo_upto(b, c, ep, color, n)[k].mv.from as int,
                    color,
                )[j],
    decreases n,
{
    if n > 0 {
        lemma_pseudo_origin(b, c, ep, color, n - 1);
        lemma_piece_moves_distinct(b, c, ep, n - 1, color);
        let prev = pseudo_upto(b, c, ep, color, n - 1);
        let pm = piece_moves(b, c, ep, n - 1, color);
        let all = pseudo_upto(b, c, ep, color, n);
        assert(all == prev + pm);
        assert forall|k: int| 0 <= k < all.len() implies exists|j: int|
            0 <= j < piece_moves(b, c, ep, all[k].mv.from as int, color).len() && #[trigger] all[k] == piece_moves(
                b,
                c,
                ep,
                all[k].mv.from as int,
                color,
            )[j] by {
            if k < prev.len() {
                assert(all[k] == prev[k]);
            } else {
                assert(all[k] == pm[k - prev.len()]);
                assert(pm[k - prev.len()].mv.from == n - 1);
            }
        }
    }
}

proof fn lemma_pseudo_includes(b: Seq<Option<Piece>>, c: super::CastlingRights, ep: Option<usize>, color: Color, n: int, x: int, m: LegalMove)
    requires
        0 <= x < n <= 64,
        piece_moves(b, c, ep, x, color).contains(m),
    ensures
        pseudo_upto(b, c, ep, color, n).contains(m),
    decreases n,
{
    let prev = pseudo_upto(b, c, ep, color, n - 1);
    let pm = piece_moves(b, c, ep, n - 1, color);
    let all = pseudo_upto(b, c, ep, color, n);
    assert(all == prev + pm);
    if x < n - 1 {
        lemma_pseudo_includes(b, c, ep, color, n - 1, x, m);
        let j = choose|j: int| 0 <= j < prev.len() && prev[j] == m;
        assert(all[j] == m);
    } else {
        let j = choose|j: int| 0 <= j < pm.len() && pm[j] == m;
        assert(all[prev.len() + j] == m);
    }
}

proof fn lemma_filter_keeps(b: Seq<Option<Piece>>, color: Color, s: Seq<LegalMove>, m: LegalMove)
    requires
        s.contains(m),
        !in_check(board_after(b, m), color),
    ensures
        legal_filter(b, color, s).contains(m),
    decreases s.len(),
{
    let prev = legal_filter(b, color, s.drop_last());
    let all = legal_filter(b, color, s);
    if s.last() == m {
        assert(all == prev.push(m));
        assert(all[all.len() - 1] == m);
    } else {
        let j = choose|j: int| 0 <= j < s.len() && s[j] == m;
        assert(s.drop_last()[j] == m);
        lemma_filter_keeps(b, color, s.drop_last(), m);
        let i = choose|i: int| 0 <= i < prev.len() && prev[i] == m;
        if all.len() > prev.len() {
            assert(all == prev.push(s.last()));
        }
        assert(all[i] == m);
    }
}

/// After a legal pawn move of two ranks, an enemy pawn standing beside the
/// pawn's landing square may take it en passant, onto the square it passed
/// over, unless that capture would leave the capturing side's king
/// attacked: the capture is a legal move of the new position, and a request
/// for it is not refused.
pub proof fn lemma_en_passant_after_double_step(v: ChessView, lm: LegalMove, e: int)
    requires
        v.board.len() == 64,
        legal_moves(v).contains(lm),
        v.board[lm.mv.from as int] matches Some(p) && p.kind == PieceKind::Pawn,
        lm.mv.to / 8 != lm.mv.from / 8 + pawn_forward(v.turn),
        0 <= e < 64,
        e / 8 == lm.mv.to / 8,
        e % 8 == lm.mv.to % 8 + 1 || e % 8 + 1 == lm.mv.to % 8,
        apply(v, lm).board[e] == Some(Piece { color: opposite(v.turn), kind: PieceKind::Pawn }),
        !in_check(
            board_after(
                apply(v, lm).board,
                LegalMove {
                    mv: Move { from: e as usize, to: ((lm.mv.from + lm.mv.to) / 2) as usize, promotion: None },
                    kind: MoveKind::EnPassant,
                },
            ),
            opposite(v.turn),
        ),
    ensures
        ({
            let cap = LegalMove {
                mv: Move { from: e as usize, to: ((lm.mv.from + lm.mv.to) / 2) as usize, promotion: None },
                kind: MoveKind::EnPassant,
            };
            &&& legal_moves(apply(v, lm)).contains(cap)
            &&& chosen_move(legal_moves(apply(v, lm)), cap.mv) is Some
        }),
{
    let b = v.board;
    let color = v.turn;
    let from = lm.mv.from as int;
    let to = lm.mv.to as int;
    // The move is a double step of a pawn of the side to move.
    let s = super::pseudo_of(v, color);
    super::movegen::lemma_pseudo_shape(b, v.castling, v.en_passant, color, 64);
    super::lemma_filter_subset(b, color, s);
    let l = legal_moves(v);
    let i = choose|i: int| 0 <= i < l.len() && l[i] == lm;
    assert(super::movegen::move_shape_ok(b, color, l[i]));
    super::castling::lemma_filter_within_pub(b, color, s);
    let j = choose|j: int| 0 <= j < s.len() && l[i] == s[j];
    lemma_pseudo_origin(b, v.castling, v.en_passant, color, 64);
    let pmv = piece_moves(b, v.castling, v.en_passant, from, color);
    let k = choose|k: int| 0 <= k < pmv.len() && s[j] == pmv[k];
    assert(b[from]->0.color == color);
    assert(pmv == pawn_moves(b, v.en_passant, from, color));
    lemma_pawn_two_ranks(b, v.en_passant, from, color);
    let f = from % 8;
    let r = from / 8;
    let fw = pawn_forward(color);
    assert(lm == quiet(from, sq(f, r + 2 * fw)));
    assert(to == sq(f, r + 2 * fw));
    let mid = sq(f, r + fw);
    assert((from + to) / 2 == mid);
    // The new position.
    let v1 = apply(v, lm);
    let b1 = v1.board;
    assert(b1[mid] is None);
    assert(v1.en_passant == Some(mid as usize));
    assert(v1.turn == opposite(color));
    let df = f - e % 8;
    assert(e % 8 + df == f);
    assert(e / 8 + pawn_forward(opposite(color)) == r + fw);
    let cap = LegalMove { mv: Move { from: e as usize, to: mid as usize, promotion: None }, kind: MoveKind::EnPassant };
    let pc = pawn_capture(b1, v1.en_passant, e, opposite(color), df);
    assert(pc == seq![cap]);
    let pm1 = pawn_moves(b1, v1.en_passant, e, opposite(color));
    let pp = pawn_pushes(b1, e, opposite(color));
    let cl = pawn_capture(b1, v1.en_passant, e, opposite(color), -1);
    let cr = pawn_capture(b1, v1.en_passant, e, opposite(color), 1);
    assert(pm1 == pp + cl + cr);
    if df == -1 {
        assert(pm1[pp.len() as int] == cap);
    } else {
        assert(pm1[(pp.len() + cl.len()) as int] == cap);
    }
    assert(piece_moves(b1, v1.castling, v1.en_passant, e, opposite(color)) == pm1);
    assert(pm1.contains(cap));
    lemma_pseudo_includes(b1, v1.castling, v1.en_passant, opposite(color), 64, e, cap);
    lemma_filter_keeps(b1, opposite(color), super::pseudo_of(v1, opposite(color)), cap);
    assert(legal_moves(v1).contains(cap));
    super::laws::lemma_refused_exactly_without_match(v1, cap.mv);
    let l1 = legal_moves(v1);
    let q = choose|q: int| 0 <= q < l1.len() && l1[q] == cap;
    assert(super::matches_request(l1[q], cap.mv));
}

} // verus!
