//! What a legal castling move needs.

use vstd::prelude::*;

use super::board::{
    attacked_by, bishop_dirs, in_check, king_square, king_steps, knight_jumps, opposite, queen_dirs,
    rook_dirs,
};
use super::distinct::{lemma_slider_moves, lemma_step_moves, ray_target, step_to};
use super::movegen::{
    castle_moves, home_rank, kingside_ok, pawn_arrivals, pawn_capture, pawn_moves, pawn_pushes, piece_moves,
    pseudo_upto, queenside_ok, slider_moves, step_moves,
};
use super::rules::legal_filter;
use super::{apply, legal_moves, CastlingRights, ChessView, Color, LegalMove, MoveKind, Piece, PieceKind};

verus! {

/// `m` is a castling move.
pub open spec fn is_castle(m: LegalMove) -> bool {
    m.kind == MoveKind::CastleKingside || m.kind == MoveKind::CastleQueenside
}

/// What a castling move of `color` needs on board `b` with rights `c`: the
/// king of `color` stands on its start square, and on that side the right
/// is held, the path is free and the king's start, transit and target
/// squares are not attacked.
pub open spec fn castle_allowed(b: Seq<Option<Piece>>, c: CastlingRights, color: Color, m: LegalMove) -> bool {
    &&& m.mv.from == home_rank(color) * 8 + 4
    &&& (m.kind == MoveKind::CastleKingside ==> m.mv.to == m.mv.from + 2)
    &&& (m.kind == MoveKind::CastleQueenside ==> m.mv.to + 2 == m.mv.from)
    &&& b[m.mv.from as int] == Some(Piece { color, kind: PieceKind::King })
    &&& (m.kind == MoveKind::CastleKingside ==> kingside_ok(b, c, color))
    &&& (m.kind == MoveKind::CastleQueenside ==> queenside_ok(b, c, color))
}

proof fn lemma_pawn_not_castle(b: Seq<Option<Piece>>, ep: Option<usize>, from: int, color: Color)
    ensures
        forall|k: int| 0 <= k < pawn_moves(b, ep, from, color).len() ==> !is_castle(#[trigger] pawn_moves(b, ep, from, color)[k]),
{
    let p = pawn_pushes(b, from, color);
    let cl = pawn_capture(b, ep, from, color, -1);
    let cr = pawn_capture(b, ep, from, color, 1);
    assert forall|k: int| 0 <= k < p.len() implies !is_castle(#[trigger] p[k]) by {
        let f = from % 8;
        let r = from / 8;
        let fw = super::movegen::pawn_forward(color);
        let single = pawn_arrivals(from, super::board::sq(f, r + fw), r == super::movegen::pawn_promo_rank(color));
        if k < single.len() {
            if p.len() > single.len() {
                assert(p[k] == single[k]);
            }
        }
    }
    assert forall|k: int| 0 <= k < cl.len() implies !is_castle(#[trigger] cl[k]) by {}
    assert forall|k: int| 0 <= k < cr.len() implies !is_castle(#[trigger] cr[k]) by {}
    let all = pawn_moves(b, ep, from, color);
    assert(all == p + cl + cr);
    assert forall|k: int| 0 <= k < all.len() implies !is_castle(#[trigger] all[k]) by {
        if k < p.len() {
            assert(all[k] == p[k]);
        } else if k < p.len() + cl.len() {
            assert(all[k] == cl[k - p.len()]);
        } else {
            assert(all[k] == cr[k - p.len() - cl.len()]);
        }
    }
}

proof fn lemma_steps_not_castle(b: Seq<Option<Piece>>, from: int, color: Color, offs: Seq<(i32, i32)>)
    requires
        0 <= from < 64,
        super::distinct::distinct_offsets(offs),
    ensures
        forall|k: int| 0 <= k < step_moves(b, from, color, offs).len() ==> !is_castle(#[trigger] step_moves(b, from, color, offs)[k]),
{
    lemma_step_moves(b, from, color, offs);
    let s = step_moves(b, from, color, offs);
    assert forall|k: int| 0 <= k < s.len() implies !is_castle(#[trigger] s[k]) by {
        let t = choose|t: int| 0 <= t < offs.len() && step_to(s[k], from, offs[t]);
    }
}

proof fn lemma_sliders_not_castle(b: Seq<Option<Piece>>, from: int, color: Color, dirs: Seq<(i32, i32)>)
    requires
        0 <= from < 64,
        super::distinct::distinct_dirs(dirs),
    ensures
        forall|k: int| 0 <= k < slider_moves(b, from, color, dirs).len() ==> !is_castle(#[trigger] slider_moves(b, from, color, dirs)[k]),
{
    lemma_slider_moves(b, from, color, dirs);
    let s = slider_moves(b, from, color, dirs);
    assert forall|k: int| 0 <= k < s.len() implies !is_castle(#[trigger] s[k]) by {
        let t = choose|t: int| 0 <= t < dirs.len() && ray_target(s[k], from, dirs[t]);
        let (tf, tr) = choose|tf: int, tr: int|
            super::board::on_board(tf, tr) && super::distinct::on_line(from % 8, from / 8, dirs[t].0 as int, dirs[t].1 as int, tf, tr)
                && s[k] == super::movegen::quiet(from, super::board::sq(tf, tr));
    }
}

proof fn lemma_piece_castles(b: Seq<Option<Piece>>, c: CastlingRights, ep: Option<usize>, from: int, color: Color)
    requires
        0 <= from < 64,
    ensures
        forall|k: int|
            0 <= k < piece_moves(b, c, ep, from, color).len() && is_castle(#[trigger] piece_moves(b, c, ep, from, color)[k])
                ==> castle_allowed(b, c, color, piece_moves(b, c, ep, from, color)[k]),
{
    super::distinct::lemma_knight_offsets();
    super::distinct::lemma_king_offsets();
    super::distinct::lemma_slider_dirs();
    match b[from] {
        None => {},
        Some(p) => if p.color == color {
            match p.kind {
                PieceKind::Pawn => lemma_pawn_not_castle(b, ep, from, color),
                PieceKind::Knight => lemma_steps_not_castle(b, from, color, knight_jumps()),
                PieceKind::Bishop => lemma_sliders_not_castle(b, from, color, bishop_dirs()),
                PieceKind::Rook => lemma_sliders_not_castle(b, from, color, rook_dirs()),
                PieceKind::Queen => lemma_sliders_not_castle(b, from, color, queen_dirs()),
                PieceKind::King => {
                    lemma_steps_not_castle(b, from, color, king_steps());
                    let st = step_moves(b, from, color, king_steps());
                    let cm = castle_moves(b, c, from, color);
                    let all = piece_moves(b, c, ep, from, color);
                    assert(all == st + cm);
                    assert(p == Piece { color, kind: PieceKind::King });
                    assert forall|k: int| 0 <= k < all.len() && is_castle(#[trigger] all[k]) implies castle_allowed(
                        b,
                        c,
                        color,
                        all[k],
                    ) by {
                        if k < st.len() {
                            assert(all[k] == st[k]);
                        } else {
                            assert(all[k] == cm[k - st.len()]);
                        }
                    }
                },
            }
        },
    }
}

proof fn lemma_pseudo_castles(b: Seq<Option<Piece>>, c: CastlingRights, ep: Option<usize>, color: Color, n: int)
    requires
        n <= 64,
    ensures
        forall|k: int|
            0 <= k < pseudo_upto(b, c, ep, color, n).len() && is_castle(#[trigger] pseudo_upto(b, c, ep, color, n)[k])
                ==> castle_allowed(b, c, color, pseudo_upto(b, c, ep, color, n)[k]),
    decreases n,
{
    if n > 0 {
        lemma_pseudo_castles(b, c, ep, color, n - 1);
        lemma_piece_castles(b, c, ep, n - 1, color);
        let prev = pseudo_upto(b, c, ep, color, n - 1);
        let pm = piece_moves(b, c, ep, n - 1, color);
        let all = pseudo_upto(b, c, ep, color, n);
        assert(all == prev + pm);
        assert forall|k: int| 0 <= k < all.len() && is_castle(#[trigger] all[k]) implies castle_allowed(b, c, color, all[k]) by {
            if k < prev.len() {
                assert(all[k] == prev[k]);
            } else {
                assert(all[k] == pm[k - prev.len()]);
            }
        }
    }
}

proof fn lemma_filter_within(b: Seq<Option<Piece>>, color: Color, s: Seq<LegalMove>)
    ensures
        forall|k: int| 0 <= k < legal_filter(b, color, s).len() ==> exists|j: int|
            0 <= j < s.len() && #[trigger] legal_filter(b, color, s)[k] == s[j],
    decreases s.len(),
{
    if s.len() > 0 {
        let d = s.drop_last();
        lemma_filter_within(b, color, d);
        let prev = legal_filter(b, color, d);
        let all = legal_filter(b, color, s);
        assert forall|k: int| 0 <= k < all.len() implies exists|j: int| 0 <= j < s.len() && #[trigger] all[k] == s[j] by {
            if k < prev.len() {
                assert(all[k] == prev[k]);
                let j = choose|j: int| 0 <= j < d.len() && prev[k] == d[j];
                assert(d[j] == s[j]);
            } else {
                assert(all[k] == s[s.len() - 1]);
            }
        }
    }
}

/// A legal castling move is made by the king of the side to move from its
/// start square, and neither that square nor the squares the king crosses
/// and lands on are attacked by the other side: king-side the squares
/// `from`, `from + 1`, `from + 2`, queen-side `from`, `from - 1`, `from - 2`.
/// In particular a king in check cannot castle.
pub proof fn lemma_castling_not_out_of_or_through_check(v: ChessView, lm: LegalMove)
    requires
        legal_moves(v).contains(lm),
        is_castle(lm),
    ensures
        v.board[lm.mv.from as int] == Some(Piece { color: v.turn, kind: PieceKind::King }),
        !attacked_by(v.board, lm.mv.from as int, opposite(v.turn)),
        lm.kind == MoveKind::CastleKingside ==> !attacked_by(v.board, lm.mv.from + 1, opposite(v.turn))
            && !attacked_by(v.board, lm.mv.from + 2, opposite(v.turn)),
        lm.kind == MoveKind::CastleQueenside ==> !attacked_by(v.board, lm.mv.from - 1, opposite(v.turn))
            && !attacked_by(v.board, lm.mv.from - 2, opposite(v.turn)),
        king_square(v.board, v.turn) == Some(lm.mv.from as int) ==> !in_check(v.board, v.turn),
{
    let s = super::pseudo_of(v, v.turn);
    lemma_filter_within(v.board, v.turn, s);
    lemma_pseudo_castles(v.board, v.castling, v.en_passant, v.turn, 64);
    let l = legal_moves(v);
    let i = choose|i: int| 0 <= i < l.len() && l[i] == lm;
    let j = choose|j: int| 0 <= j < s.len() && l[i] == s[j];
    assert(is_castle(s[j]));
    assert(castle_allowed(v.board, v.castling, v.turn, lm));
}

/// A legal castling move needs the right on its side and the own rook on
/// that corner with every square between it and the king empty; the king
/// goes two squares towards the rook: king side from `e` to `g` past the
/// empty `f` and `g` with the rook on `h`, queen side from `e` to `c` past the
/// empty `d`, `c` and `b` with the rook on `a`.
pub proof fn lemma_castling_needs_right_and_free_path(v: ChessView, lm: LegalMove)
    requires
        legal_moves(v).contains(lm),
        is_castle(lm),
    ensures
        lm.mv.from == (if v.turn == Color::White { 4int } else { 60int }),
        lm.kind == MoveKind::CastleKingside ==> {
            &&& lm.mv.to == lm.mv.from + 2
            &&& (if v.turn == Color::White { v.castling.white_kingside } else { v.castling.black_kingside })
            &&& v.board[lm.mv.from + 1] is None
            &&& v.board[lm.mv.from + 2] is None
            &&& v.board[lm.mv.from + 3] == Some(Piece { color: v.turn, kind: PieceKind::Rook })
        },
        lm.kind == MoveKind::CastleQueenside ==> {
            &&& lm.mv.to + 2 == lm.mv.from
            &&& (if v.turn == Color::White { v.castling.white_queenside } else { v.castling.black_queenside })
            &&& v.board[lm.mv.from - 1] is None
            &&& v.board[lm.mv.from - 2] is None
            &&& v.board[lm.mv.from - 3] is None
            &&& v.board[lm.mv.from - 4] == Some(Piece { color: v.turn, kind: PieceKind::Rook })
        },
{
    let s = super::pseudo_of(v, v.turn);
    lemma_filter_within(v.board, v.turn, s);
    lemma_pseudo_castles(v.board, v.castling, v.en_passant, v.turn, 64);
    let l = legal_moves(v);
    let i = choose|i: int| 0 <= i < l.len() && l[i] == lm;
    let j = choose|j: int| 0 <= j < s.len() && l[i] == s[j];
    assert(is_castle(s[j]));
    assert(castle_allowed(v.board, v.castling, v.turn, lm));
}

/// Castling moves the rook too: afterwards the king stands on its target
/// square, the rook on the square the king crossed, and the king's start
/// square and the rook's corner are empty.
pub proof fn lemma_castling_moves_the_rook(v: ChessView, lm: LegalMove)
    requires
        v.board.len() == 64,
        legal_moves(v).contains(lm),
        is_castle(lm),
    ensures
        ({
            let after = apply(v, lm).board;
            let king = Piece { color: v.turn, kind: PieceKind::King };
            let rook = Piece { color: v.turn, kind: PieceKind::Rook };
            let f = lm.mv.from as int;
            &&& after[f] is None
            &&& lm.kind == MoveKind::CastleKingside ==> after[f + 2] == Some(king) && after[f + 1] == Some(rook)
                && after[f + 3] is None
            &&& lm.kind == MoveKind::CastleQueenside ==> after[f - 2] == Some(king) && after[f - 1] == Some(rook)
                && after[f - 4] is None
        }),
{
    let s = super::pseudo_of(v, v.turn);
    lemma_filter_within(v.board, v.turn, s);
    lemma_pseudo_castles(v.board, v.castling, v.en_passant, v.turn, 64);
    let l = legal_moves(v);
    let i = choose|i: int| 0 <= i < l.len() && l[i] == lm;
    let j = choose|j: int| 0 <= j < s.len() && l[i] == s[j];
    assert(is_castle(s[j]));
    assert(castle_allowed(v.board, v.castling, v.turn, lm));
}

/// Every legal move of a filtered list comes from the list.
pub proof fn lemma_filter_within_pub(b: Seq<Option<Piece>>, color: Color, s: Seq<LegalMove>)
    ensures
        forall|k: int| 0 <= k < legal_filter(b, color, s).len() ==> exists|j: int|
            0 <= j < s.len() && #[trigger] legal_filter(b, color, s)[k] == s[j],
{
    lemma_filter_within(b, color, s);
}

} // verus!
