//! No move is generated twice.

use vstd::prelude::*;

use super::board::{bishop_dirs, king_steps, knight_jumps, on_board, queen_dirs, rook_dirs, room, sq, unit_step};
use super::movegen::{
    castle_moves, free_for, home_rank, pawn_arrivals, pawn_capture, pawn_forward, pawn_moves, pawn_pushes,
    piece_moves, pseudo_upto, quiet, ray_moves, slider_moves, step_moves,
};
use super::rules::legal_filter;
use super::{legal_move_list, legal_moves, CastlingRights, ChessView, Color, LegalMove, Piece, PieceKind};

verus! {

/// No two entries of `s` carry the same move.
pub open spec fn distinct_moves(s: Seq<LegalMove>) -> bool {
    forall|i: int, j: int|
        #![trigger s[i], s[j]]
        0 <= i < s.len() && 0 <= j < s.len() && i != j ==> s[i].mv != s[j].mv
}

/// No entry of `a` carries the move of an entry of `b`.
pub open spec fn apart(a: Seq<LegalMove>, b: Seq<LegalMove>) -> bool {
    forall|i: int, j: int|
        #![trigger a[i], b[j]]
        0 <= i < a.len() && 0 <= j < b.len() ==> a[i].mv != b[j].mv
}

proof fn lemma_concat_distinct(a: Seq<LegalMove>, b: Seq<LegalMove>)
    requires
        distinct_moves(a),
        distinct_moves(b),
        apart(a, b),
    ensures
        distinct_moves(a + b),
{
    let s = a + b;
    assert forall|i: int, j: int| 0 <= i < s.len() && 0 <= j < s.len() && i != j implies #[trigger] s[i].mv
        != #[trigger] s[j].mv by {
        if i < a.len() && j < a.len() {
            assert(s[i] == a[i] && s[j] == a[j]);
        } else if i >= a.len() && j >= a.len() {
            assert(s[i] == b[i - a.len()] && s[j] == b[j - a.len()]);
        } else if i < a.len() {
            assert(s[i] == a[i] && s[j] == b[j - a.len()]);
        } else {
            assert(s[j] == a[j] && s[i] == b[i - a.len()]);
        }
    }
}

/// Two squares of the board with the same index have the same coordinates.
proof fn lemma_sq_injective(f1: int, r1: int, f2: int, r2: int)
    requires
        on_board(f1, r1),
        on_board(f2, r2),
        sq(f1, r1) == sq(f2, r2),
    ensures
        f1 == f2,
        r1 == r2,
{
}

/// The offsets of `offs` are pairwise different.
pub open spec fn distinct_offsets(offs: Seq<(i32, i32)>) -> bool {
    forall|i: int, j: int| #![trigger offs[i], offs[j]] 0 <= i < offs.len() && 0 <= j < offs.len() && i != j ==> offs[i] != offs[j]
}

/// `m` is the plain move from `from` to the square at offset `o`, on the board.
pub open spec fn step_to(m: LegalMove, from: int, o: (i32, i32)) -> bool {
    let nf = from % 8 + o.0;
    let nr = from / 8 + o.1;
    on_board(nf, nr) && m == quiet(from, sq(nf, nr))
}

pub proof fn lemma_step_moves(b: Seq<Option<Piece>>, from: int, color: Color, offs: Seq<(i32, i32)>)
    requires
        0 <= from < 64,
        distinct_offsets(offs),
    ensures
        distinct_moves(step_moves(b, from, color, offs)),
        forall|k: int|
            0 <= k < step_moves(b, from, color, offs).len() ==> exists|t: int|
                0 <= t < offs.len() && step_to(#[trigger] step_moves(b, from, color, offs)[k], from, offs[t]),
    decreases offs.len(),
{
    if offs.len() > 0 {
        let d = offs.drop_last();
        assert(distinct_offsets(d)) by {
            assert forall|i: int, j: int| 0 <= i < d.len() && 0 <= j < d.len() && i != j implies #[trigger] d[i]
                != #[trigger] d[j] by {
                assert(d[i] == offs[i] && d[j] == offs[j]);
            }
        }
        lemma_step_moves(b, from, color, d);
        let prev = step_moves(b, from, color, d);
        let o = offs.last();
        let nf = from % 8 + o.0;
        let nr = from / 8 + o.1;
        let all = step_moves(b, from, color, offs);
        assert forall|k: int| 0 <= k < prev.len() implies exists|t: int|
            0 <= t < offs.len() && step_to(#[trigger] prev[k], from, offs[t]) by {
            let t = choose|t: int| 0 <= t < d.len() && step_to(prev[k], from, d[t]);
            assert(offs[t] == d[t]);
        }
        if on_board(nf, nr) && free_for(b, sq(nf, nr), color) {
            let m = quiet(from, sq(nf, nr));
            assert(all == prev.push(m));
            assert(step_to(m, from, offs[offs.len() - 1]));
            assert forall|k: int| 0 <= k < prev.len() implies #[trigger] prev[k].mv != m.mv by {
                let t = choose|t: int| 0 <= t < d.len() && step_to(prev[k], from, d[t]);
                assert(offs[t] == d[t]);
                assert(offs[t] != offs[offs.len() - 1]);
                let pf = from % 8 + d[t].0;
                let pr = from / 8 + d[t].1;
                if prev[k].mv == m.mv {
                    lemma_sq_injective(pf, pr, nf, nr);
                }
            }
            assert(distinct_moves(all)) by {
                assert forall|i: int, j: int| 0 <= i < all.len() && 0 <= j < all.len() && i != j implies #[trigger] all[i].mv
                    != #[trigger] all[j].mv by {
                    if i < prev.len() && j < prev.len() {
                        assert(all[i] == prev[i] && all[j] == prev[j]);
                    } else if i < prev.len() {
                        assert(all[i] == prev[i] && all[j] == m);
                    } else {
                        assert(all[j] == prev[j] && all[i] == m);
                    }
                }
            }
            assert forall|k: int| 0 <= k < all.len() implies exists|t: int|
                0 <= t < offs.len() && step_to(#[trigger] all[k], from, offs[t]) by {
                if k < prev.len() {
                    assert(all[k] == prev[k]);
                } else {
                    assert(all[k] == m);
                    assert(step_to(all[k], from, offs[offs.len() - 1]));
                }
            }
        }
    }
}

/// `(tf, tr)` lies from `(ff, fr)` in direction `(df, dr)`: each coordinate
/// moved the way the direction points, or not at all where it points nowhere.
pub open spec fn on_line(ff: int, fr: int, df: int, dr: int, tf: int, tr: int) -> bool {
    &&& (df == 0 ==> tf == ff)
    &&& (df > 0 ==> tf > ff)
    &&& (df < 0 ==> tf < ff)
    &&& (dr == 0 ==> tr == fr)
    &&& (dr > 0 ==> tr > fr)
    &&& (dr < 0 ==> tr < fr)
}

/// How far `(x, y)` lies along direction `(df, dr)`.
pub open spec fn progress(df: int, dr: int, x: int, y: int) -> int {
    (if df > 0 {
        x
    } else if df < 0 {
        -x
    } else {
        0
    }) + (if dr > 0 {
        y
    } else if dr < 0 {
        -y
    } else {
        0
    })
}

/// `m` is the plain move from `from` to a square of the board in direction `d`.
pub open spec fn ray_target(m: LegalMove, from: int, d: (i32, i32)) -> bool {
    exists|tf: int, tr: int|
        on_board(tf, tr) && on_line(from % 8, from / 8, d.0 as int, d.1 as int, tf, tr) && m == quiet(
            from,
            sq(tf, tr),
        )
}

proof fn lemma_ray_moves(b: Seq<Option<Piece>>, from: int, color: Color, f: int, r: int, df: int, dr: int)
    requires
        0 <= from < 64,
        unit_step(df, dr),
        -1 <= f <= 8,
        -1 <= r <= 8,
        on_line(from % 8, from / 8, df, dr, f, r),
    ensures
        distinct_moves(ray_moves(b, from, color, f, r, df, dr)),
        forall|k: int|
            0 <= k < ray_moves(b, from, color, f, r, df, dr).len() ==> exists|tf: int, tr: int|
                on_board(tf, tr) && on_line(from % 8, from / 8, df, dr, tf, tr) && progress(df, dr, tf, tr)
                    >= progress(df, dr, f, r) && #[trigger] ray_moves(b, from, color, f, r, df, dr)[k] == quiet(
                    from,
                    sq(tf, tr),
                ),
    decreases room(f, df) + room(r, dr),
{
    let all = ray_moves(b, from, color, f, r, df, dr);
    if on_board(f, r) {
        let head = quiet(from, sq(f, r));
        match b[sq(f, r)] {
            None => {
                lemma_ray_moves(b, from, color, f + df, r + dr, df, dr);
                let rest = ray_moves(b, from, color, f + df, r + dr, df, dr);
                assert(all == seq![head] + rest);
                assert forall|k: int| 0 <= k < rest.len() implies #[trigger] rest[k].mv != head.mv by {
                    let (tf, tr) = choose|tf: int, tr: int|
                        on_board(tf, tr) && on_line(from % 8, from / 8, df, dr, tf, tr) && progress(df, dr, tf, tr)
                            >= progress(df, dr, f + df, r + dr) && rest[k] == quiet(from, sq(tf, tr));
                    if rest[k].mv == head.mv {
                        lemma_sq_injective(tf, tr, f, r);
                    }
                }
                assert(apart(seq![head], rest));
                lemma_concat_distinct(seq![head], rest);
                assert forall|k: int| 0 <= k < all.len() implies exists|tf: int, tr: int|
                    on_board(tf, tr) && on_line(from % 8, from / 8, df, dr, tf, tr) && progress(df, dr, tf, tr)
                        >= progress(df, dr, f, r) && #[trigger] all[k] == quiet(from, sq(tf, tr)) by {
                    if k == 0 {
                        assert(all[k] == head);
                    } else {
                        assert(all[k] == rest[k - 1]);
                    }
                }
            },
            Some(p) => {
                assert forall|k: int| 0 <= k < all.len() implies exists|tf: int, tr: int|
                    on_board(tf, tr) && on_line(from % 8, from / 8, df, dr, tf, tr) && progress(df, dr, tf, tr)
                        >= progress(df, dr, f, r) && #[trigger] all[k] == quiet(from, sq(tf, tr)) by {
                    assert(all[k] == head);
                }
            },
        }
    }
}

/// A square off the origin lies in at most one direction of the origin.
proof fn lemma_one_direction(ff: int, fr: int, d1: (i32, i32), d2: (i32, i32), tf: int, tr: int)
    requires
        on_line(ff, fr, d1.0 as int, d1.1 as int, tf, tr),
        on_line(ff, fr, d2.0 as int, d2.1 as int, tf, tr),
        -1 <= d1.0 <= 1 && -1 <= d1.1 <= 1,
        -1 <= d2.0 <= 1 && -1 <= d2.1 <= 1,
    ensures
        d1 == d2,
{
}

/// The directions of `dirs` are pairwise different unit steps.
pub open spec fn distinct_dirs(dirs: Seq<(i32, i32)>) -> bool {
    &&& distinct_offsets(dirs)
    &&& forall|i: int| 0 <= i < dirs.len() ==> unit_step(#[trigger] dirs[i].0 as int, dirs[i].1 as int)
}

pub proof fn lemma_slider_moves(b: Seq<Option<Piece>>, from: int, color: Color, dirs: Seq<(i32, i32)>)
    requires
        0 <= from < 64,
        distinct_dirs(dirs),
    ensures
        distinct_moves(slider_moves(b, from, color, dirs)),
        forall|k: int|
            0 <= k < slider_moves(b, from, color, dirs).len() ==> exists|t: int|
                0 <= t < dirs.len() && ray_target(#[trigger] slider_moves(b, from, color, dirs)[k], from, dirs[t]),
    decreases dirs.len(),
{
    if dirs.len() > 0 {
        let d = dirs.drop_last();
        assert(distinct_dirs(d)) by {
            assert forall|i: int, j: int| 0 <= i < d.len() && 0 <= j < d.len() && i != j implies #[trigger] d[i]
                != #[trigger] d[j] by {
                assert(d[i] == dirs[i] && d[j] == dirs[j]);
            }
            assert forall|i: int| 0 <= i < d.len() implies unit_step(#[trigger] d[i].0 as int, d[i].1 as int) by {
                assert(d[i] == dirs[i]);
            }
        }
        lemma_slider_moves(b, from, color, d);
        let prev = slider_moves(b, from, color, d);
        let last = dirs[dirs.len() - 1];
        assert(unit_step(last.0 as int, last.1 as int));
        let f0 = from % 8 + last.0;
        let r0 = from / 8 + last.1;
        lemma_ray_moves(b, from, color, f0, r0, last.0 as int, last.1 as int);
        let ray = ray_moves(b, from, color, f0, r0, last.0 as int, last.1 as int);
        let all = slider_moves(b, from, color, dirs);
        assert(all == prev + ray);
        assert forall|i: int, j: int| 0 <= i < prev.len() && 0 <= j < ray.len() implies #[trigger] prev[i].mv
            != #[trigger] ray[j].mv by {
            let t = choose|t: int| 0 <= t < d.len() && ray_target(prev[i], from, d[t]);
            assert(dirs[t] == d[t]);
            let (tf1, tr1) = choose|tf: int, tr: int|
                on_board(tf, tr) && on_line(from % 8, from / 8, d[t].0 as int, d[t].1 as int, tf, tr) && prev[i]
                    == quiet(from, sq(tf, tr));
            let (tf2, tr2) = choose|tf: int, tr: int|
                on_board(tf, tr) && on_line(from % 8, from / 8, last.0 as int, last.1 as int, tf, tr)
                    && progress(last.0 as int, last.1 as int, tf, tr) >= progress(last.0 as int, last.1 as int, f0, r0)
                    && ray[j] == quiet(from, sq(tf, tr));
            if prev[i].mv == ray[j].mv {
                lemma_sq_injective(tf1, tr1, tf2, tr2);
                assert(unit_step(dirs[t].0 as int, dirs[t].1 as int));
                lemma_one_direction(from % 8, from / 8, d[t], last, tf1, tr1);
                assert(dirs[t] != dirs[dirs.len() - 1]);
            }
        }
        lemma_concat_distinct(prev, ray);
        assert forall|k: int| 0 <= k < all.len() implies exists|t: int|
            0 <= t < dirs.len() && ray_target(#[trigger] all[k], from, dirs[t]) by {
            if k < prev.len() {
                assert(all[k] == prev[k]);
                let t = choose|t: int| 0 <= t < d.len() && ray_target(prev[k], from, d[t]);
                assert(dirs[t] == d[t]);
            } else {
                assert(all[k] == ray[k - prev.len()]);
                let (tf, tr) = choose|tf: int, tr: int|
                    on_board(tf, tr) && on_line(from % 8, from / 8, last.0 as int, last.1 as int, tf, tr)
                        && progress(last.0 as int, last.1 as int, tf, tr) >= progress(last.0 as int, last.1 as int, f0, r0)
                        && ray[k - prev.len()] == quiet(from, sq(tf, tr));
                assert(ray_target(all[k], from, dirs[dirs.len() - 1]));
            }
        }
    }
}

/// `m` goes from `from` to the square `(tf, tr)` of the board.
pub open spec fn lands_on(m: LegalMove, from: int, tf: int, tr: int) -> bool {
    on_board(tf, tr) && m.mv.from == from && m.mv.to == sq(tf, tr)
}

proof fn lemma_arrivals(from: int, tf: int, tr: int, promote: bool)
    requires
        0 <= from < 64,
        on_board(tf, tr),
    ensures
        distinct_moves(pawn_arrivals(from, sq(tf, tr), promote)),
        forall|k: int|
            0 <= k < pawn_arrivals(from, sq(tf, tr), promote).len() ==> lands_on(
                #[trigger] pawn_arrivals(from, sq(tf, tr), promote)[k],
                from,
                tf,
                tr,
            ),
{
}

proof fn lemma_pushes(b: Seq<Option<Piece>>, from: int, color: Color)
    requires
        0 <= from < 64,
    ensures
        distinct_moves(pawn_pushes(b, from, color)),
        forall|k: int|
            0 <= k < pawn_pushes(b, from, color).len() ==> lands_on(
                #[trigger] pawn_pushes(b, from, color)[k],
                from,
                from % 8,
                from / 8 + pawn_forward(color),
            ) || lands_on(pawn_pushes(b, from, color)[k], from, from % 8, from / 8 + 2 * pawn_forward(color)),
{
    let f = from % 8;
    let r = from / 8;
    let fw = pawn_forward(color);
    let all = pawn_pushes(b, from, color);
    if on_board(f, r + fw) && b[sq(f, r + fw)] is None {
        let single = pawn_arrivals(from, sq(f, r + fw), r == super::movegen::pawn_promo_rank(color));
        lemma_arrivals(from, f, r + fw, r == super::movegen::pawn_promo_rank(color));
        if all.len() > single.len() {
            let m = quiet(from, sq(f, r + 2 * fw));
            assert(all == single.push(m));
            assert(on_board(f, r + 2 * fw));
            assert forall|i: int, j: int| 0 <= i < all.len() && 0 <= j < all.len() && i != j implies #[trigger] all[i].mv
                != #[trigger] all[j].mv by {
                if i < single.len() && j < single.len() {
                    assert(all[i] == single[i] && all[j] == single[j]);
                } else if i < single.len() {
                    assert(all[i] == single[i] && all[j] == m);
                    if all[i].mv == all[j].mv {
                        lemma_sq_injective(f, r + fw, f, r + 2 * fw);
                    }
                } else {
                    assert(all[j] == single[j] && all[i] == m);
                    if all[i].mv == all[j].mv {
                        lemma_sq_injective(f, r + fw, f, r + 2 * fw);
                    }
                }
            }
            assert forall|k: int| 0 <= k < all.len() implies lands_on(#[trigger] all[k], from, f, r + fw) || lands_on(
                all[k],
                from,
                f,
                r + 2 * fw,
            ) by {
                if k < single.len() {
                    assert(all[k] == single[k]);
                    assert(lands_on(all[k], from, f, r + fw));
                } else {
                    assert(all[k] == m);
                    assert(lands_on(all[k], from, f, r + 2 * fw));
                }
            }
        } else {
            assert(all == single);
            assert forall|k: int| 0 <= k < all.len() implies lands_on(#[trigger] all[k], from, f, r + fw) || lands_on(
                all[k],
                from,
                f,
                r + 2 * fw,
            ) by {
                assert(lands_on(all[k], from, f, r + fw));
            }
        }
    } else {
        assert(all =~= Seq::<LegalMove>::empty());
    }
}

proof fn lemma_capture(b: Seq<Option<Piece>>, ep: Option<usize>, from: int, color: Color, df: int)
    requires
        0 <= from < 64,
    ensures
        distinct_moves(pawn_capture(b, ep, from, color, df)),
        forall|k: int|
            0 <= k < pawn_capture(b, ep, from, color, df).len() ==> lands_on(
                #[trigger] pawn_capture(b, ep, from, color, df)[k],
                from,
                from % 8 + df,
                from / 8 + pawn_forward(color),
            ),
{
    let nf = from % 8 + df;
    let nr = from / 8 + pawn_forward(color);
    if on_board(nf, nr) {
        lemma_arrivals(from, nf, nr, from / 8 == super::movegen::pawn_promo_rank(color));
    }
}

proof fn lemma_pawn_moves(b: Seq<Option<Piece>>, ep: Option<usize>, from: int, color: Color)
    requires
        0 <= from < 64,
    ensures
        distinct_moves(pawn_moves(b, ep, from, color)),
        forall|k: int| 0 <= k < pawn_moves(b, ep, from, color).len() ==> (#[trigger] pawn_moves(b, ep, from, color)[k]).mv.from == from,
{
    let f = from % 8;
    let r = from / 8;
    let fw = pawn_forward(color);
    let p = pawn_pushes(b, from, color);
    let cl = pawn_capture(b, ep, from, color, -1);
    let cr = pawn_capture(b, ep, from, color, 1);
    lemma_pushes(b, from, color);
    lemma_capture(b, ep, from, color, -1);
    lemma_capture(b, ep, from, color, 1);
    assert forall|i: int, j: int| 0 <= i < p.len() && 0 <= j < cl.len() implies #[trigger] p[i].mv != #[trigger] cl[j].mv by {
        if p[i].mv == cl[j].mv {
            if lands_on(p[i], from, f, r + fw) {
                lemma_sq_injective(f, r + fw, f - 1, r + fw);
            } else {
                lemma_sq_injective(f, r + 2 * fw, f - 1, r + fw);
            }
        }
    }
    lemma_concat_distinct(p, cl);
    let pc = p + cl;
    assert forall|i: int, j: int| 0 <= i < pc.len() && 0 <= j < cr.len() implies #[trigger] pc[i].mv != #[trigger] cr[j].mv by {
        if i < p.len() {
            assert(pc[i] == p[i]);
            if pc[i].mv == cr[j].mv {
                if lands_on(p[i], from, f, r + fw) {
                    lemma_sq_injective(f, r + fw, f + 1, r + fw);
                } else {
                    lemma_sq_injective(f, r + 2 * fw, f + 1, r + fw);
                }
            }
        } else {
            assert(pc[i] == cl[i - p.len()]);
            if pc[i].mv == cr[j].mv {
                lemma_sq_injective(f - 1, r + fw, f + 1, r + fw);
            }
        }
    }
    lemma_concat_distinct(pc, cr);
    let all = pawn_moves(b, ep, from, color);
    assert(all == pc + cr);
    assert forall|k: int| 0 <= k < all.len() implies (#[trigger] all[k]).mv.from == from by {
        if k < p.len() {
            assert(all[k] == p[k]);
        } else if k < pc.len() {
            assert(all[k] == cl[k - p.len()]);
        } else {
            assert(all[k] == cr[k - pc.len()]);
        }
    }
}

pub proof fn lemma_knight_offsets()
    ensures
        distinct_offsets(knight_jumps()),
{
    let o = knight_jumps();
    assert(o[0] == (1i32, 2i32) && o[1] == (2i32, 1i32) && o[2] == (2i32, -1i32) && o[3] == (1i32, -2i32));
    assert(o[4] == (-1i32, -2i32) && o[5] == (-2i32, -1i32) && o[6] == (-2i32, 1i32) && o[7] == (-1i32, 2i32));
    assert forall|i: int, j: int| 0 <= i < o.len() && 0 <= j < o.len() && i != j implies #[trigger] o[i]
        != #[trigger] o[j] by {
        assert(i == 0 || i == 1 || i == 2 || i == 3 || i == 4 || i == 5 || i == 6 || i == 7);
        assert(j == 0 || j == 1 || j == 2 || j == 3 || j == 4 || j == 5 || j == 6 || j == 7);
    }
}

pub proof fn lemma_king_offsets()
    ensures
        distinct_offsets(king_steps()),
        forall|i: int| 0 <= i < king_steps().len() ==> -1 <= #[trigger] king_steps()[i].0 <= 1,
{
    let o = king_steps();
    assert(o[0] == (-1i32, -1i32) && o[1] == (-1i32, 0i32) && o[2] == (-1i32, 1i32) && o[3] == (0i32, -1i32));
    assert(o[4] == (0i32, 1i32) && o[5] == (1i32, -1i32) && o[6] == (1i32, 0i32) && o[7] == (1i32, 1i32));
    assert forall|i: int, j: int| 0 <= i < o.len() && 0 <= j < o.len() && i != j implies #[trigger] o[i]
        != #[trigger] o[j] by {
        assert(i == 0 || i == 1 || i == 2 || i == 3 || i == 4 || i == 5 || i == 6 || i == 7);
        assert(j == 0 || j == 1 || j == 2 || j == 3 || j == 4 || j == 5 || j == 6 || j == 7);
    }
    assert forall|i: int| 0 <= i < o.len() implies -1 <= #[trigger] o[i].0 <= 1 by {
        assert(i == 0 || i == 1 || i == 2 || i == 3 || i == 4 || i == 5 || i == 6 || i == 7);
    }
}

pub proof fn lemma_slider_dirs()
    ensures
        distinct_dirs(bishop_dirs()),
        distinct_dirs(rook_dirs()),
        distinct_dirs(queen_dirs()),
{
    let bd = bishop_dirs();
    let rd = rook_dirs();
    let q = queen_dirs();
    assert(bd[0] == (1i32, 1i32) && bd[1] == (-1i32, 1i32) && bd[2] == (1i32, -1i32) && bd[3] == (-1i32, -1i32));
    assert(rd[0] == (1i32, 0i32) && rd[1] == (-1i32, 0i32) && rd[2] == (0i32, 1i32) && rd[3] == (0i32, -1i32));
    assert(q.len() == 8);
    assert(q[0] == bd[0] && q[1] == bd[1] && q[2] == bd[2] && q[3] == bd[3]);
    assert(q[4] == rd[0] && q[5] == rd[1] && q[6] == rd[2] && q[7] == rd[3]);
    assert forall|i: int, j: int| 0 <= i < bd.len() && 0 <= j < bd.len() && i != j implies #[trigger] bd[i]
        != #[trigger] bd[j] by {
        assert(i == 0 || i == 1 || i == 2 || i == 3);
        assert(j == 0 || j == 1 || j == 2 || j == 3);
    }
    assert forall|i: int| 0 <= i < bd.len() implies unit_step(#[trigger] bd[i].0 as int, bd[i].1 as int) by {
        assert(i == 0 || i == 1 || i == 2 || i == 3);
    }
    assert forall|i: int, j: int| 0 <= i < rd.len() && 0 <= j < rd.len() && i != j implies #[trigger] rd[i]
        != #[trigger] rd[j] by {
        assert(i == 0 || i == 1 || i == 2 || i == 3);
        assert(j == 0 || j == 1 || j == 2 || j == 3);
    }
    assert forall|i: int| 0 <= i < rd.len() implies unit_step(#[trigger] rd[i].0 as int, rd[i].1 as int) by {
        assert(i == 0 || i == 1 || i == 2 || i == 3);
    }
    assert forall|i: int, j: int| 0 <= i < q.len() && 0 <= j < q.len() && i != j implies #[trigger] q[i]
        != #[trigger] q[j] by {
        assert(i == 0 || i == 1 || i == 2 || i == 3 || i == 4 || i == 5 || i == 6 || i == 7);
        assert(j == 0 || j == 1 || j == 2 || j == 3 || j == 4 || j == 5 || j == 6 || j == 7);
    }
    assert forall|i: int| 0 <= i < q.len() implies unit_step(#[trigger] q[i].0 as int, q[i].1 as int) by {
        assert(i == 0 || i == 1 || i == 2 || i == 3 || i == 4 || i == 5 || i == 6 || i == 7);
    }
}

proof fn lemma_steps_from(b: Seq<Option<Piece>>, from: int, color: Color, offs: Seq<(i32, i32)>)
    requires
        0 <= from < 64,
        distinct_offsets(offs),
    ensures
        distinct_moves(step_moves(b, from, color, offs)),
        forall|k: int| 0 <= k < step_moves(b, from, color, offs).len() ==> (#[trigger] step_moves(b, from, color, offs)[k]).mv.from == from,
{
    lemma_step_moves(b, from, color, offs);
    let s = step_moves(b, from, color, offs);
    assert forall|k: int| 0 <= k < s.len() implies (#[trigger] s[k]).mv.from == from by {
        let t = choose|t: int| 0 <= t < offs.len() && step_to(s[k], from, offs[t]);
    }
}

proof fn lemma_sliders_from(b: Seq<Option<Piece>>, from: int, color: Color, dirs: Seq<(i32, i32)>)
    requires
        0 <= from < 64,
        distinct_dirs(dirs),
    ensures
        distinct_moves(slider_moves(b, from, color, dirs)),
        forall|k: int| 0 <= k < slider_moves(b, from, color, dirs).len() ==> (#[trigger] slider_moves(b, from, color, dirs)[k]).mv.from == from,
{
    lemma_slider_moves(b, from, color, dirs);
    let s = slider_moves(b, from, color, dirs);
    assert forall|k: int| 0 <= k < s.len() implies (#[trigger] s[k]).mv.from == from by {
        let t = choose|t: int| 0 <= t < dirs.len() && ray_target(s[k], from, dirs[t]);
        let (tf, tr) = choose|tf: int, tr: int|
            on_board(tf, tr) && on_line(from % 8, from / 8, dirs[t].0 as int, dirs[t].1 as int, tf, tr) && s[k]
                == quiet(from, sq(tf, tr));
    }
}

proof fn lemma_king_moves(b: Seq<Option<Piece>>, c: CastlingRights, from: int, color: Color)
    requires
        0 <= from < 64,
    ensures
        distinct_moves(step_moves(b, from, color, king_steps()) + castle_moves(b, c, from, color)),
        forall|k: int|
            0 <= k < (step_moves(b, from, color, king_steps()) + castle_moves(b, c, from, color)).len() ==> (
            #[trigger] (step_moves(b, from, color, king_steps()) + castle_moves(b, c, from, color))[k]).mv.from
                == from,
{
    lemma_king_offsets();
    lemma_step_moves(b, from, color, king_steps());
    lemma_steps_from(b, from, color, king_steps());
    let st = step_moves(b, from, color, king_steps());
    let cm = castle_moves(b, c, from, color);
    let h = home_rank(color) * 8;
    let hr = home_rank(color);
    assert(hr == 0 || hr == 7);
    assert(forall|k: int| 0 <= k < cm.len() ==> (#[trigger] cm[k]).mv.from == from && (cm[k].mv.to == sq(6, hr)
        || cm[k].mv.to == sq(2, hr)));
    assert(distinct_moves(cm));
    assert forall|i: int, j: int| 0 <= i < st.len() && 0 <= j < cm.len() implies #[trigger] st[i].mv
        != #[trigger] cm[j].mv by {
        let t = choose|t: int| 0 <= t < king_steps().len() && step_to(st[i], from, king_steps()[t]);
        let o = king_steps()[t];
        assert(-1 <= o.0 <= 1);
        if st[i].mv == cm[j].mv {
            assert(from == h + 4);
            assert(from % 8 == 4 && from / 8 == hr);
            if cm[j].mv.to == sq(6, hr) {
                lemma_sq_injective(from % 8 + o.0, from / 8 + o.1, 6, hr);
            } else {
                lemma_sq_injective(from % 8 + o.0, from / 8 + o.1, 2, hr);
            }
        }
    }
    lemma_concat_distinct(st, cm);
    let all = st + cm;
    assert forall|k: int| 0 <= k < all.len() implies (#[trigger] all[k]).mv.from == from by {
        if k < st.len() {
            assert(all[k] == st[k]);
        } else {
            assert(all[k] == cm[k - st.len()]);
        }
    }
}

/// No move of one piece is generated twice, and each starts on the piece's square.
pub proof fn lemma_piece_moves_distinct(b: Seq<Option<Piece>>, c: CastlingRights, ep: Option<usize>, from: int, color: Color)
    requires
        0 <= from < 64,
    ensures
        distinct_moves(piece_moves(b, c, ep, from, color)),
        forall|k: int| 0 <= k < piece_moves(b, c, ep, from, color).len() ==> (#[trigger] piece_moves(b, c, ep, from, color)[k]).mv.from == from,
{
    match b[from] {
        None => {},
        Some(p) => if p.color == color {
            lemma_slider_dirs();
            lemma_knight_offsets();
            match p.kind {
                PieceKind::Pawn => lemma_pawn_moves(b, ep, from, color),
                PieceKind::Knight => lemma_steps_from(b, from, color, knight_jumps()),
                PieceKind::Bishop => lemma_sliders_from(b, from, color, bishop_dirs()),
                PieceKind::Rook => lemma_sliders_from(b, from, color, rook_dirs()),
                PieceKind::Queen => lemma_sliders_from(b, from, color, queen_dirs()),
                PieceKind::King => lemma_king_moves(b, c, from, color),
            }
        },
    }
}

proof fn lemma_pseudo_distinct(b: Seq<Option<Piece>>, c: CastlingRights, ep: Option<usize>, color: Color, n: int)
    requires
        n <= 64,
    ensures
        distinct_moves(pseudo_upto(b, c, ep, color, n)),
        forall|k: int| 0 <= k < pseudo_upto(b, c, ep, color, n).len() ==> (#[trigger] pseudo_upto(b, c, ep, color, n)[k]).mv.from < n,
    decreases n,
{
    if n > 0 {
        lemma_pseudo_distinct(b, c, ep, color, n - 1);
        lemma_piece_moves_distinct(b, c, ep, n - 1, color);
        let prev = pseudo_upto(b, c, ep, color, n - 1);
        let pm = piece_moves(b, c, ep, n - 1, color);
        assert forall|i: int, j: int| 0 <= i < prev.len() && 0 <= j < pm.len() implies #[trigger] prev[i].mv
            != #[trigger] pm[j].mv by {
        }
        lemma_concat_distinct(prev, pm);
        let all = pseudo_upto(b, c, ep, color, n);
        assert forall|k: int| 0 <= k < all.len() implies (#[trigger] all[k]).mv.from < n by {
            if k < prev.len() {
                assert(all[k] == prev[k]);
            } else {
                assert(all[k] == pm[k - prev.len()]);
            }
        }
    }
}

proof fn lemma_filter_distinct(b: Seq<Option<Piece>>, color: Color, s: Seq<LegalMove>)
    requires
        distinct_moves(s),
    ensures
        distinct_moves(legal_filter(b, color, s)),
        forall|k: int| 0 <= k < legal_filter(b, color, s).len() ==> exists|j: int|
            0 <= j < s.len() && #[trigger] legal_filter(b, color, s)[k] == s[j],
    decreases s.len(),
{
    if s.len() > 0 {
        let d = s.drop_last();
        assert(distinct_moves(d)) by {
            assert forall|i: int, j: int| 0 <= i < d.len() && 0 <= j < d.len() && i != j implies #[trigger] d[i].mv
                != #[trigger] d[j].mv by {
                assert(d[i] == s[i] && d[j] == s[j]);
            }
        }
        lemma_filter_distinct(b, color, d);
        let prev = legal_filter(b, color, d);
        let all = legal_filter(b, color, s);
        assert forall|k: int| 0 <= k < prev.len() implies exists|j: int| 0 <= j < s.len() && #[trigger] prev[k] == s[j] by {
            let j = choose|j: int| 0 <= j < d.len() && prev[k] == d[j];
            assert(d[j] == s[j]);
        }
        if all.len() > prev.len() {
            let m = s.last();
            assert(all == prev.push(m));
            assert forall|i: int, j: int| 0 <= i < prev.len() && 0 <= j < 1 implies #[trigger] prev[i].mv
                != #[trigger] seq![m][j].mv by {
                let x = choose|x: int| 0 <= x < d.len() && prev[i] == d[x];
                assert(d[x] == s[x]);
                assert(s[s.len() - 1] == m);
            }
            lemma_concat_distinct(prev, seq![m]);
            assert(all == prev + seq![m]);
            assert forall|k: int| 0 <= k < all.len() implies exists|j: int| 0 <= j < s.len() && #[trigger] all[k] == s[j] by {
                if k < prev.len() {
                    assert(all[k] == prev[k]);
                } else {
                    assert(all[k] == s[s.len() - 1]);
                }
            }
        } else {
            assert(all == prev);
        }
    }
}

/// No move is listed twice among the legal moves of the side to move.
pub proof fn lemma_legal_moves_distinct(v: ChessView)
    ensures
        legal_move_list(v).no_duplicates(),
{
    lemma_pseudo_distinct(v.board, v.castling, v.en_passant, v.turn, 64);
    lemma_filter_distinct(v.board, v.turn, super::pseudo_of(v, v.turn));
    let l = legal_moves(v);
    let ml = legal_move_list(v);
    assert forall|i: int, j: int| 0 <= i < ml.len() && 0 <= j < ml.len() && i != j implies ml[i] != ml[j] by {
        assert(ml[i] == l[i].mv && ml[j] == l[j].mv);
        assert(l[i].mv != l[j].mv);
    }
}

} // verus!
