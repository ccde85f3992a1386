//! The square-centred attack test of the rules and the piece-centred one of
//! the evaluation agree.

use vstd::prelude::*;

use crate::game::{Color, Piece, PieceKind};
use crate::game::board::{
    any_ray_hits, attacked_by, bishop_dirs, has_piece, king_steps, knight_jumps, on_board,
    pawn_attack_dir, piece_at_offsets, ray_blocker, ray_hits, rook_dirs, room, sq, unit_step,
};
use crate::game::movegen::pawn_forward;
use super::eval::{abs_int, attacked_upto, attacks, clear_walk, sign, slider_reaches, steps};

verus! {

/// The piece on `x`, if of `by`, attacks `s`.
pub open spec fn attacker_on(b: Seq<Option<Piece>>, x: int, s: int, by: Color) -> bool {
    match b[x] {
        Some(p) => p.color == by && attacks(b, x, p, s),
        None => false,
    }
}

proof fn lemma_attacked_upto_exists(b: Seq<Option<Piece>>, s: int, by: Color, n: int)
    ensures
        attacked_upto(b, s, by, n) <==> exists|x: int| 0 <= x < n && #[trigger] attacker_on(b, x, s, by),
    decreases n,
{
    if n > 0 {
        lemma_attacked_upto_exists(b, s, by, n - 1);
        if attacked_upto(b, s, by, n) && !attacked_upto(b, s, by, n - 1) {
            assert(attacker_on(b, n - 1, s, by));
        }
        if exists|x: int| 0 <= x < n && #[trigger] attacker_on(b, x, s, by) {
            let x = choose|x: int| 0 <= x < n && #[trigger] attacker_on(b, x, s, by);
            if x < n - 1 {
                assert(attacked_upto(b, s, by, n - 1));
            }
        }
    }
}

proof fn lemma_offsets_exist(b: Seq<Option<Piece>>, f: int, r: int, offs: Seq<(i32, i32)>, p: Piece)
    ensures
        piece_at_offsets(b, f, r, offs, p) <==> exists|i: int|
            0 <= i < offs.len() && #[trigger] has_piece(b, f + offs[i].0, r + offs[i].1, p),
    decreases offs.len(),
{
    if offs.len() > 0 {
        let d = offs.drop_last();
        lemma_offsets_exist(b, f, r, d, p);
        if exists|i: int| 0 <= i < d.len() && #[trigger] has_piece(b, f + d[i].0, r + d[i].1, p) {
            let i = choose|i: int| 0 <= i < d.len() && #[trigger] has_piece(b, f + d[i].0, r + d[i].1, p);
            assert(d[i] == offs[i]);
        }
        if exists|i: int| 0 <= i < offs.len() && #[trigger] has_piece(b, f + offs[i].0, r + offs[i].1, p) {
            let i = choose|i: int| 0 <= i < offs.len() && #[trigger] has_piece(b, f + offs[i].0, r + offs[i].1, p);
            if i < offs.len() - 1 {
                assert(d[i] == offs[i]);
            }
        }
    }
}

proof fn lemma_coords(x: int)
    requires
        0 <= x < 64,
    ensures
        on_board(x % 8, x / 8),
        sq(x % 8, x / 8) == x,
{
}

proof fn lemma_sq_coords(f: int, r: int)
    requires
        on_board(f, r),
    ensures
        sq(f, r) % 8 == f,
        sq(f, r) / 8 == r,
        0 <= sq(f, r) < 64,
{
}

/// A piece of kind `kind` and side `by` standing at offset `(o0, o1)` from a
/// square attacks it (for the pieces that attack by a fixed jump).
pub open spec fn offset_ok(kind: PieceKind, by: Color, o0: int, o1: int) -> bool {
    match kind {
        PieceKind::Pawn => -o1 == pawn_forward(by) && abs_int(o0) == 1,
        PieceKind::Knight => (abs_int(o0) == 1 && abs_int(o1) == 2) || (abs_int(o0) == 2 && abs_int(o1) == 1),
        PieceKind::King => abs_int(o0) <= 1 && abs_int(o1) <= 1 && !(o0 == 0 && o1 == 0),
        _ => false,
    }
}

/// `offs` lists exactly the attacking offsets of `kind`.
pub open spec fn offsets_exact(kind: PieceKind, by: Color, offs: Seq<(i32, i32)>) -> bool {
    &&& forall|i: int| 0 <= i < offs.len() ==> offset_ok(kind, by, #[trigger] offs[i].0 as int, offs[i].1 as int)
    &&& forall|o0: int, o1: int| #[trigger] offset_ok(kind, by, o0, o1) ==> exists|i: int|
        0 <= i < offs.len() && offs[i].0 == o0 && #[trigger] offs[i].1 == o1
}

proof fn lemma_pawn_offsets(by: Color)
    ensures
        offsets_exact(PieceKind::Pawn, by, seq![(-1i32, pawn_attack_dir(by)), (1i32, pawn_attack_dir(by))]),
{
    let offs = seq![(-1i32, pawn_attack_dir(by)), (1i32, pawn_attack_dir(by))];
    assert forall|o0: int, o1: int| #[trigger] offset_ok(PieceKind::Pawn, by, o0, o1) implies exists|i: int|
        0 <= i < offs.len() && offs[i].0 == o0 && #[trigger] offs[i].1 == o1 by {
        if o0 == -1 {
            assert(offs[0].0 == o0 && offs[0].1 == o1);
        } else {
            assert(offs[1].0 == o0 && offs[1].1 == o1);
        }
    }
}

proof fn lemma_knight_offsets_exact(by: Color)
    ensures
        offsets_exact(PieceKind::Knight, by, knight_jumps()),
{
    let o = knight_jumps();
    assert(o[0] == (1i32, 2i32) && o[1] == (2i32, 1i32) && o[2] == (2i32, -1i32) && o[3] == (1i32, -2i32));
    assert(o[4] == (-1i32, -2i32) && o[5] == (-2i32, -1i32) && o[6] == (-2i32, 1i32) && o[7] == (-1i32, 2i32));
    assert forall|i: int| 0 <= i < o.len() implies offset_ok(PieceKind::Knight, by, #[trigger] o[i].0 as int, o[i].1 as int) by {
        assert(i == 0 || i == 1 || i == 2 || i == 3 || i == 4 || i == 5 || i == 6 || i == 7);
    }
    assert forall|o0: int, o1: int| #[trigger] offset_ok(PieceKind::Knight, by, o0, o1) implies exists|i: int|
        0 <= i < o.len() && o[i].0 == o0 && #[trigger] o[i].1 == o1 by {
        if o0 == 1 && o1 == 2 {
            assert(o[0].0 == o0 && o[0].1 == o1);
        } else if o0 == 2 && o1 == 1 {
            assert(o[1].0 == o0 && o[1].1 == o1);
        } else if o0 == 2 && o1 == -1 {
            assert(o[2].0 == o0 && o[2].1 == o1);
        } else if o0 == 1 && o1 == -2 {
            assert(o[3].0 == o0 && o[3].1 == o1);
        } else if o0 == -1 && o1 == -2 {
            assert(o[4].0 == o0 && o[4].1 == o1);
        } else if o0 == -2 && o1 == -1 {
            assert(o[5].0 == o0 && o[5].1 == o1);
        } else if o0 == -2 && o1 == 1 {
            assert(o[6].0 == o0 && o[6].1 == o1);
        } else {
            assert(o[7].0 == o0 && o[7].1 == o1);
        }
    }
}

proof fn lemma_king_offsets_exact(by: Color)
    ensures
        offsets_exact(PieceKind::King, by, king_steps()),
{
    let o = king_steps();
    assert(o[0] == (-1i32, -1i32) && o[1] == (-1i32, 0i32) && o[2] == (-1i32, 1i32) && o[3] == (0i32, -1i32));
    assert(o[4] == (0i32, 1i32) && o[5] == (1i32, -1i32) && o[6] == (1i32, 0i32) && o[7] == (1i32, 1i32));
    assert forall|i: int| 0 <= i < o.len() implies offset_ok(PieceKind::King, by, #[trigger] o[i].0 as int, o[i].1 as int) by {
        assert(i == 0 || i == 1 || i == 2 || i == 3 || i == 4 || i == 5 || i == 6 || i == 7);
    }
    assert forall|o0: int, o1: int| #[trigger] offset_ok(PieceKind::King, by, o0, o1) implies exists|i: int|
        0 <= i < o.len() && o[i].0 == o0 && #[trigger] o[i].1 == o1 by {
        if o0 == -1 && o1 == -1 {
            assert(o[0].0 == o0 && o[0].1 == o1);
        } else if o0 == -1 && o1 == 0 {
            assert(o[1].0 == o0 && o[1].1 == o1);
        } else if o0 == -1 && o1 == 1 {
            assert(o[2].0 == o0 && o[2].1 == o1);
        } else if o0 == 0 && o1 == -1 {
            assert(o[3].0 == o0 && o[3].1 == o1);
        } else if o0 == 0 && o1 == 1 {
            assert(o[4].0 == o0 && o[4].1 == o1);
        } else if o0 == 1 && o1 == -1 {
            assert(o[5].0 == o0 && o[5].1 == o1);
        } else if o0 == 1 && o1 == 0 {
            assert(o[6].0 == o0 && o[6].1 == o1);
        } else {
            assert(o[7].0 == o0 && o[7].1 == o1);
        }
    }
}

/// For a jumping piece, the square-centred offset test finds exactly the
/// squares from which such a piece attacks `s`.
proof fn lemma_jump_attack(b: Seq<Option<Piece>>, s: int, by: Color, kind: PieceKind, offs: Seq<(i32, i32)>)
    requires
        0 <= s < 64,
        b.len() == 64,
        kind == PieceKind::Pawn || kind == PieceKind::Knight || kind == PieceKind::King,
        offsets_exact(kind, by, offs),
    ensures
        piece_at_offsets(b, s % 8, s / 8, offs, Piece { color: by, kind }) <==> exists|x: int|
            0 <= x < 64 && b[x] == Some(Piece { color: by, kind }) && #[trigger] attacks(
                b,
                x,
                Piece { color: by, kind },
                s,
            ),
{
    let p = Piece { color: by, kind };
    let f = s % 8;
    let r = s / 8;
    lemma_offsets_exist(b, f, r, offs, p);
    lemma_coords(s);
    if piece_at_offsets(b, f, r, offs, p) {
        let i = choose|i: int| 0 <= i < offs.len() && #[trigger] has_piece(b, f + offs[i].0, r + offs[i].1, p);
        let o0 = offs[i].0 as int;
        let o1 = offs[i].1 as int;
        assert(offset_ok(kind, by, o0, o1));
        let x = sq(f + o0, r + o1);
        lemma_sq_coords(f + o0, r + o1);
        assert(x != s);
        assert(attacks(b, x, p, s));
    }
    if exists|x: int| 0 <= x < 64 && b[x] == Some(p) && #[trigger] attacks(b, x, p, s) {
        let x = choose|x: int| 0 <= x < 64 && b[x] == Some(p) && #[trigger] attacks(b, x, p, s);
        lemma_coords(x);
        let o0 = x % 8 - f;
        let o1 = x / 8 - r;
        assert(offset_ok(kind, by, o0, o1));
        let i = choose|i: int| 0 <= i < offs.len() && offs[i].0 == o0 && #[trigger] offs[i].1 == o1;
        assert(has_piece(b, f + offs[i].0, r + offs[i].1, p));
    }
}

/// The `k` squares from `(g, h)` on, walking by `(d0, d1)`, are on the board and empty.
pub open spec fn clear_from(b: Seq<Option<Piece>>, g: int, h: int, d0: int, d1: int, k: int) -> bool
    decreases k,
{
    if k <= 0 {
        true
    } else {
        on_board(g, h) && b[sq(g, h)] is None && clear_from(b, g + d0, h + d1, d0, d1, k - 1)
    }
}

/// Walking from `(g, h)` by `(d0, d1)`, the first piece met is `p`, `k` steps on.
pub open spec fn blocked_at(b: Seq<Option<Piece>>, g: int, h: int, d0: int, d1: int, k: int, p: Piece) -> bool {
    &&& k >= 0
    &&& on_board(g + steps(k, d0), h + steps(k, d1))
    &&& b[sq(g + steps(k, d0), h + steps(k, d1))] == Some(p)
    &&& clear_from(b, g, h, d0, d1, k)
}

proof fn lemma_blocker_found(b: Seq<Option<Piece>>, g: int, h: int, d0: int, d1: int)
    requires
        unit_step(d0, d1),
        -1 <= g <= 8,
        -1 <= h <= 8,
    ensures
        ray_blocker(b, g, h, d0, d1) matches Some(p) ==> exists|k: int| #[trigger] blocked_at(b, g, h, d0, d1, k, p),
    decreases room(g, d0) + room(h, d1),
{
    if on_board(g, h) && b[sq(g, h)] is None {
        lemma_blocker_found(b, g + d0, h + d1, d0, d1);
        if let Some(p) = ray_blocker(b, g, h, d0, d1) {
            let k = choose|k: int| #[trigger] blocked_at(b, g + d0, h + d1, d0, d1, k, p);
            assert(g + steps(k + 1, d0) == g + d0 + steps(k, d0));
            assert(h + steps(k + 1, d1) == h + d1 + steps(k, d1));
            assert(blocked_at(b, g, h, d0, d1, k + 1, p));
        }
    } else if on_board(g, h) {
        if let Some(p) = ray_blocker(b, g, h, d0, d1) {
            assert(blocked_at(b, g, h, d0, d1, 0, p));
        }
    }
}

proof fn lemma_blocker_at(b: Seq<Option<Piece>>, g: int, h: int, d0: int, d1: int, k: int, p: Piece)
    requires
        unit_step(d0, d1),
        -1 <= g <= 8,
        -1 <= h <= 8,
        blocked_at(b, g, h, d0, d1, k, p),
    ensures
        ray_blocker(b, g, h, d0, d1) == Some(p),
    decreases k,
{
    if k > 0 {
        assert(g + steps(k, d0) == g + d0 + steps(k - 1, d0));
        assert(h + steps(k, d1) == h + d1 + steps(k - 1, d1));
        assert(blocked_at(b, g + d0, h + d1, d0, d1, k - 1, p));
        lemma_blocker_at(b, g + d0, h + d1, d0, d1, k - 1, p);
    }
}

proof fn lemma_clear_from_snoc(b: Seq<Option<Piece>>, g: int, h: int, d0: int, d1: int, k: int)
    requires
        unit_step(d0, d1),
        k >= 1,
    ensures
        clear_from(b, g, h, d0, d1, k) == (clear_from(b, g, h, d0, d1, k - 1) && on_board(
            g + steps(k - 1, d0),
            h + steps(k - 1, d1),
        ) && b[sq(g + steps(k - 1, d0), h + steps(k - 1, d1))] is None),
    decreases k,
{
    if k > 1 {
        lemma_clear_from_snoc(b, g + d0, h + d1, d0, d1, k - 1);
        assert(g + steps(k - 1, d0) == g + d0 + steps(k - 2, d0));
        assert(h + steps(k - 1, d1) == h + d1 + steps(k - 2, d1));
    } else {
        assert(clear_from(b, g + d0, h + d1, d0, d1, 0));
        assert(clear_from(b, g, h, d0, d1, 0));
        assert(steps(0, d0) == 0 && steps(0, d1) == 0);
    }
}

/// Walking back from `(f, r) + n (e0, e1)` towards `(f, r)` meets only empty
/// squares exactly when walking out from `(f, r)` does.
proof fn lemma_walk_back(b: Seq<Option<Piece>>, f: int, r: int, e0: int, e1: int, n: int)
    requires
        unit_step(e0, e1),
        n >= 1,
        on_board(f, r),
        on_board(f + steps(n, e0), r + steps(n, e1)),
    ensures
        clear_walk(b, f + steps(n, e0), r + steps(n, e1), -e0, -e1, n) == clear_from(
            b,
            f + e0,
            r + e1,
            e0,
            e1,
            n - 1,
        ),
    decreases n,
{
    if n >= 2 {
        assert(f + steps(n, e0) + -e0 == f + steps(n - 1, e0));
        assert(r + steps(n, e1) + -e1 == r + steps(n - 1, e1));
        lemma_walk_back(b, f, r, e0, e1, n - 1);
        lemma_clear_from_snoc(b, f + e0, r + e1, e0, e1, n - 1);
        assert(f + e0 + steps(n - 2, e0) == f + steps(n - 1, e0));
        assert(r + e1 + steps(n - 2, e1) == r + steps(n - 1, e1));
    }
}

proof fn lemma_rays_exist(b: Seq<Option<Piece>>, f: int, r: int, dirs: Seq<(i32, i32)>, by: Color, k1: PieceKind, k2: PieceKind)
    ensures
        any_ray_hits(b, f, r, dirs, by, k1, k2) <==> exists|i: int|
            0 <= i < dirs.len() && #[trigger] ray_hits(b, f, r, dirs[i].0 as int, dirs[i].1 as int, by, k1, k2),
    decreases dirs.len(),
{
    if dirs.len() > 0 {
        let d = dirs.drop_last();
        lemma_rays_exist(b, f, r, d, by, k1, k2);
        if exists|i: int| 0 <= i < d.len() && #[trigger] ray_hits(b, f, r, d[i].0 as int, d[i].1 as int, by, k1, k2) {
            let i = choose|i: int| 0 <= i < d.len() && #[trigger] ray_hits(b, f, r, d[i].0 as int, d[i].1 as int, by, k1, k2);
            assert(d[i] == dirs[i]);
        }
        if exists|i: int| 0 <= i < dirs.len() && #[trigger] ray_hits(b, f, r, dirs[i].0 as int, dirs[i].1 as int, by, k1, k2) {
            let i = choose|i: int| 0 <= i < dirs.len() && #[trigger] ray_hits(b, f, r, dirs[i].0 as int, dirs[i].1 as int, by, k1, k2);
            if i < dirs.len() - 1 {
                assert(d[i] == dirs[i]);
            }
        }
    }
}

/// Direction `(e0, e1)` is one of `dirs`.
pub open spec fn dir_in(dirs: Seq<(i32, i32)>, e0: int, e1: int) -> bool {
    exists|i: int| 0 <= i < dirs.len() && dirs[i].0 == e0 && #[trigger] dirs[i].1 == e1
}

proof fn lemma_dir_lists()
    ensures
        forall|i: int| 0 <= i < bishop_dirs().len() ==> (#[trigger] bishop_dirs()[i].0 == 1 || bishop_dirs()[i].0 == -1)
            && (bishop_dirs()[i].1 == 1 || bishop_dirs()[i].1 == -1),
        forall|i: int| 0 <= i < rook_dirs().len() ==> unit_step(#[trigger] rook_dirs()[i].0 as int, rook_dirs()[i].1 as int)
            && (rook_dirs()[i].0 == 0) != (rook_dirs()[i].1 == 0),
        forall|e0: int, e1: int| (e0 == 1 || e0 == -1) && (e1 == 1 || e1 == -1) ==> #[trigger] dir_in(bishop_dirs(), e0, e1),
        forall|e0: int, e1: int| unit_step(e0, e1) && (e0 == 0) != (e1 == 0) ==> #[trigger] dir_in(rook_dirs(), e0, e1),
{
    let bd = bishop_dirs();
    let rd = rook_dirs();
    assert(bd[0] == (1i32, 1i32) && bd[1] == (-1i32, 1i32) && bd[2] == (1i32, -1i32) && bd[3] == (-1i32, -1i32));
    assert(rd[0] == (1i32, 0i32) && rd[1] == (-1i32, 0i32) && rd[2] == (0i32, 1i32) && rd[3] == (0i32, -1i32));
    assert forall|i: int| 0 <= i < bd.len() implies (#[trigger] bd[i].0 == 1 || bd[i].0 == -1) && (bd[i].1 == 1
        || bd[i].1 == -1) by {
        assert(i == 0 || i == 1 || i == 2 || i == 3);
    }
    assert forall|i: int| 0 <= i < rd.len() implies unit_step(#[trigger] rd[i].0 as int, rd[i].1 as int) && (rd[i].0
        == 0) != (rd[i].1 == 0) by {
        assert(i == 0 || i == 1 || i == 2 || i == 3);
    }
    assert forall|e0: int, e1: int| (e0 == 1 || e0 == -1) && (e1 == 1 || e1 == -1) implies #[trigger] dir_in(bd, e0, e1) by {
        if e0 == 1 && e1 == 1 {
            assert(bd[0].0 == e0 && bd[0].1 == e1);
        } else if e0 == -1 && e1 == 1 {
            assert(bd[1].0 == e0 && bd[1].1 == e1);
        } else if e0 == 1 && e1 == -1 {
            assert(bd[2].0 == e0 && bd[2].1 == e1);
        } else {
            assert(bd[3].0 == e0 && bd[3].1 == e1);
        }
    }
    assert forall|e0: int, e1: int| unit_step(e0, e1) && (e0 == 0) != (e1 == 0) implies #[trigger] dir_in(rd, e0, e1) by {
        if e0 == 1 {
            assert(rd[0].0 == e0 && rd[0].1 == e1);
        } else if e0 == -1 {
            assert(rd[1].0 == e0 && rd[1].1 == e1);
        } else if e1 == 1 {
            assert(rd[2].0 == e0 && rd[2].1 == e1);
        } else {
            assert(rd[3].0 == e0 && rd[3].1 == e1);
        }
    }
}

/// The kinds a ray finds first: bishops and queens on diagonals, rooks and
/// queens on straight lines.
pub open spec fn ray_kinds_ok(d0: int, d1: int, k1: PieceKind, k2: PieceKind) -> bool {
    &&& unit_step(d0, d1)
    &&& k2 == PieceKind::Queen
    &&& (d0 != 0 && d1 != 0 ==> k1 == PieceKind::Bishop)
    &&& (d0 == 0 || d1 == 0 ==> k1 == PieceKind::Rook)
}

proof fn lemma_ray_hit_attacker(b: Seq<Option<Piece>>, s: int, by: Color, d0: int, d1: int, k1: PieceKind, k2: PieceKind)
    requires
        0 <= s < 64,
        b.len() == 64,
        ray_kinds_ok(d0, d1, k1, k2),
        ray_hits(b, s % 8, s / 8, d0, d1, by, k1, k2),
    ensures
        exists|x: int| 0 <= x < 64 && #[trigger] attacker_on(b, x, s, by),
{
    let f = s % 8;
    let r = s / 8;
    lemma_coords(s);
    let p = ray_blocker(b, f + d0, r + d1, d0, d1)->0;
    lemma_blocker_found(b, f + d0, r + d1, d0, d1);
    let k = choose|k: int| #[trigger] blocked_at(b, f + d0, r + d1, d0, d1, k, p);
    let n = k + 1;
    assert(f + d0 + steps(k, d0) == f + steps(n, d0));
    assert(r + d1 + steps(k, d1) == r + steps(n, d1));
    let xf = f + steps(n, d0);
    let xr = r + steps(n, d1);
    let x = sq(xf, xr);
    lemma_sq_coords(xf, xr);
    lemma_walk_back(b, f, r, d0, d1, n);
    let df = f - xf;
    let dr = r - xr;
    assert(sign(df) == -d0 && sign(dr) == -d1);
    assert(clear_walk(b, xf, xr, sign(df), sign(dr), n));
    assert(x != s);
    assert(attacks(b, x, p, s));
    assert(attacker_on(b, x, s, by));
}

proof fn lemma_attacker_ray_hit(b: Seq<Option<Piece>>, s: int, by: Color, x: int)
    requires
        0 <= s < 64,
        0 <= x < 64,
        b.len() == 64,
        attacker_on(b, x, s, by),
        b[x]->0.kind == PieceKind::Bishop || b[x]->0.kind == PieceKind::Rook || b[x]->0.kind == PieceKind::Queen,
    ensures
        any_ray_hits(b, s % 8, s / 8, bishop_dirs(), by, PieceKind::Bishop, PieceKind::Queen) || any_ray_hits(
            b,
            s % 8,
            s / 8,
            rook_dirs(),
            by,
            PieceKind::Rook,
            PieceKind::Queen,
        ),
{
    let f = s % 8;
    let r = s / 8;
    lemma_coords(s);
    lemma_coords(x);
    let p = b[x]->0;
    let xf = x % 8;
    let xr = x / 8;
    let df = f - xf;
    let dr = r - xr;
    let e0 = sign(xf - f);
    let e1 = sign(xr - r);
    let n = if abs_int(df) > abs_int(dr) { abs_int(df) } else { abs_int(dr) };
    assert(x != s);
    let diag = abs_int(df) == abs_int(dr) && abs_int(df) != 0;
    let straight = (df == 0) != (dr == 0);
    assert(diag || straight);
    assert(unit_step(e0, e1));
    assert(xf == f + steps(n, e0) && xr == r + steps(n, e1));
    assert(sign(df) == -e0 && sign(dr) == -e1);
    lemma_walk_back(b, f, r, e0, e1, n);
    assert(f + e0 + steps(n - 1, e0) == xf);
    assert(r + e1 + steps(n - 1, e1) == xr);
    assert(blocked_at(b, f + e0, r + e1, e0, e1, n - 1, p));
    lemma_blocker_at(b, f + e0, r + e1, e0, e1, n - 1, p);
    lemma_dir_lists();
    if diag {
        assert(p.kind == PieceKind::Bishop || p.kind == PieceKind::Queen);
        assert(ray_hits(b, f, r, e0, e1, by, PieceKind::Bishop, PieceKind::Queen));
        assert(dir_in(bishop_dirs(), e0, e1));
        let i = choose|i: int| 0 <= i < bishop_dirs().len() && bishop_dirs()[i].0 == e0 && #[trigger] bishop_dirs()[i].1 == e1;
        lemma_rays_exist(b, f, r, bishop_dirs(), by, PieceKind::Bishop, PieceKind::Queen);
        assert(ray_hits(b, f, r, bishop_dirs()[i].0 as int, bishop_dirs()[i].1 as int, by, PieceKind::Bishop, PieceKind::Queen));
    } else {
        assert(p.kind == PieceKind::Rook || p.kind == PieceKind::Queen);
        assert(ray_hits(b, f, r, e0, e1, by, PieceKind::Rook, PieceKind::Queen));
        assert(dir_in(rook_dirs(), e0, e1));
        let i = choose|i: int| 0 <= i < rook_dirs().len() && rook_dirs()[i].0 == e0 && #[trigger] rook_dirs()[i].1 == e1;
        lemma_rays_exist(b, f, r, rook_dirs(), by, PieceKind::Rook, PieceKind::Queen);
        assert(ray_hits(b, f, r, rook_dirs()[i].0 as int, rook_dirs()[i].1 as int, by, PieceKind::Rook, PieceKind::Queen));
    }
}

/// The two attack tests agree: a square is attacked by a side in the
/// square-centred test of the rules ([`attacked_by`]) exactly when some piece
/// of that side attacks it in the piece-centred test of the evaluation
/// ([`attacked_upto`] over the whole board).
pub proof fn lemma_attack_tests_agree(b: Seq<Option<Piece>>, s: int, by: Color)
    requires
        b.len() == 64,
        0 <= s < 64,
    ensures
        attacked_by(b, s, by) <==> attacked_upto(b, s, by, 64),
{
    let f = s % 8;
    let r = s / 8;
    let pd = pawn_attack_dir(by);
    let pawns = seq![(-1i32, pd), (1i32, pd)];
    let pawn = Piece { color: by, kind: PieceKind::Pawn };
    let knight = Piece { color: by, kind: PieceKind::Knight };
    let king = Piece { color: by, kind: PieceKind::King };
    lemma_attacked_upto_exists(b, s, by, 64);
    lemma_pawn_offsets(by);
    lemma_knight_offsets_exact(by);
    lemma_king_offsets_exact(by);
    lemma_jump_attack(b, s, by, PieceKind::Pawn, pawns);
    lemma_jump_attack(b, s, by, PieceKind::Knight, knight_jumps());
    lemma_jump_attack(b, s, by, PieceKind::King, king_steps());
    lemma_rays_exist(b, f, r, bishop_dirs(), by, PieceKind::Bishop, PieceKind::Queen);
    lemma_rays_exist(b, f, r, rook_dirs(), by, PieceKind::Rook, PieceKind::Queen);
    lemma_dir_lists();
    if attacked_by(b, s, by) {
        if piece_at_offsets(b, f, r, pawns, pawn) {
            let x = choose|x: int| 0 <= x < 64 && b[x] == Some(pawn) && #[trigger] attacks(b, x, pawn, s);
            assert(attacker_on(b, x, s, by));
        } else if piece_at_offsets(b, f, r, knight_jumps(), knight) {
            let x = choose|x: int| 0 <= x < 64 && b[x] == Some(knight) && #[trigger] attacks(b, x, knight, s);
            assert(attacker_on(b, x, s, by));
        } else if piece_at_offsets(b, f, r, king_steps(), king) {
            let x = choose|x: int| 0 <= x < 64 && b[x] == Some(king) && #[trigger] attacks(b, x, king, s);
            assert(attacker_on(b, x, s, by));
        } else if any_ray_hits(b, f, r, bishop_dirs(), by, PieceKind::Bishop, PieceKind::Queen) {
            let i = choose|i: int|
                0 <= i < bishop_dirs().len() && #[trigger] ray_hits(
                    b,
                    f,
                    r,
                    bishop_dirs()[i].0 as int,
                    bishop_dirs()[i].1 as int,
                    by,
                    PieceKind::Bishop,
                    PieceKind::Queen,
                );
            let d = bishop_dirs()[i];
            lemma_ray_hit_attacker(b, s, by, d.0 as int, d.1 as int, PieceKind::Bishop, PieceKind::Queen);
        } else {
            assert(any_ray_hits(b, f, r, rook_dirs(), by, PieceKind::Rook, PieceKind::Queen));
            let i = choose|i: int|
                0 <= i < rook_dirs().len() && #[trigger] ray_hits(
                    b,
                    f,
                    r,
                    rook_dirs()[i].0 as int,
                    rook_dirs()[i].1 as int,
                    by,
                    PieceKind::Rook,
                    PieceKind::Queen,
                );
            let d = rook_dirs()[i];
            lemma_ray_hit_attacker(b, s, by, d.0 as int, d.1 as int, PieceKind::Rook, PieceKind::Queen);
        }
    }
    if attacked_upto(b, s, by, 64) {
        let x = choose|x: int| 0 <= x < 64 && #[trigger] attacker_on(b, x, s, by);
        let p = b[x]->0;
        match p.kind {
            PieceKind::Pawn => {
                assert(p == pawn);
                assert(attacks(b, x, pawn, s));
            },
            PieceKind::Knight => {
                assert(p == knight);
                assert(attacks(b, x, knight, s));
            },
            PieceKind::King => {
                assert(p == king);
                assert(attacks(b, x, king, s));
            },
            _ => {
                lemma_attacker_ray_hit(b, s, by, x);
            },
        }
    }
}

} // verus!
