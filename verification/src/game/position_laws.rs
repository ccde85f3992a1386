//! Properties of positions: the en-passant square after a double step,
//! draws by insufficient material, castling rights read from FEN, and the
//! kings reported in check.

use vstd::prelude::*;

use super::board::{attacked_by, king_square, king_square_from, lemma_king_square_range, opposite, sq};
use super::fen::{castling_field, castling_fold, fen_result, words};
use super::rules::{insufficient_material, majors_upto, minors_upto};
use super::{
    apply, checked_kings, position_from, repetitions, status_of, ChessView, Color, GameStatus, LegalMove,
    MoveKind, Piece, PieceKind,
};

verus! {

// ---------------------------------------------------------------------------
// En passant
// ---------------------------------------------------------------------------

/// After a pawn advances two squares along its file, the en-passant square
/// of the new position is the square it passed over: on the same file, on
/// the rank between its start and its target.
pub proof fn lemma_double_step_sets_en_passant(v: ChessView, lm: LegalMove)
    requires
        lm.mv.from < 64,
        lm.mv.to < 64,
        v.board[lm.mv.from as int] matches Some(p) && p.kind == PieceKind::Pawn,
        lm.kind == MoveKind::Quiet,
        lm.mv.from % 8 == lm.mv.to % 8,
        lm.mv.from / 8 == lm.mv.to / 8 + 2 || lm.mv.to / 8 == lm.mv.from / 8 + 2,
    ensures
        apply(v, lm).en_passant == Some(sq((lm.mv.from % 8) as int, (lm.mv.from / 8 + lm.mv.to / 8) / 2) as usize),
{
    let from = lm.mv.from as int;
    let to = lm.mv.to as int;
    let f = from % 8;
    assert(from == (from / 8) * 8 + f);
    assert(to == (to / 8) * 8 + f);
    assert((from + to) / 2 == ((from / 8 + to / 8) / 2) * 8 + f);
}

// ---------------------------------------------------------------------------
// Insufficient material
// ---------------------------------------------------------------------------

/// Besides kings, the only piece on the board is a bishop or a knight on `m`.
pub open spec fn lone_minor(b: Seq<Option<Piece>>, m: int) -> bool {
    &&& b.len() == 64
    &&& 0 <= m < 64
    &&& b[m] matches Some(p) && (p.kind == PieceKind::Bishop || p.kind == PieceKind::Knight)
    &&& forall|i: int| 0 <= i < 64 && i != m ==> (#[trigger] b[i] is None || b[i]->0.kind == PieceKind::King)
}

proof fn lemma_lone_minor_counts(b: Seq<Option<Piece>>, m: int, c: Color, n: int)
    requires
        lone_minor(b, m),
        n <= 64,
    ensures
        majors_upto(b, c, n) == 0,
        minors_upto(b, c, n).len() == (if m < n && b[m]->0.color == c { 1int } else { 0int }),
        m < n && b[m]->0.color == c ==> minors_upto(b, c, n)[0].1 == m,
    decreases n,
{
    if n > 0 {
        lemma_lone_minor_counts(b, m, c, n - 1);
        if n - 1 != m {
            assert(b[n - 1] is None || b[n - 1]->0.kind == PieceKind::King);
        }
    }
}

/// With only the kings and a single bishop or knight on the board, of
/// either side, neither side can mate.
pub proof fn lemma_lone_minor_is_insufficient(b: Seq<Option<Piece>>, m: int)
    requires
        lone_minor(b, m),
    ensures
        insufficient_material(b),
{
    lemma_lone_minor_counts(b, m, Color::White, 64);
    lemma_lone_minor_counts(b, m, Color::Black, 64);
}

/// With only the kings and a single bishop or knight on the board, of
/// either side, the game is drawn for insufficient material unless the
/// fifty-move or repetition rule applies first.
pub proof fn lemma_lone_minor_status(v: ChessView, m: int)
    requires
        lone_minor(v.board, m),
        v.halfmove_clock < 100,
        repetitions(v) < 3,
    ensures
        status_of(v) == GameStatus::DrawInsufficientMaterial,
{
    lemma_lone_minor_is_insufficient(v.board, m);
}

proof fn lemma_major_counted(b: Seq<Option<Piece>>, c: Color, n: int, i: int)
    requires
        0 <= i < n,
        b[i] matches Some(p) && p.color == c && (p.kind == PieceKind::Pawn || p.kind == PieceKind::Rook
            || p.kind == PieceKind::Queen),
    ensures
        majors_upto(b, c, n) >= 1,
    decreases n,
{
    if i < n - 1 {
        lemma_major_counted(b, c, n - 1, i);
    }
}

proof fn lemma_minor_listed(b: Seq<Option<Piece>>, c: Color, n: int, i: int)
    requires
        0 <= i < n,
        b[i] matches Some(p) && p.color == c && (p.kind == PieceKind::Bishop || p.kind == PieceKind::Knight),
    ensures
        minors_upto(b, c, n).contains((b[i]->0.kind, i as usize)),
    decreases n,
{
    let m = minors_upto(b, c, n);
    if i < n - 1 {
        lemma_minor_listed(b, c, n - 1, i);
        let prev = minors_upto(b, c, n - 1);
        let j = choose|j: int| 0 <= j < prev.len() && prev[j] == (b[i]->0.kind, i as usize);
        assert(m[j] == prev[j]);
    } else {
        assert(m[m.len() - 1] == (b[i]->0.kind, i as usize));
    }
}

/// A pawn, rook or queen on the board leaves enough material to mate.
pub proof fn lemma_major_piece_is_sufficient(b: Seq<Option<Piece>>, i: int)
    requires
        0 <= i < 64,
        b[i] matches Some(p) && (p.kind == PieceKind::Pawn || p.kind == PieceKind::Rook || p.kind == PieceKind::Queen),
    ensures
        !insufficient_material(b),
{
    lemma_major_counted(b, b[i]->0.color, 64, i);
}

/// Two bishops or knights of one side leave enough material to mate.
pub proof fn lemma_two_minors_are_sufficient(b: Seq<Option<Piece>>, i: int, j: int)
    requires
        0 <= i < j < 64,
        b[i] matches Some(p) && (p.kind == PieceKind::Bishop || p.kind == PieceKind::Knight),
        b[j] matches Some(q) && (q.kind == PieceKind::Bishop || q.kind == PieceKind::Knight),
        b[i]->0.color == b[j]->0.color,
    ensures
        !insufficient_material(b),
{
    let c = b[i]->0.color;
    lemma_minor_listed(b, c, 64, i);
    lemma_minor_listed(b, c, 64, j);
    let m = minors_upto(b, c, 64);
    let x = choose|x: int| 0 <= x < m.len() && m[x] == (b[i]->0.kind, i as usize);
    let y = choose|y: int| 0 <= y < m.len() && m[y] == (b[j]->0.kind, j as usize);
    assert(x != y);
    assert(m.len() >= 2);
}

/// A knight against another bishop or knight leaves enough material to
/// mate: only bare kings, a single minor piece, or one bishop each on
/// squares of the same colour are drawn.
pub proof fn lemma_knight_and_minor_are_sufficient(b: Seq<Option<Piece>>, i: int, j: int)
    requires
        0 <= i < 64,
        0 <= j < 64,
        b[i] matches Some(p) && p.kind == PieceKind::Knight,
        b[j] matches Some(q) && (q.kind == PieceKind::Bishop || q.kind == PieceKind::Knight),
        b[i]->0.color != b[j]->0.color,
    ensures
        !insufficient_material(b),
{
    let c = b[i]->0.color;
    let d = b[j]->0.color;
    lemma_minor_listed(b, c, 64, i);
    lemma_minor_listed(b, d, 64, j);
    let m = minors_upto(b, c, 64);
    let x = choose|x: int| 0 <= x < m.len() && m[x] == (PieceKind::Knight, i as usize);
    assert(m.len() >= 1);
    assert(minors_upto(b, d, 64).len() >= 1);
    if m.len() == 1 {
        assert(m[0].0 == PieceKind::Knight);
    }
}

/// One bishop each, and nothing else besides the kings: drawn exactly when
/// the two bishops stand on squares of the same colour.
pub proof fn lemma_bishops_each(b: Seq<Option<Piece>>, i: int, j: int)
    requires
        b.len() == 64,
        0 <= i < 64,
        0 <= j < 64,
        b[i] == Some(Piece { color: Color::White, kind: PieceKind::Bishop }),
        b[j] == Some(Piece { color: Color::Black, kind: PieceKind::Bishop }),
        forall|x: int| 0 <= x < 64 && x != i && x != j ==> (#[trigger] b[x] is None || b[x]->0.kind == PieceKind::King),
    ensures
        insufficient_material(b) <==> ((i % 8 + i / 8) % 2 == (j % 8 + j / 8) % 2),
{
    lemma_bishops_counts(b, i, j, Color::White, 64);
    lemma_bishops_counts(b, i, j, Color::Black, 64);
}

proof fn lemma_bishops_counts(b: Seq<Option<Piece>>, i: int, j: int, c: Color, n: int)
    requires
        b.len() == 64,
        0 <= i < 64,
        0 <= j < 64,
        b[i] == Some(Piece { color: Color::White, kind: PieceKind::Bishop }),
        b[j] == Some(Piece { color: Color::Black, kind: PieceKind::Bishop }),
        forall|x: int| 0 <= x < 64 && x != i && x != j ==> (#[trigger] b[x] is None || b[x]->0.kind == PieceKind::King),
        n <= 64,
    ensures
        majors_upto(b, c, n) == 0,
        c == Color::White ==> minors_upto(b, c, n) == (if i < n { seq![(PieceKind::Bishop, i as usize)] } else { seq![] }),
        c == Color::Black ==> minors_upto(b, c, n) == (if j < n { seq![(PieceKind::Bishop, j as usize)] } else { seq![] }),
    decreases n,
{
    if n > 0 {
        lemma_bishops_counts(b, i, j, c, n - 1);
        if n - 1 != i && n - 1 != j {
            assert(b[n - 1] is None || b[n - 1]->0.kind == PieceKind::King);
        }
    }
}

/// With only the two kings on the board, neither side can mate.
pub proof fn lemma_bare_kings(b: Seq<Option<Piece>>)
    requires
        b.len() == 64,
        forall|x: int| 0 <= x < 64 ==> (#[trigger] b[x] is None || b[x]->0.kind == PieceKind::King),
    ensures
        insufficient_material(b),
{
    lemma_bare_counts(b, Color::White, 64);
    lemma_bare_counts(b, Color::Black, 64);
}

proof fn lemma_bare_counts(b: Seq<Option<Piece>>, c: Color, n: int)
    requires
        b.len() == 64,
        forall|x: int| 0 <= x < 64 ==> (#[trigger] b[x] is None || b[x]->0.kind == PieceKind::King),
        n <= 64,
    ensures
        majors_upto(b, c, n) == 0,
        minors_upto(b, c, n).len() == 0,
    decreases n,
{
    if n > 0 {
        lemma_bare_counts(b, c, n - 1);
        assert(b[n - 1] is None || b[n - 1]->0.kind == PieceKind::King);
    }
}

// ---------------------------------------------------------------------------
// Castling rights from FEN
// ---------------------------------------------------------------------------

proof fn lemma_fold_rights(cs: Seq<char>, n: int)
    requires
        0 <= n <= cs.len(),
    ensures
        castling_fold(cs, n) matches Some(c) ==> {
            &&& c.white_kingside == cs.take(n).contains('K')
            &&& c.white_queenside == cs.take(n).contains('Q')
            &&& c.black_kingside == cs.take(n).contains('k')
            &&& c.black_queenside == cs.take(n).contains('q')
        },
    decreases n,
{
    if n > 0 {
        lemma_fold_rights(cs, n - 1);
        let t = cs.take(n);
        let t0 = cs.take(n - 1);
        assert(t == t0.push(cs[n - 1]));
        assert forall|ch: char| t.contains(ch) <==> (t0.contains(ch) || cs[n - 1] == ch) by {
            if t.contains(ch) {
                let j = choose|j: int| 0 <= j < t.len() && t[j] == ch;
                if j < n - 1 {
                    assert(t0[j] == ch);
                }
            }
            if t0.contains(ch) {
                let j = choose|j: int| 0 <= j < t0.len() && t0[j] == ch;
                assert(t[j] == ch);
            }
            if cs[n - 1] == ch {
                assert(t[n - 1] == ch);
            }
        }
    }
}

/// A castling field that is accepted grants each right exactly when it
/// names it: White king side `K`, White queen side `Q`, Black king side `k`,
/// Black queen side `q`.
pub proof fn lemma_castling_field_rights(cs: Seq<char>)
    ensures
        castling_field(cs) matches Some(c) ==> {
            &&& c.white_kingside == cs.contains('K')
            &&& c.white_queenside == cs.contains('Q')
            &&& c.black_kingside == cs.contains('k')
            &&& c.black_queenside == cs.contains('q')
        },
{
    lemma_fold_rights(cs, cs.len() as int);
    assert(cs.take(cs.len() as int) == cs);
    if cs.len() == 1 && cs[0] == '-' {
        assert forall|ch: char| ch != '-' implies !cs.contains(ch) by {
            if cs.contains(ch) {
                let j = choose|j: int| 0 <= j < cs.len() && cs[j] == ch;
            }
        }
    }
}

/// A position read from FEN holds each castling right exactly when the
/// third field names it (`K`, `Q`, `k`, `q`).
pub proof fn lemma_fen_castling_rights(s: Seq<char>)
    ensures
        fen_result(s) matches Ok(d) ==> {
            let c = position_from(d).castling;
            &&& c.white_kingside == words(s)[2].contains('K')
            &&& c.white_queenside == words(s)[2].contains('Q')
            &&& c.black_kingside == words(s)[2].contains('k')
            &&& c.black_queenside == words(s)[2].contains('q')
        },
{
    if fen_result(s) is Ok {
        lemma_castling_field_rights(words(s)[2]);
    }
}

// ---------------------------------------------------------------------------
// Kings in check
// ---------------------------------------------------------------------------

/// The reported squares are exactly the squares of the kings (of either
/// side) that the other side attacks: every attacked king of White or Black
/// is reported, and every reported square holds a king of some side that
/// the other side attacks.
pub proof fn lemma_checked_kings_exact(b: Seq<Option<Piece>>)
    ensures
        forall|c: Color, k: int|
            king_square(b, c) == Some(k) && #[trigger] attacked_by(b, k, opposite(c)) ==> checked_kings(b).contains(
                k as usize,
            ),
        forall|s: usize|
            #[trigger] checked_kings(b).contains(s) ==> exists|c: Color|
                #[trigger] king_square(b, c) == Some(s as int) && b[s as int] == Some(Piece { color: c, kind: PieceKind::King })
                    && attacked_by(b, s as int, opposite(c)),
{
    lemma_king_square_range(b, Color::White, 0);
    lemma_king_square_range(b, Color::Black, 0);
    lemma_king_square_holds(b, Color::White, 0);
    lemma_king_square_holds(b, Color::Black, 0);
    let r = checked_kings(b);
    assert forall|c: Color, k: int|
        king_square(b, c) == Some(k) && #[trigger] attacked_by(b, k, opposite(c)) implies r.contains(k as usize) by {
        match c {
            Color::White => assert(r[0] == k as usize),
            Color::Black => assert(r[r.len() - 1] == k as usize),
        }
    }
    assert forall|s: usize| #[trigger] r.contains(s) implies exists|c: Color|
        #[trigger] king_square(b, c) == Some(s as int) && b[s as int] == Some(Piece { color: c, kind: PieceKind::King })
            && attacked_by(b, s as int, opposite(c)) by {
        let j = choose|j: int| 0 <= j < r.len() && r[j] == s;
        let w = super::board::in_check(b, Color::White);
        if w && j == 0 {
            assert(king_square(b, Color::White) == Some(s as int));
        } else {
            assert(king_square(b, Color::Black) == Some(s as int));
        }
    }
}

proof fn lemma_king_square_holds(b: Seq<Option<Piece>>, c: Color, i: int)
    ensures
        king_square_from(b, c, i) matches Some(k) ==> b[k] == Some(Piece { color: c, kind: PieceKind::King }),
    decreases 64 - i,
{
    if 0 <= i < 64 {
        lemma_king_square_holds(b, c, i + 1);
    }
}

/// The reported kings come White's first, at most one of each side.
pub proof fn lemma_checked_kings_order(b: Seq<Option<Piece>>)
    ensures
        checked_kings(b).len() <= 2,
        checked_kings(b).len() == 2 ==> checked_kings(b)[0] as int == king_square(b, Color::White)->0
            && checked_kings(b)[1] as int == king_square(b, Color::Black)->0,
{
    lemma_king_square_range(b, Color::White, 0);
    lemma_king_square_range(b, Color::Black, 0);
}

proof fn lemma_fold_accepts(cs: Seq<char>, n: int)
    requires
        0 <= n <= cs.len(),
    ensures
        castling_fold(cs, n) is Some <==> forall|i: int|
            0 <= i < n ==> (#[trigger] cs[i] == 'K' || cs[i] == 'Q' || cs[i] == 'k' || cs[i] == 'q'),
    decreases n,
{
    if n > 0 {
        lemma_fold_accepts(cs, n - 1);
    }
}

/// The castling field is accepted exactly when it is `-` or made only of
/// the letters `K`, `Q`, `k`, `q`.
pub proof fn lemma_castling_field_accepted(cs: Seq<char>)
    ensures
        castling_field(cs) is Some <==> (cs == seq!['-'] || forall|i: int|
            0 <= i < cs.len() ==> (#[trigger] cs[i] == 'K' || cs[i] == 'Q' || cs[i] == 'k' || cs[i] == 'q')),
{
    lemma_fold_accepts(cs, cs.len() as int);
    if cs == seq!['-'] {
        assert(cs.len() == 1 && cs[0] == '-');
    }
    if cs.len() == 1 && cs[0] == '-' {
        assert(cs =~= seq!['-']);
    }
}

// ---------------------------------------------------------------------------
// Rights and captures after a move
// ---------------------------------------------------------------------------

/// After a move (other than a promotion): a king move gives up both rights
/// of its side; a rook leaving its corner, or a rook captured on its
/// corner, gives up the right on that side (White's corners are squares 0
/// and 7 on the first rank, Black's 56 and 63); a move that is not a king
/// move and touches no corner keeps every right.
pub proof fn lemma_castling_rights_after_move(v: ChessView, lm: LegalMove)
    requires
        v.board[lm.mv.from as int] is Some,
        lm.kind != MoveKind::Promotion,
    ensures
        ({
            let p = v.board[lm.mv.from as int]->0;
            let cap = v.board[lm.mv.to as int];
            let c = apply(v, lm).castling;
            let from = lm.mv.from as int;
            let to = lm.mv.to as int;
            let white_rook = Some(Piece { color: Color::White, kind: PieceKind::Rook });
            let black_rook = Some(Piece { color: Color::Black, kind: PieceKind::Rook });
            &&& p == Piece { color: Color::White, kind: PieceKind::King } ==> !c.white_kingside && !c.white_queenside
            &&& p == Piece { color: Color::Black, kind: PieceKind::King } ==> !c.black_kingside && !c.black_queenside
            &&& (Some(p) == white_rook && from == 0) || (cap == white_rook && to == 0) ==> !c.white_queenside
            &&& (Some(p) == white_rook && from == 7) || (cap == white_rook && to == 7) ==> !c.white_kingside
            &&& (Some(p) == black_rook && from == 56) || (cap == black_rook && to == 56) ==> !c.black_queenside
            &&& (Some(p) == black_rook && from == 63) || (cap == black_rook && to == 63) ==> !c.black_kingside
            &&& p.kind != PieceKind::King && from != 0 && from != 7 && from != 56 && from != 63 && to != 0 && to
                != 7 && to != 56 && to != 63 ==> c == v.castling
        }),
{
}

/// An en-passant capture puts the pawn on the target square and removes
/// the captured pawn, which stood beside the capturing pawn on its rank, on
/// the target's file.
pub proof fn lemma_en_passant_removes_pawn(v: ChessView, lm: LegalMove)
    requires
        v.board.len() == 64,
        lm.mv.from < 64,
        lm.mv.to < 64,
        lm.kind == MoveKind::EnPassant,
        v.board[lm.mv.from as int] matches Some(p) && p.kind == PieceKind::Pawn,
        lm.mv.to / 8 == lm.mv.from / 8 + super::movegen::pawn_forward(v.board[lm.mv.from as int]->0.color),
        lm.mv.to % 8 == lm.mv.from % 8 + 1 || lm.mv.to % 8 + 1 == lm.mv.from % 8,
    ensures
        apply(v, lm).board[lm.mv.to as int] == v.board[lm.mv.from as int],
        apply(v, lm).board[lm.mv.from as int] is None,
        apply(v, lm).board[sq((lm.mv.to % 8) as int, (lm.mv.from / 8) as int)] is None,
{
    let from = lm.mv.from as int;
    let to = lm.mv.to as int;
    assert(from == (from / 8) * 8 + from % 8);
    assert(to == (to / 8) * 8 + to % 8);
}

} // verus!
