//! Properties that hold across the operations of a game.

use vstd::prelude::*;

use super::board::{in_check, opposite};
use super::movegen::{lemma_pseudo_shape, move_shape_ok};
use super::rules::{board_after, insufficient_material, legal_filter, moved_piece};
use super::fen::FenData;
use super::{
    apply, key_of, position_from, KeyView, chosen_move, first_match, last_match, lemma_chosen_in, legal_move_list, legal_moves,
    matches_request, repetitions, request_ok, status_of, targets_from, ChessView, Color,
    GameStatus, LegalMove, Move, Piece,
};

verus! {

/// Every move kept by the legality filter leaves the king of its side unattacked.
pub proof fn lemma_filtered_move_is_safe(
    b: Seq<Option<Piece>>,
    color: Color,
    s: Seq<LegalMove>,
    m: LegalMove,
)
    requires
        legal_filter(b, color, s).contains(m),
    ensures
        !in_check(board_after(b, m), color),
    decreases s.len(),
{
    if s.len() > 0 {
        let prev = legal_filter(b, color, s.drop_last());
        let f = legal_filter(b, color, s);
        let j = choose|j: int| 0 <= j < f.len() && f[j] == m;
        if !in_check(board_after(b, s.last()), color) && j == prev.len() {
            assert(f[j] == s.last());
        } else {
            assert(prev[j] == m);
            assert(prev.contains(m));
            lemma_filtered_move_is_safe(b, color, s.drop_last(), m);
        }
    }
}

/// No legal move of the side to move leaves its own king attacked.
pub proof fn lemma_legal_moves_keep_king_safe(v: ChessView, lm: LegalMove)
    requires
        legal_moves(v).contains(lm),
    ensures
        !in_check(apply(v, lm).board, v.turn),
{
    lemma_filtered_move_is_safe(v.board, v.turn, super::pseudo_of(v, v.turn), lm);
}

/// Executing a legal move puts the moving piece (the promotion piece, for a
/// promotion) on the target square and leaves the origin square empty.
pub proof fn lemma_move_lands(v: ChessView, lm: LegalMove)
    requires
        v.board.len() == 64,
        legal_moves(v).contains(lm),
    ensures
        apply(v, lm).board[lm.mv.to as int] == Some(moved_piece(v.board, lm)),
        apply(v, lm).board[lm.mv.from as int] is None,
{
    lemma_pseudo_shape(v.board, v.castling, v.en_passant, v.turn, 64);
    super::lemma_filter_subset(v.board, v.turn, super::pseudo_of(v, v.turn));
    let l = legal_moves(v);
    let j = choose|j: int| 0 <= j < l.len() && l[j] == lm;
    assert(move_shape_ok(v.board, v.turn, l[j]));
}

/// Every legal move of the side to move goes between two squares of the
/// board, starts on a piece of that side, and leaves its king unattacked.
pub proof fn lemma_legal_move_shape(v: ChessView, j: int)
    requires
        v.board.len() == 64,
        0 <= j < legal_moves(v).len(),
    ensures
        ({
            let lm = legal_moves(v)[j];
            &&& legal_move_list(v)[j] == lm.mv
            &&& lm.mv.from < 64 && lm.mv.to < 64 && lm.mv.from != lm.mv.to
            &&& v.board[lm.mv.from as int] is Some
            &&& v.board[lm.mv.from as int]->0.color == v.turn
            &&& !in_check(apply(v, lm).board, v.turn)
        }),
{
    let s = legal_moves(v);
    lemma_pseudo_shape(v.board, v.castling, v.en_passant, v.turn, 64);
    super::lemma_filter_subset(v.board, v.turn, super::pseudo_of(v, v.turn));
    assert(s.contains(s[j]));
    assert(move_shape_ok(v.board, v.turn, s[j]));
    lemma_legal_moves_keep_king_safe(v, s[j]);
}

/// What [`first_match`] and [`last_match`] find satisfies the request.
pub proof fn lemma_match_satisfies(s: Seq<LegalMove>, w: Move, q: bool)
    ensures
        first_match(s, w, q) matches Some(m) ==> request_ok(m, w, q),
        last_match(s, w, q) matches Some(m) ==> request_ok(m, w, q),
    decreases s.len(),
{
    if s.len() > 0 {
        lemma_match_satisfies(s.drop_last(), w, q);
    }
}

/// [`first_match`] finds a move exactly when some move of `s` satisfies the request.
pub proof fn lemma_first_match_exists(s: Seq<LegalMove>, w: Move, q: bool)
    ensures
        first_match(s, w, q) is Some <==> exists|j: int| 0 <= j < s.len() && request_ok(#[trigger] s[j], w, q),
    decreases s.len(),
{
    if s.len() > 0 {
        lemma_first_match_exists(s.drop_last(), w, q);
        if exists|j: int| 0 <= j < s.len() && request_ok(#[trigger] s[j], w, q) {
            let j = choose|j: int| 0 <= j < s.len() && request_ok(#[trigger] s[j], w, q);
            if j < s.len() - 1 {
                assert(s.drop_last()[j] == s[j]);
            }
        }
        if first_match(s.drop_last(), w, q) is Some {
            let j = choose|j: int| 0 <= j < s.drop_last().len() && request_ok(#[trigger] s.drop_last()[j], w, q);
            assert(s[j] == s.drop_last()[j]);
        }
    }
}

/// `Chess::try_make_move` refuses a request exactly when no legal move of
/// the side to move matches it (same squares, and the same promotion piece
/// where one is named).
pub proof fn lemma_refused_exactly_without_match(v: ChessView, w: Move)
    ensures
        chosen_move(legal_moves(v), w) is None <==> !exists|j: int|
            0 <= j < legal_moves(v).len() && matches_request(#[trigger] legal_moves(v)[j], w),
{
    let s = legal_moves(v);
    lemma_first_match_exists(s, w, false);
    lemma_chosen_in(s, w);
    lemma_match_satisfies(s, w, true);
    lemma_match_satisfies(s, w, false);
    if exists|j: int| 0 <= j < s.len() && matches_request(#[trigger] s[j], w) {
        let j = choose|j: int| 0 <= j < s.len() && matches_request(#[trigger] s[j], w);
        assert(request_ok(s[j], w, false));
    }
    if chosen_move(s, w) is Some {
        let lm = chosen_move(s, w)->0;
        let j = choose|j: int| 0 <= j < s.len() && s[j] == lm;
        assert(matches_request(s[j], w));
    }
}

/// A move request that `Chess::try_make_move` accepts executes a legal move
/// of a piece of the side to move, with the requested source and target
/// squares (and the requested promotion piece, if one was named; a queen
/// when none was named and a matching queen promotion is legal); afterwards
/// the moved piece stands on the target square and the source square is
/// empty, the mover's king is not attacked, the other side is to move, and
/// the executed move is the last move.
pub proof fn lemma_accepted_move(v: ChessView, w: Move)
    requires
        v.board.len() == 64,
        chosen_move(legal_moves(v), w) is Some,
    ensures
        ({
            let lm = chosen_move(legal_moves(v), w)->0;
            let after = apply(v, lm);
            &&& legal_moves(v).contains(lm)
            &&& legal_move_list(v).contains(lm.mv)
            &&& lm.mv.from == w.from
            &&& lm.mv.to == w.to
            &&& (w.promotion is Some ==> lm.mv.promotion == w.promotion)
            &&& !in_check(after.board, v.turn)
            &&& after.turn == opposite(v.turn)
            &&& after.last_move == Some(lm.mv)
            &&& after.history.len() == v.history.len() + 1
            &&& after.board[w.to as int] == Some(moved_piece(v.board, lm))
            &&& after.board[w.from as int] is None
            &&& v.board[w.from as int] is Some && v.board[w.from as int]->0.color == v.turn
            &&& moved_piece(v.board, lm).color == v.turn
            &&& (w.promotion is None && (exists|j: int|
                0 <= j < legal_moves(v).len() && request_ok(#[trigger] legal_moves(v)[j], w, true))
                ==> lm.mv.promotion == Some(super::PieceKind::Queen))
        }),
{
    let s = legal_moves(v);
    let lm = chosen_move(s, w)->0;
    lemma_chosen_in(s, w);
    lemma_match_satisfies(s, w, true);
    lemma_match_satisfies(s, w, false);
    assert(matches_request(lm, w));
    lemma_legal_moves_keep_king_safe(v, lm);
    lemma_move_lands(v, lm);
    let j = choose|j: int| 0 <= j < s.len() && s[j] == lm;
    assert(legal_move_list(v)[j] == lm.mv);
    lemma_pseudo_shape(v.board, v.castling, v.en_passant, v.turn, 64);
    super::lemma_filter_subset(v.board, v.turn, super::pseudo_of(v, v.turn));
    assert(move_shape_ok(v.board, v.turn, s[j]));
    lemma_first_match_exists(s, w, true);
}

/// Castling rights are never regained: after any move each right is held
/// only if it was held before.
pub proof fn lemma_castling_rights_only_shrink(v: ChessView, lm: LegalMove)
    ensures
        apply(v, lm).castling.white_kingside ==> v.castling.white_kingside,
        apply(v, lm).castling.white_queenside ==> v.castling.white_queenside,
        apply(v, lm).castling.black_kingside ==> v.castling.black_kingside,
        apply(v, lm).castling.black_queenside ==> v.castling.black_queenside,
{
}

/// A game is over exactly when a draw rule applies or the side to move has
/// no legal move; without legal moves it is checkmate (won by the other
/// side) when the king is attacked and stalemate otherwise.
pub proof fn lemma_status_meaning(v: ChessView)
    ensures
        status_of(v) == GameStatus::Ongoing <==> (v.halfmove_clock < 100 && repetitions(v) < 3
            && !insufficient_material(v.board) && legal_moves(v).len() > 0),
        status_of(v) matches GameStatus::Checkmate { winner } ==> legal_moves(v).len() == 0
            && in_check(v.board, v.turn) && winner == opposite(v.turn),
        status_of(v) == GameStatus::Stalemate ==> legal_moves(v).len() == 0 && !in_check(
            v.board,
            v.turn,
        ),
        (v.halfmove_clock < 100 && repetitions(v) < 3 && !insufficient_material(v.board)
            && legal_moves(v).len() == 0) ==> (if in_check(v.board, v.turn) {
            status_of(v) == GameStatus::Checkmate { winner: opposite(v.turn) }
        } else {
            status_of(v) == GameStatus::Stalemate
        }),
{
}

/// The highlighted targets of a square are exactly the destinations of the
/// legal moves leaving it, each listed once.
pub proof fn lemma_targets_are_destinations(s: Seq<LegalMove>, from: usize)
    ensures
        targets_from(s, from).no_duplicates(),
        forall|t: usize|
            targets_from(s, from).contains(t) <==> exists|i: int|
                0 <= i < s.len() && #[trigger] s[i].mv.from == from && s[i].mv.to == t,
    decreases s.len(),
{
    if s.len() > 0 {
        let p = s.drop_last();
        lemma_targets_are_destinations(p, from);
        let prev = targets_from(p, from);
        let cur = targets_from(s, from);
        assert forall|t: usize|
            cur.contains(t) <==> exists|i: int|
                0 <= i < s.len() && #[trigger] s[i].mv.from == from && s[i].mv.to == t by {
            if cur.contains(t) {
                if prev.contains(t) {
                    let i = choose|i: int| 0 <= i < p.len() && #[trigger] p[i].mv.from == from && p[i].mv.to == t;
                    assert(s[i] == p[i]);
                } else {
                    let k = choose|k: int| 0 <= k < cur.len() && cur[k] == t;
                    assert(cur != prev);
                    if k < prev.len() {
                        assert(cur[k] == prev[k]);
                        assert(prev.contains(t));
                    }
                    assert(s[s.len() - 1].mv.from == from && s[s.len() - 1].mv.to == t);
                }
            }
            if exists|i: int| 0 <= i < s.len() && #[trigger] s[i].mv.from == from && s[i].mv.to == t {
                let i = choose|i: int| 0 <= i < s.len() && #[trigger] s[i].mv.from == from && s[i].mv.to == t;
                if i < s.len() - 1 {
                    assert(p[i] == s[i]);
                    assert(prev.contains(t));
                    let k = choose|k: int| 0 <= k < prev.len() && prev[k] == t;
                    assert(cur[k] == t);
                } else if prev.contains(t) {
                    let k = choose|k: int| 0 <= k < prev.len() && prev[k] == t;
                    assert(cur[k] == t);
                } else {
                    assert(cur[cur.len() - 1] == t);
                }
            }
        }
        if s.last().mv.from == from && !prev.contains(s.last().mv.to) {
            assert forall|a: int, c: int| 0 <= a < c < cur.len() implies cur[a] != cur[c] by {
                if c == cur.len() - 1 {
                    assert(prev[a] == cur[a]);
                    assert(prev.contains(cur[a]));
                } else {
                    assert(prev[a] == cur[a] && prev[c] == cur[c]);
                }
            }
        }
    }
}

/// The current position is always the last one recorded: so it is for a
/// position set up from FEN, and every move keeps it so; hence it has been
/// reached at least once.
pub proof fn lemma_current_position_recorded(v: ChessView, lm: LegalMove, d: FenData)
    ensures
        position_from(d).history.last() == key_of(position_from(d)),
        repetitions(position_from(d)) >= 1,
        apply(v, lm).history.last() == key_of(apply(v, lm)),
        repetitions(apply(v, lm)) >= 1,
{
    let p = position_from(d);
    assert(p.history.drop_last() =~= Seq::<KeyView>::empty());
    let a = apply(v, lm);
    assert(a.history.drop_last() == v.history);
}

} // verus!
