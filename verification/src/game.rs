//! Core chess rules and board state management.
//!
//! Legal move generation, move execution, game-end detection and board
//! queries. Squares are indices `0..64`, `index = rank * 8 + file`, with
//! rank 0 being White's home rank.

use vstd::prelude::*;

use crate::text::text;
use board::{board_in_check, board_king_square, in_check, king_square, opposite};
use movegen::{lemma_pseudo_shape, pseudo_legal_moves, pseudo_moves};
use fen::{fen_result, parse_fen_fields, FenData};
use rules::{
    board_after, board_after_move, castling_after, effective_en_passant, effective_ep, any_legal,
    filter_legal, insufficient_material, is_insufficient_material, legal_filter, moved_piece,
    update_castling_rights,
};

pub mod board;
pub mod movegen;
pub mod rules;
pub mod fen;
pub mod notation;
pub mod laws;
pub mod render;
pub mod distinct;
pub mod castling;
pub mod position_laws;
pub mod en_passant;

verus! {

/// Side to move / piece color.
#[derive(Copy, Clone, Debug, PartialEq, Eq, Hash, Structural)]
pub enum Color {
    White,
    Black,
}

/// Chess piece kind.
#[derive(Copy, Clone, Debug, PartialEq, Eq, Hash, Structural)]
pub enum PieceKind {
    Pawn,
    Knight,
    Bishop,
    Rook,
    Queen,
    King,
}

/// A colored chess piece on the board.
#[derive(Copy, Clone, Debug, PartialEq, Eq, Hash, Structural)]
pub struct Piece {
    pub color: Color,
    pub kind: PieceKind,
}

/// Castling rights for both sides.
#[derive(Copy, Clone, Debug, PartialEq, Eq, Hash, Structural)]
pub struct CastlingRights {
    pub white_kingside: bool,
    pub white_queenside: bool,
    pub black_kingside: bool,
    pub black_queenside: bool,
}

/// A move represented by source/target indices and optional promotion.
#[derive(Copy, Clone, Debug, PartialEq, Eq, Structural)]
pub struct Move {
    /// Source square index in `0..64`.
    pub from: usize,
    /// Destination square index in `0..64`.
    pub to: usize,
    /// Promotion piece when the move is a pawn promotion.
    pub promotion: Option<PieceKind>,
}

/// How a generated move is executed on the board.
#[derive(Copy, Clone, Debug, PartialEq, Eq, Structural)]
pub enum MoveKind {
    Quiet,
    EnPassant,
    CastleKingside,
    CastleQueenside,
    Promotion,
}

/// A generated move together with the way it is executed.
#[derive(Copy, Clone, Debug, PartialEq, Eq, Structural)]
pub struct LegalMove {
    pub mv: Move,
    pub kind: MoveKind,
}

/// Current game outcome/status.
#[derive(Copy, Clone, Debug, PartialEq, Eq, Structural)]
pub enum GameStatus {
    Ongoing,
    Checkmate { winner: Color },
    Stalemate,
    DrawFiftyMove,
    DrawThreefoldRepetition,
    DrawInsufficientMaterial,
}


// ---------------------------------------------------------------------------
// Game state
// ---------------------------------------------------------------------------

/// What identifies a position for repetition counting.
#[derive(Copy, Clone)]
struct PositionKey {
    board: [Option<Piece>; 64],
    side_to_move: Color,
    castling: CastlingRights,
    en_passant: Option<usize>,
}

/// Abstract value of a [`PositionKey`].
pub struct KeyView {
    pub board: Seq<Option<Piece>>,
    pub side_to_move: Color,
    pub castling: CastlingRights,
    pub en_passant: Option<usize>,
}

impl View for PositionKey {
    type V = KeyView;

    closed spec fn view(&self) -> KeyView {
        KeyView {
            board: self.board@,
            side_to_move: self.side_to_move,
            castling: self.castling,
            en_passant: self.en_passant,
        }
    }
}

/// Full chess game state including repetition tracking.
pub struct Chess {
    board: [Option<Piece>; 64],
    turn: Color,
    castling: CastlingRights,
    en_passant: Option<usize>,
    last_move: Option<Move>,
    halfmove_clock: u32,
    fullmove_number: u32,
    /// Every position reached so far, in order (the current one last).
    repetition: Vec<PositionKey>,
}

/// Abstract value of a [`Chess`] game.
pub struct ChessView {
    pub board: Seq<Option<Piece>>,
    pub turn: Color,
    pub castling: CastlingRights,
    pub en_passant: Option<usize>,
    pub last_move: Option<Move>,
    pub halfmove_clock: u32,
    pub fullmove_number: u32,
    /// Every recorded position, oldest first.
    pub history: Seq<KeyView>,
}

impl View for Chess {
    type V = ChessView;

    closed spec fn view(&self) -> ChessView {
        ChessView {
            board: self.board@,
            turn: self.turn,
            castling: self.castling,
            en_passant: self.en_passant,
            last_move: self.last_move,
            halfmove_clock: self.halfmove_clock,
            fullmove_number: self.fullmove_number,
            history: self.repetition@.map_values(|k: PositionKey| k@),
        }
    }
}

/// The repetition key of a position.
pub open spec fn key_of(v: ChessView) -> KeyView {
    KeyView {
        board: v.board,
        side_to_move: v.turn,
        castling: v.castling,
        en_passant: effective_ep(v.board, v.turn, v.en_passant),
    }
}

/// How often `k` occurs in `h`.
pub open spec fn count_key(h: Seq<KeyView>, k: KeyView) -> nat
    decreases h.len(),
{
    if h.len() == 0 {
        0
    } else {
        count_key(h.drop_last(), k) + if h.last() == k {
            1nat
        } else {
            0nat
        }
    }
}

/// Number of times the current position has been reached.
pub open spec fn repetitions(v: ChessView) -> nat {
    count_key(v.history, key_of(v))
}

/// Pseudo-legal moves of `color` in position `v`.
pub open spec fn pseudo_of(v: ChessView, color: Color) -> Seq<LegalMove> {
    pseudo_moves(v.board, v.castling, v.en_passant, color)
}

/// Legal moves of `color`: pseudo-legal moves after which that side's king is not attacked.
pub open spec fn legal_moves_of(v: ChessView, color: Color) -> Seq<LegalMove> {
    legal_filter(v.board, color, pseudo_of(v, color))
}

/// Legal moves of the side to move, in generation order.
pub open spec fn legal_moves(v: ChessView) -> Seq<LegalMove> {
    legal_moves_of(v, v.turn)
}

/// The legal moves of the side to move as plain moves.
pub open spec fn legal_move_list(v: ChessView) -> Seq<Move> {
    legal_moves(v).map_values(|lm: LegalMove| lm.mv)
}

/// The position after executing `lm` (a legal move of `v`): board, castling
/// rights, en-passant square (set after a pawn double step), half-move clock
/// (reset by every pawn move, promotions included, and by captures),
/// full-move number (advanced after Black's move), side to move and last move
/// are updated, and the new position is recorded.
pub open spec fn apply(v: ChessView, lm: LegalMove) -> ChessView {
    let from = lm.mv.from as int;
    let to = lm.mv.to as int;
    let moved = moved_piece(v.board, lm);
    let captured = v.board[to];
    let ep = if moved.kind == PieceKind::Pawn && (from / 8 - to / 8 == 2 || to / 8 - from / 8
        == 2) {
        Some(((from + to) / 2) as usize)
    } else {
        None
    };
    let pawn_moved = match v.board[from] {
        Some(p) => p.kind == PieceKind::Pawn,
        None => false,
    };
    let half = if pawn_moved || captured is Some || lm.kind == MoveKind::EnPassant {
        0u32
    } else {
        (v.halfmove_clock + 1) as u32
    };
    let full = if v.turn == Color::Black {
        (v.fullmove_number + 1) as u32
    } else {
        v.fullmove_number
    };
    let v1 = ChessView {
        board: board_after(v.board, lm),
        turn: opposite(v.turn),
        castling: castling_after(v.castling, moved, from, to, captured),
        en_passant: ep,
        last_move: Some(lm.mv),
        halfmove_clock: half,
        fullmove_number: full,
        history: v.history,
    };
    ChessView { history: v.history.push(key_of(v1)), ..v1 }
}

/// The clocks can be advanced by one move without overflowing.
pub open spec fn clocks_ok(v: ChessView) -> bool {
    v.halfmove_clock < u32::MAX && v.fullmove_number < u32::MAX
}

/// Status of a position, checked in this order: fifty-move draw (half-move
/// clock at least 100), threefold repetition, insufficient material, then
/// checkmate or stalemate when the side to move has no legal move.
pub open spec fn status_of(v: ChessView) -> GameStatus {
    if v.halfmove_clock >= 100 {
        GameStatus::DrawFiftyMove
    } else if repetitions(v) >= 3 {
        GameStatus::DrawThreefoldRepetition
    } else if insufficient_material(v.board) {
        GameStatus::DrawInsufficientMaterial
    } else if legal_moves(v).len() == 0 {
        if in_check(v.board, v.turn) {
            GameStatus::Checkmate { winner: opposite(v.turn) }
        } else {
            GameStatus::Stalemate
        }
    } else {
        GameStatus::Ongoing
    }
}

/// A generated move matches a requested one: same squares, and the same
/// promotion piece, where a request without a promotion piece matches any.
pub open spec fn matches_request(c: LegalMove, w: Move) -> bool {
    &&& c.mv.from == w.from
    &&& c.mv.to == w.to
    &&& match (c.mv.promotion, w.promotion) {
        (Some(a), Some(b)) => a == b,
        (Some(_), None) => true,
        (None, None) => true,
        (None, Some(_)) => false,
    }
}

pub open spec fn request_ok(c: LegalMove, w: Move, queen_only: bool) -> bool {
    matches_request(c, w) && (!queen_only || c.mv.promotion == Some(PieceKind::Queen))
}

/// The first move of `s` matching `w` (a queen promotion if `queen_only`).
pub open spec fn first_match(s: Seq<LegalMove>, w: Move, queen_only: bool) -> Option<LegalMove>
    decreases s.len(),
{
    if s.len() == 0 {
        None
    } else {
        let prev = first_match(s.drop_last(), w, queen_only);
        if prev is Some {
            prev
        } else if request_ok(s.last(), w, queen_only) {
            Some(s.last())
        } else {
            None
        }
    }
}

/// The last move of `s` matching `w` (a queen promotion if `queen_only`).
pub open spec fn last_match(s: Seq<LegalMove>, w: Move, queen_only: bool) -> Option<LegalMove>
    decreases s.len(),
{
    if s.len() == 0 {
        None
    } else if request_ok(s.last(), w, queen_only) {
        Some(s.last())
    } else {
        last_match(s.drop_last(), w, queen_only)
    }
}

/// The legal move executed for request `w`: a matching queen promotion if
/// there is one, otherwise the first matching move.
pub open spec fn chosen_move(s: Seq<LegalMove>, w: Move) -> Option<LegalMove> {
    let q = if w.promotion is None {
        first_match(s, w, true)
    } else {
        last_match(s, w, true)
    };
    if q is Some {
        q
    } else {
        first_match(s, w, false)
    }
}

/// Distinct target squares of the moves of `s` starting on `from`, in order of first appearance.
pub open spec fn targets_from(s: Seq<LegalMove>, from: usize) -> Seq<usize>
    decreases s.len(),
{
    if s.len() == 0 {
        seq![]
    } else {
        let prev = targets_from(s.drop_last(), from);
        if s.last().mv.from == from && !prev.contains(s.last().mv.to) {
            prev.push(s.last().mv.to)
        } else {
            prev
        }
    }
}

/// Squares of kings in check: White's first, then Black's.
pub open spec fn checked_kings(b: Seq<Option<Piece>>) -> Seq<usize> {
    let w = if in_check(b, Color::White) {
        seq![king_square(b, Color::White)->0 as usize]
    } else {
        seq![]
    };
    let k = if in_check(b, Color::Black) {
        seq![king_square(b, Color::Black)->0 as usize]
    } else {
        seq![]
    };
    w + k
}

pub proof fn lemma_first_match_prefix(s: Seq<LegalMove>, w: Move, queen_only: bool, n: int)
    requires
        0 <= n <= s.len(),
        first_match(s.take(n), w, queen_only) is Some,
    ensures
        first_match(s, w, queen_only) == first_match(s.take(n), w, queen_only),
    decreases s.len() - n,
{
    if n < s.len() {
        assert(s.take(n + 1).drop_last() == s.take(n));
        lemma_first_match_prefix(s, w, queen_only, n + 1);
    } else {
        assert(s.take(n) == s);
    }
}

fn same_key(a: &PositionKey, b: &PositionKey) -> (r: bool)
    ensures
        r == (a@ == b@),
{
    let mut i: usize = 0;
    while i < 64
        invariant
            0 <= i <= 64,
            forall|j: int| 0 <= j < i ==> a.board@[j] == b.board@[j],
        decreases 64 - i,
    {
        if !board::same_square_content(a.board[i], b.board[i]) {
            return false;
        }
        i += 1;
    }
    assert(a.board@ =~= b.board@);
    a.side_to_move == b.side_to_move && a.castling == b.castling && match (a.en_passant, b.en_passant) {
        (None, None) => true,
        (Some(x), Some(y)) => x == y,
        _ => false,
    }
}

impl Clone for Chess {
    fn clone(&self) -> (r: Self)
        ensures
            r@ == self@,
    {
        let mut repetition: Vec<PositionKey> = Vec::new();
        let mut i: usize = 0;
        while i < self.repetition.len()
            invariant
                0 <= i <= self.repetition@.len(),
                repetition@ == self.repetition@.take(i as int),
            decreases self.repetition@.len() - i,
        {
            repetition.push(self.repetition[i]);
            assert(self.repetition@.take(i + 1) == self.repetition@.take(i as int).push(
                self.repetition@[i as int],
            ));
            i += 1;
        }
        assert(self.repetition@.take(i as int) == self.repetition@);
        let r = Chess {
            board: self.board,
            turn: self.turn,
            castling: self.castling,
            en_passant: self.en_passant,
            last_move: self.last_move,
            halfmove_clock: self.halfmove_clock,
            fullmove_number: self.fullmove_number,
            repetition,
        };
        assert(r@.history =~= self@.history);
        r
    }
}

impl Chess {
    /// Legal moves start and end on the board.
    pub proof fn lemma_legal_moves_on_board(&self)
        ensures
            forall|i: int| 0 <= i < legal_moves(self@).len() ==> (#[trigger] legal_moves(self@)[i]).mv.from < 64
                && legal_moves(self@)[i].mv.to < 64,
            forall|i: int| 0 <= i < legal_move_list(self@).len() ==> (#[trigger] legal_move_list(self@)[i]).to < 64,
    {
        lemma_pseudo_shape(self.board@, self.castling, self.en_passant, self.turn, 64);
        lemma_filter_subset(self.board@, self.turn, pseudo_of(self@, self.turn));
        let l = legal_moves(self@);
        assert forall|i: int| 0 <= i < l.len() implies (#[trigger] l[i]).mv.from < 64 && l[i].mv.to < 64 by {
            assert(movegen::move_shape_ok(self.board@, self.turn, l[i]));
        }
        assert forall|i: int| 0 <= i < legal_move_list(self@).len() implies (#[trigger] legal_move_list(self@)[i]).to < 64 by {
            assert(movegen::move_shape_ok(self.board@, self.turn, l[i]));
        }
    }

    /// A board always has 64 squares.
    pub proof fn lemma_board_len(&self)
        ensures
            self@.board.len() == 64,
    {
    }

    /// Returns the side to move.
    pub fn current_turn(&self) -> (r: Color)
        ensures
            r == self@.turn,
    {
        self.turn
    }

    /// Returns the most recently executed move, if any.
    pub fn last_move(&self) -> (r: Option<Move>)
        ensures
            r == self@.last_move,
    {
        self.last_move
    }

    /// The full-move number (starts at 1, advanced after each Black move).
    pub fn fullmove_number(&self) -> (r: u32)
        ensures
            r == self@.fullmove_number,
    {
        self.fullmove_number
    }

    /// Whether the move counters can take one more move without overflowing
    /// (see [`clocks_ok`]), as making a move requires.
    pub fn clocks_can_advance(&self) -> (r: bool)
        ensures
            r == clocks_ok(self@),
    {
        self.halfmove_clock < u32::MAX && self.fullmove_number < u32::MAX
    }

    /// Returns the piece on `idx` if occupied.
    pub fn piece_at(&self, idx: usize) -> (r: Option<Piece>)
        ensures
            r == if idx < 64 {
                self@.board[idx as int]
            } else {
                None
            },
    {
        if idx < 64 {
            self.board[idx]
        } else {
            None
        }
    }

    fn repetition_key(&self) -> (r: PositionKey)
        ensures
            r@ == key_of(self@),
    {
        PositionKey {
            board: self.board,
            side_to_move: self.turn,
            castling: self.castling,
            en_passant: effective_en_passant(&self.board, self.turn, self.en_passant),
        }
    }

    fn record_position(&mut self)
        ensures
            final(self)@ == (ChessView { history: old(self)@.history.push(key_of(old(self)@)), ..old(self)@ }),
    {
        let key = self.repetition_key();
        self.repetition.push(key);
        assert(self@.history =~= old(self)@.history.push(key_of(old(self)@)));
    }

    fn repetition_count(&self) -> (r: usize)
        ensures
            r == repetitions(self@),
    {
        let key = self.repetition_key();
        let ghost h = self@.history;
        let mut count: usize = 0;
        let mut i: usize = 0;
        while i < self.repetition.len()
            invariant
                0 <= i <= self.repetition@.len(),
                h == self.repetition@.map_values(|k: PositionKey| k@),
                count == count_key(h.take(i as int), key@),
                count <= i,
            decreases self.repetition@.len() - i,
        {
            assert(h.take(i + 1).drop_last() == h.take(i as int));
            if same_key(&self.repetition[i], &key) {
                count += 1;
            }
            i += 1;
        }
        assert(h.take(i as int) == h);
        count
    }

    fn is_in_check(&self, color: Color) -> (r: bool)
        ensures
            r == in_check(self@.board, color),
    {
        board_in_check(&self.board, color)
    }

    fn pseudo_legal_moves(&self, color: Color) -> (r: Vec<LegalMove>)
        ensures
            r@ == pseudo_of(self@, color),
            movegen::all_shape_ok(self@.board, color, r@),
    {
        proof {
            lemma_pseudo_shape(self.board@, self.castling, self.en_passant, color, 64);
        }
        pseudo_legal_moves(&self.board, self.castling, self.en_passant, color)
    }

    fn legal_moves(&self) -> (r: Vec<LegalMove>)
        ensures
            r@ == legal_moves(self@),
            movegen::all_shape_ok(self@.board, self@.turn, r@),
    {
        let pseudo = self.pseudo_legal_moves(self.turn);
        let r = filter_legal(&self.board, self.turn, &pseudo);
        proof {
            lemma_filter_subset(self.board@, self.turn, pseudo@);
        }
        r
    }

    fn has_any_legal_move(&self, color: Color) -> (r: bool)
        ensures
            r == (legal_moves_of(self@, color).len() > 0),
    {
        let pseudo = self.pseudo_legal_moves(color);
        any_legal(&self.board, color, &pseudo)
    }

    /// Returns all legal moves for the side to move, each once.
    pub fn legal_moves_for_turn(&self) -> (r: Vec<Move>)
        ensures
            r@ == legal_move_list(self@),
            r@.no_duplicates(),
    {
        proof {
            distinct::lemma_legal_moves_distinct(self@);
        }
        let legal = self.legal_moves();
        let mut out: Vec<Move> = Vec::new();
        let mut i: usize = 0;
        while i < legal.len()
            invariant
                0 <= i <= legal@.len(),
                out@ == legal@.take(i as int).map_values(|lm: LegalMove| lm.mv),
            decreases legal@.len() - i,
        {
            out.push(legal[i].mv);
            assert(legal@.take(i + 1).map_values(|lm: LegalMove| lm.mv) =~= legal@.take(
                i as int,
            ).map_values(|lm: LegalMove| lm.mv).push(legal@[i as int].mv));
            i += 1;
        }
        assert(legal@.take(i as int) == legal@);
        out
    }

    /// Number of legal moves of the side to move.
    pub fn legal_move_count(&self) -> (r: usize)
        ensures
            r == legal_moves(self@).len(),
    {
        self.legal_moves().len()
    }

    /// Returns deduplicated legal target squares for a piece origin square.
    pub fn legal_targets_from(&self, from: usize) -> (r: Vec<usize>)
        ensures
            r@ == if from < 64 && self@.board[from as int] is Some && self@.board[from as int]->0.color
                == self@.turn {
                targets_from(legal_moves(self@), from)
            } else {
                seq![]
            },
    {
        if from >= 64 {
            return Vec::new();
        }
        let piece = match self.board[from] {
            Some(p) => p,
            None => return Vec::new(),
        };
        if piece.color != self.turn {
            return Vec::new();
        }
        let legal = self.legal_moves();
        let mut seen = [false; 64];
        let mut targets: Vec<usize> = Vec::new();
        let mut i: usize = 0;
        while i < legal.len()
            invariant
                0 <= i <= legal@.len(),
                movegen::all_shape_ok(self@.board, self@.turn, legal@),
                targets@ == targets_from(legal@.take(i as int), from),
                forall|t: int| 0 <= t < 64 ==> #[trigger] seen@[t] == targets@.contains(t as usize),
            decreases legal@.len() - i,
        {
            let lm = legal[i];
            assert(legal@.take(i + 1).drop_last() == legal@.take(i as int));
            assert(movegen::move_shape_ok(self@.board, self@.turn, legal@[i as int]));
            if lm.mv.from == from && !seen[lm.mv.to] {
                seen[lm.mv.to] = true;
                targets.push(lm.mv.to);
                assert forall|t: int| 0 <= t < 64 implies #[trigger] seen@[t] == targets@.contains(
                    t as usize,
                ) by {
                    if t == lm.mv.to as int {
                        assert(targets@[targets@.len() - 1] == lm.mv.to);
                    } else {
                        let old_targets = targets@.drop_last();
                        assert(old_targets == targets_from(legal@.take(i as int), from));
                        if targets@.contains(t as usize) {
                            let j = choose|j: int| 0 <= j < targets@.len() && targets@[j] == t as usize;
                            assert(j < targets@.len() - 1);
                            assert(old_targets[j] == t as usize);
                        }
                        if old_targets.contains(t as usize) {
                            let j = choose|j: int| 0 <= j < old_targets.len() && old_targets[j] == t as usize;
                            assert(targets@[j] == t as usize);
                        }
                    }
                }
            }
            i += 1;
        }
        assert(legal@.take(i as int) == legal@);
        targets
    }

    /// Returns king-square indices currently in check.
    pub fn checked_king_squares(&self) -> (r: Vec<usize>)
        ensures
            r@ == checked_kings(self@.board),
    {
        let mut out: Vec<usize> = Vec::new();
        let colors = [Color::White, Color::Black];
        let mut k: usize = 0;
        while k < 2
            invariant
                0 <= k <= 2,
                colors@ == seq![Color::White, Color::Black],
                k == 0 ==> out@ == Seq::<usize>::empty(),
                k == 1 ==> out@ == (if in_check(self@.board, Color::White) {
                    seq![king_square(self@.board, Color::White)->0 as usize]
                } else {
                    seq![]
                }),
                k == 2 ==> out@ == checked_kings(self@.board),
            decreases 2 - k,
        {
            let color = colors[k];
            if self.is_in_check(color) {
                match board_king_square(&self.board, color) {
                    Some(king_sq) => out.push(king_sq),
                    None => {},
                }
            }
            k += 1;
        }
        out
    }

    /// Evaluates the current game status (ongoing, mate, stalemate, or draw).
    pub fn status(&self) -> (r: GameStatus)
        ensures
            r == status_of(self@),
    {
        if self.halfmove_clock >= 100 {
            return GameStatus::DrawFiftyMove;
        }
        if self.repetition_count() >= 3 {
            return GameStatus::DrawThreefoldRepetition;
        }
        if is_insufficient_material(&self.board) {
            return GameStatus::DrawInsufficientMaterial;
        }
        if !self.has_any_legal_move(self.turn) {
            if self.is_in_check(self.turn) {
                return GameStatus::Checkmate { winner: self.turn.opposite() };
            }
            return GameStatus::Stalemate;
        }
        GameStatus::Ongoing
    }

    fn apply_legal_move(&mut self, legal: LegalMove)
        requires
            movegen::move_shape_ok(old(self)@.board, old(self)@.turn, legal),
            clocks_ok(old(self)@),
        ensures
            final(self)@ == apply(old(self)@, legal),
    {
        let mv = legal.mv;
        let ghost v = self@;
        let piece = match self.board[mv.from] {
            Some(p) => p,
            None => {
                proof {
                    assert(false);
                }
                Piece { color: Color::White, kind: PieceKind::Pawn }
            },
        };
        let captured = self.board[mv.to];
        let moved = if legal.kind == MoveKind::Promotion {
            match mv.promotion {
                Some(k) => Piece { color: piece.color, kind: k },
                None => piece,
            }
        } else {
            piece
        };
        assert(moved == moved_piece(v.board, legal));
        self.board = board_after_move(&self.board, legal);
        self.castling = update_castling_rights(self.castling, moved, mv.from, mv.to, captured);

        self.en_passant = None;
        if moved.kind == PieceKind::Pawn {
            let from_rank = mv.from / 8;
            let to_rank = mv.to / 8;
            if from_rank == to_rank + 2 || to_rank == from_rank + 2 {
                self.en_passant = Some((mv.from + mv.to) / 2);
            }
        }

        let is_capture = captured.is_some() || legal.kind == MoveKind::EnPassant;
        if piece.kind == PieceKind::Pawn || is_capture {
            self.halfmove_clock = 0;
        } else {
            self.halfmove_clock = self.halfmove_clock + 1;
        }
        if self.turn == Color::Black {
            self.fullmove_number = self.fullmove_number + 1;
        }
        self.turn = self.turn.opposite();
        self.last_move = Some(mv);
        self.record_position();
    }

    /// Attempts to execute a legal move from the current position.
    pub fn try_make_move(&mut self, wanted: Move) -> (r: Result<(), String>)
        requires
            clocks_ok(old(self)@),
        ensures
            match r {
                Ok(()) => chosen_move(legal_moves(old(self)@), wanted) is Some && final(self)@
                    == apply(old(self)@, chosen_move(legal_moves(old(self)@), wanted)->0),
                Err(e) => chosen_move(legal_moves(old(self)@), wanted) is None && final(self)@
                    == old(self)@ && e@ == "Illegal move"@,
            },
    {
        let legal = self.legal_moves();
        let ghost s = legal@;
        let mut fallback: Option<LegalMove> = None;
        let mut queen_promotion: Option<LegalMove> = None;
        let mut i: usize = 0;
        while i < legal.len()
            invariant_except_break
                wanted.promotion is None ==> queen_promotion is None,
                fallback == first_match(s.take(i as int), wanted, false),
                wanted.promotion is None ==> queen_promotion == first_match(s.take(i as int), wanted, true),
                wanted.promotion is Some ==> queen_promotion == last_match(s.take(i as int), wanted, true),
            invariant
                0 <= i <= s.len(),
                s == legal@,
            ensures
                i < s.len() ==> wanted.promotion is None && queen_promotion == first_match(s, wanted, true)
                    && fallback == first_match(s, wanted, false),
                i >= s.len() ==> fallback == first_match(s.take(i as int), wanted, false),
                i >= s.len() ==> (wanted.promotion is None ==> queen_promotion == first_match(s.take(i as int), wanted, true)),
                i >= s.len() ==> (wanted.promotion is Some ==> queen_promotion == last_match(s.take(i as int), wanted, true)),
            decreases s.len() - i,
        {
            let lm = legal[i];
            assert(s.take(i + 1).drop_last() == s.take(i as int));
            let ok = lm.mv.from == wanted.from && lm.mv.to == wanted.to && match (
                lm.mv.promotion,
                wanted.promotion,
            ) {
                (Some(c), Some(w)) => c == w,
                (Some(_), None) => true,
                (None, None) => true,
                (None, Some(_)) => false,
            };
            assert(ok == matches_request(lm, wanted));
            if ok {
                let is_queen = match lm.mv.promotion {
                    Some(PieceKind::Queen) => true,
                    _ => false,
                };
                if is_queen {
                    queen_promotion = Some(lm);
                    if wanted.promotion.is_none() {
                        if fallback.is_none() {
                            fallback = Some(lm);
                        }
                        proof {
                            lemma_first_match_prefix(s, wanted, true, i as int + 1);
                            lemma_first_match_prefix(s, wanted, false, i as int + 1);
                        }
                        break;
                    }
                }
                if fallback.is_none() {
                    fallback = Some(lm);
                }
            }
            i += 1;
        }
        proof {
            if i >= s.len() {
                assert(s.take(i as int) == s);
            }
        }
        let chosen = match queen_promotion {
            Some(q) => Some(q),
            None => fallback,
        };
        match chosen {
            Some(lm) => {
                proof {
                    lemma_chosen_in(s, wanted);
                }
                self.apply_legal_move(lm);
                Ok(())
            },
            None => Err(text("Illegal move")),
        }
    }
}

pub proof fn lemma_filter_subset(b: Seq<Option<Piece>>, color: Color, s: Seq<LegalMove>)
    requires
        movegen::all_shape_ok(b, color, s),
    ensures
        movegen::all_shape_ok(b, color, legal_filter(b, color, s)),
    decreases s.len(),
{
    if s.len() > 0 {
        assert(movegen::all_shape_ok(b, color, s.drop_last())) by {
            assert forall|i: int| 0 <= i < s.drop_last().len() implies movegen::move_shape_ok(
                b,
                color,
                #[trigger] s.drop_last()[i],
            ) by {
                assert(s.drop_last()[i] == s[i]);
            }
        }
        lemma_filter_subset(b, color, s.drop_last());
        assert(movegen::move_shape_ok(b, color, s[s.len() - 1]));
    }
}

pub proof fn lemma_match_in(s: Seq<LegalMove>, w: Move, q: bool)
    ensures
        first_match(s, w, q) matches Some(m) ==> s.contains(m),
        last_match(s, w, q) matches Some(m) ==> s.contains(m),
    decreases s.len(),
{
    if s.len() > 0 {
        lemma_match_in(s.drop_last(), w, q);
        if let Some(m) = first_match(s.drop_last(), w, q) {
            assert(s.drop_last().contains(m));
            let j = choose|j: int| 0 <= j < s.drop_last().len() && s.drop_last()[j] == m;
            assert(s[j] == m);
        }
        if let Some(m) = last_match(s.drop_last(), w, q) {
            let j = choose|j: int| 0 <= j < s.drop_last().len() && s.drop_last()[j] == m;
            assert(s[j] == m);
        }
        assert(s[s.len() - 1] == s.last());
    }
}

pub proof fn lemma_chosen_in(s: Seq<LegalMove>, w: Move)
    ensures
        chosen_move(s, w) matches Some(m) ==> s.contains(m),
{
    lemma_match_in(s, w, true);
    lemma_match_in(s, w, false);
}

/// The position described by parsed FEN fields, recorded once for repetition.
pub open spec fn position_from(d: FenData) -> ChessView {
    let v0 = ChessView {
        board: d.board,
        turn: d.turn,
        castling: d.castling,
        en_passant: d.en_passant,
        last_move: None,
        halfmove_clock: d.halfmove_clock,
        fullmove_number: d.fullmove_number,
        history: seq![],
    };
    ChessView { history: seq![key_of(v0)], ..v0 }
}

/// Kind of the piece on file `f` of a home rank in the initial position.
pub open spec fn back_rank_kind(f: int) -> PieceKind {
    if f == 0 || f == 7 {
        PieceKind::Rook
    } else if f == 1 || f == 6 {
        PieceKind::Knight
    } else if f == 2 || f == 5 {
        PieceKind::Bishop
    } else if f == 3 {
        PieceKind::Queen
    } else {
        PieceKind::King
    }
}

/// The standard initial placement of the pieces.
pub open spec fn start_board() -> Seq<Option<Piece>> {
    Seq::new(
        64,
        |i: int|
            if i < 8 {
                Some(Piece { color: Color::White, kind: back_rank_kind(i) })
            } else if i < 16 {
                Some(Piece { color: Color::White, kind: PieceKind::Pawn })
            } else if i < 48 {
                None
            } else if i < 56 {
                Some(Piece { color: Color::Black, kind: PieceKind::Pawn })
            } else {
                Some(Piece { color: Color::Black, kind: back_rank_kind(i - 56) })
            },
    )
}

/// The standard starting position: White to move, all castling rights, no
/// en-passant square, half-move clock 0, full-move number 1.
pub open spec fn start_position() -> ChessView {
    position_from(
        FenData {
            board: start_board(),
            turn: Color::White,
            castling: CastlingRights {
                white_kingside: true,
                white_queenside: true,
                black_kingside: true,
                black_queenside: true,
            },
            en_passant: None,
            halfmove_clock: 0,
            fullmove_number: 1,
        },
    )
}

impl Chess {
    fn from_fields(d: fen::FenFields) -> (r: Chess)
        ensures
            r@ == position_from(d.data()),
    {
        let mut chess = Chess {
            board: d.board,
            turn: d.turn,
            castling: d.castling,
            en_passant: d.en_passant,
            last_move: None,
            halfmove_clock: d.halfmove_clock,
            fullmove_number: d.fullmove_number,
            repetition: Vec::new(),
        };
        assert(chess@.history =~= seq![]);
        chess.record_position();
        chess
    }

    /// Parses a strict six-field FEN string into a [`Chess`] position.
    pub fn from_fen(fen: &str) -> (r: Result<Chess, String>)
        ensures
            match r {
                Ok(c) => (fen_result(fen@) matches Ok(d) && c@ == position_from(d)),
                Err(e) => fen_result(fen@) == Err::<FenData, Seq<char>>(e@),
            },
    {
        match parse_fen_fields(fen) {
            Ok(d) => Ok(Chess::from_fields(d)),
            Err(e) => Err(e),
        }
    }

    /// Creates a new game in the standard starting position.
    pub fn new() -> (r: Chess)
        ensures
            r@ == start_position(),
    {
        let back = [
            PieceKind::Rook,
            PieceKind::Knight,
            PieceKind::Bishop,
            PieceKind::Queen,
            PieceKind::King,
            PieceKind::Bishop,
            PieceKind::Knight,
            PieceKind::Rook,
        ];
        let mut board: [Option<Piece>; 64] = [None; 64];
        let mut f: usize = 0;
        while f < 8
            invariant
                0 <= f <= 8,
                forall|j: int| 0 <= j < 8 ==> #[trigger] back@[j] == back_rank_kind(j),
                forall|i: int|
                    0 <= i < 64 ==> #[trigger] board@[i] == if i % 8 < f {
                        start_board()[i]
                    } else {
                        None
                    },
            decreases 8 - f,
        {
            board[f] = Some(Piece { color: Color::White, kind: back[f] });
            board[8 + f] = Some(Piece { color: Color::White, kind: PieceKind::Pawn });
            board[48 + f] = Some(Piece { color: Color::Black, kind: PieceKind::Pawn });
            board[56 + f] = Some(Piece { color: Color::Black, kind: back[f] });
            f += 1;
        }
        assert(board@ =~= start_board());
        let fields = fen::FenFields {
            board,
            turn: Color::White,
            castling: CastlingRights {
                white_kingside: true,
                white_queenside: true,
                black_kingside: true,
                black_queenside: true,
            },
            en_passant: None,
            halfmove_clock: 0,
            fullmove_number: 1,
        };
        Chess::from_fields(fields)
    }

    /// Creates a game from FEN, falling back to the standard start position on parse failure.
    pub fn init(fen: &str) -> (r: Chess)
        ensures
            match fen_result(fen@) {
                Ok(d) => r@ == position_from(d),
                Err(_) => r@ == start_position(),
            },
    {
        match Chess::from_fen(fen) {
            Ok(c) => c,
            Err(_) => Chess::new(),
        }
    }
}

/// The outcome of requesting move `w` in position `v`: `Ok` with the position
/// after the chosen legal move, or the "Illegal move" error with `v` unchanged.
pub open spec fn request_outcome(v: ChessView, w: Move) -> (Result<(), Seq<char>>, ChessView) {
    match chosen_move(legal_moves(v), w) {
        Some(lm) => (Ok(()), apply(v, lm)),
        None => (Err("Illegal move"@), v),
    }
}

/// The outcome of a move given as normalized text `t` (see [`notation::move_request`]).
pub open spec fn normalized_text_outcome(v: ChessView, t: Seq<char>) -> (Result<(), Seq<char>>, ChessView) {
    match notation::move_request(t) {
        Err(e) => (Err(e), v),
        Ok(w) => request_outcome(v, w),
    }
}

/// The outcome of a move given as text: trimmed, lower-cased, then read.
pub open spec fn text_outcome(v: ChessView, input: Seq<char>) -> (Result<(), Seq<char>>, ChessView) {
    normalized_text_outcome(v, notation::move_text(input))
}

pub open spec fn result_text(r: Result<(), String>) -> Result<(), Seq<char>> {
    match r {
        Ok(()) => Ok(()),
        Err(e) => Err(e@),
    }
}

impl Chess {
    /// Parses and executes coordinate notation like `e2e4` or `e7e8q`;
    /// malformed text is answered with an error and changes nothing.
    pub fn try_make_move_str(&mut self, input: &str) -> (r: Result<(), String>)
        requires
            clocks_ok(old(self)@),
        ensures
            (result_text(r), final(self)@) == text_outcome(old(self)@, input@),
            vstd::utf8::is_ascii_chars(input@) ==> (result_text(r), final(self)@) == normalized_text_outcome(
                old(self)@,
                notation::ascii_lowercase(notation::trim_ws(input@)),
            ),
    {
        let text = notation::normalize_move_text(input);
        let wanted = match notation::parse_move_text(text.as_str()) {
            Ok(m) => m,
            Err(e) => return Err(e),
        };
        self.try_make_move(wanted)
    }
}

} // verus!
