//! Text shown by the terminal front end: square names, UCI move text,
//! status lines, material balance and captured pieces.

use vstd::prelude::*;
use vstd::string::StringExecFns;
use vstd::utf8::{decode_utf8, encode_utf8, is_char_boundary};

use crate::engine::eval::evaluation;
use crate::engine::{Engine, EngineConfig};
use crate::game::board::opposite;
use crate::game::fen::{parse_square, square_result};
use crate::game::notation::{move_request, move_text_splittable, promotion_of};
use crate::game::notation::{trim_end_text, trim_end_ws};
use crate::game::render::{glyph, piece_to_symbol};
use crate::game::{chosen_move, clocks_ok, legal_moves, request_outcome, status_of, ChessView, Chess, Color, GameStatus, Move, Piece, PieceKind};
use crate::text::{push_char, text};

verus! {

broadcast use vstd::utf8::encode_utf8_decode_utf8;

// ---------------------------------------------------------------------------
// Numbers and names
// ---------------------------------------------------------------------------

/// The decimal digit `d` (`0..10`) as a character.
pub open spec fn digit_char(d: int) -> char {
    seq!['0', '1', '2', '3', '4', '5', '6', '7', '8', '9'][d]
}

/// Decimal notation of `n`, without leading zeros.
pub open spec fn decimal(n: nat) -> Seq<char>
    decreases n,
{
    if n < 10 {
        seq![digit_char(n as int)]
    } else {
        decimal(n / 10) + seq![digit_char((n % 10) as int)]
    }
}

/// Appends the decimal notation of `n` to `out`.
pub fn push_decimal(out: &mut String, n: u64)
    ensures
        final(out)@ == old(out)@ + decimal(n as nat),
    decreases n,
{
    let digits = ['0', '1', '2', '3', '4', '5', '6', '7', '8', '9'];
    if n >= 10 {
        push_decimal(out, n / 10);
    }
    push_char(out, digits[(n % 10) as usize]);
    assert(digits@ == seq!['0', '1', '2', '3', '4', '5', '6', '7', '8', '9']);
}

/// Name of a side.
pub open spec fn color_name(c: Color) -> Seq<char> {
    match c {
        Color::White => "White"@,
        Color::Black => "Black"@,
    }
}

impl Color {
    /// The side's name, `White` or `Black`.
    pub fn name(self) -> (r: &'static str)
        ensures
            r@ == color_name(self),
    {
        match self {
            Color::White => "White",
            Color::Black => "Black",
        }
    }
}

// ---------------------------------------------------------------------------
// Squares and cursor movement
// ---------------------------------------------------------------------------

/// Coordinate name of square `idx` (`e4`): file letter and rank digit.
pub open spec fn square_name(idx: usize) -> Seq<char> {
    seq![((0x61 + idx % 8) as u8) as char, ((0x31 + (idx / 8) as u8) as u8) as char]
}

/// Converts board index to coordinate notation (`e4`).
pub fn idx_to_square(idx: usize) -> (r: String)
    requires
        0x31 + (idx / 8) as u8 <= 0xFF,
    ensures
        r@ == square_name(idx),
{
    let file = (idx % 8) as u8;
    let rank = (idx / 8) as u8;
    let file_ch = (0x61u8 + file) as char;
    let rank_ch = (0x31u8 + rank) as char;
    let mut s = String::new();
    push_char(&mut s, file_ch);
    push_char(&mut s, rank_ch);
    assert(s@ =~= square_name(idx));
    s
}

/// Converts file/rank components to board index.
pub fn square_to_idx(file: usize, rank: usize) -> (r: usize)
    requires
        rank * 8 + file <= usize::MAX,
    ensures
        r == rank * 8 + file,
{
    rank * 8 + file
}

/// `x` brought into `0..=7`.
pub open spec fn clamp_coord(x: int) -> int {
    if x < 0 {
        0
    } else if x > 7 {
        7
    } else {
        x
    }
}

fn clamp_to_board(x: i32) -> (r: usize)
    ensures
        r == clamp_coord(x as int),
{
    if x < 0 {
        0
    } else if x > 7 {
        7
    } else {
        x as usize
    }
}

/// Moves selection cursor horizontally with bounds clamping.
pub fn step_file(idx: usize, delta: i32) -> (r: usize)
    requires
        i32::MIN <= idx % 8 + delta <= i32::MAX,
        (idx / 8) * 8 + clamp_coord(idx % 8 + delta) <= usize::MAX,
    ensures
        r == (idx / 8) * 8 + clamp_coord(idx % 8 + delta),
{
    let file = idx % 8;
    let rank = idx / 8;
    let new_file = clamp_to_board(file as i32 + delta);
    square_to_idx(new_file, rank)
}

/// Moves selection cursor vertically with bounds clamping.
pub fn step_rank(idx: usize, delta: i32) -> (r: usize)
    requires
        i32::MIN <= (idx / 8) as i32 + delta <= i32::MAX,
    ensures
        r == clamp_coord((idx / 8) as i32 + delta) * 8 + idx % 8,
{
    let file = idx % 8;
    let rank = idx / 8;
    let new_rank = clamp_to_board(rank as i32 + delta);
    square_to_idx(file, new_rank)
}

// ---------------------------------------------------------------------------
// UCI move text
// ---------------------------------------------------------------------------

/// Letter written for a promotion piece in UCI notation (pawn and king, which
/// are never promotion pieces, are written as a queen).
pub open spec fn promotion_letter(k: PieceKind) -> char {
    match k {
        PieceKind::Queen => 'q',
        PieceKind::Rook => 'r',
        PieceKind::Bishop => 'b',
        PieceKind::Knight => 'n',
        PieceKind::Pawn | PieceKind::King => 'q',
    }
}

/// UCI text of a move: source and target square, then the promotion letter.
pub open spec fn uci_text(mv: Move) -> Seq<char> {
    square_name(mv.from) + square_name(mv.to) + match mv.promotion {
        Some(k) => seq![promotion_letter(k)],
        None => seq![],
    }
}

/// Both squares of `mv` have nameable ranks.
pub open spec fn move_nameable(mv: Move) -> bool {
    0x31 + (mv.from / 8) as u8 <= 0xFF && 0x31 + (mv.to / 8) as u8 <= 0xFF
}

/// UCI text of a move (`e2e4`, `e7e8q`).
pub fn move_to_uci(mv: Move) -> (r: String)
    requires
        move_nameable(mv),
    ensures
        r@ == uci_text(mv),
{
    let mut s = idx_to_square(mv.from);
    let to = idx_to_square(mv.to);
    s.append(to.as_str());
    match mv.promotion {
        Some(promotion) => {
            let c = match promotion {
                PieceKind::Queen => 'q',
                PieceKind::Rook => 'r',
                PieceKind::Bishop => 'b',
                PieceKind::Knight => 'n',
                PieceKind::Pawn | PieceKind::King => 'q',
            };
            push_char(&mut s, c);
        },
        None => {},
    }
    assert(s@ =~= uci_text(mv));
    s
}

/// The history after appending `mv`: space separated after the first move.
pub open spec fn history_after(h: Seq<char>, mv: Move) -> Seq<char> {
    if h.len() == 0 {
        uci_text(mv)
    } else {
        h + seq![' '] + uci_text(mv)
    }
}

/// Appends a single move to a UCI history string used in `position startpos moves ...`.
pub fn append_uci_move(uci_history: &mut String, mv: Move)
    requires
        move_nameable(mv),
    ensures
        final(uci_history)@ == history_after(old(uci_history)@, mv),
{
    if !uci_history.as_str().is_empty() {
        push_char(uci_history, ' ');
    }
    let t = move_to_uci(mv);
    uci_history.append(t.as_str());
}

/// The square named by a UCI square text, if any (see [`square_result`]).
pub open spec fn uci_square(s: Seq<char>) -> Option<usize> {
    match square_result(s) {
        Ok(i) => Some(i),
        Err(_) => None,
    }
}

/// Parses a UCI square (`e4`) into board index.
pub fn parse_uci_square(input: &str) -> (r: Option<usize>)
    ensures
        r == uci_square(input@),
{
    match parse_square(input) {
        Ok(i) => Some(i),
        Err(_) => None,
    }
}

/// The byte ranges `[0..2]` and `[2..4]` of a text of at least four bytes
/// fall on character boundaries.
pub open spec fn uci_splittable(s: Seq<char>) -> bool {
    let b = encode_utf8(s);
    b.len() >= 4 ==> is_char_boundary(b, 2) && is_char_boundary(b.subrange(2, b.len() as int), 2)
}

/// The move written in UCI text `s`, read byte-wise: two squares in the first
/// four bytes, and for a text of exactly five bytes a promotion letter (an
/// unknown letter gives no promotion).
pub open spec fn uci_move(s: Seq<char>) -> Option<Move> {
    let b = encode_utf8(s);
    if b.len() < 4 {
        None
    } else {
        match (uci_square(decode_utf8(b.subrange(0, 2))), uci_square(decode_utf8(b.subrange(2, 4)))) {
            (Some(from), Some(to)) => Some(
                Move {
                    from,
                    to,
                    promotion: if b.len() == 5 {
                        promotion_of(b[4] as char)
                    } else {
                        None
                    },
                },
            ),
            _ => None,
        }
    }
}

/// Parses a UCI move such as `e2e4` or `e7e8q`.
pub fn parse_uci_move(input: &str) -> (r: Option<Move>)
    requires
        uci_splittable(input@),
    ensures
        r == uci_move(input@),
{
    let bytes = input.as_bytes();
    if bytes.len() < 4 {
        return None;
    }
    let (first, rest) = input.split_at(2);
    let (second, _) = rest.split_at(2);
    assert(first@ == decode_utf8(encode_utf8(input@).subrange(0, 2)));
    assert(encode_utf8(rest@).subrange(0, 2) =~= encode_utf8(input@).subrange(2, 4));
    assert(second@ == decode_utf8(encode_utf8(input@).subrange(2, 4)));
    let from = match parse_uci_square(first) {
        Some(i) => i,
        None => return None,
    };
    let to = match parse_uci_square(second) {
        Some(i) => i,
        None => return None,
    };
    let promotion = if bytes.len() == 5 {
        let c = bytes[4];
        if c == 0x71u8 || c == 0x51u8 {
            Some(PieceKind::Queen)
        } else if c == 0x72u8 || c == 0x52u8 {
            Some(PieceKind::Rook)
        } else if c == 0x62u8 || c == 0x42u8 {
            Some(PieceKind::Bishop)
        } else if c == 0x6Eu8 || c == 0x4Eu8 {
            Some(PieceKind::Knight)
        } else {
            None
        }
    } else {
        None
    };
    Some(Move { from, to, promotion })
}

/// A move whose squares are on the board and whose promotion piece, if
/// any, is one a pawn can become.
pub open spec fn board_move(mv: Move) -> bool {
    &&& mv.from < 64
    &&& mv.to < 64
    &&& match mv.promotion {
        Some(k) => k == PieceKind::Queen || k == PieceKind::Rook || k == PieceKind::Bishop || k
            == PieceKind::Knight,
        None => true,
    }
}

proof fn lemma_square_name_ascii(idx: usize)
    requires
        idx < 64,
    ensures
        square_name(idx).len() == 2,
        square_name(idx)[0] as u32 == 0x61 + idx % 8,
        square_name(idx)[1] as u32 == 0x31 + idx / 8,
        vstd::utf8::is_ascii_chars(square_name(idx)),
{
    let f = (0x61 + idx % 8) as u8;
    let r = (0x31 + (idx / 8) as u8) as u8;
    assert(f == 0x61 + idx % 8);
    assert(r == 0x31 + idx / 8);
    assert((f as char) as u32 == f as u32);
    assert((r as char) as u32 == r as u32);
}

proof fn lemma_square_round_trip(idx: usize)
    requires
        idx < 64,
    ensures
        uci_square(square_name(idx)) == Some(idx),
{
    broadcast use vstd::utf8::is_ascii_chars_encode_utf8;

    let s = square_name(idx);
    lemma_square_name_ascii(idx);
    let b = encode_utf8(s);
    assert(b.len() == 2);
    assert(b[0] == s[0] as u8);
    assert(b[1] == s[1] as u8);
    assert(b[0] == 0x61 + idx % 8);
    assert(b[1] == 0x31 + idx / 8);
}

/// Reading back the UCI text of a move gives the move: parsing undoes
/// [`move_to_uci`], and the text can always be split where parsing splits it.
pub proof fn lemma_uci_round_trip(mv: Move)
    requires
        board_move(mv),
    ensures
        uci_splittable(uci_text(mv)),
        uci_move(uci_text(mv)) == Some(mv),
{
    broadcast use vstd::utf8::is_ascii_chars_encode_utf8;

    let t = uci_text(mv);
    let a = square_name(mv.from);
    let c = square_name(mv.to);
    lemma_square_name_ascii(mv.from);
    lemma_square_name_ascii(mv.to);
    lemma_square_round_trip(mv.from);
    lemma_square_round_trip(mv.to);
    let tail: Seq<char> = match mv.promotion {
        Some(k) => seq![promotion_letter(k)],
        None => seq![],
    };
    assert(t == a + c + tail);
    assert(vstd::utf8::is_ascii_chars(tail));
    assert(vstd::utf8::is_ascii_chars(t)) by {
        assert forall|i: int| 0 <= i < t.len() implies '\0' <= #[trigger] t[i] <= '\u{7f}' by {
            if i < 2 {
                assert(t[i] == a[i]);
            } else if i < 4 {
                assert(t[i] == c[i - 2]);
            } else {
                assert(t[i] == tail[i - 4]);
            }
        }
    }
    let b = encode_utf8(t);
    assert(b.len() == t.len());
    assert(vstd::utf8::is_ascii_chars(a));
    assert(vstd::utf8::is_ascii_chars(c));
    assert(b.subrange(0, 2) =~= encode_utf8(a)) by {
        assert forall|i: int| 0 <= i < 2 implies b.subrange(0, 2)[i] == encode_utf8(a)[i] by {
            assert(t[i] == a[i]);
        }
    }
    assert(b.subrange(2, 4) =~= encode_utf8(c)) by {
        assert forall|i: int| 0 <= i < 2 implies b.subrange(2, 4)[i] == encode_utf8(c)[i] by {
            assert(t[i + 2] == c[i]);
        }
    }
    assert(decode_utf8(encode_utf8(a)) == a);
    assert(decode_utf8(encode_utf8(c)) == c);
    if let Some(k) = mv.promotion {
        assert(b[4] == t[4] as u8);
        assert(t[4] == promotion_letter(k));
        assert(promotion_of(b[4] as char) == Some(k));
    }
    broadcast use vstd::utf8::group_utf8_lib;

    assert(b[2] == t[2] as u8);
    let x2: u8 = b[2];
    assert(!vstd::utf8::is_continuation_byte(x2)) by (bit_vector)
        requires
            x2 < 0x80,
    ;
    assert(is_char_boundary(b, 2));
    let rest = t.skip(2);
    assert(vstd::utf8::is_ascii_chars(rest));
    let u = b.subrange(2, b.len() as int);
    assert(u =~= encode_utf8(rest)) by {
        assert forall|i: int| 0 <= i < u.len() implies u[i] == encode_utf8(rest)[i] by {
            assert(rest[i] == t[i + 2]);
            assert(b[i + 2] == t[i + 2] as u8);
        }
    }
    if u.len() > 2 {
        assert(u[2] == t[4] as u8);
        let x4: u8 = u[2];
        assert(!vstd::utf8::is_continuation_byte(x4)) by (bit_vector)
            requires
                x4 < 0x80,
        ;
    }
    assert(is_char_boundary(u, 2));
}

/// The coordinate-notation reader of the game reads the UCI text of a move
/// back as that move.
pub proof fn lemma_coordinate_round_trip(mv: Move)
    requires
        board_move(mv),
    ensures
        move_text_splittable(uci_text(mv)),
        move_request(uci_text(mv)) == Ok::<Move, Seq<char>>(mv),
{
    lemma_uci_round_trip(mv);
    let t = uci_text(mv);
    lemma_square_name_ascii(mv.from);
    lemma_square_name_ascii(mv.to);
    assert(t.len() == 4 || t.len() == 5);
    broadcast use vstd::utf8::is_ascii_chars_encode_utf8;
    assert(vstd::utf8::is_ascii_chars(t)) by {
        let tail: Seq<char> = match mv.promotion {
            Some(k) => seq![promotion_letter(k)],
            None => seq![],
        };
        assert(t == square_name(mv.from) + square_name(mv.to) + tail);
        assert forall|i: int| 0 <= i < t.len() implies '\0' <= #[trigger] t[i] <= '\u{7f}' by {
            if i < 2 {
                assert(t[i] == square_name(mv.from)[i]);
            } else if i < 4 {
                assert(t[i] == square_name(mv.to)[i - 2]);
            } else {
                assert(t[i] == tail[i - 4]);
            }
        }
    }
    assert(encode_utf8(t).len() == t.len());
}

// ---------------------------------------------------------------------------
// Status lines
// ---------------------------------------------------------------------------

/// Text announcing a finished game (empty while it is ongoing).
pub open spec fn result_line(status: GameStatus) -> Seq<char> {
    match status {
        GameStatus::Checkmate { winner } => "Checkmate. "@ + color_name(winner) + " wins."@,
        GameStatus::Stalemate => "Draw by stalemate."@,
        GameStatus::DrawFiftyMove => "Draw by fifty-move rule."@,
        GameStatus::DrawThreefoldRepetition => "Draw by threefold repetition."@,
        GameStatus::DrawInsufficientMaterial => "Draw by insufficient material."@,
        GameStatus::Ongoing => seq![],
    }
}

/// Converts game status into user-facing result text.
pub fn game_result_line(status: &GameStatus) -> (r: String)
    ensures
        r@ == result_line(*status),
{
    match status {
        GameStatus::Checkmate { winner } => {
            let mut s = text("Checkmate. ");
            s.append(winner.name());
            s.append(" wins.");
            s
        },
        GameStatus::Stalemate => text("Draw by stalemate."),
        GameStatus::DrawFiftyMove => text("Draw by fifty-move rule."),
        GameStatus::DrawThreefoldRepetition => text("Draw by threefold repetition."),
        GameStatus::DrawInsufficientMaterial => text("Draw by insufficient material."),
        GameStatus::Ongoing => String::new(),
    }
}

/// Text of an engine configuration.
pub open spec fn config_summary(c: EngineConfig) -> Seq<char> {
    "Str "@ + decimal(c.strength as nat) + " | Depth "@ + decimal(c.min_depth as nat) + "-"@
        + decimal(c.max_depth as nat) + " | Think "@ + decimal(c.min_think_time as nat) + "-"@
        + decimal(c.max_think_time as nat) + " ms"@
}

/// Human-readable built-in engine configuration summary.
pub fn engine_config_summary(config: EngineConfig) -> (r: String)
    ensures
        r@ == config_summary(config),
{
    let mut s = text("Str ");
    push_decimal(&mut s, config.strength as u64);
    s.append(" | Depth ");
    push_decimal(&mut s, config.min_depth as u64);
    s.append("-");
    push_decimal(&mut s, config.max_depth as u64);
    s.append(" | Think ");
    push_decimal(&mut s, config.min_think_time);
    s.append("-");
    push_decimal(&mut s, config.max_think_time);
    s.append(" ms");
    s
}

// ---------------------------------------------------------------------------
// Material
// ---------------------------------------------------------------------------

/// Position of a piece kind in per-kind tables: pawn, knight, bishop, rook, queen, king.
pub open spec fn kind_index(k: PieceKind) -> int {
    match k {
        PieceKind::Pawn => 0,
        PieceKind::Knight => 1,
        PieceKind::Bishop => 2,
        PieceKind::Rook => 3,
        PieceKind::Queen => 4,
        PieceKind::King => 5,
    }
}

/// See [`kind_index`].
pub fn piece_kind_idx(kind: PieceKind) -> (r: usize)
    ensures
        r == kind_index(kind),
{
    match kind {
        PieceKind::Pawn => 0,
        PieceKind::Knight => 1,
        PieceKind::Bishop => 2,
        PieceKind::Rook => 3,
        PieceKind::Queen => 4,
        PieceKind::King => 5,
    }
}

/// Value of a piece kind in pawns.
pub open spec fn pawn_value(k: PieceKind) -> int {
    match k {
        PieceKind::Pawn => 1,
        PieceKind::Knight => 3,
        PieceKind::Bishop => 3,
        PieceKind::Rook => 5,
        PieceKind::Queen => 9,
        PieceKind::King => 0,
    }
}

/// See [`pawn_value`].
pub fn material_value_pawns(kind: PieceKind) -> (r: i32)
    ensures
        r == pawn_value(kind),
{
    match kind {
        PieceKind::Pawn => 1,
        PieceKind::Knight => 3,
        PieceKind::Bishop => 3,
        PieceKind::Rook => 5,
        PieceKind::Queen => 9,
        PieceKind::King => 0,
    }
}

/// Number of pieces of each kind in the starting position (per side).
pub open spec fn initial_count(k: PieceKind) -> int {
    match k {
        PieceKind::Pawn => 8,
        PieceKind::Knight => 2,
        PieceKind::Bishop => 2,
        PieceKind::Rook => 2,
        PieceKind::Queen => 1,
        PieceKind::King => 1,
    }
}

/// Initial per-kind piece counts, in [`kind_index`] order.
pub fn initial_piece_counts() -> (r: [u8; 6])
    ensures
        forall|k: PieceKind| r@[kind_index(k)] == initial_count(k),
{
    [8, 2, 2, 2, 1, 1]
}

/// Number of squares below `n` holding a piece of `color` and `kind`.
pub open spec fn count_upto(b: Seq<Option<Piece>>, color: Color, kind: PieceKind, n: int) -> nat
    decreases n,
{
    if n <= 0 {
        0
    } else {
        count_upto(b, color, kind, n - 1) + if b[n - 1] == Some(Piece { color, kind }) {
            1nat
        } else {
            0nat
        }
    }
}

/// Number of pieces of `color` and `kind` on the board.
pub open spec fn piece_count(b: Seq<Option<Piece>>, color: Color, kind: PieceKind) -> nat {
    count_upto(b, color, kind, 64)
}

pub proof fn lemma_count_upto_bound(b: Seq<Option<Piece>>, color: Color, kind: PieceKind, n: int)
    requires
        0 <= n,
    ensures
        count_upto(b, color, kind, n) <= n,
    decreases n,
{
    if n > 0 {
        lemma_count_upto_bound(b, color, kind, n - 1);
    }
}

/// Per-kind piece counts of both sides.
pub struct PieceCounts {
    pub white: [u8; 6],
    pub black: [u8; 6],
}

/// Counts the pieces of each kind and side.
pub fn board_piece_counts(game: &Chess) -> (r: PieceCounts)
    ensures
        forall|k: PieceKind| #[trigger] r.white@[kind_index(k)] == piece_count(game@.board, Color::White, k),
        forall|k: PieceKind| #[trigger] r.black@[kind_index(k)] == piece_count(game@.board, Color::Black, k),
{
    let ghost b = game@.board;
    proof {
        game.lemma_board_len();
    }
    let mut white = [0u8; 6];
    let mut black = [0u8; 6];
    let mut sq: usize = 0;
    while sq < 64
        invariant
            0 <= sq <= 64,
            b == game@.board,
            b.len() == 64,
            forall|k: PieceKind| #[trigger] white@[kind_index(k)] == count_upto(b, Color::White, k, sq as int),
            forall|k: PieceKind| #[trigger] black@[kind_index(k)] == count_upto(b, Color::Black, k, sq as int),
        decreases 64 - sq,
    {
        proof {
            assert forall|k: PieceKind| #![auto] count_upto(b, Color::White, k, sq as int) <= sq
                && count_upto(b, Color::Black, k, sq as int) <= sq by {
                lemma_count_upto_bound(b, Color::White, k, sq as int);
                lemma_count_upto_bound(b, Color::Black, k, sq as int);
            }
        }
        match game.piece_at(sq) {
            Some(piece) => {
                let idx = piece_kind_idx(piece.kind);
                match piece.color {
                    Color::White => {
                        assert(white@[kind_index(piece.kind)] <= sq);
                        white[idx] = white[idx] + 1;
                    },
                    Color::Black => {
                        assert(black@[kind_index(piece.kind)] <= sq);
                        black[idx] = black[idx] + 1;
                    },
                }
            },
            None => {},
        }
        proof {
            assert forall|k: PieceKind| #[trigger] white@[kind_index(k)] == count_upto(
                b,
                Color::White,
                k,
                sq + 1,
            ) by {
                assert(kind_index(k) == kind_index(piece_kind_of(k)));
            }
            assert forall|k: PieceKind| #[trigger] black@[kind_index(k)] == count_upto(
                b,
                Color::Black,
                k,
                sq + 1,
            ) by {
                assert(kind_index(k) == kind_index(piece_kind_of(k)));
            }
        }
        sq += 1;
    }
    PieceCounts { white, black }
}

spec fn piece_kind_of(k: PieceKind) -> PieceKind {
    k
}

/// Material of `color` in pawns, over pawns, knights, bishops, rooks and queens.
pub open spec fn material_pawns(b: Seq<Option<Piece>>, color: Color) -> int {
    (piece_count(b, color, PieceKind::Pawn) * 1 + piece_count(b, color, PieceKind::Knight) * 3
        + piece_count(b, color, PieceKind::Bishop) * 3 + piece_count(b, color, PieceKind::Rook) * 5
        + piece_count(b, color, PieceKind::Queen) * 9) as int
}

/// White's material lead in pawns (negative when Black leads).
pub fn material_balance_pawns(game: &Chess) -> (r: i32)
    ensures
        r == material_pawns(game@.board, Color::White) - material_pawns(game@.board, Color::Black),
{
    let ghost b = game@.board;
    let counts = board_piece_counts(game);
    let kinds = [PieceKind::Pawn, PieceKind::Knight, PieceKind::Bishop, PieceKind::Rook, PieceKind::Queen];
    proof {
        assert forall|k: PieceKind| #![auto] piece_count(b, Color::White, k) <= 64 && piece_count(
            b,
            Color::Black,
            k,
        ) <= 64 by {
            lemma_count_upto_bound(b, Color::White, k, 64);
            lemma_count_upto_bound(b, Color::Black, k, 64);
        }
    }
    let mut white: i32 = 0;
    let mut black: i32 = 0;
    let mut i: usize = 0;
    while i < 5
        invariant
            0 <= i <= 5,
            b == game@.board,
            kinds@ == seq![PieceKind::Pawn, PieceKind::Knight, PieceKind::Bishop, PieceKind::Rook, PieceKind::Queen],
            forall|k: PieceKind| #[trigger] counts.white@[kind_index(k)] == piece_count(b, Color::White, k),
            forall|k: PieceKind| #[trigger] counts.black@[kind_index(k)] == piece_count(b, Color::Black, k),
            forall|k: PieceKind| #![auto] piece_count(b, Color::White, k) <= 64 && piece_count(b, Color::Black, k) <= 64,
            white == partial_material(b, Color::White, i as int),
            black == partial_material(b, Color::Black, i as int),
            0 <= white <= 576 * i,
            0 <= black <= 576 * i,
        decreases 5 - i,
    {
        let kind = kinds[i];
        let idx = piece_kind_idx(kind);
        let value = material_value_pawns(kind);
        assert(counts.white@[kind_index(kind)] <= 64);
        assert(counts.black@[kind_index(kind)] <= 64);
        let cw = counts.white[idx] as i32;
        let cb = counts.black[idx] as i32;
        assert(0 <= cw * value <= 576 && 0 <= cb * value <= 576) by (nonlinear_arith)
            requires
                0 <= cw <= 64,
                0 <= cb <= 64,
                0 <= value <= 9,
        ;
        white += cw * value;
        black += cb * value;
        i += 1;
    }
    assert(partial_material(b, Color::White, 5) == material_pawns(b, Color::White)) by {
        reveal_with_fuel(partial_material, 6);
    }
    assert(partial_material(b, Color::Black, 5) == material_pawns(b, Color::Black)) by {
        reveal_with_fuel(partial_material, 6);
    }
    white - black
}

/// Material of `color` over the first `n` kinds of pawn, knight, bishop, rook, queen.
pub open spec fn partial_material(b: Seq<Option<Piece>>, color: Color, n: int) -> int
    decreases n,
{
    let kinds = seq![PieceKind::Pawn, PieceKind::Knight, PieceKind::Bishop, PieceKind::Rook, PieceKind::Queen];
    if n <= 0 {
        0
    } else {
        partial_material(b, color, n - 1) + piece_count(b, color, kinds[n - 1]) * pawn_value(kinds[n - 1])
    }
}

/// Text of a material balance in pawns.
pub open spec fn balance_text(balance: int) -> Seq<char> {
    if balance > 0 {
        "White +"@ + decimal(balance as nat)
    } else if balance < 0 {
        "Black +"@ + decimal((-balance) as nat)
    } else {
        "Equal"@
    }
}

/// Formats material balance in pawn units.
pub fn material_balance_line(balance: i32) -> (r: String)
    requires
        balance > i32::MIN,
    ensures
        r@ == balance_text(balance as int),
{
    if balance > 0 {
        let mut s = text("White +");
        push_decimal(&mut s, balance as u64);
        s
    } else if balance < 0 {
        let mut s = text("Black +");
        push_decimal(&mut s, (-balance) as u64);
        s
    } else {
        text("Equal")
    }
}

// ---------------------------------------------------------------------------
// Captured pieces
// ---------------------------------------------------------------------------

/// Glyph of a piece of `color` and `kind`.
pub fn piece_symbol(color: Color, kind: PieceKind) -> (r: char)
    ensures
        r == glyph(Piece { color, kind }),
{
    piece_to_symbol(Piece { color, kind })
}

/// Kinds in the order their captured pieces are listed.
pub open spec fn capture_kinds() -> Seq<PieceKind> {
    seq![PieceKind::Queen, PieceKind::Rook, PieceKind::Bishop, PieceKind::Knight, PieceKind::Pawn]
}

/// How many pieces of `color` and `kind` are missing from the starting set.
pub open spec fn missing_count(b: Seq<Option<Piece>>, color: Color, k: PieceKind) -> int {
    if initial_count(k) > piece_count(b, color, k) {
        initial_count(k) - piece_count(b, color, k)
    } else {
        0
    }
}

/// `n` copies of the symbol `c`, each followed by a space.
pub open spec fn symbol_run(c: char, n: int) -> Seq<char>
    decreases n,
{
    if n <= 0 {
        seq![]
    } else {
        symbol_run(c, n - 1) + seq![c, ' ']
    }
}

/// The missing pieces of `lost`, for the first `n` kinds of [`capture_kinds`].
pub open spec fn captured_upto(b: Seq<Option<Piece>>, lost: Color, n: int) -> Seq<char>
    decreases n,
{
    if n <= 0 {
        seq![]
    } else {
        let k = capture_kinds()[n - 1];
        captured_upto(b, lost, n - 1) + symbol_run(glyph(Piece { color: lost, kind: k }), missing_count(b, lost, k))
    }
}

/// The captured pieces of side `lost` as shown: their symbols separated by
/// spaces, or `-` when none is missing.
pub open spec fn captured_text(b: Seq<Option<Piece>>, lost: Color) -> Seq<char> {
    let raw = captured_upto(b, lost, 5);
    if raw.len() == 0 {
        "-"@
    } else {
        trim_end_ws(raw)
    }
}

/// Captured pieces shown for each side.
pub struct CapturedDisplay {
    /// Black pieces captured by White.
    pub white_captured_display: String,
    /// White pieces captured by Black.
    pub black_captured_display: String,
}

fn push_symbols(out: &mut String, c: char, n: u8)
    ensures
        final(out)@ == old(out)@ + symbol_run(c, n as int),
{
    let ghost start = out@;
    let mut j: u8 = 0;
    while j < n
        invariant
            0 <= j <= n,
            out@ == start + symbol_run(c, j as int),
        decreases n - j,
    {
        push_char(out, c);
        push_char(out, ' ');
        j += 1;
        assert(out@ =~= start + symbol_run(c, j as int));
    }
}

/// Computes captured-piece display strings for both sides.
pub fn captured_pieces_display(game: &Chess) -> (r: CapturedDisplay)
    ensures
        r.white_captured_display@ == captured_text(game@.board, Color::Black),
        r.black_captured_display@ == captured_text(game@.board, Color::White),
{
    let ghost b = game@.board;
    let board_counts = board_piece_counts(game);
    let initial = initial_piece_counts();
    let kinds = [PieceKind::Queen, PieceKind::Rook, PieceKind::Bishop, PieceKind::Knight, PieceKind::Pawn];
    let mut white_captured = String::new();
    let mut black_captured = String::new();
    let mut i: usize = 0;
    while i < 5
        invariant
            0 <= i <= 5,
            b == game@.board,
            kinds@ == capture_kinds(),
            forall|k: PieceKind| #[trigger] board_counts.white@[kind_index(k)] == piece_count(b, Color::White, k),
            forall|k: PieceKind| #[trigger] board_counts.black@[kind_index(k)] == piece_count(b, Color::Black, k),
            forall|k: PieceKind| #[trigger] initial@[kind_index(k)] == initial_count(k),
            white_captured@ == captured_upto(b, Color::Black, i as int),
            black_captured@ == captured_upto(b, Color::White, i as int),
        decreases 5 - i,
    {
        let kind = kinds[i];
        let idx = piece_kind_idx(kind);
        let black_missing = initial[idx].saturating_sub(board_counts.black[idx]);
        let white_missing = initial[idx].saturating_sub(board_counts.white[idx]);
        push_symbols(&mut white_captured, piece_symbol(Color::Black, kind), black_missing);
        push_symbols(&mut black_captured, piece_symbol(Color::White, kind), white_missing);
        i += 1;
    }
    let white_captured_display = if white_captured.as_str().is_empty() {
        text("-")
    } else {
        trim_end_text(white_captured.as_str())
    };
    let black_captured_display = if black_captured.as_str().is_empty() {
        text("-")
    } else {
        trim_end_text(black_captured.as_str())
    };
    CapturedDisplay { white_captured_display, black_captured_display }
}

// ---------------------------------------------------------------------------
// Play modes
// ---------------------------------------------------------------------------

/// Runtime config for an external Stockfish process.
pub struct StockfishConfig {
    pub path: String,
    pub move_time_ms: u64,
    pub skill_level: u8,
}

impl Clone for StockfishConfig {
    fn clone(&self) -> (r: Self)
        ensures
            r.path@ == self.path@,
            r.move_time_ms == self.move_time_ms,
            r.skill_level == self.skill_level,
    {
        StockfishConfig {
            path: self.path.clone(),
            move_time_ms: self.move_time_ms,
            skill_level: self.skill_level,
        }
    }
}

/// Supported play modes.
pub enum GameMode {
    HumanVsHuman,
    HumanVsEngine { human_color: Color, engine_config: EngineConfig },
    HumanVsStockfish { human_color: Color, stockfish_config: StockfishConfig },
}

impl Clone for GameMode {
    fn clone(&self) -> (r: Self)
        ensures
            match (*self, r) {
                (GameMode::HumanVsHuman, GameMode::HumanVsHuman) => true,
                (
                    GameMode::HumanVsEngine { human_color: a, engine_config: c },
                    GameMode::HumanVsEngine { human_color: b, engine_config: d },
                ) => a == b && c == d,
                (
                    GameMode::HumanVsStockfish { human_color: a, stockfish_config: c },
                    GameMode::HumanVsStockfish { human_color: b, stockfish_config: d },
                ) => a == b && c.path@ == d.path@ && c.move_time_ms == d.move_time_ms && c.skill_level
                    == d.skill_level,
                _ => false,
            },
    {
        match self {
            GameMode::HumanVsHuman => GameMode::HumanVsHuman,
            GameMode::HumanVsEngine { human_color, engine_config } => GameMode::HumanVsEngine {
                human_color: *human_color,
                engine_config: *engine_config,
            },
            GameMode::HumanVsStockfish { human_color, stockfish_config } => GameMode::HumanVsStockfish {
                human_color: *human_color,
                stockfish_config: stockfish_config.clone(),
            },
        }
    }
}

/// Label of a play mode.
pub open spec fn mode_label(m: GameMode) -> Seq<char> {
    match m {
        GameMode::HumanVsHuman => "Human vs Human"@,
        GameMode::HumanVsEngine { .. } => "Human vs Engine"@,
        GameMode::HumanVsStockfish { .. } => "Human vs Stockfish"@,
    }
}

/// The side played by the computer in a one-player mode.
pub open spec fn bot_color(m: GameMode) -> Option<Color> {
    match m {
        GameMode::HumanVsHuman => None,
        GameMode::HumanVsEngine { human_color, .. } => Some(opposite(human_color)),
        GameMode::HumanVsStockfish { human_color, .. } => Some(opposite(human_color)),
    }
}

impl GameMode {
    /// User-facing mode label shown in the status header.
    pub fn label(&self) -> (r: &'static str)
        ensures
            r@ == mode_label(*self),
    {
        match self {
            GameMode::HumanVsHuman => "Human vs Human",
            GameMode::HumanVsEngine { .. } => "Human vs Engine",
            GameMode::HumanVsStockfish { .. } => "Human vs Stockfish",
        }
    }

    /// Returns bot color for one-player modes.
    pub fn engine_color(&self) -> (r: Option<Color>)
        ensures
            r == bot_color(*self),
    {
        match self {
            GameMode::HumanVsHuman => None,
            GameMode::HumanVsEngine { human_color, .. } => Some(human_color.opposite()),
            GameMode::HumanVsStockfish { human_color, .. } => Some(human_color.opposite()),
        }
    }

    /// Returns built-in engine config when mode uses the internal engine.
    pub fn engine_config(&self) -> (r: Option<EngineConfig>)
        ensures
            match *self {
                GameMode::HumanVsEngine { engine_config, .. } => r == Some(engine_config),
                _ => r is None,
            },
    {
        match self {
            GameMode::HumanVsHuman => None,
            GameMode::HumanVsEngine { engine_config, .. } => Some(*engine_config),
            GameMode::HumanVsStockfish { .. } => None,
        }
    }

    /// Returns Stockfish config when mode uses the external UCI engine.
    pub fn stockfish_config(&self) -> (r: Option<StockfishConfig>)
        ensures
            match *self {
                GameMode::HumanVsStockfish { stockfish_config, .. } => r matches Some(c) && c.path@
                    == stockfish_config.path@ && c.move_time_ms == stockfish_config.move_time_ms
                    && c.skill_level == stockfish_config.skill_level,
                _ => r is None,
            },
    {
        match self {
            GameMode::HumanVsHuman | GameMode::HumanVsEngine { .. } => None,
            GameMode::HumanVsStockfish { stockfish_config, .. } => Some(stockfish_config.clone()),
        }
    }
}

/// Header line: side to move and play mode.
pub open spec fn header_text(turn: Color, m: GameMode) -> Seq<char> {
    "Turn: "@ + color_name(turn) + " | Mode: "@ + mode_label(m)
}

/// Returns the current turn/mode header line.
pub fn position_header(game: &Chess, mode: &GameMode) -> (r: String)
    ensures
        r@ == header_text(game@.turn, *mode),
{
    let mut s = text("Turn: ");
    s.append(game.current_turn().name());
    s.append(" | Mode: ");
    s.append(mode.label());
    s
}

/// Recomputes cached position analytics after a successful move.
pub fn refresh_cached_state(
    game: &Chess,
    eval_engine: &Engine,
    game_status: &mut GameStatus,
    eval_cp: &mut i32,
    captures: &mut CapturedDisplay,
    material_balance: &mut i32,
    checked_kings: &mut Vec<usize>,
)
    ensures
        *final(game_status) == status_of(game@),
        *final(eval_cp) == evaluation(game@.board),
        final(captures).white_captured_display@ == captured_text(game@.board, Color::Black),
        final(captures).black_captured_display@ == captured_text(game@.board, Color::White),
        *final(material_balance) == material_pawns(game@.board, Color::White) - material_pawns(
            game@.board,
            Color::Black,
        ),
        final(checked_kings)@ == crate::game::checked_kings(game@.board),
{
    *game_status = game.status();
    *eval_cp = eval_engine.evaluate_position(game);
    *captures = captured_pieces_display(game);
    *material_balance = material_balance_pawns(game);
    *checked_kings = game.checked_king_squares();
}

// ---------------------------------------------------------------------------
// Keyboard interaction
// ---------------------------------------------------------------------------

/// A key press of the board interface.
#[derive(Clone, Copy, Debug, PartialEq, Eq, Structural)]
pub enum Key {
    Left,
    Right,
    Up,
    Down,
    Escape,
    Enter,
    /// `q` or `Q`.
    Quit,
    /// Any other key.
    Other,
}

/// What a key press led to.
#[derive(Clone, Copy, Debug, PartialEq, Eq, Structural)]
pub enum KeyOutcome {
    Continue,
    Quit,
    /// The move was played.
    Played(Move),
}

/// Cursor, selection and status line of the board interface.
pub struct Panel {
    pub cursor_sq: usize,
    pub selected_sq: Option<usize>,
    pub status_line: String,
}

/// Abstract value of a [`Panel`].
pub struct PanelView {
    pub cursor: usize,
    pub selected: Option<usize>,
    pub status: Seq<char>,
}

impl View for Panel {
    type V = PanelView;

    open spec fn view(&self) -> PanelView {
        PanelView { cursor: self.cursor_sq, selected: self.selected_sq, status: self.status_line@ }
    }
}

/// Square reached from `idx` by moving `delta` files, stopping at the edge.
pub open spec fn file_step(idx: usize, delta: int) -> usize {
    ((idx / 8) * 8 + clamp_coord(idx % 8 + delta)) as usize
}

/// Square reached from `idx` by moving `delta` ranks, stopping at the edge.
pub open spec fn rank_step(idx: usize, delta: int) -> usize {
    (clamp_coord(idx / 8 + delta) * 8 + idx % 8) as usize
}

/// Selection cleared.
pub open spec fn cleared(p: PanelView) -> PanelView {
    PanelView { selected: None, status: "Selection cleared."@, ..p }
}

/// The piece under the cursor selected.
pub open spec fn select_cursor(p: PanelView) -> PanelView {
    PanelView { selected: Some(p.cursor), status: "Selected "@ + square_name(p.cursor), ..p }
}

/// Enter with a square selected: clear the selection on the same square,
/// switch to another piece of the side to move, or try to move there.
pub open spec fn enter_with_selection(v: ChessView, p: PanelView, from: usize) -> (KeyOutcome, ChessView, PanelView) {
    let target = v.board[p.cursor as int];
    if p.cursor == from {
        (KeyOutcome::Continue, v, cleared(p))
    } else if target matches Some(pc) && pc.color == v.turn {
        (KeyOutcome::Continue, v, select_cursor(p))
    } else {
        let w = Move { from, to: p.cursor, promotion: None };
        match request_outcome(v, w) {
            (Ok(()), after) => (
                KeyOutcome::Played(w),
                after,
                PanelView {
                    selected: None,
                    status: "Played "@ + square_name(from) + " -> "@ + square_name(p.cursor),
                    ..p
                },
            ),
            (Err(e), _) => (KeyOutcome::Continue, v, PanelView { status: "Invalid move: "@ + e, ..p }),
        }
    }
}

/// Enter without a selection: select a piece of the side to move under the cursor.
pub open spec fn enter_without_selection(v: ChessView, p: PanelView) -> (KeyOutcome, ChessView, PanelView) {
    match v.board[p.cursor as int] {
        Some(pc) => if pc.color == v.turn {
            (KeyOutcome::Continue, v, select_cursor(p))
        } else {
            (
                KeyOutcome::Continue,
                v,
                PanelView {
                    status: "That piece belongs to the other side. Select one of your own."@,
                    ..p
                },
            )
        },
        None => (KeyOutcome::Continue, v, PanelView { status: "No piece on that square to select."@, ..p }),
    }
}

/// The effect of `key` on game `v` and panel `p`. Once the game is over only
/// quitting (`q`, Escape or Enter) does anything; otherwise the arrows move
/// the cursor, Escape clears the selection, `q` quits and Enter selects or moves.
pub open spec fn key_result(v: ChessView, p: PanelView, over: bool, key: Key) -> (KeyOutcome, ChessView, PanelView) {
    if over {
        match key {
            Key::Quit | Key::Escape | Key::Enter => (KeyOutcome::Quit, v, p),
            _ => (KeyOutcome::Continue, v, p),
        }
    } else {
        match key {
            Key::Left => (KeyOutcome::Continue, v, PanelView { cursor: file_step(p.cursor, -1), ..p }),
            Key::Right => (KeyOutcome::Continue, v, PanelView { cursor: file_step(p.cursor, 1), ..p }),
            Key::Up => (KeyOutcome::Continue, v, PanelView { cursor: rank_step(p.cursor, 1), ..p }),
            Key::Down => (KeyOutcome::Continue, v, PanelView { cursor: rank_step(p.cursor, -1), ..p }),
            Key::Escape => (KeyOutcome::Continue, v, cleared(p)),
            Key::Quit => (KeyOutcome::Quit, v, p),
            Key::Other => (KeyOutcome::Continue, v, p),
            Key::Enter => match p.selected {
                Some(from) => enter_with_selection(v, p, from),
                None => enter_without_selection(v, p),
            },
        }
    }
}

fn select_square(panel: &mut Panel)
    requires
        old(panel).cursor_sq < 64,
    ensures
        final(panel)@ == select_cursor(old(panel)@),
{
    panel.selected_sq = Some(panel.cursor_sq);
    let mut s = text("Selected ");
    let name = idx_to_square(panel.cursor_sq);
    s.append(name.as_str());
    panel.status_line = s;
}

/// Applies a key press to the game and the panel (see [`key_result`]);
/// `over` tells whether the game has ended.
pub fn handle_key(game: &mut Chess, panel: &mut Panel, over: bool, key: Key) -> (r: KeyOutcome)
    requires
        old(panel).cursor_sq < 64,
        clocks_ok(old(game)@),
    ensures
        (r, final(game)@, final(panel)@) == key_result(old(game)@, old(panel)@, over, key),
        final(panel).cursor_sq < 64,
{
    if over {
        return match key {
            Key::Quit | Key::Escape | Key::Enter => KeyOutcome::Quit,
            _ => KeyOutcome::Continue,
        };
    }
    match key {
        Key::Left => {
            panel.cursor_sq = step_file(panel.cursor_sq, -1);
            KeyOutcome::Continue
        },
        Key::Right => {
            panel.cursor_sq = step_file(panel.cursor_sq, 1);
            KeyOutcome::Continue
        },
        Key::Up => {
            panel.cursor_sq = step_rank(panel.cursor_sq, 1);
            KeyOutcome::Continue
        },
        Key::Down => {
            panel.cursor_sq = step_rank(panel.cursor_sq, -1);
            KeyOutcome::Continue
        },
        Key::Escape => {
            panel.selected_sq = None;
            panel.status_line = text("Selection cleared.");
            KeyOutcome::Continue
        },
        Key::Quit => KeyOutcome::Quit,
        Key::Other => KeyOutcome::Continue,
        Key::Enter => {
            let cursor = panel.cursor_sq;
            match panel.selected_sq {
                Some(from) => {
                    if cursor == from {
                        panel.selected_sq = None;
                        panel.status_line = text("Selection cleared.");
                        return KeyOutcome::Continue;
                    }
                    let own = match game.piece_at(cursor) {
                        Some(piece) => piece.color == game.current_turn(),
                        None => false,
                    };
                    if own {
                        select_square(panel);
                        return KeyOutcome::Continue;
                    }
                    let wanted = Move { from, to: cursor, promotion: None };
                    let ghost v = game@;
                    proof {
                        game.lemma_legal_moves_on_board();
                        game.lemma_board_len();
                    }
                    match game.try_make_move(wanted) {
                        Ok(()) => {
                            proof {
                                crate::game::laws::lemma_accepted_move(v, wanted);
                                let lm = chosen_move(legal_moves(v), wanted)->0;
                                let j = choose|j: int| 0 <= j < legal_moves(v).len() && legal_moves(v)[j] == lm;
                                assert(legal_moves(v)[j].mv.from < 64);
                            }
                            let mut s = text("Played ");
                            s.append(idx_to_square(from).as_str());
                            s.append(" -> ");
                            s.append(idx_to_square(cursor).as_str());
                            panel.status_line = s;
                            panel.selected_sq = None;
                            KeyOutcome::Played(wanted)
                        },
                        Err(err) => {
                            let mut s = text("Invalid move: ");
                            s.append(err.as_str());
                            panel.status_line = s;
                            KeyOutcome::Continue
                        },
                    }
                },
                None => {
                    match game.piece_at(cursor) {
                        Some(piece) => {
                            if piece.color == game.current_turn() {
                                select_square(panel);
                            } else {
                                panel.status_line = text(
                                    "That piece belongs to the other side. Select one of your own.",
                                );
                            }
                        },
                        None => {
                            panel.status_line = text("No piece on that square to select.");
                        },
                    }
                    KeyOutcome::Continue
                },
            }
        },
    }
}

// ---------------------------------------------------------------------------
// The screen frame
// ---------------------------------------------------------------------------

/// `s` with every newline written as carriage return and newline.
pub open spec fn with_crlf(s: Seq<char>) -> Seq<char>
    decreases s.len(),
{
    if s.len() == 0 {
        seq![]
    } else {
        with_crlf(s.drop_last()) + if s.last() == '\n' {
            seq!['\r', '\n']
        } else {
            seq![s.last()]
        }
    }
}

/// Appends `s` to `out` with every newline written as carriage return and newline.
fn append_crlf(out: &mut String, s: &str)
    ensures
        final(out)@ == old(out)@ + with_crlf(s@),
{
    let cs = crate::game::fen::chars_of(s);
    let ghost start = out@;
    let mut i: usize = 0;
    while i < cs.len()
        invariant
            0 <= i <= cs@.len(),
            cs@ == s@,
            out@ == start + with_crlf(cs@.take(i as int)),
        decreases cs@.len() - i,
    {
        let c = cs[i];
        assert(cs@.take(i + 1).drop_last() == cs@.take(i as int));
        if c == '\n' {
            push_char(out, '\r');
            push_char(out, '\n');
        } else {
            push_char(out, c);
        }
        assert(out@ =~= start + with_crlf(cs@.take(i + 1)));
        i += 1;
    }
    assert(cs@.take(i as int) == cs@);
}

/// The legal targets highlighted for the selection: those of the selected
/// square (see `Chess::legal_targets_from`), none without a selection.
pub open spec fn shown_targets(v: ChessView, selected: Option<usize>) -> Seq<usize> {
    match selected {
        Some(from) => if from < 64 && v.board[from as int] is Some && v.board[from as int]->0.color
            == v.turn {
            crate::game::targets_from(legal_moves(v), from)
        } else {
            seq![]
        },
        None => seq![],
    }
}

/// The text of one screen of the game: title, board (with the cursor, the
/// selection and its legal targets, the last move and kings in check
/// highlighted), header, evaluation line `eval_text`, captured pieces,
/// material, legend, the result once the game is over, cursor, selection
/// and status line; every line ends with a carriage return and newline.
pub open spec fn frame(
    v: ChessView,
    mode: GameMode,
    p: PanelView,
    status: GameStatus,
    eval_text: Seq<char>,
    white_caps: Seq<char>,
    black_caps: Seq<char>,
    balance: int,
    checked: Seq<usize>,
) -> Seq<char> {
    let o = crate::game::render::Overlay {
        cursor: p.cursor,
        selected: p.selected,
        targets: shown_targets(v, p.selected),
        checked,
        last: v.last_move,
    };
    "Terminal Chess\r\n"@ + with_crlf(crate::game::render::board_text(v.board, o)) + header_text(v.turn, mode)
        + "\r\n"@ + eval_text + "\r\n"@ + "Captured by White: "@ + white_caps + "\r\n"@
        + "Captured by Black: "@ + black_caps + "\r\n"@ + "Material: "@ + balance_text(balance) + "\r\n"@
        + "Highlights: cursor/selected=green | legal targets=olive | last move=gray | check=red\r\n"@
        + (if status == GameStatus::Ongoing {
        seq![]
    } else {
        result_line(status) + "\r\n"@ + "Press Enter, Esc, or q to quit.\r\n"@
    }) + "Cursor: "@ + square_name(p.cursor) + "\r\n"@ + match p.selected {
        Some(f) => "Selected: "@ + square_name(f) + "\r\n"@,
        None => "Selected: (none)\r\n"@,
    } + p.status + "\r\n"@
}

/// Builds the text of one screen (see [`frame`]).
pub fn frame_text(
    game: &Chess,
    mode: &GameMode,
    panel: &Panel,
    game_status: &GameStatus,
    eval_text: &str,
    captures: &CapturedDisplay,
    material_balance: i32,
    checked_kings: &[usize],
) -> (r: String)
    requires
        panel.cursor_sq < 64,
        panel.selected_sq matches Some(s) ==> s < 64,
        material_balance > i32::MIN,
    ensures
        r@ == frame(
            game@,
            *mode,
            panel@,
            *game_status,
            eval_text@,
            captures.white_captured_display@,
            captures.black_captured_display@,
            material_balance as int,
            checked_kings@,
        ),
{
    let legal_targets = match panel.selected_sq {
        Some(from) => game.legal_targets_from(from),
        None => Vec::new(),
    };
    let mut out = text("Terminal Chess\r\n");
    let board = game.render_with_selection(
        panel.cursor_sq,
        panel.selected_sq,
        legal_targets.as_slice(),
        checked_kings,
    );
    append_crlf(&mut out, board.as_str());
    out.append(position_header(game, mode).as_str());
    out.append("\r\n");
    out.append(eval_text);
    out.append("\r\n");
    out.append("Captured by White: ");
    out.append(captures.white_captured_display.as_str());
    out.append("\r\n");
    out.append("Captured by Black: ");
    out.append(captures.black_captured_display.as_str());
    out.append("\r\n");
    out.append("Material: ");
    out.append(material_balance_line(material_balance).as_str());
    out.append("\r\n");
    out.append("Highlights: cursor/selected=green | legal targets=olive | last move=gray | check=red\r\n");
    
    match game_status {
        GameStatus::Ongoing => {},
        status => {
            out.append(game_result_line(status).as_str());
            out.append("\r\n");
            out.append("Press Enter, Esc, or q to quit.\r\n");
        },
    }
    out.append("Cursor: ");
    out.append(idx_to_square(panel.cursor_sq).as_str());
    out.append("\r\n");
    match panel.selected_sq {
        Some(from) => {
            out.append("Selected: ");
            out.append(idx_to_square(from).as_str());
            out.append("\r\n");
        },
        None => {
            out.append("Selected: (none)\r\n");
        },
    }
    out.append(panel.status_line.as_str());
    out.append("\r\n");
    assert(out@ =~= frame(
        game@,
        *mode,
        panel@,
        *game_status,
        eval_text@,
        captures.white_captured_display@,
        captures.black_captured_display@,
        material_balance as int,
        checked_kings@,
    ));
    out
}

} // verus!
