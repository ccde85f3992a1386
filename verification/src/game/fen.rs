//! Parsing positions in Forsyth-Edwards Notation (FEN) and squares in
//! coordinate notation.

use vstd::prelude::*;
use vstd::string::{StrSliceExecFns, StringExecFns};
use vstd::utf8::encode_utf8;

use super::{CastlingRights, Color, Piece, PieceKind};
use crate::text::text;

verus! {

// ---------------------------------------------------------------------------
// Characters and words
// ---------------------------------------------------------------------------

/// Unicode `White_Space`, the characters `char::is_whitespace` accepts.
pub open spec fn is_white_space(c: char) -> bool {
    let v = c as u32;
    ||| 0x9 <= v <= 0xD
    ||| v == 0x20
    ||| v == 0x85
    ||| v == 0xA0
    ||| v == 0x1680
    ||| 0x2000 <= v <= 0x200A
    ||| v == 0x2028
    ||| v == 0x2029
    ||| v == 0x202F
    ||| v == 0x205F
    ||| v == 0x3000
}

/// See [`is_white_space`].
pub fn is_white_space_char(c: char) -> (r: bool)
    ensures
        r == is_white_space(c),
{
    let v = c as u32;
    (0x9 <= v && v <= 0xD) || v == 0x20 || v == 0x85 || v == 0xA0 || v == 0x1680 || (0x2000 <= v
        && v <= 0x200A) || v == 0x2028 || v == 0x2029 || v == 0x202F || v == 0x205F || v == 0x3000
}

/// Spans `[start, end)` of the maximal runs of non-whitespace characters
/// within `s[0..n]` that have ended, and the start of the run still open at `n`.
pub open spec fn word_spans_upto(s: Seq<char>, n: int) -> (Seq<(int, int)>, Option<int>)
    decreases n,
{
    if n <= 0 {
        (seq![], None)
    } else {
        let (done, open) = word_spans_upto(s, n - 1);
        if is_white_space(s[n - 1]) {
            match open {
                Some(a) => (done.push((a, n - 1)), None),
                None => (done, None),
            }
        } else {
            match open {
                Some(a) => (done, Some(a)),
                None => (done, Some(n - 1)),
            }
        }
    }
}

/// Spans of the whitespace-separated words of `s`.
pub open spec fn word_spans(s: Seq<char>) -> Seq<(int, int)> {
    let (done, open) = word_spans_upto(s, s.len() as int);
    match open {
        Some(a) => done.push((a, s.len() as int)),
        None => done,
    }
}

/// The whitespace-separated words of `s` (`str::split_whitespace`).
pub open spec fn words(s: Seq<char>) -> Seq<Seq<char>> {
    word_spans(s).map_values(|p: (int, int)| s.subrange(p.0, p.1))
}

/// Spans of the pieces of `s[0..n]` ended by a `sep`, and the start of the piece open at `n`.
pub open spec fn piece_spans_upto(s: Seq<char>, sep: char, n: int) -> (Seq<(int, int)>, int)
    decreases n,
{
    if n <= 0 {
        (seq![], 0)
    } else {
        let (done, start) = piece_spans_upto(s, sep, n - 1);
        if s[n - 1] == sep {
            (done.push((start, n - 1)), n)
        } else {
            (done, start)
        }
    }
}

/// The pieces of `s` between occurrences of `sep`, empty ones included (`str::split`).
pub open spec fn split_pieces(s: Seq<char>, sep: char) -> Seq<Seq<char>> {
    let (done, start) = piece_spans_upto(s, sep, s.len() as int);
    done.push((start, s.len() as int)).map_values(|p: (int, int)| s.subrange(p.0, p.1))
}

/// The characters of `s`.
pub fn chars_of(s: &str) -> (r: Vec<char>)
    ensures
        r@ == s@,
{
    let n = s.unicode_len();
    let mut out: Vec<char> = Vec::new();
    let mut i: usize = 0;
    while i < n
        invariant
            0 <= i <= n,
            n == s@.len(),
            out@ == s@.take(i as int),
        decreases n - i,
    {
        out.push(s.get_char(i));
        assert(s@.take(i + 1) == s@.take(i as int).push(s@[i as int]));
        i += 1;
    }
    assert(s@.take(n as int) == s@);
    out
}

/// `cs[a..b]` as a new vector.
pub fn sub_chars(cs: &Vec<char>, a: usize, b: usize) -> (r: Vec<char>)
    requires
        a <= b <= cs@.len(),
    ensures
        r@ == cs@.subrange(a as int, b as int),
{
    let mut out: Vec<char> = Vec::new();
    let mut i: usize = a;
    while i < b
        invariant
            a <= i <= b,
            b <= cs@.len(),
            out@ == cs@.subrange(a as int, i as int),
        decreases b - i,
    {
        out.push(cs[i]);
        assert(cs@.subrange(a as int, i + 1) == cs@.subrange(a as int, i as int).push(cs@[i as int]));
        i += 1;
    }
    out
}

/// The whitespace-separated words of `cs`.
pub fn split_words(cs: &Vec<char>) -> (r: Vec<Vec<char>>)
    ensures
        r@.len() == words(cs@).len(),
        forall|k: int| 0 <= k < r@.len() ==> (#[trigger] r@[k])@ == words(cs@)[k],
{
    let ghost s = cs@;
    let mut done: Vec<(usize, usize)> = Vec::new();
    let mut open: Option<usize> = None;
    let mut i: usize = 0;
    while i < cs.len()
        invariant
            0 <= i <= s.len(),
            s == cs@,
            done@.len() == word_spans_upto(s, i as int).0.len(),
            forall|k: int| 0 <= k < done@.len() ==> (#[trigger] done@[k]).0 as int == word_spans_upto(s, i as int).0[k].0
                && done@[k].1 as int == word_spans_upto(s, i as int).0[k].1,
            forall|k: int| 0 <= k < done@.len() ==> 0 <= (#[trigger] done@[k]).0 <= done@[k].1 <= i,
            match open {
                Some(a) => word_spans_upto(s, i as int).1 == Some(a as int) && a < i,
                None => word_spans_upto(s, i as int).1 is None,
            },
        decreases s.len() - i,
    {
        let c = cs[i];
        if is_white_space_char(c) {
            match open {
                Some(a) => {
                    done.push((a, i));
                    open = None;
                },
                None => {},
            }
        } else {
            match open {
                Some(_) => {},
                None => {
                    open = Some(i);
                },
            }
        }
        i += 1;
    }
    match open {
        Some(a) => done.push((a, cs.len())),
        None => {},
    }
    let ghost spans = word_spans(s);
    assert(done@.len() == spans.len());
    assert forall|k: int| 0 <= k < done@.len() implies (#[trigger] done@[k]).0 as int == spans[k].0
        && done@[k].1 as int == spans[k].1 && 0 <= done@[k].0 <= done@[k].1 <= s.len() by {}
    let mut out: Vec<Vec<char>> = Vec::new();
    let mut k: usize = 0;
    while k < done.len()
        invariant
            0 <= k <= done@.len(),
            s == cs@,
            spans == word_spans(s),
            done@.len() == spans.len(),
            forall|j: int| 0 <= j < done@.len() ==> (#[trigger] done@[j]).0 as int == spans[j].0
                && done@[j].1 as int == spans[j].1 && 0 <= done@[j].0 <= done@[j].1 <= s.len(),
            out@.len() == k,
            forall|j: int| 0 <= j < k ==> (#[trigger] out@[j])@ == words(s)[j],
        decreases done@.len() - k,
    {
        let (a, b) = done[k];
        let w = sub_chars(cs, a, b);
        out.push(w);
        k += 1;
    }
    out
}

/// The pieces of `cs` between occurrences of `sep`.
pub fn split_on(cs: &Vec<char>, sep: char) -> (r: Vec<Vec<char>>)
    ensures
        r@.len() == split_pieces(cs@, sep).len(),
        forall|k: int| 0 <= k < r@.len() ==> (#[trigger] r@[k])@ == split_pieces(cs@, sep)[k],
{
    let ghost s = cs@;
    let mut done: Vec<(usize, usize)> = Vec::new();
    let mut start: usize = 0;
    let mut i: usize = 0;
    while i < cs.len()
        invariant
            0 <= i <= s.len(),
            s == cs@,
            done@.len() == piece_spans_upto(s, sep, i as int).0.len(),
            forall|k: int| 0 <= k < done@.len() ==> (#[trigger] done@[k]).0 as int == piece_spans_upto(s, sep, i as int).0[k].0
                && done@[k].1 as int == piece_spans_upto(s, sep, i as int).0[k].1,
            forall|k: int| 0 <= k < done@.len() ==> 0 <= (#[trigger] done@[k]).0 <= done@[k].1 <= i,
            start as int == piece_spans_upto(s, sep, i as int).1,
            start <= i,
        decreases s.len() - i,
    {
        if cs[i] == sep {
            done.push((start, i));
            start = i + 1;
        }
        i += 1;
    }
    done.push((start, cs.len()));
    let ghost spans = done@;
    assert forall|k: int| 0 <= k < done@.len() implies (#[trigger] done@[k]).0 as int == piece_spans_upto(s, sep, s.len() as int).0.push((start as int, s.len() as int))[k].0
        && done@[k].1 as int == piece_spans_upto(s, sep, s.len() as int).0.push((start as int, s.len() as int))[k].1 by {}
    let mut out: Vec<Vec<char>> = Vec::new();
    let mut k: usize = 0;
    while k < done.len()
        invariant
            0 <= k <= done@.len(),
            s == cs@,
            done@.len() == split_pieces(s, sep).len(),
            forall|j: int| 0 <= j < done@.len() ==> 0 <= (#[trigger] done@[j]).0 <= done@[j].1 <= s.len(),
            forall|j: int| 0 <= j < done@.len() ==> s.subrange((#[trigger] done@[j]).0 as int, done@[j].1 as int) == split_pieces(s, sep)[j],
            out@.len() == k,
            forall|j: int| 0 <= j < k ==> (#[trigger] out@[j])@ == split_pieces(s, sep)[j],
        decreases done@.len() - k,
    {
        let (a, b) = done[k];
        let w = sub_chars(cs, a, b);
        out.push(w);
        k += 1;
    }
    out
}

// ---------------------------------------------------------------------------
// Fields
// ---------------------------------------------------------------------------

/// The piece a FEN letter stands for: upper case is White, lower case Black.
pub open spec fn piece_of_char(ch: char) -> Option<Piece> {
    let v = ch as u32;
    let color = if 0x41 <= v <= 0x5A {
        Color::White
    } else {
        Color::Black
    };
    let lower = if 0x41 <= v <= 0x5A {
        v + 32
    } else {
        v as int
    };
    if lower == 0x70 {
        Some(Piece { color, kind: PieceKind::Pawn })
    } else if lower == 0x6E {
        Some(Piece { color, kind: PieceKind::Knight })
    } else if lower == 0x62 {
        Some(Piece { color, kind: PieceKind::Bishop })
    } else if lower == 0x72 {
        Some(Piece { color, kind: PieceKind::Rook })
    } else if lower == 0x71 {
        Some(Piece { color, kind: PieceKind::Queen })
    } else if lower == 0x6B {
        Some(Piece { color, kind: PieceKind::King })
    } else {
        None
    }
}

/// Parses a FEN piece symbol into a typed piece.
pub fn piece_from_fen_char(ch: char) -> (r: Result<Piece, String>)
    ensures
        match r {
            Ok(p) => piece_of_char(ch) == Some(p),
            Err(e) => piece_of_char(ch) is None && e@ == "Invalid piece character in FEN"@,
        },
{
    let v = ch as u32;
    let upper = 0x41 <= v && v <= 0x5A;
    let color = if upper {
        Color::White
    } else {
        Color::Black
    };
    let lower = if upper {
        v + 32
    } else {
        v
    };
    let kind = if lower == 0x70 {
        PieceKind::Pawn
    } else if lower == 0x6E {
        PieceKind::Knight
    } else if lower == 0x62 {
        PieceKind::Bishop
    } else if lower == 0x72 {
        PieceKind::Rook
    } else if lower == 0x71 {
        PieceKind::Queen
    } else if lower == 0x6B {
        PieceKind::King
    } else {
        return Err(text("Invalid piece character in FEN"));
    };
    Ok(Piece { color, kind })
}

pub open spec fn is_digit(c: char) -> bool {
    0x30 <= (c as u32) <= 0x39
}

pub open spec fn digit_value(c: char) -> int {
    (c as u32) - 0x30
}

/// State after reading `cs[0..n]` of one rank: the board and the current
/// file, or the first error.
pub open spec fn rank_fold(b: Seq<Option<Piece>>, cs: Seq<char>, board_rank: int, n: int) -> Result<
    (Seq<Option<Piece>>, int),
    Seq<char>,
>
    decreases n,
{
    if n <= 0 {
        Ok((b, 0))
    } else {
        match rank_fold(b, cs, board_rank, n - 1) {
            Err(e) => Err(e),
            Ok((b1, file)) => {
                let ch = cs[n - 1];
                if is_digit(ch) {
                    Ok((b1, file + digit_value(ch)))
                } else if file >= 8 {
                    Err("Too many files in FEN rank"@)
                } else {
                    match piece_of_char(ch) {
                        None => Err("Invalid piece character in FEN"@),
                        Some(p) => Ok((b1.update(board_rank * 8 + file, Some(p)), file + 1)),
                    }
                }
            },
        }
    }
}

/// Reads one rank of the piece placement into `b`: digits skip files,
/// letters place pieces, and the files must add up to eight.
pub open spec fn parse_rank(b: Seq<Option<Piece>>, cs: Seq<char>, board_rank: int) -> Result<
    Seq<Option<Piece>>,
    Seq<char>,
> {
    match rank_fold(b, cs, board_rank, cs.len() as int) {
        Err(e) => Err(e),
        Ok((b1, file)) => if file != 8 {
            Err("FEN rank does not sum to 8 files"@)
        } else {
            Ok(b1)
        },
    }
}

/// The empty board.
pub open spec fn empty_board() -> Seq<Option<Piece>> {
    Seq::new(64, |i: int| None::<Piece>)
}

/// The board after reading the first `n` ranks (rank 8 first), or the first error.
pub open spec fn ranks_fold(ranks: Seq<Seq<char>>, n: int) -> Result<Seq<Option<Piece>>, Seq<char>>
    decreases n,
{
    if n <= 0 {
        Ok(empty_board())
    } else {
        match ranks_fold(ranks, n - 1) {
            Err(e) => Err(e),
            Ok(b) => parse_rank(b, ranks[n - 1], 7 - (n - 1)),
        }
    }
}

/// The piece placement field: eight ranks separated by `/`.
pub open spec fn placement(field: Seq<char>) -> Result<Seq<Option<Piece>>, Seq<char>> {
    let ranks = split_pieces(field, '/');
    if ranks.len() != 8 {
        Err("FEN board must have 8 ranks"@)
    } else {
        ranks_fold(ranks, 8)
    }
}

pub open spec fn no_castling() -> CastlingRights {
    CastlingRights {
        white_kingside: false,
        white_queenside: false,
        black_kingside: false,
        black_queenside: false,
    }
}

/// Castling rights after reading `cs[0..n]` of the castling field.
pub open spec fn castling_fold(cs: Seq<char>, n: int) -> Option<CastlingRights>
    decreases n,
{
    if n <= 0 {
        Some(no_castling())
    } else {
        match castling_fold(cs, n - 1) {
            None => None,
            Some(c) => {
                let ch = cs[n - 1];
                if ch == 'K' {
                    Some(CastlingRights { white_kingside: true, ..c })
                } else if ch == 'Q' {
                    Some(CastlingRights { white_queenside: true, ..c })
                } else if ch == 'k' {
                    Some(CastlingRights { black_kingside: true, ..c })
                } else if ch == 'q' {
                    Some(CastlingRights { black_queenside: true, ..c })
                } else {
                    None
                }
            },
        }
    }
}

/// The castling field: `-`, or any of the letters `K`, `Q`, `k`, `q`.
pub open spec fn castling_field(cs: Seq<char>) -> Option<CastlingRights> {
    if cs.len() == 1 && cs[0] == '-' {
        Some(no_castling())
    } else {
        castling_fold(cs, cs.len() as int)
    }
}

/// A square in coordinate notation, read byte-wise from its UTF-8 encoding:
/// exactly two bytes, a file letter `a`-`h` and a rank digit `1`-`8`.
pub open spec fn square_result(s: Seq<char>) -> Result<usize, Seq<char>> {
    let b = encode_utf8(s);
    if b.len() != 2 {
        Err("Square must be two characters, e.g. e4"@)
    } else if !(0x61 <= b[0] <= 0x68) {
        Err("Invalid file in square: "@ + s)
    } else if !(0x31 <= b[1] <= 0x38) {
        Err("Invalid rank in square: "@ + s)
    } else {
        Ok(((b[1] - 0x31) * 8 + (b[0] - 0x61)) as usize)
    }
}

/// Parses algebraic square text (`e4`) into board index.
pub fn parse_square(s: &str) -> (r: Result<usize, String>)
    ensures
        match r {
            Ok(i) => square_result(s@) == Ok::<usize, Seq<char>>(i),
            Err(e) => square_result(s@) == Err::<usize, Seq<char>>(e@),
        },
{
    let b = s.as_bytes();
    if b.len() != 2 {
        return Err(text("Square must be two characters, e.g. e4"));
    }
    if !(0x61u8 <= b[0] && b[0] <= 0x68u8) {
        let mut e = text("Invalid file in square: ");
        e.append(s);
        return Err(e);
    }
    if !(0x31u8 <= b[1] && b[1] <= 0x38u8) {
        let mut e = text("Invalid rank in square: ");
        e.append(s);
        return Err(e);
    }
    let file = (b[0] - 0x61u8) as usize;
    let rank = (b[1] - 0x31u8) as usize;
    Ok(rank * 8 + file)
}

/// Decimal value of a digit string.
pub open spec fn digits_value(d: Seq<char>) -> int
    decreases d.len(),
{
    if d.len() == 0 {
        0
    } else {
        digits_value(d.drop_last()) * 10 + digit_value(d.last())
    }
}

pub open spec fn all_digits(d: Seq<char>) -> bool {
    forall|i: int| 0 <= i < d.len() ==> is_digit(#[trigger] d[i])
}

/// `u32` parsing (`str::parse::<u32>`): an optional `+`, then at least one
/// decimal digit and nothing else, with a value that fits in `u32`.
pub open spec fn parse_u32(s: Seq<char>) -> Option<u32> {
    let d = if s.len() > 0 && s[0] == '+' {
        s.drop_first()
    } else {
        s
    };
    if d.len() == 0 || !all_digits(d) || digits_value(d) > u32::MAX {
        None
    } else {
        Some(digits_value(d) as u32)
    }
}

pub proof fn lemma_digits_value_nonneg(d: Seq<char>)
    requires
        all_digits(d),
    ensures
        digits_value(d) >= 0,
    decreases d.len(),
{
    if d.len() > 0 {
        assert(all_digits(d.drop_last())) by {
            assert forall|i: int| 0 <= i < d.drop_last().len() implies is_digit(
                #[trigger] d.drop_last()[i],
            ) by {
                assert(d.drop_last()[i] == d[i]);
            }
        }
        lemma_digits_value_nonneg(d.drop_last());
        assert(is_digit(d[d.len() - 1]));
    }
}

/// See [`parse_u32`].
pub fn parse_u32_chars(cs: &Vec<char>) -> (r: Option<u32>)
    ensures
        r == parse_u32(cs@),
{
    let ghost s = cs@;
    let n = cs.len();
    let mut start: usize = 0;
    if n > 0 && cs[0] == '+' {
        start = 1;
    }
    let ghost d = if s.len() > 0 && s[0] == '+' {
        s.drop_first()
    } else {
        s
    };
    assert(d == s.subrange(start as int, n as int));
    if start == n {
        return None;
    }
    let mut acc: u64 = 0;
    let mut i: usize = start;
    while i < n
        invariant
            start <= i <= n,
            n == s.len(),
            s == cs@,
            d == s.subrange(start as int, n as int),
            d == (if s.len() > 0 && s[0] == '+' { s.drop_first() } else { s }),
            all_digits(s.subrange(start as int, i as int)),
            digits_value(s.subrange(start as int, i as int)) <= u32::MAX ==> acc == digits_value(
                s.subrange(start as int, i as int),
            ),
            digits_value(s.subrange(start as int, i as int)) > u32::MAX ==> acc > u32::MAX,
            acc <= 0xFFFF_FFFF * 10 + 9,
        decreases n - i,
    {
        let c = cs[i];
        let v = c as u32;
        let ghost pre = s.subrange(start as int, i as int);
        let ghost next = s.subrange(start as int, i + 1);
        assert(next.drop_last() == pre);
        if !(0x30 <= v && v <= 0x39) {
            proof {
                assert(d[i - start] == c);
                assert(!is_digit(c));
                assert(!is_digit(d[i - start]));
                assert(!all_digits(d));
            }
            return None;
        }
        proof {
            lemma_digits_value_nonneg(pre);
            assert(all_digits(next)) by {
                assert forall|j: int| 0 <= j < next.len() implies is_digit(#[trigger] next[j]) by {
                    if j < pre.len() {
                        assert(next[j] == pre[j]);
                    }
                }
            }
        }
        if acc <= 0xFFFF_FFFF {
            acc = acc * 10 + (v - 0x30) as u64;
        } else {
            acc = 0xFFFF_FFFF * 10 + 9;
        }
        i += 1;
    }
    assert(s.subrange(start as int, n as int) == d);
    if acc > 0xFFFF_FFFF {
        None
    } else {
        Some(acc as u32)
    }
}

/// Reads one rank of the piece placement into `board` (see [`parse_rank`]).
pub(crate) fn parse_rank_into(board: &mut [Option<Piece>; 64], cs: &Vec<char>, board_rank: usize) -> (r:
    Result<(), String>)
    requires
        board_rank < 8,
    ensures
        match r {
            Ok(()) => parse_rank(old(board)@, cs@, board_rank as int) == Ok::<
                Seq<Option<Piece>>,
                Seq<char>,
            >(final(board)@),
            Err(e) => parse_rank(old(board)@, cs@, board_rank as int) == Err::<
                Seq<Option<Piece>>,
                Seq<char>,
            >(e@),
        },
{
    let ghost b0 = board@;
    let ghost mut sfile: int = 0;
    let mut file: usize = 0;
    let mut i: usize = 0;
    while i < cs.len()
        invariant
            0 <= i <= cs@.len(),
            board_rank < 8,
            b0 == old(board)@,
            rank_fold(b0, cs@, board_rank as int, i as int) == Ok::<
                (Seq<Option<Piece>>, int),
                Seq<char>,
            >((board@, sfile)),
            sfile >= 0,
            file == if sfile > 9 {
                9
            } else {
                sfile
            },
        decreases cs@.len() - i,
    {
        let ch = cs[i];
        let v = ch as u32;
        if 0x30 <= v && v <= 0x39 {
            let skip = (v - 0x30) as usize;
            proof {
                sfile = sfile + skip;
            }
            file = if file + skip > 9 {
                9
            } else {
                file + skip
            };
        } else {
            if file >= 8 {
                let e = text("Too many files in FEN rank");
                proof {
                    lemma_rank_fold_err(b0, cs@, board_rank as int, i as int + 1, e@);
                }
                return Err(e);
            }
            let piece = match piece_from_fen_char(ch) {
                Ok(p) => p,
                Err(e) => {
                    proof {
                        lemma_rank_fold_err(b0, cs@, board_rank as int, i as int + 1, e@);
                    }
                    return Err(e);
                },
            };
            board[board_rank * 8 + file] = Some(piece);
            proof {
                sfile = sfile + 1;
            }
            file = file + 1;
        }
        i += 1;
    }
    if file != 8 {
        return Err(text("FEN rank does not sum to 8 files"));
    }
    Ok(())
}

pub proof fn lemma_rank_fold_err(b: Seq<Option<Piece>>, cs: Seq<char>, br: int, n: int, e: Seq<char>)
    requires
        0 <= n <= cs.len(),
        rank_fold(b, cs, br, n) == Err::<(Seq<Option<Piece>>, int), Seq<char>>(e),
    ensures
        parse_rank(b, cs, br) == Err::<Seq<Option<Piece>>, Seq<char>>(e),
    decreases cs.len() - n,
{
    if n < cs.len() {
        lemma_rank_fold_err(b, cs, br, n + 1, e);
    }
}

/// Reads the piece placement field (see [`placement`]).
pub fn parse_placement(field: &Vec<char>) -> (r: Result<[Option<Piece>; 64], String>)
    ensures
        match r {
            Ok(b) => placement(field@) == Ok::<Seq<Option<Piece>>, Seq<char>>(b@),
            Err(e) => placement(field@) == Err::<Seq<Option<Piece>>, Seq<char>>(e@),
        },
{
    let ranks = split_on(field, '/');
    if ranks.len() != 8 {
        return Err(text("FEN board must have 8 ranks"));
    }
    let ghost rs = split_pieces(field@, '/');
    let mut board: [Option<Piece>; 64] = [None; 64];
    assert(board@ =~= empty_board());
    let mut k: usize = 0;
    while k < 8
        invariant
            0 <= k <= 8,
            ranks@.len() == 8,
            rs == split_pieces(field@, '/'),
            rs.len() == 8,
            forall|j: int| 0 <= j < 8 ==> (#[trigger] ranks@[j])@ == rs[j],
            ranks_fold(rs, k as int) == Ok::<Seq<Option<Piece>>, Seq<char>>(board@),
        decreases 8 - k,
    {
        match parse_rank_into(&mut board, &ranks[k], 7 - k) {
            Ok(()) => {},
            Err(e) => {
                proof {
                    lemma_ranks_fold_err(rs, k as int + 1, e@);
                }
                return Err(e);
            },
        }
        k += 1;
    }
    Ok(board)
}

pub proof fn lemma_ranks_fold_err(rs: Seq<Seq<char>>, n: int, e: Seq<char>)
    requires
        0 <= n <= 8,
        ranks_fold(rs, n) == Err::<Seq<Option<Piece>>, Seq<char>>(e),
    ensures
        ranks_fold(rs, 8) == Err::<Seq<Option<Piece>>, Seq<char>>(e),
    decreases 8 - n,
{
    if n < 8 {
        lemma_ranks_fold_err(rs, n + 1, e);
    }
}

/// Reads the castling field (see [`castling_field`]).
pub fn parse_castling(cs: &Vec<char>) -> (r: Option<CastlingRights>)
    ensures
        r == castling_field(cs@),
{
    let mut castling = CastlingRights {
        white_kingside: false,
        white_queenside: false,
        black_kingside: false,
        black_queenside: false,
    };
    if cs.len() == 1 && cs[0] == '-' {
        return Some(castling);
    }
    let mut i: usize = 0;
    while i < cs.len()
        invariant
            0 <= i <= cs@.len(),
            !(cs@.len() == 1 && cs@[0] == '-'),
            castling_fold(cs@, i as int) == Some(castling),
        decreases cs@.len() - i,
    {
        let ch = cs[i];
        if ch == 'K' {
            castling.white_kingside = true;
        } else if ch == 'Q' {
            castling.white_queenside = true;
        } else if ch == 'k' {
            castling.black_kingside = true;
        } else if ch == 'q' {
            castling.black_queenside = true;
        } else {
            proof {
                assert(cs@[i as int] == ch);
                assert(castling_fold(cs@, i as int + 1) is None);
                lemma_castling_fold_none(cs@, i as int + 1);
                assert(!(cs@.len() == 1 && cs@[0] == '-'));
            }
            return None;
        }
        i += 1;
    }
    Some(castling)
}

pub proof fn lemma_castling_fold_none(cs: Seq<char>, n: int)
    requires
        0 <= n <= cs.len(),
        castling_fold(cs, n) is None,
    ensures
        castling_fold(cs, cs.len() as int) is None,
    decreases cs.len() - n,
{
    if n < cs.len() {
        lemma_castling_fold_none(cs, n + 1);
    }
}

/// The characters of `cs` as a string.
pub fn string_of(cs: &Vec<char>) -> (r: String)
    ensures
        r@ == cs@,
{
    let mut out = String::new();
    let mut i: usize = 0;
    while i < cs.len()
        invariant
            0 <= i <= cs@.len(),
            out@ == cs@.take(i as int),
        decreases cs@.len() - i,
    {
        crate::text::push_char(&mut out, cs[i]);
        assert(cs@.take(i + 1) == cs@.take(i as int).push(cs@[i as int]));
        i += 1;
    }
    assert(cs@.take(i as int) == cs@);
    out
}

/// The fields of a parsed FEN string.
pub struct FenData {
    pub board: Seq<Option<Piece>>,
    pub turn: Color,
    pub castling: CastlingRights,
    pub en_passant: Option<usize>,
    pub halfmove_clock: u32,
    pub fullmove_number: u32,
}

/// A strict six-field FEN string: piece placement, side to move (`w`/`b`),
/// castling rights, en-passant square (`-` or a square), half-move clock and
/// full-move number; or the first error met, field by field.
pub open spec fn fen_result(s: Seq<char>) -> Result<FenData, Seq<char>> {
    let parts = words(s);
    if parts.len() != 6 {
        Err("FEN must have exactly 6 fields"@)
    } else {
        match placement(parts[0]) {
            Err(e) => Err(e),
            Ok(board) => {
                let p1 = parts[1];
                if !(p1.len() == 1 && (p1[0] == 'w' || p1[0] == 'b')) {
                    Err("Invalid side-to-move field"@)
                } else {
                    let turn = if p1[0] == 'w' {
                        Color::White
                    } else {
                        Color::Black
                    };
                    match castling_field(parts[2]) {
                        None => Err("Invalid castling rights"@),
                        Some(castling) => {
                            let p3 = parts[3];
                            let ep: Result<Option<usize>, Seq<char>> = if p3.len() == 1 && p3[0]
                                == '-' {
                                Ok(None)
                            } else {
                                match square_result(p3) {
                                    Ok(i) => Ok(Some(i)),
                                    Err(e) => Err(e),
                                }
                            };
                            match ep {
                                Err(e) => Err(e),
                                Ok(en_passant) => match parse_u32(parts[4]) {
                                    None => Err("Invalid halfmove clock"@),
                                    Some(halfmove_clock) => match parse_u32(parts[5]) {
                                        None => Err("Invalid fullmove number"@),
                                        Some(fullmove_number) => Ok(
                                            FenData {
                                                board,
                                                turn,
                                                castling,
                                                en_passant,
                                                halfmove_clock,
                                                fullmove_number,
                                            },
                                        ),
                                    },
                                },
                            }
                        },
                    }
                }
            },
        }
    }
}

/// Parsed FEN fields in executable form.
pub struct FenFields {
    pub board: [Option<Piece>; 64],
    pub turn: Color,
    pub castling: CastlingRights,
    pub en_passant: Option<usize>,
    pub halfmove_clock: u32,
    pub fullmove_number: u32,
}

impl FenFields {
    pub open spec fn data(&self) -> FenData {
        FenData {
            board: self.board@,
            turn: self.turn,
            castling: self.castling,
            en_passant: self.en_passant,
            halfmove_clock: self.halfmove_clock,
            fullmove_number: self.fullmove_number,
        }
    }
}

/// Parses the six FEN fields (see [`fen_result`]).
pub fn parse_fen_fields(fen: &str) -> (r: Result<FenFields, String>)
    ensures
        match r {
            Ok(f) => fen_result(fen@) == Ok::<FenData, Seq<char>>(f.data()),
            Err(e) => fen_result(fen@) == Err::<FenData, Seq<char>>(e@),
        },
{
    let cs = chars_of(fen);
    let parts = split_words(&cs);
    if parts.len() != 6 {
        return Err(text("FEN must have exactly 6 fields"));
    }
    let board = match parse_placement(&parts[0]) {
        Ok(b) => b,
        Err(e) => return Err(e),
    };
    let p1 = &parts[1];
    let turn = if p1.len() == 1 && p1[0] == 'w' {
        Color::White
    } else if p1.len() == 1 && p1[0] == 'b' {
        Color::Black
    } else {
        return Err(text("Invalid side-to-move field"));
    };
    let castling = match parse_castling(&parts[2]) {
        Some(c) => c,
        None => return Err(text("Invalid castling rights")),
    };
    let p3 = &parts[3];
    let en_passant = if p3.len() == 1 && p3[0] == '-' {
        None
    } else {
        let text3 = string_of(p3);
        match parse_square(text3.as_str()) {
            Ok(i) => Some(i),
            Err(e) => return Err(e),
        }
    };
    let halfmove_clock = match parse_u32_chars(&parts[4]) {
        Some(h) => h,
        None => return Err(text("Invalid halfmove clock")),
    };
    let fullmove_number = match parse_u32_chars(&parts[5]) {
        Some(f) => f,
        None => return Err(text("Invalid fullmove number")),
    };
    Ok(FenFields { board, turn, castling, en_passant, halfmove_clock, fullmove_number })
}

} // verus!
