//! Coordinate notation for moves (`e2e4`, `e7e8q`).

use vstd::prelude::*;
use vstd::utf8::{decode_utf8, encode_utf8, is_char_boundary};

use super::{Move, PieceKind};
use super::fen::{chars_of, is_white_space, is_white_space_char, parse_square, square_result, string_of, sub_chars};
use crate::text::text;

verus! {

broadcast use vstd::utf8::encode_utf8_decode_utf8;

/// Number of leading whitespace characters of `s`.
pub open spec fn leading_ws(s: Seq<char>) -> int
    decreases s.len(),
{
    if s.len() == 0 {
        0
    } else if is_white_space(s[0]) {
        1 + leading_ws(s.drop_first())
    } else {
        0
    }
}

/// Number of trailing whitespace characters of `s`.
pub open spec fn trailing_ws(s: Seq<char>) -> int
    decreases s.len(),
{
    if s.len() == 0 {
        0
    } else if is_white_space(s.last()) {
        1 + trailing_ws(s.drop_last())
    } else {
        0
    }
}

/// `s` without leading and trailing whitespace (`str::trim`).
pub open spec fn trim_ws(s: Seq<char>) -> Seq<char> {
    if leading_ws(s) >= s.len() {
        seq![]
    } else {
        s.subrange(leading_ws(s), s.len() - trailing_ws(s))
    }
}

pub proof fn lemma_ws_counts(s: Seq<char>)
    ensures
        0 <= leading_ws(s) <= s.len(),
        0 <= trailing_ws(s) <= s.len(),
        leading_ws(s) < s.len() ==> leading_ws(s) + trailing_ws(s) < s.len(),
    decreases s.len(),
{
    if s.len() > 0 {
        lemma_ws_counts(s.drop_first());
        lemma_ws_counts(s.drop_last());
        if leading_ws(s) < s.len() && leading_ws(s) + trailing_ws(s) >= s.len() {
            lemma_ws_all(s);
        }
    }
}

/// When the leading and trailing whitespace runs overlap, all of `s` is whitespace.
proof fn lemma_ws_all(s: Seq<char>)
    requires
        s.len() > 0,
    ensures
        leading_ws(s) < s.len() ==> leading_ws(s) + trailing_ws(s) < s.len(),
    decreases s.len(),
{
    lemma_leading_prefix(s);
    lemma_trailing_suffix(s);
    if leading_ws(s) < s.len() {
        let k = leading_ws(s);
        assert(!is_white_space(s[k]));
        if k + trailing_ws(s) >= s.len() {
            assert(is_white_space(s[k]));
        }
    }
}

proof fn lemma_leading_prefix(s: Seq<char>)
    ensures
        0 <= leading_ws(s) <= s.len(),
        forall|i: int| 0 <= i < leading_ws(s) ==> is_white_space(#[trigger] s[i]),
        leading_ws(s) < s.len() ==> !is_white_space(s[leading_ws(s)]),
    decreases s.len(),
{
    if s.len() > 0 {
        lemma_leading_prefix(s.drop_first());
        assert forall|i: int| 0 <= i < leading_ws(s) implies is_white_space(#[trigger] s[i]) by {
            if i > 0 {
                assert(s[i] == s.drop_first()[i - 1]);
            }
        }
        if leading_ws(s) < s.len() && leading_ws(s) > 0 {
            assert(s[leading_ws(s)] == s.drop_first()[leading_ws(s) - 1]);
        }
    }
}

proof fn lemma_trailing_suffix(s: Seq<char>)
    ensures
        0 <= trailing_ws(s) <= s.len(),
        forall|i: int| s.len() - trailing_ws(s) <= i < s.len() ==> is_white_space(#[trigger] s[i]),
    decreases s.len(),
{
    if s.len() > 0 {
        lemma_trailing_suffix(s.drop_last());
        assert forall|i: int| s.len() - trailing_ws(s) <= i < s.len() implies is_white_space(#[trigger] s[i]) by {
            if i < s.len() - 1 {
                assert(s[i] == s.drop_last()[i]);
            }
        }
    }
}

/// `s` without leading and trailing whitespace.
pub fn trim_text(s: &str) -> (r: String)
    ensures
        r@ == trim_ws(s@),
{
    let cs = chars_of(s);
    let n = cs.len();
    let ghost t = cs@;
    let mut a: usize = 0;
    assert(t.skip(0) == t);
    while a < n && is_white_space_char(cs[a])
        invariant
            0 <= a <= n,
            n == t.len(),
            t == cs@,
            leading_ws(t) == a + leading_ws(t.skip(a as int)),
        decreases n - a,
    {
        assert(t.skip(a as int).drop_first() == t.skip(a + 1));
        a += 1;
    }
    proof {
        if a < n {
            assert(t.skip(a as int)[0] == t[a as int]);
        }
        lemma_ws_counts(t);
    }
    if a >= n {
        assert(t.skip(a as int).len() == 0);
        assert(leading_ws(t) == n);
        let empty: Vec<char> = Vec::new();
        let r = string_of(&empty);
        assert(r@ =~= trim_ws(t));
        return r;
    }
    let mut b: usize = n;
    assert(t.take(n as int) == t);
    while b > a && is_white_space_char(cs[b - 1])
        invariant
            a < n,
            a <= b <= n,
            n == t.len(),
            t == cs@,
            leading_ws(t) == a,
            trailing_ws(t) == (n - b) + trailing_ws(t.take(b as int)),
        decreases b,
    {
        assert(t.take(b as int).drop_last() == t.take(b - 1));
        b -= 1;
    }
    proof {
        if b > a {
            assert(t.take(b as int).last() == t[b - 1]);
            assert(trailing_ws(t.take(b as int)) == 0);
            assert(trailing_ws(t) == n - b);
        } else {
            lemma_ws_counts(t.take(b as int));
            assert(false);
        }
    }
    let inner = sub_chars(&cs, a, b);
    let r = string_of(&inner);
    assert(r@ =~= trim_ws(t));
    r
}

/// `s` without trailing whitespace (`str::trim_end`).
pub open spec fn trim_end_ws(s: Seq<char>) -> Seq<char> {
    s.subrange(0, s.len() - trailing_ws(s))
}

/// `s` without trailing whitespace.
pub fn trim_end_text(s: &str) -> (r: String)
    ensures
        r@ == trim_end_ws(s@),
{
    let cs = chars_of(s);
    let n = cs.len();
    let ghost t = cs@;
    proof {
        lemma_ws_counts(t);
    }
    let mut b: usize = n;
    assert(t.take(n as int) == t);
    while b > 0 && is_white_space_char(cs[b - 1])
        invariant
            b <= n,
            n == t.len(),
            t == cs@,
            trailing_ws(t) == (n - b) + trailing_ws(t.take(b as int)),
        decreases b,
    {
        assert(t.take(b as int).drop_last() == t.take(b - 1));
        b -= 1;
    }
    proof {
        if b > 0 {
            assert(t.take(b as int).last() == t[b - 1]);
        }
        assert(trailing_ws(t) == n - b);
    }
    let inner = sub_chars(&cs, 0, b);
    let r = string_of(&inner);
    assert(r@ =~= trim_end_ws(t));
    r
}

/// What `str::to_lowercase` returns for a string: the Unicode lowercase mapping.
pub uninterp spec fn lowercase_of(s: Seq<char>) -> Seq<char>;

/// `s` with `A`-`Z` replaced by `a`-`z`.
pub open spec fn ascii_lowercase(s: Seq<char>) -> Seq<char> {
    Seq::new(s.len(), |i: int| if 'A' <= s[i] <= 'Z' { ((s[i] as u32) + 32) as char } else { s[i] })
}

/// `str::to_lowercase`: the lowercase equivalent of `s`, as defined by
/// Unicode. Claimed beyond the name: on ASCII text the Unicode mapping
/// turns `A`-`Z` into `a`-`z` and keeps every other character.
#[verifier::external_body]
fn to_lowercase(s: &str) -> (r: String)
    ensures
        r@ == lowercase_of(s@),
        vstd::utf8::is_ascii_chars(s@) ==> r@ == ascii_lowercase(s@),
{
    s.to_lowercase()
}

/// The promotion piece written as `c` (either case): `q`, `r`, `b` or `n`.
pub open spec fn promotion_of(c: char) -> Option<PieceKind> {
    let v = c as u32;
    if v == 0x71 || v == 0x51 {
        Some(PieceKind::Queen)
    } else if v == 0x72 || v == 0x52 {
        Some(PieceKind::Rook)
    } else if v == 0x62 || v == 0x42 {
        Some(PieceKind::Bishop)
    } else if v == 0x6E || v == 0x4E {
        Some(PieceKind::Knight)
    } else {
        None
    }
}

/// Parses coordinate-notation promotion piece character.
pub fn parse_promotion(ch: char) -> (r: Result<PieceKind, String>)
    ensures
        match r {
            Ok(k) => promotion_of(ch) == Some(k),
            Err(e) => promotion_of(ch) is None && e@ == "Promotion piece must be one of q, r, b, n"@,
        },
{
    let v = ch as u32;
    if v == 0x71 || v == 0x51 {
        Ok(PieceKind::Queen)
    } else if v == 0x72 || v == 0x52 {
        Ok(PieceKind::Rook)
    } else if v == 0x62 || v == 0x42 {
        Ok(PieceKind::Bishop)
    } else if v == 0x6E || v == 0x4E {
        Ok(PieceKind::Knight)
    } else {
        Err(text("Promotion piece must be one of q, r, b, n"))
    }
}

/// The move text as it is parsed: trimmed, then lower-cased.
pub open spec fn move_text(input: Seq<char>) -> Seq<char> {
    lowercase_of(trim_ws(input))
}

/// The byte slices `[0..2]` and `[2..4]` of the move text fall on character
/// boundaries wherever its length is acceptable.
pub open spec fn move_text_splittable(t: Seq<char>) -> bool {
    let b = encode_utf8(t);
    4 <= b.len() <= 5 ==> is_char_boundary(b, 2) && is_char_boundary(b.subrange(2, b.len() as int), 2)
}

/// The move requested by the (trimmed, lower-cased) text `t`, read byte-wise:
/// four or five bytes, two squares, and an optional promotion letter. Text
/// whose squares would not be whole characters is refused like text of the
/// wrong length.
pub open spec fn move_request(t: Seq<char>) -> Result<Move, Seq<char>> {
    let b = encode_utf8(t);
    if b.len() < 4 || b.len() > 5 || !move_text_splittable(t) {
        Err("Move must be in format e2e4 or e7e8q"@)
    } else {
        match square_result(decode_utf8(b.subrange(0, 2))) {
            Err(e) => Err(e),
            Ok(from) => match square_result(decode_utf8(b.subrange(2, 4))) {
                Err(e) => Err(e),
                Ok(to) => if b.len() == 5 {
                    match promotion_of(b[4] as char) {
                        None => Err("Promotion piece must be one of q, r, b, n"@),
                        Some(k) => Ok(Move { from, to, promotion: Some(k) }),
                    }
                } else {
                    Ok(Move { from, to, promotion: None })
                },
            },
        }
    }
}

/// Normalizes move text: trimmed and lower-cased.
pub fn normalize_move_text(input: &str) -> (r: String)
    ensures
        r@ == move_text(input@),
        vstd::utf8::is_ascii_chars(input@) ==> r@ == ascii_lowercase(trim_ws(input@)),
{
    let trimmed = trim_text(input);
    proof {
        lemma_ws_counts(input@);
        let t = trim_ws(input@);
        if vstd::utf8::is_ascii_chars(input@) && leading_ws(input@) < input@.len() {
            assert forall|i: int| 0 <= i < t.len() implies '\0' <= #[trigger] t[i] <= '\u{7f}' by {
                assert(t[i] == input@[i + leading_ws(input@)]);
            }
        }
    }
    to_lowercase(trimmed.as_str())
}

/// Reads a normalized move text (see [`move_request`]).
pub fn parse_move_text(t: &str) -> (r: Result<Move, String>)
    ensures
        match r {
            Ok(m) => move_request(t@) == Ok::<Move, Seq<char>>(m),
            Err(e) => move_request(t@) == Err::<Move, Seq<char>>(e@),
        },
{
    let bytes = t.as_bytes();
    if bytes.len() < 4 || bytes.len() > 5 || !move_text_is_splittable(t) {
        return Err(text("Move must be in format e2e4 or e7e8q"));
    }
    let (first, rest) = t.split_at(2);
    let (second, _) = rest.split_at(2);
    assert(first@ == decode_utf8(encode_utf8(t@).subrange(0, 2)));
    assert(encode_utf8(rest@).subrange(0, 2) =~= encode_utf8(t@).subrange(2, 4));
    assert(second@ == decode_utf8(encode_utf8(t@).subrange(2, 4)));
    let from = match parse_square(first) {
        Ok(i) => i,
        Err(e) => return Err(e),
    };
    let to = match parse_square(second) {
        Ok(i) => i,
        Err(e) => return Err(e),
    };
    let promotion = if bytes.len() == 5 {
        match parse_promotion(bytes[4] as char) {
            Ok(k) => Some(k),
            Err(e) => return Err(e),
        }
    } else {
        None
    };
    Ok(Move { from, to, promotion })
}

/// Whether the normalized move text can be sliced (see [`move_text_splittable`]).
pub fn move_text_is_splittable(t: &str) -> (r: bool)
    ensures
        r == move_text_splittable(t@),
{
    let bytes = t.as_bytes();
    if bytes.len() < 4 || bytes.len() > 5 {
        return true;
    }
    if !t.is_char_boundary(2) {
        return false;
    }
    let (_, rest) = t.split_at(2);
    rest.is_char_boundary(2)
}

} // verus!
