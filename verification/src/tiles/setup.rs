//! Setting up a tile board from a FEN string.

use vstd::prelude::*;

use crate::game::fen::{chars_of, split_words, words};
use super::{empty_piece, Board, BoardView, Color, Piece, PieceType, Tile};

verus! {

/// What `char::is_uppercase` returns: whether `c` has the Unicode
/// `Uppercase` property.
pub uninterp spec fn uppercase_char(c: char) -> bool;

/// `char::is_uppercase`. Claimed: the result is the Unicode `Uppercase`
/// property of `c`, which among ASCII characters holds exactly for `A`-`Z`.
#[verifier::external_body]
fn is_uppercase(c: char) -> (r: bool)
    ensures
        r == uppercase_char(c),
        (c as u32) < 0x80 ==> (r <==> 0x41 <= (c as u32) <= 0x5A),
{
    c.is_uppercase()
}

/// Kind named by a FEN letter of either case; any other character names the empty piece.
pub open spec fn kind_of_letter(c: char) -> PieceType {
    if c == 'p' || c == 'P' {
        PieceType::Pawn
    } else if c == 'r' || c == 'R' {
        PieceType::Rook
    } else if c == 'n' || c == 'N' {
        PieceType::Knight
    } else if c == 'b' || c == 'B' {
        PieceType::Bishop
    } else if c == 'q' || c == 'Q' {
        PieceType::Queen
    } else if c == 'k' || c == 'K' {
        PieceType::King
    } else {
        PieceType::Empty
    }
}

/// The unmoved piece a FEN character puts on square `pos`: white for an
/// uppercase character, black otherwise.
pub open spec fn piece_of_letter(c: char, pos: usize) -> Piece {
    Piece {
        color: if uppercase_char(c) {
            Color::White
        } else {
            Color::Black
        },
        piece_type: kind_of_letter(c),
        pos,
        move_count: 0,
    }
}

/// 64 tiles, each holding the empty piece of its square.
pub open spec fn empty_tiles() -> Seq<Tile> {
    Seq::new(64, |i: int| Tile { pos: i as usize, piece_on_tile: empty_piece(i as usize) })
}

/// Tiles and next square after the first `n` characters of the placement
/// field: `/` is skipped, a digit `1`-`8` skips that many squares, any
/// other character puts its piece on the next square.
pub open spec fn placed(cs: Seq<char>, n: int) -> (Seq<Tile>, int)
    decreases n,
{
    if n <= 0 {
        (empty_tiles(), 0)
    } else {
        let (ts, pos) = placed(cs, n - 1);
        let c = cs[n - 1];
        if c == '/' {
            (ts, pos)
        } else if '1' <= c <= '8' {
            (ts, pos + (c as u32 - 0x30))
        } else {
            (ts.update(pos, Tile { piece_on_tile: piece_of_letter(c, pos as usize), ..ts[pos] }), pos + 1)
        }
    }
}

/// Every piece character of the first `n` characters lands on one of the 64 squares.
pub open spec fn placement_fits(cs: Seq<char>, n: int) -> bool
    decreases n,
{
    if n <= 0 {
        true
    } else {
        let c = cs[n - 1];
        placement_fits(cs, n - 1) && (c != '/' && !('1' <= c <= '8') ==> placed(cs, n - 1).1 < 64)
    }
}

/// The board set up from the FEN fields `parts`: pieces from the placement,
/// White to move when the second field is `w` (else Black), and the
/// castling rights named by `K`, `Q`, `k`, `q` in the third field.
pub open spec fn setup_view(parts: Seq<Seq<char>>) -> BoardView {
    let castling = parts[2];
    BoardView {
        tiles: placed(parts[0], parts[0].len() as int).0,
        current_player: if parts[1] == seq!['w'] {
            Color::White
        } else {
            Color::Black
        },
        white_castle_king_side: castling.contains('K'),
        white_castle_queen_side: castling.contains('Q'),
        black_castle_king_side: castling.contains('k'),
        black_castle_queen_side: castling.contains('q'),
    }
}

pub proof fn lemma_placed_bounds(cs: Seq<char>, n: int)
    requires
        0 <= n <= cs.len(),
        placement_fits(cs, n),
    ensures
        placed(cs, n).0.len() == 64,
        0 <= placed(cs, n).1 <= 8 * n,
        forall|i: int| 0 <= i < 64 ==> (#[trigger] placed(cs, n).0[i]).piece_on_tile.pos < 64,
    decreases n,
{
    if n > 0 {
        lemma_placed_bounds(cs, n - 1);
    }
}

fn contains_char(cs: &Vec<char>, c: char) -> (r: bool)
    ensures
        r == cs@.contains(c),
{
    let mut i: usize = 0;
    while i < cs.len()
        invariant
            0 <= i <= cs@.len(),
            forall|j: int| 0 <= j < i ==> cs@[j] != c,
        decreases cs@.len() - i,
    {
        if cs[i] == c {
            assert(cs@[i as int] == c);
            return true;
        }
        i += 1;
    }
    false
}

fn letter_piece(c: char, pos: usize) -> (r: Piece)
    ensures
        r == piece_of_letter(c, pos),
        (c as u32) < 0x80 ==> (uppercase_char(c) <==> 'A' <= c <= 'Z'),
{
    let color = if is_uppercase(c) {
        Color::White
    } else {
        Color::Black
    };
    let piece_type = if c == 'p' || c == 'P' {
        PieceType::Pawn
    } else if c == 'r' || c == 'R' {
        PieceType::Rook
    } else if c == 'n' || c == 'N' {
        PieceType::Knight
    } else if c == 'b' || c == 'B' {
        PieceType::Bishop
    } else if c == 'q' || c == 'Q' {
        PieceType::Queen
    } else if c == 'k' || c == 'K' {
        PieceType::King
    } else {
        PieceType::Empty
    };
    Piece::new(color, piece_type, pos)
}

impl Board {
    /// Sets the board up from a FEN string (see [`setup_view`]): only the
    /// first three fields are read. An ASCII piece letter of the placement
    /// is white exactly when it is one of `A`-`Z`.
    pub fn setup(&mut self, fen: &str)
        requires
            words(fen@).len() >= 3,
            placement_fits(words(fen@)[0], words(fen@)[0].len() as int),
            words(fen@)[0].len() <= usize::MAX / 8,
        ensures
            final(self)@ == setup_view(words(fen@)),
            super::well_formed(final(self)@),
            forall|j: int|
                #![trigger words(fen@)[0][j]]
                0 <= j < words(fen@)[0].len() && (words(fen@)[0][j] as u32) < 0x80 && words(fen@)[0][j] != '/'
                    && !('1' <= words(fen@)[0][j] <= '8') ==> (uppercase_char(words(fen@)[0][j]) <==> 'A'
                    <= words(fen@)[0][j] <= 'Z'),
    {
        let cs = chars_of(fen);
        let parts = split_words(&cs);
        let ghost ps = words(fen@);
        assert(parts@[0]@ == ps[0]);
        let pieces_part = &parts[0];
        let active_color_part = &parts[1];
        let castling_part = &parts[2];
        let mut tiles: Vec<Tile> = Vec::new();
        let mut i: usize = 0;
        while i < 64
            invariant
                0 <= i <= 64,
                tiles@ == empty_tiles().take(i as int),
            decreases 64 - i,
        {
            tiles.push(Tile::new(i, Piece::new(Color::White, PieceType::Empty, i)));
            assert(empty_tiles().take(i + 1) == empty_tiles().take(i as int).push(empty_tiles()[i as int]));
            i += 1;
        }
        assert(empty_tiles().take(64) == empty_tiles());
        let ghost pp = pieces_part@;
        let mut pos: usize = 0;
        let mut k: usize = 0;
        while k < pieces_part.len()
            invariant
                0 <= k <= pp.len(),
                pp == pieces_part@,
                pp == ps[0],
                pp.len() <= usize::MAX / 8,
                placement_fits(pp, pp.len() as int),
                (tiles@, pos as int) == placed(pp, k as int),
                forall|j: int|
                    #![trigger pp[j]]
                    0 <= j < k && (pp[j] as u32) < 0x80 && pp[j] != '/' && !('1' <= pp[j] <= '8') ==> (
                    uppercase_char(pp[j]) <==> 'A' <= pp[j] <= 'Z'),
            decreases pp.len() - k,
        {
            proof {
                lemma_fits_prefix(pp, pp.len() as int, k + 1);
                lemma_fits_prefix(pp, pp.len() as int, k as int);
                lemma_placed_bounds(pp, k as int);
            }
            let c = pieces_part[k];
            if c == '/' {
            } else if '1' <= c && c <= '8' {
                pos = pos + (c as u32 - 0x30) as usize;
            } else {
                let mut t = tiles[pos];
                t.piece_on_tile = letter_piece(c, pos);
                tiles.set(pos, t);
                pos = pos + 1;
            }
            k += 1;
        }
        proof {
            lemma_placed_bounds(pp, pp.len() as int);
        }
        self.tiles = tiles;
        self.current_player = if active_color_part.len() == 1 && active_color_part[0] == 'w' {
            Color::White
        } else {
            Color::Black
        };
        proof {
            if active_color_part@.len() == 1 && active_color_part@[0] == 'w' {
                assert(ps[1] =~= seq!['w']);
            }
        }
        self.white_castle_king_side = contains_char(castling_part, 'K');
        self.white_castle_queen_side = contains_char(castling_part, 'Q');
        self.black_castle_king_side = contains_char(castling_part, 'k');
        self.black_castle_queen_side = contains_char(castling_part, 'q');
    }
}

pub proof fn lemma_fits_prefix(cs: Seq<char>, n: int, k: int)
    requires
        0 <= k <= n,
        placement_fits(cs, n),
    ensures
        placement_fits(cs, k),
    decreases n - k,
{
    if k < n {
        lemma_fits_prefix(cs, n - 1, k);
    }
}

} // verus!
