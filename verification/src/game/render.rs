//! Text rendering of the board with terminal colour codes.

use vstd::prelude::*;
use vstd::string::StringExecFns;

use super::{Chess, Color, Move, Piece, PieceKind};
use crate::text::{push_char, text};

verus! {

/// The squares and moves highlighted on a rendered board.
pub struct Overlay {
    pub cursor: usize,
    pub selected: Option<usize>,
    pub targets: Seq<usize>,
    pub checked: Seq<usize>,
    pub last: Option<Move>,
}

/// Unicode chess glyph of a piece.
pub open spec fn glyph(p: Piece) -> char {
    match (p.color, p.kind) {
        (Color::White, PieceKind::Pawn) => '♙',
        (Color::White, PieceKind::Knight) => '♘',
        (Color::White, PieceKind::Bishop) => '♗',
        (Color::White, PieceKind::Rook) => '♖',
        (Color::White, PieceKind::Queen) => '♕',
        (Color::White, PieceKind::King) => '♔',
        (Color::Black, PieceKind::Pawn) => '♟',
        (Color::Black, PieceKind::Knight) => '♞',
        (Color::Black, PieceKind::Bishop) => '♝',
        (Color::Black, PieceKind::Rook) => '♜',
        (Color::Black, PieceKind::Queen) => '♛',
        (Color::Black, PieceKind::King) => '♚',
    }
}

/// Terminal style of a piece glyph: bright white or blue, bold.
pub open spec fn glyph_style(p: Piece) -> Seq<char> {
    match p.color {
        Color::White => "1;97"@,
        Color::Black => "1;34"@,
    }
}

/// Square `idx` is the source or target of the last move.
pub open spec fn on_last_move(last: Option<Move>, idx: int) -> bool {
    match last {
        Some(m) => m.from == idx || m.to == idx,
        None => false,
    }
}

/// Background colour code of a square: red for a king in check, green for
/// the cursor or the selected square, olive for a legal target, gray for
/// the last move, else the light or dark square colour.
pub open spec fn background_of(checked: bool, marked: bool, target: bool, last: bool, even: bool) -> Seq<
    char,
> {
    if checked {
        "48;5;124"@
    } else if marked {
        "48;5;22"@
    } else if target {
        "48;5;58"@
    } else if last {
        "48;5;240"@
    } else if even {
        "48;5;236"@
    } else {
        "48;5;242"@
    }
}

/// Background colour code of square `idx` (see [`background_of`]).
pub open spec fn background(o: Overlay, idx: int) -> Seq<char> {
    background_of(
        o.checked.contains(idx as usize),
        idx == o.cursor || o.selected == Some(idx as usize),
        o.targets.contains(idx as usize),
        on_last_move(o.last, idx),
        (idx % 8 + idx / 8) % 2 == 0,
    )
}

/// Symbol shown on a square: the piece glyph, a dot on an empty legal
/// target, else a blank.
pub open spec fn symbol_of(content: Option<Piece>, target: bool) -> char {
    match content {
        Some(p) => glyph(p),
        None => if target {
            '·'
        } else {
            ' '
        },
    }
}

/// Style of the symbol shown on a square.
pub open spec fn style_of(content: Option<Piece>, target: bool) -> Seq<char> {
    match content {
        Some(p) => glyph_style(p),
        None => if target {
            "1;97"@
        } else {
            "39"@
        },
    }
}

/// One coloured square with background `bg`, followed by its right border.
pub open spec fn square_text(bg: Seq<char>, content: Option<Piece>, target: bool) -> Seq<char> {
    "\x1b["@ + bg + ";"@ + style_of(content, target) + "m  "@ + seq![symbol_of(content, target)]
        + "  \x1b[0m"@ + seq!['|']
}

/// Square `idx` of board `b` under overlay `o`.
pub open spec fn cell(b: Seq<Option<Piece>>, o: Overlay, idx: int) -> Seq<char> {
    square_text(background(o, idx), b[idx], o.targets.contains(idx as usize))
}

/// The first `n` squares of rank `rank`.
pub open spec fn rank_cells(b: Seq<Option<Piece>>, o: Overlay, rank: int, n: int) -> Seq<char>
    decreases n,
{
    if n <= 0 {
        seq![]
    } else {
        rank_cells(b, o, rank, n - 1) + cell(b, o, rank * 8 + n - 1)
    }
}

/// Label of rank `rank` (0-based): its number.
pub open spec fn rank_label(rank: int) -> char {
    seq!['1', '2', '3', '4', '5', '6', '7', '8'][rank]
}

/// One rank: label, squares from file a to h, newline and separator line.
pub open spec fn rank_text(b: Seq<Option<Piece>>, o: Overlay, rank: int) -> Seq<char> {
    seq![rank_label(rank)] + " |"@ + rank_cells(b, o, rank, 8) + seq!['\n']
        + "  +-----+-----+-----+-----+-----+-----+-----+-----+\n"@
}

/// Ranks 8 down to `rank + 1` (1-based), top to bottom.
pub open spec fn ranks_above(b: Seq<Option<Piece>>, o: Overlay, rank: int) -> Seq<char>
    decreases 8 - rank,
{
    if rank >= 8 {
        seq![]
    } else {
        ranks_above(b, o, rank + 1) + rank_text(b, o, rank)
    }
}

/// The overlay of a plain rendering: no cursor, selection, targets or
/// checked kings; only the last move is shown.
pub open spec fn plain_overlay(last: Option<Move>) -> Overlay {
    Overlay { cursor: usize::MAX, selected: None, targets: seq![], checked: seq![], last }
}

/// On a plain rendering every square of the board has the gray of the last
/// move or its own light or dark colour, never the colour of a checked
/// king, a cursor, a selection or a legal target.
pub proof fn lemma_plain_render_backgrounds(last: Option<Move>, idx: int)
    requires
        0 <= idx < 64,
    ensures
        background(plain_overlay(last), idx) == (if on_last_move(last, idx) {
            "48;5;240"@
        } else if (idx % 8 + idx / 8) % 2 == 0 {
            "48;5;236"@
        } else {
            "48;5;242"@
        }),
        background(plain_overlay(last), idx) != "48;5;124"@,
        background(plain_overlay(last), idx) != "48;5;22"@,
        background(plain_overlay(last), idx) != "48;5;58"@,
{
    let o = plain_overlay(last);
    assert(!o.checked.contains(idx as usize));
    assert(!o.targets.contains(idx as usize));
    reveal_strlit("48;5;240");
    reveal_strlit("48;5;236");
    reveal_strlit("48;5;242");
    reveal_strlit("48;5;124");
    reveal_strlit("48;5;22");
    reveal_strlit("48;5;58");
    assert("48;5;240"@[5] != "48;5;124"@[5]);
    assert("48;5;236"@[5] != "48;5;124"@[5]);
    assert("48;5;242"@[6] != "48;5;124"@[6]);
    assert("48;5;240"@[5] != "48;5;58"@[5]);
    assert("48;5;236"@[5] != "48;5;58"@[5]);
    assert("48;5;242"@[5] != "48;5;58"@[5]);
    assert("48;5;240"@.len() != "48;5;22"@.len());
    assert("48;5;236"@.len() != "48;5;22"@.len());
    assert("48;5;242"@.len() != "48;5;22"@.len());
}

/// The whole board: top border, ranks 8 to 1 and the file letters.
pub open spec fn board_text(b: Seq<Option<Piece>>, o: Overlay) -> Seq<char> {
    "  +-----+-----+-----+-----+-----+-----+-----+-----+\n"@ + ranks_above(b, o, 0)
        + "     a     b     c     d     e     f     g     h\n"@
}

/// See [`glyph`].
pub fn piece_to_symbol(piece: Piece) -> (r: char)
    ensures
        r == glyph(piece),
{
    match (piece.color, piece.kind) {
        (Color::White, PieceKind::Pawn) => '♙',
        (Color::White, PieceKind::Knight) => '♘',
        (Color::White, PieceKind::Bishop) => '♗',
        (Color::White, PieceKind::Rook) => '♖',
        (Color::White, PieceKind::Queen) => '♕',
        (Color::White, PieceKind::King) => '♔',
        (Color::Black, PieceKind::Pawn) => '♟',
        (Color::Black, PieceKind::Knight) => '♞',
        (Color::Black, PieceKind::Bishop) => '♝',
        (Color::Black, PieceKind::Rook) => '♜',
        (Color::Black, PieceKind::Queen) => '♛',
        (Color::Black, PieceKind::King) => '♚',
    }
}

fn piece_style_code(piece: Piece) -> (r: &'static str)
    ensures
        r@ == glyph_style(piece),
{
    match piece.color {
        Color::White => "1;97",
        Color::Black => "1;34",
    }
}

/// `mask[i]` tells whether `i` occurs in `squares`, for every square `i`.
fn square_mask(squares: &[usize]) -> (mask: [bool; 64])
    ensures
        forall|i: int| 0 <= i < 64 ==> #[trigger] mask@[i] == squares@.contains(i as usize),
{
    let mut mask = [false; 64];
    let mut k: usize = 0;
    while k < squares.len()
        invariant
            0 <= k <= squares@.len(),
            forall|i: int| 0 <= i < 64 ==> #[trigger] mask@[i] == squares@.take(k as int).contains(i as usize),
        decreases squares@.len() - k,
    {
        let sq = squares[k];
        if sq < 64 {
            mask[sq] = true;
        }
        proof {
            let t = squares@.take(k as int);
            let t1 = squares@.take(k + 1);
            assert(t1 == t.push(sq));
            assert forall|i: int| 0 <= i < 64 implies #[trigger] mask@[i] == t1.contains(i as usize) by {
                if t1.contains(i as usize) && i as usize != sq {
                    let j = choose|j: int| 0 <= j < t1.len() && t1[j] == i as usize;
                    assert(t[j] == i as usize);
                }
                if t.contains(i as usize) {
                    let j = choose|j: int| 0 <= j < t.len() && t[j] == i as usize;
                    assert(t1[j] == i as usize);
                }
                if i as usize == sq {
                    assert(t1[k as int] == sq);
                }
            }
        }
        k += 1;
    }
    assert(squares@.take(k as int) == squares@);
    mask
}

fn background_code(checked: bool, marked: bool, target: bool, last: bool, even: bool) -> (r: &'static str)
    ensures
        r@ == background_of(checked, marked, target, last, even),
{
    if checked {
        "48;5;124"
    } else if marked {
        "48;5;22"
    } else if target {
        "48;5;58"
    } else if last {
        "48;5;240"
    } else if even {
        "48;5;236"
    } else {
        "48;5;242"
    }
}

fn push_square(out: &mut String, bg: &str, content: Option<Piece>, target: bool)
    ensures
        final(out)@ == old(out)@ + square_text(bg@, content, target),
{
    let (symbol, style) = match content {
        Some(p) => (piece_to_symbol(p), piece_style_code(p)),
        None => if target {
            ('·', "1;97")
        } else {
            (' ', "39")
        },
    };
    out.append("\x1b[");
    out.append(bg);
    out.append(";");
    out.append(style);
    out.append("m  ");
    push_char(out, symbol);
    out.append("  \x1b[0m");
    push_char(out, '|');
    assert(final(out)@ =~= old(out)@ + square_text(bg@, content, target));
}

impl Chess {
    /// Renders the board with no active overlays.
    pub fn render(&self) -> (r: String)
        ensures
            r@ == board_text(self@.board, plain_overlay(self@.last_move)),
    {
        let none: [usize; 0] = [];
        let r = self.render_with_selection(usize::MAX, None, &none, &none);
        proof {
            let o1 = Overlay {
                cursor: usize::MAX,
                selected: None,
                targets: none@,
                checked: none@,
                last: self@.last_move,
            };
            assert(none@ =~= Seq::<usize>::empty());
            assert(o1 == plain_overlay(self@.last_move));
        }
        r
    }

    /// Renders the board with cursor/selection/status overlays used by the terminal UI.
    pub fn render_with_selection(
        &self,
        cursor_sq: usize,
        selected_sq: Option<usize>,
        legal_targets: &[usize],
        checked_kings: &[usize],
    ) -> (r: String)
        ensures
            r@ == board_text(
                self@.board,
                Overlay {
                    cursor: cursor_sq,
                    selected: selected_sq,
                    targets: legal_targets@,
                    checked: checked_kings@,
                    last: self@.last_move,
                },
            ),
    {
        let ghost o = Overlay {
            cursor: cursor_sq,
            selected: selected_sq,
            targets: legal_targets@,
            checked: checked_kings@,
            last: self@.last_move,
        };
        let ghost b = self@.board;
        proof {
            self.lemma_board_len();
        }
        let legal_mask = square_mask(legal_targets);
        let checked_mask = square_mask(checked_kings);
        let last = self.last_move();
        let labels = ['1', '2', '3', '4', '5', '6', '7', '8'];
        let mut out = text("  +-----+-----+-----+-----+-----+-----+-----+-----+\n");
        let mut rank: usize = 8;
        while rank > 0
            invariant
                0 <= rank <= 8,
                b == self@.board,
                b.len() == 64,
                o == (Overlay {
                    cursor: cursor_sq,
                    selected: selected_sq,
                    targets: legal_targets@,
                    checked: checked_kings@,
                    last: self@.last_move,
                }),
                last == self@.last_move,
                labels@ == seq!['1', '2', '3', '4', '5', '6', '7', '8'],
                forall|i: int| 0 <= i < 64 ==> #[trigger] legal_mask@[i] == legal_targets@.contains(i as usize),
                forall|i: int| 0 <= i < 64 ==> #[trigger] checked_mask@[i] == checked_kings@.contains(i as usize),
                out@ == "  +-----+-----+-----+-----+-----+-----+-----+-----+\n"@ + ranks_above(b, o, rank as int),
            decreases rank,
        {
            rank -= 1;
            let ghost before = out@;
            push_char(&mut out, labels[rank]);
            out.append(" |");
            let mut file: usize = 0;
            while file < 8
                invariant
                    0 <= file <= 8,
                    0 <= rank < 8,
                    b == self@.board,
                    b.len() == 64,
                    o == (Overlay {
                        cursor: cursor_sq,
                        selected: selected_sq,
                        targets: legal_targets@,
                        checked: checked_kings@,
                        last: self@.last_move,
                    }),
                    last == self@.last_move,
                    forall|i: int| 0 <= i < 64 ==> #[trigger] legal_mask@[i] == legal_targets@.contains(i as usize),
                    forall|i: int| 0 <= i < 64 ==> #[trigger] checked_mask@[i] == checked_kings@.contains(i as usize),
                    out@ == before + seq![rank_label(rank as int)] + " |"@ + rank_cells(b, o, rank as int, file as int),
                decreases 8 - file,
            {
                let idx = rank * 8 + file;
                let marked = idx == cursor_sq || match selected_sq {
                    Some(s) => s == idx,
                    None => false,
                };
                let is_last_move = match last {
                    Some(m) => m.from == idx || m.to == idx,
                    None => false,
                };
                let bg_code = background_code(
                    checked_mask[idx],
                    marked,
                    legal_mask[idx],
                    is_last_move,
                    (file + rank) % 2 == 0,
                );
                let ghost pre = out@;
                push_square(&mut out, bg_code, self.piece_at(idx), legal_mask[idx]);
                proof {
                    assert(bg_code@ == background(o, idx as int));
                    assert(rank_cells(b, o, rank as int, file + 1) == rank_cells(b, o, rank as int, file as int) + cell(b, o, idx as int));
                }
                file += 1;
            }
            push_char(&mut out, '\n');
            out.append("  +-----+-----+-----+-----+-----+-----+-----+-----+\n");
            assert(out@ == before + rank_text(b, o, rank as int));
        }
        out.append("     a     b     c     d     e     f     g     h\n");
        out
    }
}

} // verus!
