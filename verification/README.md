# chess

Chess in the terminal, with its rules, engine and screen text proved
correct with Verus.

## Layout

```
src/game.rs            game state, legal moves, move execution, game status
src/game/board.rs      squares, attacks, check
src/game/movegen.rs    pseudo-legal move generation
src/game/rules.rs      executing moves, castling rights, en passant, draws
src/game/fen.rs        FEN parsing
src/game/notation.rs   coordinate notation (`e2e4`, `e7e8q`)
src/game/render.rs     coloured board text
src/game/laws.rs       properties across operations
src/game/distinct.rs   no legal move is listed twice
src/engine.rs          alpha-beta search with iterative deepening, and plain minimax
src/engine/eval.rs     static evaluation and move ordering scores
src/engine/agreement.rs  the two attack tests agree
src/ui.rs              UCI text, status lines, keyboard handling, screen frame
src/tiles.rs, tiles/   a tile-based board with its own move rules and FEN setup
src/visuals.rs         screen text of a tile board
app/                   terminal front end (crossterm), prompts, Stockfish client
tests/                 scenarios
```

## Controls

Arrow keys move the cursor, Enter selects a piece or moves it, Esc clears
the selection and `q` quits.
