# sudoku

A sudoku solver whose logic is verified with Verus. A board is read from 81
digits (`0` for a blank square); the solver rules out the candidates that placed
digits forbid and fills hidden and naked singles, round after round, until the
board is solved or no round changes it.

Layout of `src/`:

- `coords.rs` — positions, flat indices, and which squares see each other.
- `square.rs` — a square (a placed digit or its candidates) and its picture.
- `board.rs` — the board, reading it from text, ruling out seen candidates.
- `units.rs` — rows, columns, boxes, neighbours, and the walks over the 27 groups.
- `check.rs` — consistency of groups and of the board, completeness, one-hot rows.
- `singles.rs` — hidden and naked singles, and placing them.
- `pairs.rs` — hidden pairs (through `itertools` combinations).
- `render.rs` — the picture of the board, and a map of chosen squares.
- `solver.rs` — one step of a solving run.
- `laws.rs` — properties that span several functions.
- `text.rs` — decimal digits and characters.

`app/main.rs` reads the built-in puzzle and runs the solver, printing the board
after each step.
