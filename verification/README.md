# wrecked

An environment for character-based terminal graphics: a tree of rectangles, each with its
own characters, effects and children, drawn to the terminal as ANSI text. The library is
written in Verus; every public function states what it does in `requires`/`ensures`, and
Verus proves the code against those contracts.

## Layout

- `src/effects.rs` — colors and text effects.
- `src/error.rs` — the error type, and the numbers results are reported by over a C interface.
- `src/ansi.rs` — building the ANSI text for a list of cells.
- `src/rect.rs` — a rectangle: its characters, its children's placement, its display records.
- `src/tree.rs` — the well-formedness of the forest of rectangles, and what the operations
  flag for redrawing.
- `src/text.rs` — laying out strings row after row.
- `src/render.rs` — the model of what a rectangle shows and what drawing it yields.
- `src/order.rs` — sorting cells row by row.
- `src/manager.rs` — `RectManager`, the environment and all its operations.
- `src/laws.rs` — properties that hold across calls (a read gives back a write, drawing twice
  draws nothing new, ...).
- `tests/` — scenarios and concrete checks of the contracts.
- `app/` — the terminal around the library: raw mode, the alternate screen, the terminal's
  size, writing the frames out, and a C interface.
