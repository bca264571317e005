# takuzu

The logic of a binary-symbol grid puzzle: every row and column of a square
grid holds as many `X` as `Y`, no three equal symbols stand next to each other
in a line, and `=` / `x` marks between neighbours ask for equal or different
symbols.

- `src/` is the library, verified with Verus:
  - `rules.rs`: the rules as spec functions, and the laws of propagation and
    of the solver's choices;
  - `grid_cell.rs`, `level.rs`: cells, marks and the grid of cells;
  - `level_builder.rs`: the solver (propagation, cell choice, one search step
    at a time), the drawing of mark pairs and the hiding of symbols;
  - `level_manager.rs`: the check of a move against its row and column;
  - `level_generator.rs`: a builder of levels from cell properties;
  - `entries.rs`, `text.rs`: sorted id/symbol tables and message text.
- `app/` holds the Godot nodes around the library: drawing, input, signals,
  random draws, timing, and the difficulty system computed in floats.
- `tests/` runs the library on concrete grids.
