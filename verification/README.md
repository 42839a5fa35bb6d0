# sudoku_rs

A Sudoku model, human-style solver and puzzle generator, written in Verus: the
library's behaviour is stated in `requires` / `ensures` contracts over
mathematical models (`Seq`, `Set`, `int`) and proved by Verus.

## Layout

- `src/` — the verified library.
  - `grid.rs`, `grid_constant.rs`, `candidate.rs`: the grid, its candidates and the
    fixed geometry of rows, columns and blocks; parsing and printing of the usual
    text formats.
  - `solver/`: one module per technique (singles, subsets, locked candidates, fish,
    wings, skyscraper, colouring, ALS, uniqueness, brute force, ...). Each finder
    proves that what it reports is a valid step of its kind; `step.rs` states what
    applying a step does, and `SimpleSolver` in `solver/mod.rs` ties the techniques
    together (hints and full solving paths).
  - `generator/`: puzzle generation from a random solution, with symmetric removal.
  - `front.rs`: the request/response layer used by the web front end.
  - `util/`: bit sets of cells and digits, combinations, clock and random wrappers.
- `tests/` — executable tests of the library.
- `app/` — the WebAssembly bindings (serde and `wasm_bindgen`), ordinary Rust that
  converts between JavaScript values and the library's types.

Calls into outside crates (`itertools`, `rand`, `web-time`, a few std functions)
go through small `#[verifier::external_body]` wrappers whose contracts state what
the crates document.
