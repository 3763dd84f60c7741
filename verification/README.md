# gomoku_rm

Gomoku on a 19×19 board for the reMarkable 2 tablet, with a verified core.

`src/` is the library, verified with Verus:

- `board.rs`: stones, move history, side to move, five in a row.
- `engine/shape.rs`: pattern counting and line scores.
- `engine/evaluate.rs`: the position evaluation over rows, columns and diagonals.
- `engine/alphabeta.rs`: candidate moves, move ordering, negamax with alpha-beta,
  iterative deepening under a time budget; `engine/mod.rs` holds the `Engine` trait.
- `savestate.rs`, `config.rs`, `i18n.rs`: save data, settings, UI strings.
- `scene/`: the screens' logic (board geometry, taps, the AI's turn, menu and settings
  layouts).
- `clock.rs`: the monotonic clock, the one part whose results nothing is proved about.

`app/` is the program around it: the framebuffer, touch input, the main loop, the
process-wide settings and language, and reading and writing the YAML files.
