# rust_lander

The rules of Rust Lander, a 3D lunar lander game, as a Verus-verified
library, with the program around it in `app/`.

- `src/high_score_table.rs`: the high score table (kept ordered by score,
  best ten, stable for equal scores) and the `DD/MM/YYYY HH:MM` time stamp
  of its lines, with the laws of both.
- `src/decimal.rs`: zero-padded decimal text.
- `src/end_screen.rs`: the end screen after a game: entering the game,
  typing a name, the frame counter and the colours of the table's lines.
- `src/lander.rs`: lives and the crash countdown of the lander.
- `src/rescue.rs`: when a rescue comes down, how many wait, and what picking rescues up
  scores.
- `src/ground_cells.rs`: folding cell indices of the repeating ground.
- `src/ids.rs`: handing out ids.
- `app/`: SDL keyboard input, the JavaScript bridge, the floating-point
  height map, and a `main` that runs the end screen.
- `tests/`: tests of the library.
