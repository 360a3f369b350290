# sudoku

A sudoku board that keeps, for every empty cell, the values still possible
for it, and a logical solver that applies human techniques in rounds (naked
and hidden singles, naked pairs and triples, hidden pairs, pointing pairs,
box/line reduction) until a round changes nothing.

- `src/` is the library, verified with Verus: `cell` and `grid` hold the
  board, `model` and `rules` state in the abstract what every operation and
  technique does, `solver` implements them, `sound` proves that every step
  allows exactly the solutions that the board allowed before it, `input` decides what a frame of clicks and
  keys does, and `testdata` holds sample puzzles.
- `app/` is the egui window around it; its Solve button runs the solver one
  round at a time on a background thread.
- `tests/` runs the library on concrete boards.
