# kuroobi

A Reversi engine with its rules, evaluation, search and learning verified in
Verus.

- `src/` is the library. Boards and games stand on bitboards; patterns, their
  incremental indices and the linear and neural evaluations on boards; the
  searches, the exact solver, the opening book and learning on those; and the
  engine on all of them. Weights are held as the bits of floating-point numbers,
  values in the search as whole hundredths of a disc.
- `app/` is what surrounds it: floating-point evaluation and training, files,
  clocks, threads and the graphics device.
- `tests/` runs the library on concrete positions, games and files.
