# niuristic

Heuristic-search building blocks and contest solvers, written in Verus with
their behaviour stated as contracts and proved.

- `src/beam`: beam searches that walk one state along an Euler tour of the
  kept search tree (`ett`, `leaf`), the selectors that keep the best
  candidates (`selector`, `max_seg`), and a chained tree of leaves.
- `src/ds`: bit sets, a fixed queue, union-find.
- `src/random`: xorshift128 and the PCG generator used by the solvers.
- `src/util`: grid positions and neighbour tables, backtracking records,
  and a clock reading.
- `src/contest`: the logic of the contest solvers (packing, sliding puzzle,
  tile walks, typing, delivery routes, forest levels, torus strings,
  maze routes, zero-sum counters and more), with the search states that
  the beam searches walk (`PackSearch`, `ZeroSumSearch`, `SlideSearch`,
  `TypingSearch`), each proved to undo what it applies.
- `app/`: the programs around the library: input and output and the
  floating-point acceptance rules.
- `tests/`: tests of the library on concrete inputs.
