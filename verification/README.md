# vnstudio

A studio for cellular automata on an unbounded grid: von Neumann's
29-state automaton (JvN29) and Conway's Game of Life. Patterns are read
from Golly RLE files and from the studio's own `.vns` documents, run
generation by generation, and paused by breakpoints on cells.

## Layout

- `src/` is the library, written in Verus and verified:
  - `cell`, `von_neumann`, `game_of_life`: states, neighborhoods and rules;
  - `rule_lut`: a rule tabulated over every state and neighborhood;
  - `storage`: the grid in chunks of 64 by 64 cells with their borders;
  - `evaluator`, `automaton`: computing the next generation;
  - `chunk_neighbors`: the neighbor table of the chunks;
  - `kernel_names`: the kernel entries of a PTX module, found by name;
  - `golly`: reading Golly RLE text;
  - `vns`: the `.vns` document and its run-length encoded cells;
  - `round_trip`: writing a pattern and reading it back gives it back;
  - `studio`, `session`: the pattern being edited and the decisions of a
    running simulation (steps, breakpoints, stages);
  - `text`: characters, trimming and decimal numbers.
- `tests/` runs the library on concrete patterns.
- `app/` is the program around it: the window (eframe), file dialogs (rfd),
  JSON text (serde), SVG glyphs (roxmltree) and the worker threads that
  compute chunks in parallel (rayon).
