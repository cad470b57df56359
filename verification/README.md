# rsakura

Terminal cherry blossom screensaver: a static ASCII tree with leaves that
fall in a lightweight physics loop.

- `src/` is the verified library: the cell grid a frame is composed in
  (`buffer`), the commands that paint a grid onto a terminal and the proof
  that they show exactly the grid (`paint`), the reading of tree art and its
  scaling onto the grid (`art`), the grammar of colour arguments (`cli`), and
  the decision taken on each terminal event (`input`).
- `app/` is the program around it: argument parsing, the terminal, the
  floating-point leaf physics and art scaling, and the frame loop.
- `tests/` runs the library on concrete values.
