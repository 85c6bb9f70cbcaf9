# fasthex

The logic of a hex dumper, written in Rust and proved with Verus.

- `src/` is the library. Every function states what it returns as a contract, and Verus proves
  that it does. `row` holds the text of a row in each display mode, `template`, `sample` and
  `layout` the templates that rows are made from, `border` the lines around them, `dump`, `plan` and
  `stream` whole dumps, `plain` and `custom` the other kinds of output, `reverse` the way back to the
  bytes, `args`, `size` and `text` the command line, `input` and `writer` the decisions around
  reading and writing.
- Laws that relate several functions stand beside them as public proof functions. Those that take
  modules of their own are in `roundtrip` (what a dump shows is read back), `uncolored` (colors
  change nothing but the colors) and `length` (rows of equal length).
- `app/` is the command line tool: arguments, files, threads and system calls.
- `tests/` runs the library on concrete values.

The library calls `clihelp` to lay out its help page. The application uses `memmap2`, `rayon` and
`libc`.
