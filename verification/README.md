# editor_91to9

A file explorer that lists the files and folders of a directory with their
sizes, in a terminal or in a window; recursive folder sizes are computed in
the background so the list shows up at once.

## Layout

- `src/` — the library, verified with Verus:
  - `dir_info` — listing rules: the one-level listing capped at
    `max_entries`, the stable sort (folders first, then case-insensitive
    names), filling in recursive stats, and the recursive count of a
    directory tree as a state machine fed item by item, with a proof that it
    computes the tree's counts up to the depth limit.
  - `browse` — the browsing state: the current listing, scan generations
    (only the current generation's scan is applied), the hidden/filter
    projection and what opening an entry does.
  - `format_tools` — display width, clipping to a column budget, byte sizes.
  - `terminal_tools`, `terminal_ui_tools` — ANSI escape sequences written
    into byte buffers, and escaping of control characters in untrusted text.
  - `tui`, `gui`, `cli` — key handling, frame drawing with partial redraws,
    selection rules and command-line choices.
  - `text` — decimal and UTF-8 output, substring search, lower-casing.
- `app/` — the program: reading directories from disk, the background scan
  thread, the crossterm terminal loop and the eframe window.
- `tests/` — tests of the library.
