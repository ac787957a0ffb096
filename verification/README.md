# diffo

A terminal tool for reading Git diffs, marking files as reviewed and keeping
comments on lines. The logic is a library that is verified with Verus; the
program around it is ordinary Rust.

## Layout

- `src/` — the verified library.
  - `diff`, `git`, `git_laws` — patches, targets, snapshots, and what Git is
    asked for.
  - `store`, `json`, `clock`, `util` — comments and review marks, the documents
    that hold them, times, and text.
  - `cli`, `theme` — the command line and colours.
  - `inline_diff`, `syntax`, `syntax_query`, `syntax_cache`, `syntax_grammars` —
    changes within lines and syntax colours.
  - `tui*` — the review screen: views, wrapping, geometry, keys, the editor, the
    input decoder, frames and the repaint of the terminal.
- `tests/` — tests of the library from outside.
- `app/` — arguments, files, processes and the terminal.

The public proof functions whose names begin with `law_` state what holds across
functions: what a write reads back as, what a move keeps, what a frame fills.
