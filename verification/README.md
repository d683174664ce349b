# remodeco

Review and execute file renames in a text editor. A directory is scanned into an
editable plan (`F<id>`, a tab, `:`, a tab, the destination); the edited plan is
previewed as a path diff in the terminal and executed through a journal that can be
resumed after an interruption and undone.

## Layout

- `src/` — the library, verified with Verus: plan generation and parsing, operation
  classification, scheduling of renames (with cycle breaking through staged paths),
  the journal state machine that drives execution and undo, session decisions
  (confirmation, reset, undo, deletion), the preview model and key handling of the
  review screen, editor selection, trash naming, and the text helpers they share.
- `tests/` — tests of the library on concrete values.
- `app/` — the program around the library: command line, settings files, session
  storage and locks, filesystem work, editor processes and the terminal screen.
