# floaty_todo

The logic of a floating Markdown to-do list, verified with Verus: tasks are
`- [ ]` lines in the user's own `.md` files, grouped by the four Eisenhower
quadrants, with an undo/redo history of every change and a hub folder that
mirrors all task sources.

- `src/` is the verified library. Each public function states in its
  contract what it returns or changes; the laws that relate functions (a
  toggle read back, undo restoring a file, hub names staying apart) are
  public proof functions, mostly in `readback.rs`, `history.rs` and `hub.rs`.
- `app/` is the unverified shell around it: file and process I/O, the file
  watcher, settings and history files, and the commands the front end calls.
- `tests/` runs the library on concrete inputs.
