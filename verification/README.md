# oxiden

A small terminal text editor whose editing logic is proved correct with
Verus.

- `src/` is the verified library: text models and lemmas (`text`), three
  text storages behind one `TextStorage` contract (a `Vec` of lines, a
  hand-rolled rope, and a wrapper around the `ropey` crate), the `Buffer`,
  `Document` (line endings, undo history, saving), `Editor` (commands and
  the cursor), key mapping and motions (`input`), what the screen shows
  (`render`, `viewport`), the config file format (`config`) and the
  interactive session that decides what each key press does (`session`).
- `app/` is the program around it: reading and writing files, the
  terminal, and the event loop that hands key presses to the session.
- `tests/` exercises the library on concrete values.
