# mw

A small modal text editor for the terminal with a file memory: files that were opened
before are found again by a short query, ranked by how often and how recently they were
opened.

The library under `src/` holds the logic, verified with Verus:

- `text`: character helpers (digits, decimal notation, parsing, searching, UTF-8 lengths).
- `syntax`: file types and the colouring of a line.
- `db`: the file-memory database: scores, matching, ranking, reading and writing its text.
- `editor`: the editing state machine: normal and insert mode, motions, operators,
  counts, marks, clipboard, search, `:` commands, undo and redo.
- `screen`: tab expansion, display columns, the size hint and the drawing of a screen.
- `checks`: run-time tests of the conditions under which the editor's operations are defined.
- `laws`: undo and redo, a line and a cursor always on it, finding characters, and saving
  then loading giving the buffer back.

`app/main.rs` is the program around it: the terminal in raw mode, reading keys, the
prompts, the files and the database file, and the command line.
