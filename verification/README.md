# reedline

The deciding parts of a line editor, written and proved in Verus.

- `src/history/file_backed.rs`: a bounded history of command lines. It says how
  the history file has to change to be in step with it, and takes over the
  outcome.
- `src/history/search.rs`: which entries a query asks for.
- `src/history/lines.rs`, `src/history/codec.rs`: the format of the file.
- `src/history/laws.rs`: what holds across the operations, such as that reading
  the file gives back what was written to it.
- `src/painting/dsr.rs`: which reply of the terminal answers which query.
- `app/`: opening, locking, reading and writing the history file.
- `tests/`: the library run on concrete values.
