# shutton

A small GTK launcher: a text field takes a shell command, `%name`
placeholders in it get a value each, the command runs with its errors merged
into its output, and the output (cleaned of terminal escape sequences) is
shown, copied or saved. On each run the command and the "quit when done"
toggle are stored in a trailer appended to the program's own executable, and
read back when it starts, so a copy of the binary carries its own command.

Layout:

- `src/` — the verified library (Verus):
  - `text.rs` — strings as character sequences, character classes;
  - `vars.rs` — finding the placeholders of a command;
  - `subst.rs` — filling placeholders in;
  - `ansi.rs` — removing escape sequences from output;
  - `config.rs` — the settings trailer: reading, writing, replacing, and the
    proofs that what is written reads back and that rewriting replaces;
  - `session.rs` — starting a run, handling output messages, window height.
- `app/` — the GTK window, the worker threads that run commands, and the
  file access (plain Rust around the library).
- `tests/` — tests of the library.
