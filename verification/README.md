# editor

A small terminal text editor whose text is held in a rope, written in Verus.

- `src/` is the verified library:
  - `rope.rs`: the rope (leaves of shared string slices under nodes that know their
    depth and the length of their left side), with balancing by the Fibonacci rule;
    its view is the UTF-8 bytes of the text.
  - `fib.rs`: the Fibonacci numbers that the balance rule uses.
  - `utf8.rs`, `lines.rs`: characters, lines, columns and words of UTF-8 text, as
    spec functions with their lemmas.
  - `editor.rs`: the text being edited, its cursor and its view.
  - `prompt.rs`, `message.rs`: the status line's input prompt and messages.
  - `line_ending.rs`: `\n` and `\r\n` files.
  - `app.rs`: the application: key and resize events in, what to read or write out.
  - `cli.rs`: the command line.
  - `std_calls.rs`: the standard-library calls that `vstd` gives no contract, each
    behind a function whose contract is trusted.
- `app/main.rs` runs it in a terminal with `crossterm` and does the file I/O.
- `tests/` runs the library on concrete values.
