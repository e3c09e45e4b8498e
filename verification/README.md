# lolcat

Rainbow colouring of text for the terminal, as a verified library and a
small command around it.

- `src/` is the library, verified with Verus. It reads characters one at a
  time and says what to write, as a list of `Piece`s: characters painted at a
  point of the colour wave, characters written as they are (escape sequences,
  leading white space in background mode), line breaks, colour resets,
  flushes and modem-like pauses. It wraps lines at the terminal width or keeps
  words whole, and reports the inputs that cannot be printed (broken escape
  sequences, column counts that leave 16 bits) through `Fault`s.
  - `control.rs`: settings, layout modes, pieces and faults.
  - `chars.rs`: white space, and the buffer of the waiting word (counted in
    characters).
  - `printer.rs`: the printer as a state machine, with its model.
  - `session.rs`: whole runs of characters and lists of lines.
  - `help.rs`: splitting text into lines, the coloured help text.
  - `color.rs`, `cli.rs`: foreground choice, command-line decisions.
  - `laws.rs`: what holds over whole runs.
  - `widths.rs`: how wide the lines of the output get.
- `app/main.rs` is the command: argument parsing, reading files and standard
  input, the colour wave's trigonometry and writing to the terminal.
- `tests/` runs the library on concrete inputs.
