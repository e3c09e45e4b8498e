//! Rainbow colouring of text for the terminal.
//!
//! The library decides, character by character, what a rainbow printer
//! writes: which characters are painted and at which point of the colour
//! wave, where lines break, which escape sequences pass through untouched and
//! when the terminal colours are reset.  It hands that decision out as a list
//! of [`Piece`]s; turning a piece into bytes on a terminal (and the
//! trigonometry of the colour wave) is left to the caller.
use vstd::prelude::*;

pub mod background;
pub mod chars;
pub mod cli;
pub mod color;
pub mod control;
pub mod help;
pub mod laws;
pub mod printer;
pub mod sequences;
pub mod session;
pub mod widths;

pub use chars::{is_whitespace, WordBuffer};
pub use cli::{is_stdin, resolve_print_color, resolve_terminal_width, resolve_word_wrap};
pub use color::calc_fg_color;
pub use control::{mode_for, Control, Escape, Fault, Mode, Piece, UNLIMITED_WIDTH};
pub use help::{print_rainbow_help, split_lines};
pub use printer::Printer;
pub use session::{
    generic_print_chars_lol, generic_print_lines_lol, lines_fault, print_chars_lol,
    print_chars_fault, print_lines_lol, session_fault,
};
