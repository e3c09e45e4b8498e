//! Decisions taken on the command line's values.
use vstd::prelude::*;
use crate::control::UNLIMITED_WIDTH;

verus! {

/// Whether the input is standard input: no file name was given.
pub fn is_stdin(filename: &String) -> (r: bool)
    ensures
        r == (filename@.len() == 0),
{
    filename.as_str().is_empty()
}

/// The terminal width to wrap at, from the width asked for on the command
/// line (if it was a number) and the width of the terminal (if it is known):
/// a width asked for wins, and 0 means no limit; otherwise the terminal's
/// width, or no limit when it is not known.
pub open spec fn spec_resolve_terminal_width(requested: Option<u16>, detected: Option<u16>) -> u16 {
    match requested {
        Some(w) => if w == 0 {
            UNLIMITED_WIDTH
        } else {
            w
        },
        None => match detected {
            Some(cols) => cols,
            None => UNLIMITED_WIDTH,
        },
    }
}

/// Picks the terminal width to wrap at.
pub fn resolve_terminal_width(requested: Option<u16>, detected: Option<u16>) -> (w: u16)
    ensures
        w == spec_resolve_terminal_width(requested, detected),
        requested == Some(0u16) ==> w == UNLIMITED_WIDTH,
        forall|x: u16| requested == Some(x) && x != 0 ==> w == x,
        requested is None ==> w == match detected {
            Some(cols) => cols,
            None => UNLIMITED_WIDTH,
        },
{
    match requested {
        Some(w) => if w == 0 {
            UNLIMITED_WIDTH
        } else {
            w
        },
        None => match detected {
            Some(cols) => cols,
            None => UNLIMITED_WIDTH,
        },
    }
}


/// Whether to keep words whole: as asked on the command line if it was
/// asked, and otherwise for a file but not for standard input.
pub open spec fn spec_resolve_word_wrap(requested: Option<bool>, filename: Seq<char>) -> bool {
    match requested {
        Some(b) => b,
        None => filename.len() != 0,
    }
}

/// Picks whether to keep words whole.
pub fn resolve_word_wrap(requested: Option<bool>, filename: &String) -> (r: bool)
    ensures
        r == spec_resolve_word_wrap(requested, filename@),
        requested == Some(true) ==> r,
        requested == Some(false) ==> !r,
        requested is None ==> r == (filename@.len() != 0),
{
    match requested {
        Some(b) => b,
        None => !is_stdin(filename),
    }
}

/// Whether to print colours: when they are forced, or when the output is a
/// terminal.
pub fn resolve_print_color(force_color: bool, output_is_terminal: bool) -> (r: bool)
    ensures
        r == (force_color || output_is_terminal),
{
    force_color || output_is_terminal
}


/// A width asked for on the command line wins over the terminal's width,
/// whatever that is; only 0 stands for no limit.
pub proof fn law_requested_width_wins(w: u16, detected: Option<u16>)
    ensures
        w != 0 ==> spec_resolve_terminal_width(Some(w), detected) == w,
        w == 0 ==> spec_resolve_terminal_width(Some(w), detected) == UNLIMITED_WIDTH,
        spec_resolve_terminal_width(Some(w), detected) == spec_resolve_terminal_width(Some(w), None),
{
}

/// The terminal's width counts only when no width was asked for, and no
/// known width means no limit.
pub proof fn law_detected_width_when_none_requested(cols: u16)
    ensures
        spec_resolve_terminal_width(None, Some(cols)) == cols,
        spec_resolve_terminal_width(None, None) == UNLIMITED_WIDTH,
{
}

/// An explicit choice of word wrapping is taken as given, for a file and for
/// standard input alike; without one, words are kept whole for a file only.
pub proof fn law_explicit_word_wrap_wins(b: bool, filename: Seq<char>)
    ensures
        spec_resolve_word_wrap(Some(b), filename) == b,
        spec_resolve_word_wrap(Some(b), filename) == spec_resolve_word_wrap(Some(b), Seq::empty()),
        spec_resolve_word_wrap(None, filename) == (filename.len() != 0),
{
}

} // verus!
