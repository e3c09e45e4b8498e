//! The values that drive a rainbow printer and the pieces of output it makes.
use vstd::prelude::*;

verus! {

/// The settings of a rainbow printer and the current point of its colour wave.
///
/// `seed` counts how far the colour wave has advanced from the point where
/// the caller started it; the caller turns it into a colour.
#[derive(Debug, Clone, Copy, PartialEq, Eq, Structural)]
pub struct Control {
    pub seed: u64,
    pub background_mode: bool,
    pub dialup_mode: bool,
    pub print_color: bool,
    pub word_wrap: bool,
    pub terminal_width: u16,
}

/// How a run of characters is laid out.
#[derive(Debug, Clone, Copy, PartialEq, Eq, Structural)]
pub struct Mode {
    /// Break lines that reach the terminal width.
    pub line_wrap: bool,
    /// Keep words whole when breaking lines.
    pub word_wrap: bool,
    /// Reset the colours and flush after every character or escape sequence.
    pub constantly_flush: bool,
}

/// Where the printer stands inside an ANSI escape sequence.
#[derive(Debug, Clone, Copy, PartialEq, Eq, Structural)]
pub enum Escape {
    /// Not inside an escape sequence.
    Idle,
    /// Just after the escape character.
    Start,
    /// Inside the parameter bytes of a control sequence (`ESC [`).
    CsiParams,
    /// Inside the intermediate bytes of a control sequence.
    CsiIntermediates,
    /// Inside an nF escape sequence.
    Nf,
}

/// One piece of output.
#[derive(Debug, Clone, Copy, PartialEq, Eq, Structural)]
pub enum Piece {
    /// A character written as it is.
    Text(char),
    /// A character written in the foreground colour at the given point of the wave.
    Paint(char, u64),
    /// A character written on a background of the colour at the given point
    /// of the wave, in black or white, whichever stands out.
    PaintBackground(char, u64),
    /// Reset the background colour (`ESC [49m`).
    ResetBackground,
    /// Reset the foreground colour (`ESC [39m`).
    ResetForeground,
    /// End the line.
    LineBreak,
    /// Pause for a short random time, as a slow modem would.
    Stall,
    /// Flush the output.
    Flush,
}

/// The ways in which a run of characters cannot be printed.
#[derive(Debug, Clone, Copy, PartialEq, Eq, Structural)]
pub enum Fault {
    /// The input ended right after an escape character.
    EscapeWithoutSequence,
    /// The input ended inside a control sequence.
    CsiUnterminated,
    /// A control sequence held a character that cannot stand there.
    CsiBadTerminator,
    /// The input ended inside an nF escape sequence.
    NfUnterminated,
    /// An nF escape sequence held a character that cannot stand there.
    NfBadTerminator,
    /// A 16-bit column count would leave its range.
    ColumnOverflow,
}

/// The width that stands for a terminal of unlimited width.
pub const UNLIMITED_WIDTH: u16 = 0xffff;

/// The layout that the settings ask for.
pub open spec fn spec_mode_for(c: Control, constantly_flush: bool) -> Mode {
    if c.terminal_width == UNLIMITED_WIDTH {
        Mode { line_wrap: false, word_wrap: false, constantly_flush }
    } else if !c.word_wrap {
        Mode { line_wrap: true, word_wrap: false, constantly_flush }
    } else {
        Mode { line_wrap: true, word_wrap: true, constantly_flush }
    }
}

/// Picks the layout for the settings: no wrapping on a terminal of unlimited
/// width, line wrapping, or word wrapping.
pub fn mode_for(c: &Control, constantly_flush: bool) -> (m: Mode)
    ensures
        m == spec_mode_for(*c, constantly_flush),
{
    if c.terminal_width == UNLIMITED_WIDTH {
        Mode { line_wrap: false, word_wrap: false, constantly_flush }
    } else if !c.word_wrap {
        Mode { line_wrap: true, word_wrap: false, constantly_flush }
    } else {
        Mode { line_wrap: true, word_wrap: true, constantly_flush }
    }
}

} // verus!
