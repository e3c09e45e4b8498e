//! The printer: a state machine that reads one character at a time and says
//! what to write.
//!
//! Each exec function here has a spec function of the same name with a
//! `spec_` prefix; the spec functions together are the model of the printer,
//! over an [`Outcome`]: the printer, the settings, the waiting word and the
//! pieces written so far.
use vstd::prelude::*;
use crate::chars::{is_whitespace, len16, spec_is_whitespace, WordBuffer};
use crate::control::{Control, Escape, Fault, Mode, Piece};

verus! {

/// The state that a printer keeps while it reads a run of characters.
#[derive(Debug, Clone, Copy, PartialEq, Eq, Structural)]
pub struct Printer {
    pub mode: Mode,
    /// The point of the colour wave at which the current line started.
    pub line_seed: u64,
    /// Whether white space is still written without colour (at the start of
    /// a line, in background mode).
    pub ignoring_whitespace: bool,
    /// The number of columns used on the current line.
    pub printed_chars_on_line: u16,
    /// Where the printer stands inside an escape sequence.
    pub escape: Escape,
}

/// Everything that one character changes: the printer, the settings, the
/// waiting word, and the pieces written so far.
#[verifier::ext_equal]
pub struct Outcome {
    pub printer: Printer,
    pub control: Control,
    pub buffer: Seq<char>,
    pub pieces: Seq<Piece>,
}

pub open spec fn outcome(p: Printer, c: Control, buffer: Seq<char>, pieces: Seq<Piece>) -> Outcome {
    Outcome { printer: p, control: c, buffer, pieces }
}

/// `o` with the pieces written so far replaced by `pieces`.
pub open spec fn with_pieces(o: Outcome, pieces: Seq<Piece>) -> Outcome {
    Outcome { pieces, ..o }
}

/// `s + k`, held at `u64::MAX`.
pub open spec fn bump(s: u64, k: nat) -> u64 {
    if s + k <= u64::MAX {
        (s + k) as u64
    } else {
        u64::MAX
    }
}

/// The piece that paints `ch` at point `seed` of the wave.
pub open spec fn painted(ch: char, seed: u64, background: bool) -> Piece {
    if background {
        Piece::PaintBackground(ch, seed)
    } else {
        Piece::Paint(ch, seed)
    }
}

/// What ending a line writes.
pub open spec fn newline_pieces(c: Control) -> Seq<Piece> {
    (if c.print_color && c.background_mode {
        seq![Piece::ResetBackground]
    } else {
        Seq::empty()
    }) + seq![Piece::LineBreak] + (if c.dialup_mode {
        seq![Piece::Stall]
    } else {
        Seq::empty()
    })
}

/// What resetting the colours writes.
pub open spec fn reset_pieces(c: Control) -> Seq<Piece> {
    if c.print_color {
        (if c.background_mode {
            seq![Piece::ResetBackground]
        } else {
            Seq::empty()
        }) + seq![Piece::ResetForeground]
    } else {
        Seq::empty()
    }
}

/// The state of a printer when it starts on a run of characters.
pub open spec fn spec_start(mode: Mode, c: Control) -> Printer {
    Printer {
        mode,
        line_seed: c.seed,
        ignoring_whitespace: c.background_mode,
        printed_chars_on_line: 0,
        escape: Escape::Idle,
    }
}

/// Ending a line: the wave moves one step on from where the line started,
/// the column count starts again, and so does the plain white space of
/// background mode.
pub open spec fn spec_handle_newline(o: Outcome) -> Outcome {
    let ls = bump(o.printer.line_seed, 1);
    Outcome {
        printer: Printer {
            line_seed: ls,
            ignoring_whitespace: o.control.background_mode,
            printed_chars_on_line: 0,
            ..o.printer
        },
        control: Control { seed: ls, ..o.control },
        buffer: o.buffer,
        pieces: o.pieces + newline_pieces(o.control),
    }
}

/// Whether the line is full before a character is printed.
pub open spec fn line_is_full(o: Outcome) -> bool {
    o.printer.mode.line_wrap && o.printer.printed_chars_on_line == o.control.terminal_width
}

/// Whether printing one character keeps the column count in 16 bits.
pub open spec fn char_fits(o: Outcome) -> bool {
    let printed = if line_is_full(o) {
        0
    } else {
        o.printer.printed_chars_on_line
    };
    !o.printer.mode.line_wrap || printed < 0xffff
}

/// Printing one character: break a full line first, then write the
/// character, plain if it is leading white space in background mode and
/// painted otherwise; the wave moves one step either way.
pub open spec fn spec_print_char_lol(o: Outcome, ch: char) -> Outcome {
    let o1 = if line_is_full(o) {
        spec_handle_newline(o)
    } else {
        o
    };
    let plain = o1.printer.ignoring_whitespace && spec_is_whitespace(ch);
    let piece = if plain {
        Piece::Text(ch)
    } else {
        painted(ch, o1.control.seed, o1.control.background_mode)
    };
    Outcome {
        printer: Printer {
            ignoring_whitespace: plain,
            printed_chars_on_line: if o1.printer.mode.line_wrap {
                (o1.printer.printed_chars_on_line + 1) as u16
            } else {
                o1.printer.printed_chars_on_line
            },
            ..o1.printer
        },
        control: Control { seed: bump(o1.control.seed, 1), ..o1.control },
        buffer: o1.buffer,
        pieces: o1.pieces.push(piece),
    }
}

/// Writing the characters of a word: leading white space plain while
/// `ignoring`, every other character painted, the wave moving one step for
/// each painted character.  Gives the new `ignoring`, the new seed and the
/// pieces.
pub open spec fn spec_paint_word(ignoring: bool, seed: u64, background: bool, word: Seq<char>) -> (
    bool,
    u64,
    Seq<Piece>,
)
    decreases word.len(),
{
    if word.len() == 0 {
        (ignoring, seed, Seq::empty())
    } else {
        let (ign, s, ps) = spec_paint_word(ignoring, seed, background, word.drop_last());
        let ch = word.last();
        if ign && spec_is_whitespace(ch) {
            (ign, s, ps.push(Piece::Text(ch)))
        } else {
            (false, bump(s, 1), ps.push(painted(ch, s, background)))
        }
    }
}

/// Whether the column count plus the waiting word's length fits in 16 bits.
pub open spec fn word_fits(o: Outcome) -> bool {
    o.printer.printed_chars_on_line + len16(o.buffer) <= 0xffff
}

/// Whether the waiting word does not fit on the current line.
pub open spec fn word_overflows_line(o: Outcome) -> bool {
    o.printer.printed_chars_on_line + len16(o.buffer) >= o.control.terminal_width
}

/// Printing the waiting word: break the line first if the word does not fit
/// on it, then write the word and empty the buffer.
pub open spec fn spec_print_word_lol(o: Outcome) -> Outcome {
    let n = len16(o.buffer);
    let o1 = if word_overflows_line(o) {
        spec_handle_newline(o)
    } else {
        o
    };
    let (ign, seed, ps) = spec_paint_word(
        o1.printer.ignoring_whitespace,
        o1.control.seed,
        o1.control.background_mode,
        o1.buffer,
    );
    Outcome {
        printer: Printer {
            ignoring_whitespace: ign,
            printed_chars_on_line: (o1.printer.printed_chars_on_line + n) as u16,
            ..o1.printer
        },
        control: Control { seed, ..o1.control },
        buffer: Seq::empty(),
        pieces: o1.pieces + ps,
    }
}

/// Whether `ch` is a parameter byte of a control sequence.
pub open spec fn is_param_byte(ch: char) -> bool {
    0x30 <= ch as u32 <= 0x3f
}

/// Whether `ch` is an intermediate byte of an escape sequence.
pub open spec fn is_intermediate_byte(ch: char) -> bool {
    0x20 <= ch as u32 <= 0x2f
}

/// Whether `ch` is a final byte of a control sequence.
pub open spec fn is_final_byte(ch: char) -> bool {
    0x40 <= ch as u32 <= 0x7e
}

/// Whether `ch` is a final byte of an nF escape sequence.
pub open spec fn is_nf_final_byte(ch: char) -> bool {
    0x30 <= ch as u32 <= 0x7e
}

/// Where the printer stands after `ch` inside an escape sequence.
pub open spec fn spec_next_escape(e: Escape, ch: char) -> Escape {
    match e {
        Escape::Idle => Escape::Idle,
        Escape::Start => if ch == '[' {
            Escape::CsiParams
        } else if is_intermediate_byte(ch) {
            Escape::Nf
        } else {
            Escape::Idle
        },
        Escape::CsiParams => if is_param_byte(ch) {
            Escape::CsiParams
        } else if is_intermediate_byte(ch) {
            Escape::CsiIntermediates
        } else {
            Escape::Idle
        },
        Escape::CsiIntermediates => if is_intermediate_byte(ch) {
            Escape::CsiIntermediates
        } else {
            Escape::Idle
        },
        Escape::Nf => if is_intermediate_byte(ch) {
            Escape::Nf
        } else {
            Escape::Idle
        },
    }
}

/// Whether `ch` may stand next inside an escape sequence.
pub open spec fn escape_accepts(e: Escape, ch: char) -> bool {
    match e {
        Escape::Idle => true,
        Escape::Start => true,
        Escape::CsiParams => is_param_byte(ch) || is_intermediate_byte(ch) || is_final_byte(ch),
        Escape::CsiIntermediates => is_intermediate_byte(ch) || is_final_byte(ch),
        Escape::Nf => is_intermediate_byte(ch) || is_nf_final_byte(ch),
    }
}

/// A character inside an escape sequence is written as it is.
pub open spec fn spec_feed_escape(o: Outcome, ch: char) -> Outcome {
    Outcome {
        printer: Printer { escape: spec_next_escape(o.printer.escape, ch), ..o.printer },
        pieces: o.pieces.push(Piece::Text(ch)),
        ..o
    }
}

/// The column count after the waiting word is printed.
pub open spec fn printed_after_word(o: Outcome) -> int {
    if word_overflows_line(o) {
        len16(o.buffer) as int
    } else {
        o.printer.printed_chars_on_line + len16(o.buffer)
    }
}

/// A character outside escape sequences, in colour.
pub open spec fn spec_feed_plain(o: Outcome, ch: char) -> Outcome {
    if ch == '\x1b' {
        Outcome {
            printer: Printer { escape: Escape::Start, ..o.printer },
            pieces: o.pieces.push(Piece::Text(ch)),
            ..o
        }
    } else if ch == '\n' {
        let o1 = if o.printer.mode.word_wrap {
            spec_print_word_lol(o)
        } else {
            o
        };
        spec_handle_newline(o1)
    } else if ch == ' ' {
        if o.printer.mode.word_wrap {
            let o1 = spec_print_word_lol(o);
            if o1.printer.printed_chars_on_line == o1.control.terminal_width - 1 {
                spec_handle_newline(o1)
            } else {
                spec_print_char_lol(o1, ch)
            }
        } else {
            spec_print_char_lol(o, ch)
        }
    } else {
        if o.printer.mode.word_wrap {
            let o1 = if len16(o.buffer) + 1 >= o.control.terminal_width {
                spec_handle_newline(spec_print_word_lol(o))
            } else {
                o
            };
            Outcome { buffer: o1.buffer.push(ch), ..o1 }
        } else {
            spec_print_char_lol(o, ch)
        }
    }
}

/// Resetting the colours.
pub open spec fn spec_reset_colors(o: Outcome) -> Outcome {
    Outcome { pieces: o.pieces + reset_pieces(o.control), ..o }
}

/// One character read by the printer.  Without colour it is written as it
/// is.  In colour, once a character or a whole escape sequence is done, the
/// colours are reset and the output flushed when the mode asks for that.
pub open spec fn spec_feed(o: Outcome, ch: char) -> Outcome {
    if !o.control.print_color {
        Outcome { pieces: o.pieces.push(Piece::Text(ch)), ..o }
    } else {
        let o1 = match o.printer.escape {
            Escape::Idle => spec_feed_plain(o, ch),
            _ => spec_feed_escape(o, ch),
        };
        if o.printer.mode.constantly_flush && o1.printer.escape is Idle {
            let o2 = spec_reset_colors(o1);
            Outcome { pieces: o2.pieces.push(Piece::Flush), ..o2 }
        } else {
            o1
        }
    }
}

/// Whether the printer can read `ch`: an escape sequence goes on or ends
/// properly, and no 16-bit column count leaves its range.
pub open spec fn spec_accepts(o: Outcome, ch: char) -> bool {
    if !o.control.print_color {
        true
    } else {
        match o.printer.escape {
            Escape::Idle => if ch == '\x1b' {
                true
            } else if ch == '\n' {
                !o.printer.mode.word_wrap || word_fits(o)
            } else if ch == ' ' {
                if o.printer.mode.word_wrap {
                    &&& word_fits(o)
                    &&& o.control.terminal_width >= 1
                    &&& (printed_after_word(o) == o.control.terminal_width - 1 || char_fits(
                        spec_print_word_lol(o),
                    ))
                } else {
                    char_fits(o)
                }
            } else {
                if o.printer.mode.word_wrap {
                    len16(o.buffer) != 0xffff && (len16(o.buffer) + 1 >= o.control.terminal_width
                        ==> word_fits(o))
                } else {
                    char_fits(o)
                }
            },
            _ => escape_accepts(o.printer.escape, ch),
        }
    }
}

/// The fault that `ch` meets, if any.
pub open spec fn spec_fault(o: Outcome, ch: char) -> Option<Fault> {
    if spec_accepts(o, ch) {
        None
    } else {
        match o.printer.escape {
            Escape::Nf => Some(Fault::NfBadTerminator),
            Escape::Idle => Some(Fault::ColumnOverflow),
            _ => Some(Fault::CsiBadTerminator),
        }
    }
}

/// Whether a word waits to be printed when the input ends.
pub open spec fn word_waits(o: Outcome) -> bool {
    o.control.print_color && o.printer.mode.word_wrap && o.buffer.len() > 0
}

/// The end of the input: a word that still waits is printed, like any
/// other word, and the colours are reset and the output flushed after it
/// if the mode asks for that.
#[verifier::opaque]
pub open spec fn spec_finish(o: Outcome) -> Outcome {
    if word_waits(o) {
        let w = spec_print_word_lol(o);
        if o.printer.mode.constantly_flush {
            let r = spec_reset_colors(w);
            Outcome { pieces: r.pieces.push(Piece::Flush), ..r }
        } else {
            w
        }
    } else {
        o
    }
}

/// The fault of ending the input inside an escape sequence, if any.
pub open spec fn spec_escape_end_fault(e: Escape) -> Option<Fault> {
    match e {
        Escape::Idle => None,
        Escape::Start => Some(Fault::EscapeWithoutSequence),
        Escape::CsiParams => Some(Fault::CsiUnterminated),
        Escape::CsiIntermediates => Some(Fault::CsiUnterminated),
        Escape::Nf => Some(Fault::NfUnterminated),
    }
}

/// The fault of ending the input and printing the waiting word, if any:
/// ending inside an escape sequence, or a waiting word that a 16-bit column
/// count cannot take.
pub open spec fn spec_end_fault(o: Outcome) -> Option<Fault> {
    match o.printer.escape {
        Escape::Idle => if word_waits(o) && !word_fits(o) {
            Some(Fault::ColumnOverflow)
        } else {
            None
        },
        Escape::Start => Some(Fault::EscapeWithoutSequence),
        Escape::CsiParams => Some(Fault::CsiUnterminated),
        Escape::CsiIntermediates => Some(Fault::CsiUnterminated),
        Escape::Nf => Some(Fault::NfUnterminated),
    }
}

/// The piece that paints `ch` at the current point of the wave.
fn colored_print(ch: char, c: &Control) -> (piece: Piece)
    ensures
        piece == painted(ch, c.seed, c.background_mode),
{
    if c.background_mode {
        Piece::PaintBackground(ch, c.seed)
    } else {
        Piece::Paint(ch, c.seed)
    }
}

/// Ends the line.
fn handle_newline(p: &mut Printer, c: &mut Control, buf: &WordBuffer, out: &mut Vec<Piece>)
    ensures
        outcome(*final(p), *final(c), buf@, final(out)@) =~= spec_handle_newline(
            outcome(*old(p), *old(c), buf@, old(out)@),
        ),
{
    let ghost before = out@;
    if c.print_color && c.background_mode {
        out.push(Piece::ResetBackground);
    }
    out.push(Piece::LineBreak);
    if c.dialup_mode {
        out.push(Piece::Stall);
    }
    assert(out@ =~= before + newline_pieces(*c));
    p.line_seed = p.line_seed.saturating_add(1);
    c.seed = p.line_seed;
    p.ignoring_whitespace = c.background_mode;
    p.printed_chars_on_line = 0;
}

/// Prints one character.
fn print_char_lol(
    ch: char,
    p: &mut Printer,
    c: &mut Control,
    buf: &WordBuffer,
    out: &mut Vec<Piece>,
)
    requires
        char_fits(outcome(*old(p), *old(c), buf@, old(out)@)),
    ensures
        outcome(*final(p), *final(c), buf@, final(out)@) =~= spec_print_char_lol(
            outcome(*old(p), *old(c), buf@, old(out)@),
            ch,
        ),
{
    if p.mode.line_wrap && p.printed_chars_on_line == c.terminal_width {
        handle_newline(p, c, buf, out);
    }
    if p.ignoring_whitespace {
        if is_whitespace(ch) {
            out.push(Piece::Text(ch));
        } else {
            p.ignoring_whitespace = false;
            out.push(colored_print(ch, c));
        }
    } else {
        out.push(colored_print(ch, c));
    }
    c.seed = c.seed.saturating_add(1);
    if p.mode.line_wrap {
        p.printed_chars_on_line = p.printed_chars_on_line + 1;
    }
}

/// Prints the waiting word and empties the buffer.
fn print_word_lol(p: &mut Printer, c: &mut Control, buf: &mut WordBuffer, out: &mut Vec<Piece>)
    requires
        word_fits(outcome(*old(p), *old(c), old(buf)@, old(out)@)),
    ensures
        outcome(*final(p), *final(c), final(buf)@, final(out)@) =~= spec_print_word_lol(
            outcome(*old(p), *old(c), old(buf)@, old(out)@),
        ),
{
    let n = buf.len16();
    if p.printed_chars_on_line as u32 + n as u32 >= c.terminal_width as u32 {
        handle_newline(p, c, buf, out);
    }
    let ghost p1 = *p;
    let ghost c1 = *c;
    let ghost ign0 = p.ignoring_whitespace;
    let ghost seed0 = c.seed;
    assert(p1.printed_chars_on_line + n <= 0xffff);
    let ghost out0 = out@;
    let ghost word = buf@;
    let len = buf.len();
    let mut i: usize = 0;
    while i < len
        invariant
            0 <= i <= len,
            len == word.len(),
            word == buf@,
            n == len16(word),
            p1.printed_chars_on_line + n <= 0xffff,
            *p == (Printer { ignoring_whitespace: p.ignoring_whitespace, ..p1 }),
            *c == (Control { seed: c.seed, ..c1 }),
            ({
                let (ign, seed, ps) = spec_paint_word(
                    ign0,
                    seed0,
                    c1.background_mode,
                    word.take(i as int),
                );
                &&& p.ignoring_whitespace == ign
                &&& c.seed == seed
                &&& out@ == out0 + ps
            }),
        decreases len - i,
    {
        let ch = buf.get(i);
        assert(word.take(i + 1).drop_last() =~= word.take(i as int));
        if p.ignoring_whitespace && is_whitespace(ch) {
            out.push(Piece::Text(ch));
        } else {
            p.ignoring_whitespace = false;
            out.push(colored_print(ch, c));
            c.seed = c.seed.saturating_add(1);
        }
        i = i + 1;
        proof {
            let (ign, seed, ps) = spec_paint_word(ign0, seed0, c.background_mode, word.take(i as int));
            assert(out@ =~= out0 + ps);
        }
    }
    assert(word.take(len as int) =~= word);
    p.printed_chars_on_line = p.printed_chars_on_line + n;
    buf.clear();
}


/// Resets the colours.
fn reset_colors(c: &Control, out: &mut Vec<Piece>)
    ensures
        final(out)@ == old(out)@ + reset_pieces(*c),
{
    let ghost before = out@;
    if c.print_color {
        if c.background_mode {
            out.push(Piece::ResetBackground);
        }
        out.push(Piece::ResetForeground);
    }
    assert(out@ =~= before + reset_pieces(*c));
}

/// Where an escape sequence goes after `ch`.
fn next_escape(e: Escape, ch: char) -> (r: Escape)
    ensures
        r == spec_next_escape(e, ch),
{
    let v = ch as u32;
    match e {
        Escape::Idle => Escape::Idle,
        Escape::Start => if ch == '[' {
            Escape::CsiParams
        } else if 0x20 <= v && v <= 0x2f {
            Escape::Nf
        } else {
            Escape::Idle
        },
        Escape::CsiParams => if 0x30 <= v && v <= 0x3f {
            Escape::CsiParams
        } else if 0x20 <= v && v <= 0x2f {
            Escape::CsiIntermediates
        } else {
            Escape::Idle
        },
        Escape::CsiIntermediates => if 0x20 <= v && v <= 0x2f {
            Escape::CsiIntermediates
        } else {
            Escape::Idle
        },
        Escape::Nf => if 0x20 <= v && v <= 0x2f {
            Escape::Nf
        } else {
            Escape::Idle
        },
    }
}

impl Printer {
    /// A printer at the start of a run of characters.
    pub fn start(mode: Mode, c: &Control) -> (p: Printer)
        ensures
            p == spec_start(mode, *c),
    {
        Printer {
            mode,
            line_seed: c.seed,
            ignoring_whitespace: c.background_mode,
            printed_chars_on_line: 0,
            escape: Escape::Idle,
        }
    }

    /// Whether the printer stands outside any escape sequence.
    pub fn is_idle(&self) -> (r: bool)
        ensures
            r == (self.escape is Idle),
    {
        match self.escape {
            Escape::Idle => true,
            _ => false,
        }
    }

    /// Reads one character and appends to `out` what it makes the printer write.
    pub fn feed(&mut self, ch: char, c: &mut Control, buf: &mut WordBuffer, out: &mut Vec<Piece>)
        requires
            spec_accepts(outcome(*old(self), *old(c), old(buf)@, old(out)@), ch),
        ensures
            outcome(*final(self), *final(c), final(buf)@, final(out)@) =~= spec_feed(
                outcome(*old(self), *old(c), old(buf)@, old(out)@),
                ch,
            ),
    {
        if !c.print_color {
            out.push(Piece::Text(ch));
            return ;
        }
        match self.escape {
            Escape::Idle => self.feed_plain(ch, c, buf, out),
            _ => {
                out.push(Piece::Text(ch));
                self.escape = next_escape(self.escape, ch);
            },
        }
        if self.mode.constantly_flush && self.is_idle() {
            reset_colors(c, out);
            out.push(Piece::Flush);
        }
    }

    /// Reads one character outside escape sequences, in colour.
    fn feed_plain(&mut self, ch: char, c: &mut Control, buf: &mut WordBuffer, out: &mut Vec<Piece>)
        requires
            old(self).escape is Idle,
            old(c).print_color,
            spec_accepts(outcome(*old(self), *old(c), old(buf)@, old(out)@), ch),
        ensures
            outcome(*final(self), *final(c), final(buf)@, final(out)@) =~= spec_feed_plain(
                outcome(*old(self), *old(c), old(buf)@, old(out)@),
                ch,
            ),
    {
        if ch == '\x1b' {
            out.push(Piece::Text(ch));
            self.escape = Escape::Start;
        } else if ch == '\n' {
            if self.mode.word_wrap {
                print_word_lol(self, c, buf, out);
            }
            handle_newline(self, c, buf, out);
        } else if ch == ' ' {
            if self.mode.word_wrap {
                print_word_lol(self, c, buf, out);
                if self.printed_chars_on_line == c.terminal_width - 1 {
                    handle_newline(self, c, buf, out);
                } else {
                    print_char_lol(ch, self, c, buf, out);
                }
            } else {
                print_char_lol(ch, self, c, buf, out);
            }
        } else {
            if self.mode.word_wrap {
                if buf.len16() + 1 >= c.terminal_width {
                    print_word_lol(self, c, buf, out);
                    handle_newline(self, c, buf, out);
                }
                buf.push(ch);
            } else {
                print_char_lol(ch, self, c, buf, out);
            }
        }
    }

    /// The fault that reading `ch` would meet, if any.
    pub fn fault(&self, ch: char, c: &Control, buf: &WordBuffer) -> (r: Option<Fault>)
        ensures
            forall|pieces: Seq<Piece>| r == spec_fault(outcome(*self, *c, buf@, pieces), ch),
    {
        if !c.print_color {
            return None;
        }
        let v = ch as u32;
        match self.escape {
            Escape::Idle => {
                let ok = if ch == '\x1b' {
                    true
                } else if ch == '\n' {
                    !self.mode.word_wrap || self.printed_chars_on_line as u32 + buf.len16() as u32
                        <= 0xffff
                } else if ch == ' ' {
                    if self.mode.word_wrap {
                        let n = buf.len16() as u32;
                        let width = c.terminal_width as u32;
                        let printed = self.printed_chars_on_line as u32;
                        let after = if printed + n >= width {
                            n
                        } else {
                            printed + n
                        };
                        let full = self.mode.line_wrap && after == width;
                        let fits = !self.mode.line_wrap || full || after < 0xffff;
                        printed + n <= 0xffff && width >= 1 && (after == width - 1 || fits)
                    } else {
                        let full = self.mode.line_wrap && self.printed_chars_on_line
                            == c.terminal_width;
                        !self.mode.line_wrap || full || self.printed_chars_on_line < 0xffff
                    }
                } else {
                    if self.mode.word_wrap {
                        let n = buf.len16() as u32;
                        n != 0xffff && (n + 1 < c.terminal_width as u32
                            || self.printed_chars_on_line as u32 + n <= 0xffff)
                    } else {
                        let full = self.mode.line_wrap && self.printed_chars_on_line
                            == c.terminal_width;
                        !self.mode.line_wrap || full || self.printed_chars_on_line < 0xffff
                    }
                };
                if ok {
                    None
                } else {
                    Some(Fault::ColumnOverflow)
                }
            },
            Escape::Start => None,
            Escape::CsiParams => {
                if (0x20 <= v && v <= 0x3f) || (0x40 <= v && v <= 0x7e) {
                    None
                } else {
                    Some(Fault::CsiBadTerminator)
                }
            },
            Escape::CsiIntermediates => {
                if (0x20 <= v && v <= 0x2f) || (0x40 <= v && v <= 0x7e) {
                    None
                } else {
                    Some(Fault::CsiBadTerminator)
                }
            },
            Escape::Nf => {
                if 0x20 <= v && v <= 0x7e {
                    None
                } else {
                    Some(Fault::NfBadTerminator)
                }
            },
        }
    }

    /// The fault of ending the input here, if the waiting word is left
    /// waiting: ending inside an escape sequence.
    pub fn escape_end_fault(&self) -> (r: Option<Fault>)
        ensures
            r == spec_escape_end_fault(self.escape),
    {
        match self.escape {
            Escape::Idle => None,
            Escape::Start => Some(Fault::EscapeWithoutSequence),
            Escape::CsiParams => Some(Fault::CsiUnterminated),
            Escape::CsiIntermediates => Some(Fault::CsiUnterminated),
            Escape::Nf => Some(Fault::NfUnterminated),
        }
    }

    /// The fault of ending the input here and printing the waiting word, if
    /// any.
    pub fn end_fault(&self, c: &Control, buf: &WordBuffer) -> (r: Option<Fault>)
        ensures
            forall|pieces: Seq<Piece>| r == spec_end_fault(outcome(*self, *c, buf@, pieces)),
    {
        match self.escape {
            Escape::Idle => {
                if c.print_color && self.mode.word_wrap && buf.len() > 0
                    && self.printed_chars_on_line as u32 + buf.len16() as u32 > 0xffff {
                    Some(Fault::ColumnOverflow)
                } else {
                    None
                }
            },
            Escape::Start => Some(Fault::EscapeWithoutSequence),
            Escape::CsiParams => Some(Fault::CsiUnterminated),
            Escape::CsiIntermediates => Some(Fault::CsiUnterminated),
            Escape::Nf => Some(Fault::NfUnterminated),
        }
    }

    /// Ends the input: prints the word that still waits, if any.
    pub fn finish(&mut self, c: &mut Control, buf: &mut WordBuffer, out: &mut Vec<Piece>)
        requires
            spec_end_fault(outcome(*old(self), *old(c), old(buf)@, old(out)@)) is None,
        ensures
            outcome(*final(self), *final(c), final(buf)@, final(out)@) =~= spec_finish(
                outcome(*old(self), *old(c), old(buf)@, old(out)@),
            ),
    {
        reveal(spec_finish);
        if c.print_color && self.mode.word_wrap && buf.len() > 0 {
            print_word_lol(self, c, buf, out);
            if self.mode.constantly_flush {
                reset_colors(c, out);
                out.push(Piece::Flush);
            }
        }
    }
}


/// Reading a character only appends to the pieces written so far: what it
/// does depends on the printer, the settings and the waiting word alone.
pub proof fn lemma_feed_frame(o: Outcome, ch: char)
    ensures
        ({
            let e = spec_feed(with_pieces(o, Seq::empty()), ch);
            spec_feed(o, ch) == with_pieces(e, o.pieces + e.pieces)
        }),
        spec_accepts(o, ch) == spec_accepts(with_pieces(o, Seq::empty()), ch),
        spec_fault(o, ch) == spec_fault(with_pieces(o, Seq::empty()), ch),
{
    let z = with_pieces(o, Seq::empty());
    let e = spec_feed(z, ch);
    lemma_plain_frame(o, ch);
    if o.control.print_color && o.printer.mode.constantly_flush {
        let o1 = match o.printer.escape {
            Escape::Idle => spec_feed_plain(o, ch),
            _ => spec_feed_escape(o, ch),
        };
        let z1 = match o.printer.escape {
            Escape::Idle => spec_feed_plain(z, ch),
            _ => spec_feed_escape(z, ch),
        };
        assert(o1 == with_pieces(z1, o.pieces + z1.pieces));
        if o1.printer.escape is Idle {
            assert((o.pieces + z1.pieces + reset_pieces(o1.control)).push(Piece::Flush) =~= o.pieces
                + (z1.pieces + reset_pieces(z1.control)).push(Piece::Flush));
        }
    }
    assert(spec_feed(o, ch) =~= with_pieces(e, o.pieces + e.pieces));
}

proof fn lemma_newline_frame(o: Outcome)
    ensures
        ({
            let e = spec_handle_newline(with_pieces(o, Seq::empty()));
            spec_handle_newline(o) == with_pieces(e, o.pieces + e.pieces)
        }),
{
    let e = spec_handle_newline(with_pieces(o, Seq::empty()));
    assert(spec_handle_newline(o) =~= with_pieces(e, o.pieces + e.pieces));
}

proof fn lemma_char_frame(o: Outcome, ch: char)
    ensures
        ({
            let e = spec_print_char_lol(with_pieces(o, Seq::empty()), ch);
            spec_print_char_lol(o, ch) == with_pieces(e, o.pieces + e.pieces)
        }),
        char_fits(o) == char_fits(with_pieces(o, Seq::empty())),
{
    let z = with_pieces(o, Seq::empty());
    lemma_newline_frame(o);
    let o1 = if line_is_full(o) {
        spec_handle_newline(o)
    } else {
        o
    };
    let z1 = if line_is_full(z) {
        spec_handle_newline(z)
    } else {
        z
    };
    assert(o1 == with_pieces(z1, o.pieces + z1.pieces)) by {
        if !line_is_full(o) {
            assert(o =~= with_pieces(z, o.pieces + z.pieces));
        }
    }
    let e = spec_print_char_lol(z, ch);
    assert(spec_print_char_lol(o, ch) =~= with_pieces(e, o.pieces + e.pieces));
}

proof fn lemma_word_frame(o: Outcome)
    ensures
        ({
            let e = spec_print_word_lol(with_pieces(o, Seq::empty()));
            spec_print_word_lol(o) == with_pieces(e, o.pieces + e.pieces)
        }),
        word_fits(o) == word_fits(with_pieces(o, Seq::empty())),
        printed_after_word(o) == printed_after_word(with_pieces(o, Seq::empty())),
{
    let z = with_pieces(o, Seq::empty());
    lemma_newline_frame(o);
    let o1 = if word_overflows_line(o) {
        spec_handle_newline(o)
    } else {
        o
    };
    let z1 = if word_overflows_line(z) {
        spec_handle_newline(z)
    } else {
        z
    };
    assert(o1 == with_pieces(z1, o.pieces + z1.pieces)) by {
        if !word_overflows_line(o) {
            assert(o =~= with_pieces(z, o.pieces + z.pieces));
        }
    }
    let e = spec_print_word_lol(z);
    assert(spec_print_word_lol(o) =~= with_pieces(e, o.pieces + e.pieces));
}

proof fn lemma_plain_frame(o: Outcome, ch: char)
    ensures
        ({
            let e = spec_feed_plain(with_pieces(o, Seq::empty()), ch);
            spec_feed_plain(o, ch) == with_pieces(e, o.pieces + e.pieces)
        }),
        ({
            let e = spec_feed_escape(with_pieces(o, Seq::empty()), ch);
            spec_feed_escape(o, ch) == with_pieces(e, o.pieces + e.pieces)
        }),
{
    let z = with_pieces(o, Seq::empty());
    lemma_newline_frame(o);
    lemma_char_frame(o, ch);
    lemma_word_frame(o);
    let ez = spec_feed_escape(z, ch);
    assert(spec_feed_escape(o, ch) =~= with_pieces(ez, o.pieces + ez.pieces));
    let e = spec_feed_plain(z, ch);
    if ch == '\x1b' {
        assert(spec_feed_plain(o, ch) =~= with_pieces(e, o.pieces + e.pieces));
    } else if ch == '\n' {
        if o.printer.mode.word_wrap {
            let w = spec_print_word_lol(z);
            lemma_newline_frame(spec_print_word_lol(o));
            lemma_newline_frame(w);
            assert(spec_handle_newline(spec_print_word_lol(o)) =~= with_pieces(e, o.pieces + e.pieces));
        }
    } else if ch == ' ' {
        if o.printer.mode.word_wrap {
            let w = spec_print_word_lol(z);
            lemma_newline_frame(spec_print_word_lol(o));
            lemma_newline_frame(w);
            lemma_char_frame(spec_print_word_lol(o), ch);
            lemma_char_frame(w, ch);
            assert(spec_feed_plain(o, ch) =~= with_pieces(e, o.pieces + e.pieces));
        }
    } else {
        if o.printer.mode.word_wrap {
            let w = spec_print_word_lol(z);
            lemma_newline_frame(spec_print_word_lol(o));
            lemma_newline_frame(w);
            assert(spec_feed_plain(o, ch) =~= with_pieces(e, o.pieces + e.pieces));
        }
    }
}


/// Ending the input only appends to the pieces written so far.
pub proof fn lemma_finish_frame(o: Outcome)
    ensures
        ({
            let e = spec_finish(with_pieces(o, Seq::empty()));
            spec_finish(o) == with_pieces(e, o.pieces + e.pieces)
        }),
        spec_end_fault(o) == spec_end_fault(with_pieces(o, Seq::empty())),
{
    reveal(spec_finish);
    let z = with_pieces(o, Seq::empty());
    lemma_word_frame(o);
    let wz = spec_print_word_lol(z);
    let e = spec_finish(z);
    if word_waits(o) && o.printer.mode.constantly_flush {
        assert((o.pieces + wz.pieces + reset_pieces(wz.control)).push(Piece::Flush) =~= o.pieces
            + (wz.pieces + reset_pieces(wz.control)).push(Piece::Flush));
    }
    if !word_waits(o) {
        assert(o =~= with_pieces(z, o.pieces + z.pieces));
    }
    assert(spec_finish(o) =~= with_pieces(e, o.pieces + e.pieces));
}

} // verus!
