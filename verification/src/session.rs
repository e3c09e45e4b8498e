//! Printing whole runs of characters and whole lists of lines.
use vstd::prelude::*;
use crate::chars::WordBuffer;
use crate::control::{mode_for, spec_mode_for, Control, Fault, Mode, Piece, UNLIMITED_WIDTH};
use crate::printer::{
    lemma_feed_frame, lemma_finish_frame, outcome, spec_accepts, spec_end_fault,
    spec_escape_end_fault, spec_fault, spec_feed, spec_finish, spec_start,
    with_pieces, Outcome, Printer,
};

verus! {

/// The outcome of reading `input`, one character after another.
pub open spec fn spec_run(o: Outcome, input: Seq<char>) -> Outcome
    decreases input.len(),
{
    if input.len() == 0 {
        o
    } else {
        spec_feed(spec_run(o, input.drop_last()), input.last())
    }
}

/// The first fault that reading `input` meets, if any.
pub open spec fn spec_run_fault(o: Outcome, input: Seq<char>) -> Option<Fault>
    decreases input.len(),
{
    if input.len() == 0 {
        None
    } else {
        match spec_run_fault(o, input.drop_last()) {
            Some(f) => Some(f),
            None => spec_fault(spec_run(o, input.drop_last()), input.last()),
        }
    }
}

/// The outcome of one run of characters, from a fresh printer; a word that
/// still waits at the end of the input stays in the buffer.
pub open spec fn spec_session(mode: Mode, c: Control, buffer: Seq<char>, input: Seq<char>) -> Outcome {
    spec_run(outcome(spec_start(mode, c), c, buffer, Seq::empty()), input)
}

/// The fault that one run of characters meets, if any: a character that
/// cannot be read, or the end of the input inside an escape sequence.
pub open spec fn spec_session_fault(mode: Mode, c: Control, buffer: Seq<char>, input: Seq<char>) -> Option<Fault> {
    match spec_run_fault(outcome(spec_start(mode, c), c, buffer, Seq::empty()), input) {
        Some(f) => Some(f),
        None => spec_escape_end_fault(spec_session(mode, c, buffer, input).printer.escape),
    }
}

/// The outcome of printing a whole run of characters, from a fresh printer:
/// every character read, then the word that still waits printed.
pub open spec fn spec_print_all(mode: Mode, c: Control, buffer: Seq<char>, input: Seq<char>) -> Outcome {
    spec_finish(spec_session(mode, c, buffer, input))
}

/// The fault that printing a whole run of characters meets, if any: a
/// character that cannot be read, the end of the input inside an escape
/// sequence, or a waiting word that a column count cannot take.
pub open spec fn spec_print_all_fault(mode: Mode, c: Control, buffer: Seq<char>, input: Seq<char>) -> Option<Fault> {
    match spec_run_fault(outcome(spec_start(mode, c), c, buffer, Seq::empty()), input) {
        Some(f) => Some(f),
        None => spec_end_fault(spec_session(mode, c, buffer, input)),
    }
}

/// Reading a run of characters only appends to the pieces written so far.
pub proof fn lemma_run_frame(o: Outcome, input: Seq<char>)
    ensures
        ({
            let e = spec_run(with_pieces(o, Seq::empty()), input);
            spec_run(o, input) == with_pieces(e, o.pieces + e.pieces)
        }),
        spec_run_fault(o, input) == spec_run_fault(with_pieces(o, Seq::empty()), input),
    decreases input.len(),
{
    let z = with_pieces(o, Seq::empty());
    if input.len() == 0 {
        assert(o =~= with_pieces(z, o.pieces + z.pieces));
    } else {
        let prefix = input.drop_last();
        lemma_run_frame(o, prefix);
        let r = spec_run(o, prefix);
        let rz = spec_run(z, prefix);
        lemma_feed_frame(r, input.last());
        lemma_feed_frame(rz, input.last());
        assert(with_pieces(r, Seq::empty()) =~= with_pieces(rz, Seq::empty()));
        let e = spec_run(z, input);
        let a = spec_feed(with_pieces(rz, Seq::empty()), input.last());
        assert(o.pieces + (rz.pieces + a.pieces) =~= (o.pieces + rz.pieces) + a.pieces);
        assert(spec_run(o, input) =~= with_pieces(e, o.pieces + e.pieces));
    }
}

/// The first fault of a prefix of a run is the first fault of the run.
pub proof fn lemma_run_fault_extend(o: Outcome, input: Seq<char>, i: int)
    requires
        0 <= i <= input.len(),
        spec_run_fault(o, input.take(i)) is Some,
    ensures
        spec_run_fault(o, input) == spec_run_fault(o, input.take(i)),
    decreases input.len(),
{
    if i == input.len() {
        assert(input.take(i) =~= input);
    } else {
        assert(input.drop_last().take(i) =~= input.take(i));
        lemma_run_fault_extend(o, input.drop_last(), i);
    }
}

/// A run of characters that meets no fault has no prefix that meets one.
pub proof fn lemma_run_fault_prefix(o: Outcome, input: Seq<char>, i: int)
    requires
        0 <= i <= input.len(),
        spec_run_fault(o, input) is None,
    ensures
        spec_run_fault(o, input.take(i)) is None,
{
    if spec_run_fault(o, input.take(i)) is Some {
        lemma_run_fault_extend(o, input, i);
    }
}

/// Reads `input` with `p`, appending to `out`.
pub fn feed_all(
    p: &mut Printer,
    input: &[char],
    c: &mut Control,
    buf: &mut WordBuffer,
    out: &mut Vec<Piece>,
)
    requires
        spec_run_fault(outcome(*old(p), *old(c), old(buf)@, old(out)@), input@) is None,
    ensures
        outcome(*final(p), *final(c), final(buf)@, final(out)@) == spec_run(
            outcome(*old(p), *old(c), old(buf)@, old(out)@),
            input@,
        ),
{
    let ghost o0 = outcome(*p, *c, buf@, out@);
    let mut i: usize = 0;
    while i < input.len()
        invariant
            0 <= i <= input.len(),
            spec_run_fault(o0, input@) is None,
            outcome(*p, *c, buf@, out@) == spec_run(o0, input@.take(i as int)),
        decreases input.len() - i,
    {
        proof {
            lemma_run_fault_prefix(o0, input@, i + 1);
            assert(input@.take(i + 1).drop_last() =~= input@.take(i as int));
        }
        p.feed(input[i], c, buf, out);
        i += 1;
    }
    assert(input@.take(input.len() as int) =~= input@);
}

/// Reads one run of characters with a fresh printer, and gives the printer
/// back.
fn run_chars(mode: Mode, input: &[char], c: &mut Control, buf: &mut WordBuffer, out: &mut Vec<Piece>) -> (p: Printer)
    requires
        spec_session_fault(mode, *old(c), old(buf)@, input@) is None,
    ensures
        ({
            let s = spec_session(mode, *old(c), old(buf)@, input@);
            &&& p == s.printer
            &&& *final(c) == s.control
            &&& final(buf)@ == s.buffer
            &&& final(out)@ == old(out)@ + s.pieces
        }),
{
    let mut p = Printer::start(mode, c);
    let ghost o0 = outcome(p, *c, buf@, out@);
    proof {
        lemma_run_frame(o0, input@);
        assert(with_pieces(o0, Seq::empty()) == outcome(spec_start(mode, *c), *c, buf@, Seq::empty()));
    }
    feed_all(&mut p, input, c, buf, out);
    p
}

/// Prints one run of characters with a fresh printer, collecting words in
/// `word_wrap_buffer`; a word that still waits at the end of the input stays
/// there, for the caller.
pub fn generic_print_chars_lol<const LINE_WRAP: bool, const WORD_WRAP: bool, const CONSTANTLY_FLUSH: bool>(
    input: &[char],
    c: &mut Control,
    word_wrap_buffer: &mut WordBuffer,
    out: &mut Vec<Piece>,
)
    requires
        spec_session_fault(
            Mode { line_wrap: LINE_WRAP, word_wrap: WORD_WRAP, constantly_flush: CONSTANTLY_FLUSH },
            *old(c),
            old(word_wrap_buffer)@,
            input@,
        ) is None,
    ensures
        ({
            let s = spec_session(
                Mode { line_wrap: LINE_WRAP, word_wrap: WORD_WRAP, constantly_flush: CONSTANTLY_FLUSH },
                *old(c),
                old(word_wrap_buffer)@,
                input@,
            );
            &&& *final(c) == s.control
            &&& final(word_wrap_buffer)@ == s.buffer
            &&& final(out)@ == old(out)@ + s.pieces
        }),
{
    let mode = Mode { line_wrap: LINE_WRAP, word_wrap: WORD_WRAP, constantly_flush: CONSTANTLY_FLUSH };
    run_chars(mode, input, c, word_wrap_buffer, out);
}

/// Prints one run of characters, with the layout that the settings ask for
/// and a fresh word buffer; at the end of the input the word that still
/// waits is printed too, so every character is printed.
pub fn print_chars_lol(input: &[char], c: &mut Control, constantly_flush: bool, out: &mut Vec<Piece>)
    requires
        spec_print_all_fault(
            spec_mode_for(*old(c), constantly_flush),
            *old(c),
            Seq::empty(),
            input@,
        ) is None,
    ensures
        ({
            let s = spec_print_all(spec_mode_for(*old(c), constantly_flush), *old(c), Seq::empty(), input@);
            &&& *final(c) == s.control
            &&& final(out)@ == old(out)@ + s.pieces
        }),
{
    let mode = mode_for(c, constantly_flush);
    let ghost c0 = *c;
    let ghost out0 = out@;
    let ghost sess = spec_session(mode, c0, Seq::empty(), input@);
    let mut word_wrap_buffer = WordBuffer::new();
    let mut p = run_chars(mode, input, c, &mut word_wrap_buffer, out);
    let ghost o1 = outcome(p, *c, word_wrap_buffer@, out@);
    proof {
        assert(o1 == with_pieces(sess, out0 + sess.pieces));
        lemma_finish_frame(o1);
        lemma_finish_frame(sess);
        assert(with_pieces(o1, Seq::empty()) =~= with_pieces(sess, Seq::empty()));
        let e = spec_finish(with_pieces(sess, Seq::empty()));
        assert(out0 + sess.pieces + e.pieces =~= out0 + (sess.pieces + e.pieces));
    }
    p.finish(c, &mut word_wrap_buffer, out);
}

/// The outcome of printing each line, with its line break, as a run of its
/// own, one word buffer serving all of them.
pub open spec fn spec_lines_run(mode: Mode, c: Control, buffer: Seq<char>, lines: Seq<Seq<char>>) -> Outcome
    decreases lines.len(),
{
    if lines.len() == 0 {
        outcome(spec_start(mode, c), c, buffer, Seq::empty())
    } else {
        let r = spec_lines_run(mode, c, buffer, lines.drop_last());
        let s = spec_session(mode, r.control, r.buffer, lines.last().push('\n'));
        Outcome { pieces: r.pieces + s.pieces, ..s }
    }
}

/// The first fault that printing the lines meets, if any.
pub open spec fn spec_lines_fault(mode: Mode, c: Control, buffer: Seq<char>, lines: Seq<Seq<char>>) -> Option<Fault>
    decreases lines.len(),
{
    if lines.len() == 0 {
        None
    } else {
        match spec_lines_fault(mode, c, buffer, lines.drop_last()) {
            Some(f) => Some(f),
            None => {
                let r = spec_lines_run(mode, c, buffer, lines.drop_last());
                spec_session_fault(mode, r.control, r.buffer, lines.last().push('\n'))
            },
        }
    }
}

/// The pieces that end a list of lines: the foreground colour is reset.
pub open spec fn lines_end_pieces(c: Control) -> Seq<Piece> {
    if c.print_color {
        seq![Piece::ResetForeground]
    } else {
        Seq::empty()
    }
}

/// The first fault of some of the lines is the first fault of all of them.
pub proof fn lemma_lines_fault_extend(mode: Mode, c: Control, buffer: Seq<char>, lines: Seq<Seq<char>>, i: int)
    requires
        0 <= i <= lines.len(),
        spec_lines_fault(mode, c, buffer, lines.take(i)) is Some,
    ensures
        spec_lines_fault(mode, c, buffer, lines) == spec_lines_fault(mode, c, buffer, lines.take(i)),
    decreases lines.len(),
{
    if i == lines.len() {
        assert(lines.take(i) =~= lines);
    } else {
        assert(lines.drop_last().take(i) =~= lines.take(i));
        lemma_lines_fault_extend(mode, c, buffer, lines.drop_last(), i);
    }
}

/// Lines that meet no fault have no prefix that meets one.
pub proof fn lemma_lines_fault_prefix(mode: Mode, c: Control, buffer: Seq<char>, lines: Seq<Seq<char>>, i: int)
    requires
        0 <= i <= lines.len(),
        spec_lines_fault(mode, c, buffer, lines) is None,
    ensures
        spec_lines_fault(mode, c, buffer, lines.take(i)) is None,
{
    if spec_lines_fault(mode, c, buffer, lines.take(i)) is Some {
        lemma_lines_fault_extend(mode, c, buffer, lines, i);
    }
}

/// Prints one line, followed by a line break, with a fresh printer.
fn print_line(mode: Mode, line: &[char], c: &mut Control, buf: &mut WordBuffer, out: &mut Vec<Piece>)
    requires
        spec_session_fault(mode, *old(c), old(buf)@, line@.push('\n')) is None,
    ensures
        ({
            let s = spec_session(mode, *old(c), old(buf)@, line@.push('\n'));
            &&& *final(c) == s.control
            &&& final(buf)@ == s.buffer
            &&& final(out)@ == old(out)@ + s.pieces
        }),
{
    let ghost input = line@.push('\n');
    let mut p = Printer::start(mode, c);
    let ghost o0 = outcome(p, *c, buf@, out@);
    proof {
        lemma_run_frame(o0, input);
        assert(with_pieces(o0, Seq::empty()) == outcome(spec_start(mode, *c), *c, buf@, Seq::empty()));
        assert(input.drop_last() =~= line@);
        lemma_run_fault_prefix(o0, input, line@.len() as int);
        assert(input.take(line@.len() as int) =~= line@);
    }
    feed_all(&mut p, line, c, buf, out);
    p.feed('\n', c, buf, out);
}

/// Prints each line, followed by a line break, as a run of its own, one word
/// buffer serving all of them.  Ends by resetting the foreground colour.
pub fn generic_print_lines_lol<const LINE_WRAP: bool, const WORD_WRAP: bool>(
    lines: &Vec<Vec<char>>,
    c: &mut Control,
    out: &mut Vec<Piece>,
)
    requires
        spec_lines_fault(
            Mode { line_wrap: LINE_WRAP, word_wrap: WORD_WRAP, constantly_flush: false },
            *old(c),
            Seq::empty(),
            lines.deep_view(),
        ) is None,
    ensures
        ({
            let r = spec_lines_run(
                Mode { line_wrap: LINE_WRAP, word_wrap: WORD_WRAP, constantly_flush: false },
                *old(c),
                Seq::empty(),
                lines.deep_view(),
            );
            &&& *final(c) == r.control
            &&& final(out)@ == old(out)@ + r.pieces + lines_end_pieces(r.control)
        }),
{
    let mode = Mode { line_wrap: LINE_WRAP, word_wrap: WORD_WRAP, constantly_flush: false };
    let ghost c0 = *c;
    let ghost out0 = out@;
    let ghost all = lines.deep_view();
    let mut word_wrap_buffer = WordBuffer::new();
    let mut i: usize = 0;
    while i < lines.len()
        invariant
            0 <= i <= lines.len(),
            all == lines.deep_view(),
            spec_lines_fault(mode, c0, Seq::empty(), all) is None,
            ({
                let r = spec_lines_run(mode, c0, Seq::empty(), all.take(i as int));
                &&& *c == r.control
                &&& word_wrap_buffer@ == r.buffer
                &&& out@ == out0 + r.pieces
            }),
        decreases lines.len() - i,
    {
        let ghost r0 = spec_lines_run(mode, c0, Seq::empty(), all.take(i as int));
        let ghost line = lines[i as int]@;
        proof {
            lemma_lines_fault_prefix(mode, c0, Seq::empty(), all, i + 1);
            assert(all.take(i + 1).drop_last() =~= all.take(i as int));
            assert(lines[i as int].deep_view() =~= line);
            assert(all.take(i + 1).last() == line);
        }
        let ghost out1 = out@;
        print_line(mode, lines[i].as_slice(), c, &mut word_wrap_buffer, out);
        proof {
            let s = spec_session(mode, r0.control, r0.buffer, line.push('\n'));
            assert(spec_lines_run(mode, c0, Seq::empty(), all.take(i + 1)).pieces == r0.pieces + s.pieces);
            assert(out@ =~= out0 + (r0.pieces + s.pieces));
        }
        i += 1;
    }
    assert(all.take(lines.len() as int) =~= all);
    if c.print_color {
        out.push(Piece::ResetForeground);
    }
    assert(out@ =~= out0 + spec_lines_run(mode, c0, Seq::empty(), all).pieces + lines_end_pieces(*c));
}

/// Prints lines with the layout that the settings ask for.
pub fn print_lines_lol(lines: &Vec<Vec<char>>, c: &mut Control, out: &mut Vec<Piece>)
    requires
        spec_lines_fault(spec_mode_for(*old(c), false), *old(c), Seq::empty(), lines.deep_view())
            is None,
    ensures
        ({
            let r = spec_lines_run(spec_mode_for(*old(c), false), *old(c), Seq::empty(), lines.deep_view());
            &&& *final(c) == r.control
            &&& final(out)@ == old(out)@ + r.pieces + lines_end_pieces(r.control)
        }),
{
    if c.terminal_width == UNLIMITED_WIDTH {
        generic_print_lines_lol::<false, false>(lines, c, out);
    } else if !c.word_wrap {
        generic_print_lines_lol::<true, false>(lines, c, out);
    } else {
        generic_print_lines_lol::<true, true>(lines, c, out);
    }
}


/// Reads `input` with a fresh printer on copies of the settings and the
/// word, up to the first character that cannot be read: gives that
/// character's fault, if any, and otherwise the state after the input.
fn simulate(mode: Mode, input: &[char], c: &Control, buf: &WordBuffer) -> (r: (
    Option<Fault>,
    Printer,
    Control,
    WordBuffer,
))
    ensures
        ({
            let o0 = outcome(spec_start(mode, *c), *c, buf@, Seq::empty());
            let s = spec_run(o0, input@);
            &&& r.0 == spec_run_fault(o0, input@)
            &&& r.0 is None ==> r.1 == s.printer && r.2 == s.control && r.3@ == s.buffer
        }),
{
    let mut p = Printer::start(mode, c);
    let mut c2 = *c;
    let mut b2 = buf.duplicate();
    let ghost o0 = outcome(p, *c, buf@, Seq::empty());
    let mut i: usize = 0;
    while i < input.len()
        invariant
            0 <= i <= input.len(),
            o0 == outcome(spec_start(mode, *c), *c, buf@, Seq::empty()),
            spec_run_fault(o0, input@.take(i as int)) is None,
            ({
                let r = spec_run(o0, input@.take(i as int));
                &&& p == r.printer
                &&& c2 == r.control
                &&& b2@ == r.buffer
            }),
        decreases input.len() - i,
    {
        let ghost r = spec_run(o0, input@.take(i as int));
        proof {
            assert(input@.take(i + 1).drop_last() =~= input@.take(i as int));
            assert(input@.take(i + 1).last() == input@[i as int]);
            assert(r == outcome(p, c2, b2@, r.pieces));
            lemma_feed_frame(r, input@[i as int]);
        }
        match p.fault(input[i], &c2, &b2) {
            Some(f) => {
                proof {
                    lemma_run_fault_extend(o0, input@, i + 1);
                }
                return (Some(f), p, c2, b2);
            },
            None => {},
        }
        let mut scratch: Vec<Piece> = Vec::new();
        p.feed(input[i], &mut c2, &mut b2, &mut scratch);
        i += 1;
    }
    assert(input@.take(input.len() as int) =~= input@);
    (None, p, c2, b2)
}

/// The fault that printing `input` as one run would meet, if any, the word
/// that waits at the end left waiting; nothing is printed.
pub fn session_fault(mode: Mode, input: &[char], c: &Control, buf: &WordBuffer) -> (r: Option<Fault>)
    ensures
        r == spec_session_fault(mode, *c, buf@, input@),
{
    let (f, p, _c2, _b2) = simulate(mode, input, c, buf);
    match f {
        Some(f) => Some(f),
        None => p.escape_end_fault(),
    }
}

/// The fault that printing `input` with [`print_chars_lol`] would meet, if
/// any; nothing is printed.
pub fn print_chars_fault(input: &[char], c: &Control, constantly_flush: bool) -> (r: Option<Fault>)
    ensures
        r == spec_print_all_fault(spec_mode_for(*c, constantly_flush), *c, Seq::empty(), input@),
{
    let mode = mode_for(c, constantly_flush);
    let buf = WordBuffer::new();
    let (f, p, c2, b2) = simulate(mode, input, c, &buf);
    match f {
        Some(f) => Some(f),
        None => {
            proof {
                let o0 = outcome(spec_start(mode, *c), *c, buf@, Seq::empty());
                let r = spec_run(o0, input@);
                assert(r == outcome(p, c2, b2@, r.pieces));
            }
            p.end_fault(&c2, &b2)
        },
    }
}

/// `line` followed by a line break.
fn with_line_break(line: &[char]) -> (r: Vec<char>)
    ensures
        r@ == line@.push('\n'),
{
    let mut r: Vec<char> = Vec::new();
    let mut i: usize = 0;
    while i < line.len()
        invariant
            0 <= i <= line.len(),
            r@ == line@.take(i as int),
        decreases line.len() - i,
    {
        r.push(line[i]);
        i += 1;
        assert(r@ =~= line@.take(i as int));
    }
    assert(line@.take(line.len() as int) =~= line@);
    r.push('\n');
    r
}

/// The fault that printing the lines would meet, if any; nothing is printed.
pub fn lines_fault(mode: Mode, lines: &Vec<Vec<char>>, c: &Control) -> (r: Option<Fault>)
    ensures
        r == spec_lines_fault(mode, *c, Seq::empty(), lines.deep_view()),
{
    let ghost all = lines.deep_view();
    let mut c2 = *c;
    let mut b2 = WordBuffer::new();
    let mut i: usize = 0;
    while i < lines.len()
        invariant
            0 <= i <= lines.len(),
            all == lines.deep_view(),
            spec_lines_fault(mode, *c, Seq::empty(), all.take(i as int)) is None,
            ({
                let r = spec_lines_run(mode, *c, Seq::empty(), all.take(i as int));
                &&& c2 == r.control
                &&& b2@ == r.buffer
            }),
        decreases lines.len() - i,
    {
        let ghost line = lines[i as int]@;
        proof {
            assert(all.take(i + 1).drop_last() =~= all.take(i as int));
            assert(lines[i as int].deep_view() =~= line);
            assert(all.take(i + 1).last() == line);
        }
        let l = with_line_break(lines[i].as_slice());
        match session_fault(mode, l.as_slice(), &c2, &b2) {
            Some(f) => {
                proof {
                    lemma_lines_fault_extend(mode, *c, Seq::empty(), all, i + 1);
                }
                return Some(f);
            },
            None => {},
        }
        let mut scratch: Vec<Piece> = Vec::new();
        print_line(mode, lines[i].as_slice(), &mut c2, &mut b2, &mut scratch);
        i += 1;
    }
    assert(all.take(lines.len() as int) =~= all);
    None
}

} // verus!
