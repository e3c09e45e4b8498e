//! What holds of the printer over whole runs of characters.
use vstd::prelude::*;
use crate::chars::spec_is_whitespace;
use crate::control::{Control, Escape, Fault, Mode, Piece};
use crate::printer::{
    char_fits, line_is_full, newline_pieces, reset_pieces, spec_accepts, spec_fault, spec_feed,
    spec_feed_plain, spec_handle_newline, spec_next_escape, spec_print_char_lol, spec_start,
    with_pieces, word_waits, Outcome, Printer,
};
use crate::help::{spec_lines, spec_split, strip_cr};
use crate::session::{
    lemma_run_frame, spec_lines_fault, spec_lines_run, spec_run, spec_run_fault, spec_session,
    spec_session_fault,
};

verus! {

/// `ch` written as it is.
pub open spec fn text_piece(ch: char) -> Piece {
    Piece::Text(ch)
}

/// Each character of `input` written as it is.
pub open spec fn texts(input: Seq<char>) -> Seq<Piece>
    decreases input.len(),
{
    if input.len() == 0 {
        Seq::empty()
    } else {
        texts(input.drop_last()).push(text_piece(input.last()))
    }
}

/// Each character of `input` painted in the foreground colour, at
/// consecutive points of the wave from `seed` on.
pub open spec fn paints_from(input: Seq<char>, seed: int) -> Seq<Piece>
    decreases input.len(),
{
    if input.len() == 0 {
        Seq::empty()
    } else {
        paints_from(input.drop_last(), seed).push(
            Piece::Paint(input.last(), (seed + input.len() - 1) as u64),
        )
    }
}

/// Without colour, every character is written as it is and nothing else
/// changes; nothing can fail.
pub proof fn law_uncolored_passthrough(o: Outcome, input: Seq<char>)
    requires
        !o.control.print_color,
    ensures
        spec_run(o, input) == with_pieces(o, o.pieces + texts(input)),
        spec_run_fault(o, input) is None,
    decreases input.len(),
{
    if input.len() == 0 {
        lemma_add_empty(o.pieces, texts(input));
        assert(o =~= with_pieces(o, o.pieces + texts(input)));
    } else {
        let prefix = input.drop_last();
        law_uncolored_passthrough(o, prefix);
        let r = spec_run(o, prefix);
        lemma_uncolored_feed(r, input.last());
        lemma_push_after_add(o.pieces, texts(prefix), Piece::Text(input.last()));
        assert(spec_run(o, input) == spec_feed(r, input.last()));
        lemma_texts_unfold(input);
        assert(spec_run(o, input) == with_pieces(o, o.pieces + texts(input)));
    }
}

pub(crate) proof fn lemma_texts_unfold(input: Seq<char>)
    requires
        input.len() > 0,
    ensures
        texts(input) == texts(input.drop_last()).push(Piece::Text(input.last())),
{
    assert(texts(input) =~= texts(input.drop_last()).push(Piece::Text(input.last())));
}

proof fn lemma_add_empty(a: Seq<Piece>, b: Seq<Piece>)
    requires
        b.len() == 0,
    ensures
        a + b == a,
{
    assert(a + b =~= a);
}

proof fn lemma_push_after_add(a: Seq<Piece>, b: Seq<Piece>, x: Piece)
    ensures
        (a + b).push(x) == a + b.push(x),
{
    assert((a + b).push(x) =~= a + b.push(x));
}

proof fn lemma_uncolored_feed(o: Outcome, ch: char)
    requires
        !o.control.print_color,
    ensures
        spec_feed(o, ch) == with_pieces(o, o.pieces.push(Piece::Text(ch))),
        spec_fault(o, ch) is None,
{
}

/// Inside an escape sequence, a character is written as it is and changes
/// nothing but the place in the sequence; when the sequence ends, the
/// colours are reset and the output flushed if the mode asks for that.
pub proof fn law_escape_passes_through(o: Outcome, ch: char)
    requires
        o.control.print_color,
        !(o.printer.escape is Idle),
    ensures
        ({
            let r = spec_feed(o, ch);
            let next = spec_next_escape(o.printer.escape, ch);
            &&& r.control == o.control
            &&& r.buffer == o.buffer
            &&& r.printer == (Printer { escape: next, ..o.printer })
            &&& r.pieces == o.pieces.push(Piece::Text(ch)) + if o.printer.mode.constantly_flush
                && next is Idle {
                reset_pieces(o.control).push(Piece::Flush)
            } else {
                Seq::empty()
            }
        }),
{
    let r = spec_feed(o, ch);
    let next = spec_next_escape(o.printer.escape, ch);
    if o.printer.mode.constantly_flush && next is Idle {
        assert(r.pieces =~= o.pieces.push(Piece::Text(ch)) + reset_pieces(o.control).push(
            Piece::Flush,
        ));
    } else {
        assert(r.pieces =~= o.pieces.push(Piece::Text(ch)) + Seq::empty());
    }
}

/// The escape character itself is written as it is and only opens an
/// escape sequence.
pub proof fn law_escape_opens_sequence(o: Outcome)
    requires
        o.control.print_color,
        o.printer.escape is Idle,
    ensures
        spec_feed(o, '\x1b') == (Outcome {
            printer: Printer { escape: Escape::Start, ..o.printer },
            pieces: o.pieces.push(Piece::Text('\x1b')),
            ..o
        }),
{
}

pub(crate) proof fn lemma_line_wrap_step(o: Outcome, ch: char)
    requires
        o.printer.mode.line_wrap,
        !o.printer.mode.word_wrap,
        o.control.terminal_width >= 1,
        o.printer.printed_chars_on_line <= o.control.terminal_width,
    ensures
        spec_feed(o, ch).printer.printed_chars_on_line <= o.control.terminal_width,
        spec_feed(o, ch).printer.mode == o.printer.mode,
        spec_feed(o, ch).control.terminal_width == o.control.terminal_width,
        spec_fault(o, ch) != Some(Fault::ColumnOverflow),
{
    if o.control.print_color && o.printer.escape is Idle && ch != '\x1b' && ch != '\n' {
        let o1 = if line_is_full(o) {
            spec_handle_newline(o)
        } else {
            o
        };
        assert(o1.printer.printed_chars_on_line < o.control.terminal_width);
        assert(char_fits(o));
    }
}

/// With lines wrapped at a width of at least one column and words not kept
/// whole, no line gets longer than the width, and a column count never
/// leaves its range.
pub proof fn law_line_wrap_keeps_width(o: Outcome, input: Seq<char>)
    requires
        o.printer.mode.line_wrap,
        !o.printer.mode.word_wrap,
        o.control.terminal_width >= 1,
        o.printer.printed_chars_on_line <= o.control.terminal_width,
    ensures
        spec_run(o, input).printer.printed_chars_on_line <= o.control.terminal_width,
        spec_run(o, input).printer.mode == o.printer.mode,
        spec_run(o, input).control.terminal_width == o.control.terminal_width,
        spec_run_fault(o, input) != Some(Fault::ColumnOverflow),
    decreases input.len(),
{
    if input.len() > 0 {
        let prefix = input.drop_last();
        law_line_wrap_keeps_width(o, prefix);
        lemma_line_wrap_step(spec_run(o, prefix), input.last());
    }
}

/// Whether `input` holds neither an escape character nor a line feed.
pub open spec fn is_plain_text(input: Seq<char>) -> bool {
    forall|k: int| 0 <= k < input.len() ==> input[k] != '\x1b' && input[k] != '\n'
}

/// Text without escape sequences or line breaks, printed without wrapping in
/// the foreground colour, is painted character by character at consecutive
/// points of the colour wave.
pub proof fn law_plain_text_paints_consecutively(o: Outcome, input: Seq<char>)
    requires
        o.control.print_color,
        !o.control.background_mode,
        !o.printer.ignoring_whitespace,
        !o.printer.mode.line_wrap,
        !o.printer.mode.word_wrap,
        !o.printer.mode.constantly_flush,
        o.printer.escape is Idle,
        is_plain_text(input),
        o.control.seed + input.len() <= u64::MAX,
    ensures
        spec_run(o, input).pieces == o.pieces + paints_from(input, o.control.seed as int),
        spec_run(o, input).control == (crate::control::Control {
            seed: (o.control.seed + input.len()) as u64,
            ..o.control
        }),
        spec_run(o, input).printer == o.printer,
        spec_run(o, input).buffer == o.buffer,
    decreases input.len(),
{
    if input.len() == 0 {
        assert(o.pieces + paints_from(input, o.control.seed as int) =~= o.pieces);
    } else {
        let prefix = input.drop_last();
        assert forall|k: int| 0 <= k < prefix.len() implies prefix[k] != '\x1b' && prefix[k]
            != '\n' by {
            assert(prefix[k] == input[k]);
        }
        law_plain_text_paints_consecutively(o, prefix);
        let ch = input.last();
        assert(ch == input[input.len() - 1]);
        assert(spec_run(o, input).pieces =~= o.pieces + paints_from(input, o.control.seed as int));
    }
}


/// The characters that `pieces` put on the screen, in order: those written
/// as they are and those painted.
pub open spec fn shown(pieces: Seq<Piece>) -> Seq<char>
    decreases pieces.len(),
{
    if pieces.len() == 0 {
        Seq::empty()
    } else {
        let rest = shown(pieces.drop_last());
        match pieces.last() {
            Piece::Text(ch) => rest.push(ch),
            Piece::Paint(ch, _) => rest.push(ch),
            Piece::PaintBackground(ch, _) => rest.push(ch),
            _ => rest,
        }
    }
}

/// `input` without its line feeds.
pub open spec fn without_newlines(input: Seq<char>) -> Seq<char>
    decreases input.len(),
{
    if input.len() == 0 {
        Seq::empty()
    } else if input.last() == '\n' {
        without_newlines(input.drop_last())
    } else {
        without_newlines(input.drop_last()).push(input.last())
    }
}

/// Whether `input` holds no escape character.
pub open spec fn has_no_escape(input: Seq<char>) -> bool {
    forall|k: int| 0 <= k < input.len() ==> input[k] != '\x1b'
}

proof fn lemma_shown_add(a: Seq<Piece>, b: Seq<Piece>)
    ensures
        shown(a + b) == shown(a) + shown(b),
    decreases b.len(),
{
    if b.len() == 0 {
        assert(a + b =~= a);
        assert(shown(a) + shown(b) =~= shown(a));
    } else {
        lemma_shown_add(a, b.drop_last());
        assert((a + b).drop_last() =~= a + b.drop_last());
        assert((a + b).last() == b.last());
        let rest = shown(a) + shown(b.drop_last());
        match b.last() {
            Piece::Text(ch) => assert(rest.push(ch) =~= shown(a) + shown(b.drop_last()).push(ch)),
            Piece::Paint(ch, _) => assert(rest.push(ch) =~= shown(a) + shown(b.drop_last()).push(ch)),
            Piece::PaintBackground(ch, _) => assert(rest.push(ch) =~= shown(a) + shown(
                b.drop_last(),
            ).push(ch)),
            _ => {},
        }
    }
}

proof fn lemma_shown_char_piece(ch: char, plain: bool, seed: u64, background: bool)
    ensures
        shown(
            seq![
                if plain {
                    Piece::Text(ch)
                } else {
                    crate::printer::painted(ch, seed, background)
                },
            ],
        ) == seq![ch],
{
    let piece = if plain {
        Piece::Text(ch)
    } else {
        crate::printer::painted(ch, seed, background)
    };
    reveal_with_fuel(shown, 2);
    assert(seq![piece].drop_last() =~= Seq::<Piece>::empty());
    assert(shown(seq![piece]) =~= seq![ch]);
}

proof fn lemma_shown_push(a: Seq<Piece>, x: Piece)
    ensures
        shown(a.push(x)) == shown(a) + shown(seq![x]),
{
    lemma_shown_add(a, seq![x]);
    assert(a + seq![x] =~= a.push(x));
}

proof fn lemma_shown_controls(c: crate::control::Control)
    ensures
        shown(newline_pieces(c)) == Seq::<char>::empty(),
        shown(reset_pieces(c)) == Seq::<char>::empty(),
        shown(reset_pieces(c).push(Piece::Flush)) == Seq::<char>::empty(),
{
    reveal_with_fuel(shown, 4);
    let e: Seq<Piece> = Seq::empty();
    let rb: Seq<Piece> = if c.print_color && c.background_mode {
        seq![Piece::ResetBackground]
    } else {
        e
    };
    let st: Seq<Piece> = if c.dialup_mode {
        seq![Piece::Stall]
    } else {
        e
    };
    lemma_shown_add(rb + seq![Piece::LineBreak], st);
    lemma_shown_add(rb, seq![Piece::LineBreak]);
    assert(shown(seq![Piece::LineBreak]) =~= Seq::<char>::empty());
    assert(shown(rb) =~= Seq::<char>::empty());
    assert(shown(st) =~= Seq::<char>::empty());
    assert(shown(newline_pieces(c)) =~= Seq::<char>::empty());
    let rb2: Seq<Piece> = if c.background_mode {
        seq![Piece::ResetBackground]
    } else {
        e
    };
    lemma_shown_add(rb2, seq![Piece::ResetForeground]);
    assert(shown(rb2) =~= Seq::<char>::empty());
    assert(shown(seq![Piece::ResetForeground]) =~= Seq::<char>::empty());
    assert(shown(reset_pieces(c)) =~= Seq::<char>::empty());
    lemma_shown_push(reset_pieces(c), Piece::Flush);
    assert(shown(seq![Piece::Flush]) =~= Seq::<char>::empty());
    assert(shown(reset_pieces(c).push(Piece::Flush)) =~= Seq::<char>::empty());
}


proof fn lemma_text_step(o: Outcome, ch: char)
    requires
        o.control.print_color,
        !o.printer.mode.word_wrap,
        o.printer.escape is Idle,
        ch != '\x1b',
    ensures
        shown(spec_feed(o, ch).pieces) == shown(o.pieces) + if ch == '\n' {
            Seq::<char>::empty()
        } else {
            seq![ch]
        },
        spec_feed(o, ch).printer.escape is Idle,
        spec_feed(o, ch).printer.mode == o.printer.mode,
        spec_feed(o, ch).control.print_color,
{
    lemma_shown_controls(o.control);
    let o1 = spec_feed_plain(o, ch);
    if ch == '\n' {
        lemma_shown_add(o.pieces, newline_pieces(o.control));
        assert(o1.pieces == o.pieces + newline_pieces(o.control));
        assert(shown(o1.pieces) =~= shown(o.pieces) + Seq::<char>::empty());
    } else {
        let o0 = if line_is_full(o) {
            spec_handle_newline(o)
        } else {
            o
        };
        lemma_shown_add(o.pieces, newline_pieces(o.control));
        assert(shown(o0.pieces) == shown(o.pieces)) by {
            if line_is_full(o) {
                assert(shown(o.pieces) + Seq::<char>::empty() =~= shown(o.pieces));
            }
        }
        let plain = o0.printer.ignoring_whitespace && spec_is_whitespace(ch);
        let piece = if plain {
            Piece::Text(ch)
        } else {
            crate::printer::painted(ch, o0.control.seed, o0.control.background_mode)
        };
        assert(o1.pieces == o0.pieces.push(piece));
        lemma_shown_push(o0.pieces, piece);
        lemma_shown_char_piece(ch, plain, o0.control.seed, o0.control.background_mode);
    }
    if o.printer.mode.constantly_flush {
        lemma_shown_add(o1.pieces, reset_pieces(o1.control).push(Piece::Flush));
        assert(spec_feed(o, ch).pieces =~= o1.pieces + reset_pieces(o1.control).push(Piece::Flush));
        assert(shown(o1.pieces) + Seq::<char>::empty() =~= shown(o1.pieces));
    }
}

/// Text without escape sequences, printed in colour without keeping words
/// whole, shows every character of the input but the line feeds, in order
/// (line feeds become line breaks, and long lines get extra ones).
pub proof fn law_text_preserved(o: Outcome, input: Seq<char>)
    requires
        o.control.print_color,
        !o.printer.mode.word_wrap,
        o.printer.escape is Idle,
        has_no_escape(input),
    ensures
        shown(spec_run(o, input).pieces) == shown(o.pieces) + without_newlines(input),
        spec_run(o, input).printer.escape is Idle,
        spec_run(o, input).printer.mode == o.printer.mode,
        spec_run(o, input).control.print_color,
    decreases input.len(),
{
    if input.len() == 0 {
        assert(shown(o.pieces) + without_newlines(input) =~= shown(o.pieces));
    } else {
        let prefix = input.drop_last();
        assert forall|k: int| 0 <= k < prefix.len() implies prefix[k] != '\x1b' by {
            assert(prefix[k] == input[k]);
        }
        law_text_preserved(o, prefix);
        let ch = input.last();
        assert(ch == input[input.len() - 1]);
        lemma_text_step(spec_run(o, prefix), ch);
        if ch == '\n' {
            assert(shown(o.pieces) + without_newlines(prefix) + Seq::<char>::empty() =~= shown(
                o.pieces,
            ) + without_newlines(input));
        } else {
            assert(shown(o.pieces) + without_newlines(prefix) + seq![ch] =~= shown(o.pieces)
                + without_newlines(input));
        }
    }
}


/// `s` without its spaces and line feeds.
pub open spec fn letters(s: Seq<char>) -> Seq<char>
    decreases s.len(),
{
    if s.len() == 0 {
        Seq::empty()
    } else if s.last() == ' ' || s.last() == '\n' {
        letters(s.drop_last())
    } else {
        letters(s.drop_last()).push(s.last())
    }
}

proof fn lemma_letters_add(a: Seq<char>, b: Seq<char>)
    ensures
        letters(a + b) == letters(a) + letters(b),
    decreases b.len(),
{
    if b.len() == 0 {
        assert(a + b =~= a);
        assert(letters(a) + letters(b) =~= letters(a));
    } else {
        lemma_letters_add(a, b.drop_last());
        assert((a + b).drop_last() =~= a + b.drop_last());
        assert((a + b).last() == b.last());
        if !(b.last() == ' ' || b.last() == '\n') {
            assert(letters(a) + letters(b.drop_last()).push(b.last()) =~= (letters(a) + letters(
                b.drop_last(),
            )).push(b.last()));
        }
    }
}

proof fn lemma_paint_word_shown(ignoring: bool, seed: u64, background: bool, word: Seq<char>)
    ensures
        shown(crate::printer::spec_paint_word(ignoring, seed, background, word).2) == word,
    decreases word.len(),
{
    if word.len() > 0 {
        lemma_paint_word_shown(ignoring, seed, background, word.drop_last());
        let (ign, s, ps) = crate::printer::spec_paint_word(ignoring, seed, background, word.drop_last());
        let ch = word.last();
        let piece = if ign && spec_is_whitespace(ch) {
            Piece::Text(ch)
        } else {
            crate::printer::painted(ch, s, background)
        };
        assert(crate::printer::spec_paint_word(ignoring, seed, background, word).2 == ps.push(piece));
        lemma_shown_push(ps, piece);
        lemma_shown_char_piece(ch, ign && spec_is_whitespace(ch), s, background);
        assert(word.drop_last() + seq![ch] =~= word);
    }
}

proof fn lemma_word_shown(o: Outcome)
    ensures
        shown(crate::printer::spec_print_word_lol(o).pieces) == shown(o.pieces) + o.buffer,
        crate::printer::spec_print_word_lol(o).buffer.len() == 0,
        crate::printer::spec_print_word_lol(o).printer.escape == o.printer.escape,
        crate::printer::spec_print_word_lol(o).printer.mode == o.printer.mode,
        crate::printer::spec_print_word_lol(o).control.print_color == o.control.print_color,
{
    lemma_shown_controls(o.control);
    let o1 = if crate::printer::word_overflows_line(o) {
        spec_handle_newline(o)
    } else {
        o
    };
    lemma_shown_add(o.pieces, newline_pieces(o.control));
    assert(shown(o1.pieces) == shown(o.pieces)) by {
        if crate::printer::word_overflows_line(o) {
            assert(shown(o.pieces) + Seq::<char>::empty() =~= shown(o.pieces));
        }
    }
    let (ign, seed, ps) = crate::printer::spec_paint_word(
        o1.printer.ignoring_whitespace,
        o1.control.seed,
        o1.control.background_mode,
        o1.buffer,
    );
    lemma_paint_word_shown(
        o1.printer.ignoring_whitespace,
        o1.control.seed,
        o1.control.background_mode,
        o1.buffer,
    );
    lemma_shown_add(o1.pieces, ps);
}

proof fn lemma_letters_step(o: Outcome, ch: char)
    requires
        o.control.print_color,
        o.printer.mode.word_wrap,
        o.printer.escape is Idle,
        ch != '\x1b',
    ensures
        ({
            let r = spec_feed(o, ch);
            &&& letters(shown(r.pieces) + r.buffer) == letters(shown(o.pieces) + o.buffer)
                + letters(seq![ch])
            &&& r.printer.escape is Idle
            &&& r.printer.mode == o.printer.mode
            &&& r.control.print_color
        }),
{
    lemma_shown_controls(o.control);
    reveal_with_fuel(letters, 2);
    let o1 = spec_feed_plain(o, ch);
    let w = crate::printer::spec_print_word_lol(o);
    lemma_word_shown(o);
    lemma_shown_controls(w.control);
    let base = shown(o.pieces) + o.buffer;
    if ch == '\n' {
        lemma_shown_add(w.pieces, newline_pieces(w.control));
        assert(shown(o1.pieces) + o1.buffer =~= base);
        assert(letters(seq![ch]) =~= Seq::<char>::empty());
        assert(letters(base) + letters(seq![ch]) =~= letters(base));
    } else if ch == ' ' {
        lemma_shown_add(w.pieces, newline_pieces(w.control));
        let o0 = if line_is_full(w) {
            spec_handle_newline(w)
        } else {
            w
        };
        assert(shown(o0.pieces) == shown(w.pieces)) by {
            if line_is_full(w) {
                assert(shown(w.pieces) + Seq::<char>::empty() =~= shown(w.pieces));
            }
        }
        let plain = o0.printer.ignoring_whitespace && spec_is_whitespace(ch);
        let piece = if plain {
            Piece::Text(ch)
        } else {
            crate::printer::painted(ch, o0.control.seed, o0.control.background_mode)
        };
        lemma_shown_push(o0.pieces, piece);
        lemma_shown_char_piece(ch, plain, o0.control.seed, o0.control.background_mode);
        if w.printer.printed_chars_on_line == w.control.terminal_width - 1 {
            assert(shown(o1.pieces) + o1.buffer =~= base);
        } else {
            assert(shown(o1.pieces) + o1.buffer =~= base + seq![ch]);
            lemma_letters_add(base, seq![ch]);
        }
        assert(letters(seq![ch]) =~= Seq::<char>::empty());
        assert(letters(base) + letters(seq![ch]) =~= letters(base));
    } else {
        let full = crate::chars::len16(o.buffer) + 1 >= o.control.terminal_width;
        let o0 = if full {
            spec_handle_newline(w)
        } else {
            o
        };
        lemma_shown_add(w.pieces, newline_pieces(w.control));
        assert(shown(o0.pieces) + o0.buffer =~= base);
        assert(shown(o1.pieces) + o1.buffer =~= base + seq![ch]);
        lemma_letters_add(base, seq![ch]);
    }
    if o.printer.mode.constantly_flush {
        lemma_shown_add(o1.pieces, reset_pieces(o1.control).push(Piece::Flush));
        assert(spec_feed(o, ch).pieces =~= o1.pieces + reset_pieces(o1.control).push(Piece::Flush));
        assert(shown(o1.pieces) + Seq::<char>::empty() =~= shown(o1.pieces));
    }
}

/// Text without escape sequences, printed in colour with words kept whole,
/// loses, adds or reorders no character other than spaces and line feeds:
/// what is shown, followed by the word still waiting, holds the input's
/// other characters in order.
pub proof fn law_word_wrap_keeps_letters(o: Outcome, input: Seq<char>)
    requires
        o.control.print_color,
        o.printer.mode.word_wrap,
        o.printer.escape is Idle,
        has_no_escape(input),
    ensures
        ({
            let r = spec_run(o, input);
            &&& letters(shown(r.pieces) + r.buffer) == letters(shown(o.pieces) + o.buffer)
                + letters(input)
            &&& r.printer.escape is Idle
            &&& r.printer.mode == o.printer.mode
            &&& r.control.print_color
        }),
    decreases input.len(),
{
    if input.len() == 0 {
        assert(letters(input) =~= Seq::<char>::empty());
        assert(letters(shown(o.pieces) + o.buffer) + letters(input) =~= letters(
            shown(o.pieces) + o.buffer,
        ));
    } else {
        let prefix = input.drop_last();
        assert forall|k: int| 0 <= k < prefix.len() implies prefix[k] != '\x1b' by {
            assert(prefix[k] == input[k]);
        }
        law_word_wrap_keeps_letters(o, prefix);
        let ch = input.last();
        assert(ch == input[input.len() - 1]);
        lemma_letters_step(spec_run(o, prefix), ch);
        lemma_letters_add(prefix, seq![ch]);
        assert(prefix + seq![ch] =~= input);
        let base = letters(shown(o.pieces) + o.buffer);
        assert(base + letters(prefix) + letters(seq![ch]) =~= base + letters(input));
    }
}


/// The lines, each followed by a line feed, one after another.
pub open spec fn joined_lines(lines: Seq<Seq<char>>) -> Seq<char>
    decreases lines.len(),
{
    if lines.len() == 0 {
        Seq::empty()
    } else {
        joined_lines(lines.drop_last()) + lines.last().push('\n')
    }
}

/// Reading two runs one after the other is reading them joined.
pub proof fn lemma_run_append(o: Outcome, a: Seq<char>, b: Seq<char>)
    ensures
        spec_run(o, a + b) == spec_run(spec_run(o, a), b),
        spec_run_fault(o, a + b) == match spec_run_fault(o, a) {
            Some(f) => Some(f),
            None => spec_run_fault(spec_run(o, a), b),
        },
    decreases b.len(),
{
    if b.len() == 0 {
        assert(a + b =~= a);
    } else {
        lemma_run_append(o, a, b.drop_last());
        assert((a + b).drop_last() =~= a + b.drop_last());
        assert((a + b).last() == b.last());
    }
}

pub(crate) proof fn lemma_feed_keeps_idle(o: Outcome, ch: char)
    requires
        o.control.print_color,
        o.printer.escape is Idle,
        ch != '\x1b',
    ensures
        spec_feed(o, ch).printer.escape is Idle,
        spec_feed(o, ch).printer.mode == o.printer.mode,
        spec_feed(o, ch).control.print_color,
        spec_feed(o, ch).control.background_mode == o.control.background_mode,
{
}

pub(crate) proof fn lemma_run_keeps_idle(o: Outcome, input: Seq<char>)
    requires
        o.control.print_color,
        o.printer.escape is Idle,
        has_no_escape(input),
    ensures
        spec_run(o, input).printer.escape is Idle,
        spec_run(o, input).printer.mode == o.printer.mode,
        spec_run(o, input).control.print_color,
        spec_run(o, input).control.background_mode == o.control.background_mode,
    decreases input.len(),
{
    if input.len() > 0 {
        let prefix = input.drop_last();
        assert forall|k: int| 0 <= k < prefix.len() implies prefix[k] != '\x1b' by {
            assert(prefix[k] == input[k]);
        }
        lemma_run_keeps_idle(o, prefix);
        assert(input.last() == input[input.len() - 1]);
        lemma_feed_keeps_idle(spec_run(o, prefix), input.last());
    }
}

/// After a line without escape characters and its line feed, the printer
/// stands where a fresh printer would.
proof fn lemma_line_ends_fresh(o: Outcome, line: Seq<char>)
    requires
        o.printer == spec_start(o.printer.mode, o.control),
        has_no_escape(line),
    ensures
        ({
            let r = spec_run(o, line.push('\n'));
            &&& r.printer == spec_start(o.printer.mode, r.control)
            &&& !word_waits(r)
        }),
{
    let input = line.push('\n');
    assert(input.drop_last() =~= line);
    if o.control.print_color {
        lemma_run_keeps_idle(o, line);
        let r = spec_run(o, line);
        if o.printer.mode.word_wrap {
            assert(crate::printer::spec_print_word_lol(r).buffer.len() == 0);
        }
    } else {
        law_uncolored_passthrough(o, input);
    }
}

proof fn lemma_lines_stream(mode: Mode, c: Control, buffer: Seq<char>, lines: Seq<Seq<char>>)
    requires
        forall|i: int| 0 <= i < lines.len() ==> has_no_escape(#[trigger] lines[i]),
    ensures
        ({
            let r = spec_session(mode, c, buffer, joined_lines(lines));
            &&& spec_lines_run(mode, c, buffer, lines) == r
            &&& r.printer == spec_start(mode, r.control)
            &&& spec_lines_fault(mode, c, buffer, lines) == spec_run_fault(
                crate::printer::outcome(spec_start(mode, c), c, buffer, Seq::empty()),
                joined_lines(lines),
            )
        }),
    decreases lines.len(),
{
    let o0 = crate::printer::outcome(spec_start(mode, c), c, buffer, Seq::empty());
    if lines.len() == 0 {
        assert(joined_lines(lines) =~= Seq::<char>::empty());
    } else {
        let rest = lines.drop_last();
        assert forall|i: int| 0 <= i < rest.len() implies has_no_escape(#[trigger] rest[i]) by {
            assert(rest[i] == lines[i]);
        }
        lemma_lines_stream(mode, c, buffer, rest);
        let j = joined_lines(rest);
        let line = lines.last();
        assert(has_no_escape(lines[lines.len() - 1]));
        let lf = line.push('\n');
        let s = spec_session(mode, c, buffer, j);
        lemma_run_append(o0, j, lf);
        assert(joined_lines(lines) == j + lf);
        let fresh = with_pieces(s, Seq::empty());
        assert(fresh == crate::printer::outcome(spec_start(mode, s.control), s.control, s.buffer, Seq::empty()));
        lemma_run_frame(s, lf);
        lemma_line_ends_fresh(fresh, line);
        let e = spec_run(fresh, lf);
        assert(crate::printer::spec_escape_end_fault(e.printer.escape) is None);
        assert(crate::printer::spec_escape_end_fault(s.printer.escape) is None);
        assert(spec_session(mode, c, buffer, joined_lines(lines)) =~= with_pieces(e, s.pieces + e.pieces));
        assert(spec_lines_run(mode, c, buffer, lines) =~= with_pieces(e, s.pieces + e.pieces));
    }
}

/// Printing lines that hold no escape character, each as a run of its own
/// followed by a line break, gives the same as printing them joined by line
/// feeds as one run: the same pieces, the same settings afterwards, the same
/// waiting word and the same fault, if any.
pub proof fn law_lines_match_stream(mode: Mode, c: Control, buffer: Seq<char>, lines: Seq<Seq<char>>)
    requires
        forall|i: int| 0 <= i < lines.len() ==> has_no_escape(#[trigger] lines[i]),
    ensures
        spec_lines_run(mode, c, buffer, lines) == spec_session(mode, c, buffer, joined_lines(lines)),
        spec_session(mode, c, buffer, joined_lines(lines)).printer == spec_start(
            mode,
            spec_session(mode, c, buffer, joined_lines(lines)).control,
        ),
        spec_lines_fault(mode, c, buffer, lines) == spec_session_fault(
            mode,
            c,
            buffer,
            joined_lines(lines),
        ),
{
    lemma_lines_stream(mode, c, buffer, lines);
}

/// Whether `s` holds no carriage return.
pub open spec fn has_no_cr(s: Seq<char>) -> bool {
    forall|k: int| 0 <= k < s.len() ==> s[k] != '\r'
}

proof fn lemma_split_joins(s: Seq<char>)
    requires
        has_no_cr(s),
    ensures
        ({
            let (done, cur) = spec_split(s);
            &&& joined_lines(done) + cur == s
            &&& (cur.len() == 0 <==> (s.len() == 0 || s.last() == '\n'))
            &&& has_no_cr(cur)
        }),
    decreases s.len(),
{
    if s.len() > 0 {
        let prefix = s.drop_last();
        assert forall|k: int| 0 <= k < prefix.len() implies prefix[k] != '\r' by {
            assert(prefix[k] == s[k]);
        }
        lemma_split_joins(prefix);
        let (done, cur) = spec_split(prefix);
        let ch = s.last();
        assert(ch == s[s.len() - 1]);
        if ch == '\n' {
            if cur.len() > 0 {
                assert(cur.last() == cur[cur.len() - 1]);
            }
            assert(strip_cr(cur) == cur);
            assert(joined_lines(done.push(cur)) == joined_lines(done) + cur.push('\n')) by {
                assert(done.push(cur).drop_last() =~= done);
            }
            assert(joined_lines(done) + cur.push('\n') =~= (joined_lines(done) + cur).push('\n'));
            assert(prefix.push('\n') =~= s);
            assert(joined_lines(done.push(cur)) + Seq::<char>::empty() =~= joined_lines(done.push(cur)));
        } else {
            assert(joined_lines(done) + cur.push(ch) =~= (joined_lines(done) + cur).push(ch));
            assert(prefix.push(ch) =~= s);
            let cur2 = cur.push(ch);
            assert forall|k: int| 0 <= k < cur2.len() implies cur2[k] != '\r' by {
                if k < cur.len() {
                    assert(cur2[k] == cur[k]);
                } else {
                    assert(cur2[k] == ch);
                }
            }
        }
    }
}

/// Text without carriage returns comes back from its lines when each is
/// followed by a line feed, with a line feed added at the end if the text
/// did not end with one.
pub proof fn law_lines_rejoin(s: Seq<char>)
    requires
        has_no_cr(s),
    ensures
        joined_lines(spec_lines(s)) == if s.len() == 0 || s.last() == '\n' {
            s
        } else {
            s.push('\n')
        },
{
    lemma_split_joins(s);
    let (done, cur) = spec_split(s);
    if cur.len() == 0 {
        assert(joined_lines(done) + cur =~= joined_lines(done));
    } else {
        assert(done.push(cur).drop_last() =~= done);
        assert(joined_lines(done.push(cur)) =~= (joined_lines(done) + cur).push('\n'));
    }
}


/// A line feed outside escape sequences, in colour, ends the line and starts
/// the colour wave again one step after where the line started; the column
/// count starts again.  (With words kept whole, this is so when the waiting
/// word still fits on the line; otherwise the word goes to a line of its own
/// first.)
pub proof fn law_line_feed_restarts_wave(o: Outcome)
    requires
        o.control.print_color,
        o.printer.escape is Idle,
        o.printer.mode.word_wrap ==> crate::printer::word_fits(o)
            && !crate::printer::word_overflows_line(o),
    ensures
        spec_feed(o, '\n').control.seed == crate::printer::bump(o.printer.line_seed, 1),
        spec_feed(o, '\n').printer.line_seed == crate::printer::bump(o.printer.line_seed, 1),
        spec_feed(o, '\n').printer.printed_chars_on_line == 0,
        spec_feed(o, '\n').printer.ignoring_whitespace == o.control.background_mode,
        spec_accepts(o, '\n'),
{
}

/// Whether every character of `input` is white space other than a line feed.
pub open spec fn is_blank(input: Seq<char>) -> bool {
    forall|k: int| 0 <= k < input.len() ==> spec_is_whitespace(input[k]) && input[k] != '\n'
}

/// In background mode, white space at the start of a line is written
/// without colour.
pub proof fn law_background_leading_space_plain(o: Outcome, input: Seq<char>)
    requires
        o.control.print_color,
        o.control.background_mode,
        o.printer.ignoring_whitespace,
        !o.printer.mode.line_wrap,
        !o.printer.mode.word_wrap,
        !o.printer.mode.constantly_flush,
        o.printer.escape is Idle,
        is_blank(input),
    ensures
        spec_run(o, input).pieces == o.pieces + texts(input),
        spec_run(o, input).printer.ignoring_whitespace,
        spec_run(o, input).printer.escape is Idle,
        spec_run(o, input).printer.mode == o.printer.mode,
        spec_run(o, input).control.print_color,
        spec_run(o, input).control.background_mode,
    decreases input.len(),
{
    if input.len() == 0 {
        lemma_add_empty(o.pieces, texts(input));
    } else {
        let prefix = input.drop_last();
        assert forall|k: int| 0 <= k < prefix.len() implies spec_is_whitespace(prefix[k])
            && prefix[k] != '\n' by {
            assert(prefix[k] == input[k]);
        }
        law_background_leading_space_plain(o, prefix);
        let ch = input.last();
        assert(ch == input[input.len() - 1]);
        assert(ch != '\x1b');
        lemma_push_after_add(o.pieces, texts(prefix), Piece::Text(ch));
        lemma_texts_unfold(input);
    }
}

} // verus!
