//! How wide the lines of the output get.
use vstd::prelude::*;
use crate::chars::{len16, spec_is_whitespace};
use crate::control::{Control, Fault, Mode, Piece};
use crate::laws::{
    has_no_escape, is_plain_text, law_line_wrap_keeps_width, lemma_feed_keeps_idle,
    lemma_line_wrap_step, lemma_run_append, lemma_run_keeps_idle,
};
use crate::printer::{
    char_fits, line_is_full, newline_pieces, painted, reset_pieces, spec_accepts, spec_end_fault,
    spec_escape_end_fault, spec_fault, spec_feed, spec_feed_plain, spec_finish, spec_handle_newline,
    spec_paint_word, spec_print_char_lol, spec_print_word_lol, spec_reset_colors, spec_start,
    word_fits, word_waits, Outcome,
};
use crate::session::{
    spec_print_all, spec_print_all_fault, spec_run, spec_run_fault, spec_session,
    spec_session_fault,
};

verus! {

/// The most characters a line may hold when lines are wrapped at `w`
/// columns: `w`, or one less when words are kept whole (the last column is
/// left free), but at least one.
pub open spec fn line_limit(mode: Mode, w: u16) -> int {
    if mode.word_wrap && w >= 2 {
        w - 1
    } else {
        w as int
    }
}

/// What keeps words whole within the width: the column count and the
/// waiting word each within the line limit.
pub open spec fn word_wrap_within(o: Outcome, w: u16) -> bool {
    &&& o.printer.mode.line_wrap
    &&& o.printer.mode.word_wrap
    &&& o.control.terminal_width == w
    &&& o.printer.printed_chars_on_line <= line_limit(o.printer.mode, w)
    &&& o.buffer.len() <= line_limit(o.printer.mode, w)
}

proof fn lemma_word_within(o: Outcome, w: u16)
    requires
        word_wrap_within(o, w),
        1 <= w,
        word_fits(o) || w <= 32767,
    ensures
        len16(o.buffer) == o.buffer.len(),
        word_fits(o),
        spec_print_word_lol(o).printer.printed_chars_on_line <= line_limit(o.printer.mode, w),
        spec_print_word_lol(o).printer.mode == o.printer.mode,
        spec_print_word_lol(o).control.terminal_width == w,
        spec_print_word_lol(o).buffer.len() == 0,
{
    vstd::arithmetic::div_mod::lemma_small_mod(o.buffer.len(), 0x10000);
}

proof fn lemma_word_wrap_step(o: Outcome, ch: char, w: u16)
    requires
        word_wrap_within(o, w),
        1 <= w,
        spec_accepts(o, ch) || w <= 32767,
    ensures
        word_wrap_within(spec_feed(o, ch), w),
        w <= 32767 ==> spec_fault(o, ch) != Some(Fault::ColumnOverflow),
{
    vstd::arithmetic::div_mod::lemma_small_mod(o.buffer.len(), 0x10000);
    if o.control.print_color && o.printer.escape is Idle {
        if ch == '\n' {
            lemma_word_within(o, w);
        } else if ch == ' ' {
            lemma_word_within(o, w);
            let wd = spec_print_word_lol(o);
            assert(char_fits(wd));
        } else if ch != '\x1b' {
            if len16(o.buffer) + 1 >= w {
                lemma_word_within(o, w);
                let wd = spec_print_word_lol(o);
                assert(spec_handle_newline(wd).buffer.push(ch).len() == 1);
            }
        }
    }
}

/// With words kept whole at a width of at least one column, over any run
/// that meets no fault, the column count and the waiting word stay within
/// the line limit: one column less than the width (the last column is left
/// free), or one column at a width of one.  Printing the waiting word at the
/// end keeps the column count within the limit too.
pub proof fn law_word_wrap_keeps_width(o: Outcome, input: Seq<char>, w: u16)
    requires
        word_wrap_within(o, w),
        1 <= w,
        spec_run_fault(o, input) is None,
    ensures
        word_wrap_within(spec_run(o, input), w),
        spec_end_fault(spec_run(o, input)) is None ==> spec_finish(
            spec_run(o, input),
        ).printer.printed_chars_on_line <= line_limit(o.printer.mode, w),
    decreases input.len(),
{
    if input.len() > 0 {
        let prefix = input.drop_last();
        law_word_wrap_keeps_width(o, prefix, w);
        lemma_word_wrap_step(spec_run(o, prefix), input.last(), w);
    }
    let r = spec_run(o, input);
    reveal(spec_finish);
    if spec_end_fault(r) is None && word_waits(r) {
        lemma_word_within(r, w);
    }
}

/// With words kept whole at a width of 1 to 32767 columns, no column count
/// ever leaves its range, up to and including the end of the input.  (At a
/// greater width, a full line and a long waiting word can add up to more
/// than 16 bits hold.)
pub proof fn law_word_wrap_never_overflows(o: Outcome, input: Seq<char>, w: u16)
    requires
        word_wrap_within(o, w),
        1 <= w <= 32767,
    ensures
        word_wrap_within(spec_run(o, input), w),
        spec_run_fault(o, input) != Some(Fault::ColumnOverflow),
        spec_end_fault(spec_run(o, input)) != Some(Fault::ColumnOverflow),
    decreases input.len(),
{
    if input.len() > 0 {
        let prefix = input.drop_last();
        law_word_wrap_never_overflows(o, prefix, w);
        lemma_word_wrap_step(spec_run(o, prefix), input.last(), w);
    }
    let r = spec_run(o, input);
    if word_waits(r) {
        lemma_word_within(r, w);
    }
}

/// The column count after `s`, lines wrapped at `w` columns, from column `k`.
pub open spec fn wrap_column(s: Seq<char>, w: u16, k: int) -> int
    decreases s.len(),
{
    if s.len() == 0 {
        k
    } else {
        let col = wrap_column(s.drop_last(), w, k);
        if col == w {
            1
        } else {
            col + 1
        }
    }
}

/// `s` with a line feed before each character that finds the line full, lines
/// wrapped at `w` columns from column `k`.
pub open spec fn with_breaks(s: Seq<char>, w: u16, k: int) -> Seq<char>
    decreases s.len(),
{
    if s.len() == 0 {
        Seq::empty()
    } else {
        let col = wrap_column(s.drop_last(), w, k);
        with_breaks(s.drop_last(), w, k) + if col == w {
            seq!['\n', s.last()]
        } else {
            seq![s.last()]
        }
    }
}

/// Two printers that write alike: one wrapping lines, the other not.
pub open spec fn write_alike(o1: Outcome, o2: Outcome) -> bool {
    &&& o1.printer.mode == (Mode { line_wrap: true, word_wrap: false, constantly_flush: false })
    &&& o2.printer.mode == (Mode { line_wrap: false, word_wrap: false, constantly_flush: false })
    &&& o1.control == o2.control
    &&& o1.control.print_color
    &&& o1.buffer == o2.buffer
    &&& o1.pieces == o2.pieces
    &&& o1.printer.line_seed == o2.printer.line_seed
    &&& o1.printer.ignoring_whitespace == o2.printer.ignoring_whitespace
    &&& o1.printer.escape is Idle
    &&& o2.printer.escape is Idle
}

proof fn lemma_run_two(o: Outcome, a: char, b: char)
    ensures
        spec_run(o, seq![a, b]) == spec_feed(spec_feed(o, a), b),
        spec_run(o, seq![b]) == spec_feed(o, b),
{
    let e = Seq::<char>::empty();
    assert(seq![a, b].drop_last() =~= seq![a]);
    assert(seq![a, b].last() == b);
    assert(seq![a].drop_last() =~= e);
    assert(seq![a].last() == a);
    assert(seq![b].drop_last() =~= e);
    assert(seq![b].last() == b);
    assert(spec_run(o, e) == o);
    assert(spec_run(o, seq![a]) == spec_feed(spec_run(o, e), a));
    assert(spec_run(o, seq![b]) == spec_feed(spec_run(o, e), b));
    assert(spec_run(o, seq![a, b]) == spec_feed(spec_run(o, seq![a]), b));
}

proof fn lemma_explicit_break_step(o1: Outcome, o2: Outcome, ch: char)
    requires
        write_alike(o1, o2),
        1 <= o1.control.terminal_width,
        o1.printer.printed_chars_on_line <= o1.control.terminal_width,
        ch != '\x1b',
        ch != '\n',
    ensures
        ({
            let w = o1.control.terminal_width;
            let r1 = spec_run(o1, seq![ch]);
            let r2 = spec_run(
                o2,
                if o1.printer.printed_chars_on_line == w {
                    seq!['\n', ch]
                } else {
                    seq![ch]
                },
            );
            &&& write_alike(r1, r2)
            &&& r1.printer.printed_chars_on_line == if o1.printer.printed_chars_on_line == w {
                1
            } else {
                o1.printer.printed_chars_on_line + 1
            }
            &&& r1.printer.printed_chars_on_line <= w
            &&& r1.control.terminal_width == w
        }),
{
    lemma_run_two(o1, '\n', ch);
    lemma_run_two(o2, '\n', ch);
}

/// Wrapping lines at a width of at least one column writes the same as not
/// wrapping them but putting a line feed before each character that finds
/// the line full: the same pieces, the same point of the colour wave.  This
/// holds of text without escape characters or line feeds, with no flushing.
pub proof fn law_line_wrap_is_explicit_breaks(o1: Outcome, o2: Outcome, input: Seq<char>)
    requires
        write_alike(o1, o2),
        1 <= o1.control.terminal_width,
        o1.printer.printed_chars_on_line <= o1.control.terminal_width,
        is_plain_text(input),
    ensures
        ({
            let w = o1.control.terminal_width;
            let k = o1.printer.printed_chars_on_line as int;
            let r1 = spec_run(o1, input);
            let r2 = spec_run(o2, with_breaks(input, w, k));
            &&& write_alike(r1, r2)
            &&& r1.pieces == r2.pieces
            &&& r1.control == r2.control
            &&& r1.printer.printed_chars_on_line == wrap_column(input, w, k)
            &&& r1.printer.printed_chars_on_line <= w
            &&& r1.control.terminal_width == w
        }),
    decreases input.len(),
{
    let w = o1.control.terminal_width;
    let k = o1.printer.printed_chars_on_line as int;
    if input.len() > 0 {
        let prefix = input.drop_last();
        assert forall|i: int| 0 <= i < prefix.len() implies prefix[i] != '\x1b' && prefix[i]
            != '\n' by {
            assert(prefix[i] == input[i]);
        }
        law_line_wrap_is_explicit_breaks(o1, o2, prefix);
        let ch = input.last();
        assert(ch == input[input.len() - 1]);
        let r1 = spec_run(o1, prefix);
        let wb = with_breaks(prefix, w, k);
        let r2 = spec_run(o2, wb);
        let col = wrap_column(prefix, w, k);
        let tail = if col == w {
            seq!['\n', ch]
        } else {
            seq![ch]
        };
        assert(with_breaks(input, w, k) == wb + tail);
        lemma_run_append(o2, wb, tail);
        assert(prefix + seq![ch] =~= input);
        lemma_run_append(o1, prefix, seq![ch]);
        lemma_explicit_break_step(r1, r2, ch);
    }
}


/// Whether `p` puts a character on the screen.
pub open spec fn is_shown(p: Piece) -> bool {
    match p {
        Piece::Text(_) => true,
        Piece::Paint(_, _) => true,
        Piece::PaintBackground(_, _) => true,
        _ => false,
    }
}

/// The number of characters on the last line of `pieces`.
pub open spec fn line_len(pieces: Seq<Piece>) -> nat
    decreases pieces.len(),
{
    if pieces.len() == 0 {
        0
    } else if pieces.last() is LineBreak {
        0
    } else if is_shown(pieces.last()) {
        line_len(pieces.drop_last()) + 1
    } else {
        line_len(pieces.drop_last())
    }
}

/// Whether no line of `pieces` holds more than `w` characters.
pub open spec fn lines_within(pieces: Seq<Piece>, w: int) -> bool
    decreases pieces.len(),
{
    pieces.len() == 0 || (lines_within(pieces.drop_last(), w) && line_len(pieces) <= w)
}

/// The number of characters that `pieces` put on the screen.
pub open spec fn count_shown(pieces: Seq<Piece>) -> nat
    decreases pieces.len(),
{
    if pieces.len() == 0 {
        0
    } else if is_shown(pieces.last()) {
        count_shown(pieces.drop_last()) + 1
    } else {
        count_shown(pieces.drop_last())
    }
}

/// Whether `pieces` hold no line break.
pub open spec fn no_break(pieces: Seq<Piece>) -> bool {
    forall|i: int| 0 <= i < pieces.len() ==> !(pieces[i] is LineBreak)
}

proof fn lemma_within_len(pieces: Seq<Piece>, w: int)
    requires
        lines_within(pieces, w),
        0 <= w,
    ensures
        line_len(pieces) <= w,
{
}

proof fn lemma_append_no_break(a: Seq<Piece>, b: Seq<Piece>, w: int)
    requires
        no_break(b),
        0 <= w,
    ensures
        line_len(a + b) == line_len(a) + count_shown(b),
        lines_within(a, w) && line_len(a) + count_shown(b) <= w ==> lines_within(a + b, w),
    decreases b.len(),
{
    if b.len() == 0 {
        assert(a + b =~= a);
    } else {
        let bp = b.drop_last();
        assert forall|i: int| 0 <= i < bp.len() implies !(bp[i] is LineBreak) by {
            assert(bp[i] == b[i]);
        }
        lemma_append_no_break(a, bp, w);
        assert((a + b).drop_last() =~= a + bp);
        assert((a + b).last() == b.last());
        assert(b.last() == b[b.len() - 1]);
    }
}

proof fn lemma_append_newline(a: Seq<Piece>, c: Control, w: int)
    requires
        lines_within(a, w),
        0 <= w,
    ensures
        line_len(a + newline_pieces(c)) == 0,
        lines_within(a + newline_pieces(c), w),
{
    let e = Seq::<Piece>::empty();
    let rb: Seq<Piece> = if c.print_color && c.background_mode {
        seq![Piece::ResetBackground]
    } else {
        e
    };
    let st: Seq<Piece> = if c.dialup_mode {
        seq![Piece::Stall]
    } else {
        e
    };
    lemma_within_len(a, w);
    reveal_with_fuel(count_shown, 2);
    assert(no_break(rb));
    lemma_append_no_break(a, rb, w);
    let a1 = a + rb;
    let a2 = a1.push(Piece::LineBreak);
    assert(a2.drop_last() == a1);
    assert(line_len(a2) == 0);
    assert(lines_within(a2, w));
    assert(no_break(st));
    lemma_append_no_break(a2, st, w);
    assert(a + newline_pieces(c) =~= a2 + st);
}

proof fn lemma_append_reset(a: Seq<Piece>, c: Control, w: int)
    requires
        lines_within(a, w),
        0 <= w,
    ensures
        line_len(a + reset_pieces(c).push(Piece::Flush)) == line_len(a),
        lines_within(a + reset_pieces(c).push(Piece::Flush), w),
{
    lemma_within_len(a, w);
    reveal_with_fuel(count_shown, 4);
    let b = reset_pieces(c).push(Piece::Flush);
    assert(no_break(b));
    assert(count_shown(b) == 0) by {
        assert(b.drop_last() == reset_pieces(c));
        if c.print_color {
            let e = Seq::<Piece>::empty();
            let rb: Seq<Piece> = if c.background_mode {
                seq![Piece::ResetBackground]
            } else {
                e
            };
            assert(reset_pieces(c) == rb + seq![Piece::ResetForeground]);
            assert((rb + seq![Piece::ResetForeground]).drop_last() =~= rb);
        }
    }
    lemma_append_no_break(a, b, w);
}

/// The column count is the number of characters on the last line, and no
/// line holds more than `w` characters.
pub open spec fn lines_tally(o: Outcome, w: int) -> bool {
    &&& lines_within(o.pieces, w)
    &&& line_len(o.pieces) == o.printer.printed_chars_on_line
}

proof fn lemma_push_shown(ps: Seq<Piece>, piece: Piece)
    requires
        no_break(ps),
        is_shown(piece),
    ensures
        no_break(ps.push(piece)),
        count_shown(ps.push(piece)) == count_shown(ps) + 1,
{
    let ps2 = ps.push(piece);
    assert(ps2.drop_last() =~= ps);
    assert forall|i: int| 0 <= i < ps2.len() implies !(ps2[i] is LineBreak) by {
        if i < ps.len() {
            assert(ps2[i] == ps[i]);
        }
    }
}

proof fn lemma_paint_word_pieces(ignoring: bool, seed: u64, background: bool, word: Seq<char>)
    ensures
        no_break(crate::printer::spec_paint_word(ignoring, seed, background, word).2),
        count_shown(crate::printer::spec_paint_word(ignoring, seed, background, word).2)
            == word.len(),
    decreases word.len(),
{
    if word.len() > 0 {
        lemma_paint_word_pieces(ignoring, seed, background, word.drop_last());
        let (ign, s, ps) = crate::printer::spec_paint_word(ignoring, seed, background, word.drop_last());
        let ch = word.last();
        let piece = if ign && spec_is_whitespace(ch) {
            Piece::Text(ch)
        } else {
            crate::printer::painted(ch, s, background)
        };
        let ps2 = crate::printer::spec_paint_word(ignoring, seed, background, word).2;
        assert(ps2 == ps.push(piece));
        lemma_push_shown(ps, piece);
    }
}

proof fn lemma_tally_newline(o: Outcome, w: int)
    requires
        lines_tally(o, w),
        0 <= w,
    ensures
        lines_tally(spec_handle_newline(o), w),
{
    lemma_append_newline(o.pieces, o.control, w);
}

proof fn lemma_tally_char(o: Outcome, ch: char, bound: int)
    requires
        lines_tally(o, bound),
        0 <= bound,
        o.printer.mode.line_wrap,
        char_fits(o),
        spec_print_char_lol(o, ch).printer.printed_chars_on_line <= bound,
    ensures
        lines_tally(spec_print_char_lol(o, ch), bound),
{
    let o1 = if line_is_full(o) {
        spec_handle_newline(o)
    } else {
        o
    };
    if line_is_full(o) {
        lemma_tally_newline(o, bound);
    }
    let plain = o1.printer.ignoring_whitespace && spec_is_whitespace(ch);
    let piece = if plain {
        Piece::Text(ch)
    } else {
        painted(ch, o1.control.seed, o1.control.background_mode)
    };
    reveal_with_fuel(count_shown, 2);
    assert(is_shown(piece));
    assert(seq![piece].drop_last() =~= Seq::<Piece>::empty());
    assert(no_break(seq![piece]));
    lemma_append_no_break(o1.pieces, seq![piece], bound);
    assert(o1.pieces + seq![piece] =~= o1.pieces.push(piece));
}

proof fn lemma_tally_word(o: Outcome, bound: int)
    requires
        lines_tally(o, bound),
        0 <= bound,
        word_fits(o),
        len16(o.buffer) == o.buffer.len(),
        spec_print_word_lol(o).printer.printed_chars_on_line <= bound,
    ensures
        lines_tally(spec_print_word_lol(o), bound),
{
    let o1 = if crate::printer::word_overflows_line(o) {
        spec_handle_newline(o)
    } else {
        o
    };
    if crate::printer::word_overflows_line(o) {
        lemma_tally_newline(o, bound);
    }
    let (ign, seed, ps) = spec_paint_word(
        o1.printer.ignoring_whitespace,
        o1.control.seed,
        o1.control.background_mode,
        o1.buffer,
    );
    lemma_paint_word_pieces(
        o1.printer.ignoring_whitespace,
        o1.control.seed,
        o1.control.background_mode,
        o1.buffer,
    );
    lemma_append_no_break(o1.pieces, ps, bound);
}

/// What keeps lines within the line limit: lines wrapped at `w`, the column
/// count within the limit, and, when words are kept whole, the waiting word
/// within the limit too.
pub open spec fn wraps_within(o: Outcome, w: u16) -> bool {
    &&& o.printer.mode.line_wrap
    &&& o.control.terminal_width == w
    &&& o.printer.printed_chars_on_line <= line_limit(o.printer.mode, w)
    &&& (o.printer.mode.word_wrap ==> o.buffer.len() <= line_limit(o.printer.mode, w))
}

proof fn lemma_tally_step(o: Outcome, ch: char, w: u16)
    requires
        o.control.print_color,
        o.printer.escape is Idle,
        ch != '\x1b',
        wraps_within(o, w),
        lines_tally(o, line_limit(o.printer.mode, w)),
        1 <= w,
        spec_accepts(o, ch),
    ensures
        wraps_within(spec_feed(o, ch), w),
        lines_tally(spec_feed(o, ch), line_limit(o.printer.mode, w)),
        spec_feed(o, ch).printer.escape is Idle,
        spec_feed(o, ch).printer.mode == o.printer.mode,
        spec_feed(o, ch).control.print_color,
{
    let lim = line_limit(o.printer.mode, w);
    lemma_feed_keeps_idle(o, ch);
    let o1 = spec_feed_plain(o, ch);
    if o.printer.mode.word_wrap {
        lemma_word_wrap_step(o, ch, w);
        vstd::arithmetic::div_mod::lemma_small_mod(o.buffer.len(), 0x10000);
        let wd = spec_print_word_lol(o);
        if ch == '\n' {
            lemma_word_within(o, w);
            lemma_tally_word(o, lim);
            lemma_tally_newline(wd, lim);
        } else if ch == ' ' {
            lemma_word_within(o, w);
            lemma_tally_word(o, lim);
            if wd.printer.printed_chars_on_line == wd.control.terminal_width - 1 {
                lemma_tally_newline(wd, lim);
            } else {
                assert(char_fits(wd));
                lemma_tally_char(wd, ch, lim);
            }
        } else {
            if len16(o.buffer) + 1 >= w {
                lemma_word_within(o, w);
                lemma_tally_word(o, lim);
                lemma_tally_newline(wd, lim);
            }
        }
    } else {
        lemma_line_wrap_step(o, ch);
        if ch == '\n' {
            lemma_tally_newline(o, lim);
        } else {
            lemma_tally_char(o, ch, lim);
        }
    }
    assert(lines_tally(o1, lim));
    if o.printer.mode.constantly_flush {
        lemma_append_reset(o1.pieces, o1.control, lim);
    }
}

/// Text without escape characters, printed in colour with lines wrapped at
/// `w` columns, never puts more characters on one line than the line limit
/// (`w`, or `w - 1` when words are kept whole and `w` is at least two), over
/// any run that meets no fault, and after the waiting word is printed at
/// the end.
pub proof fn law_output_lines_within_width(o: Outcome, input: Seq<char>, w: u16)
    requires
        o.control.print_color,
        o.printer.escape is Idle,
        has_no_escape(input),
        wraps_within(o, w),
        lines_tally(o, line_limit(o.printer.mode, w)),
        1 <= w,
        spec_run_fault(o, input) is None,
    ensures
        lines_within(spec_run(o, input).pieces, line_limit(o.printer.mode, w)),
        spec_end_fault(spec_run(o, input)) is None ==> lines_within(
            spec_finish(spec_run(o, input)).pieces,
            line_limit(o.printer.mode, w),
        ),
        wraps_within(spec_run(o, input), w),
        lines_tally(spec_run(o, input), line_limit(o.printer.mode, w)),
        spec_run(o, input).printer.escape is Idle,
        spec_run(o, input).printer.mode == o.printer.mode,
        spec_run(o, input).control.print_color,
    decreases input.len(),
{
    let lim = line_limit(o.printer.mode, w);
    if input.len() > 0 {
        let prefix = input.drop_last();
        assert forall|k: int| 0 <= k < prefix.len() implies prefix[k] != '\x1b' by {
            assert(prefix[k] == input[k]);
        }
        law_output_lines_within_width(o, prefix, w);
        assert(input.last() == input[input.len() - 1]);
        lemma_tally_step(spec_run(o, prefix), input.last(), w);
    }
    let r = spec_run(o, input);
    reveal(spec_finish);
    if spec_end_fault(r) is None && word_waits(r) {
        lemma_word_within(r, w);
        lemma_tally_word(r, lim);
        let wd = spec_print_word_lol(r);
        if r.printer.mode.constantly_flush {
            lemma_append_reset(wd.pieces, wd.control, lim);
            assert(spec_reset_colors(wd).pieces.push(Piece::Flush) =~= wd.pieces + reset_pieces(
                wd.control,
            ).push(Piece::Flush));
        }
    }
}

/// A whole run of text without escape characters that meets no fault,
/// printed in colour with lines wrapped at the terminal width (at least one
/// column), puts no more characters on any line of the output than the line
/// limit, both when the last word is left waiting and when it is printed.
pub proof fn law_session_lines_within_width(mode: Mode, c: Control, input: Seq<char>)
    requires
        c.print_color,
        mode.line_wrap,
        1 <= c.terminal_width,
        has_no_escape(input),
        spec_print_all_fault(mode, c, Seq::empty(), input) is None,
    ensures
        lines_within(
            spec_session(mode, c, Seq::empty(), input).pieces,
            line_limit(mode, c.terminal_width),
        ),
        lines_within(
            spec_print_all(mode, c, Seq::empty(), input).pieces,
            line_limit(mode, c.terminal_width),
        ),
{
    let o = crate::printer::outcome(spec_start(mode, c), c, Seq::empty(), Seq::empty());
    law_output_lines_within_width(o, input, c.terminal_width);
}

/// Text without escape characters, read from outside any escape sequence,
/// meets no fault but a column count that leaves its range.
proof fn lemma_plain_faults(o: Outcome, input: Seq<char>)
    requires
        o.control.print_color,
        o.printer.escape is Idle,
        has_no_escape(input),
    ensures
        spec_run_fault(o, input) is None || spec_run_fault(o, input) == Some(Fault::ColumnOverflow),
    decreases input.len(),
{
    if input.len() > 0 {
        let prefix = input.drop_last();
        assert forall|k: int| 0 <= k < prefix.len() implies prefix[k] != '\x1b' by {
            assert(prefix[k] == input[k]);
        }
        lemma_plain_faults(o, prefix);
        lemma_run_keeps_idle(o, prefix);
    }
}

/// Without wrapping, text without escape characters meets no fault.
proof fn lemma_unwrapped_no_fault(o: Outcome, input: Seq<char>)
    requires
        o.control.print_color,
        o.printer.escape is Idle,
        !o.printer.mode.line_wrap,
        !o.printer.mode.word_wrap,
        has_no_escape(input),
    ensures
        spec_run_fault(o, input) is None,
    decreases input.len(),
{
    if input.len() > 0 {
        let prefix = input.drop_last();
        assert forall|k: int| 0 <= k < prefix.len() implies prefix[k] != '\x1b' by {
            assert(prefix[k] == input[k]);
        }
        lemma_unwrapped_no_fault(o, prefix);
        lemma_run_keeps_idle(o, prefix);
        assert(input.last() == input[input.len() - 1]);
    }
}

proof fn lemma_with_breaks_plain(s: Seq<char>, w: u16, k: int)
    requires
        has_no_escape(s),
    ensures
        has_no_escape(with_breaks(s, w, k)),
    decreases s.len(),
{
    if s.len() > 0 {
        let prefix = s.drop_last();
        assert forall|i: int| 0 <= i < prefix.len() implies prefix[i] != '\x1b' by {
            assert(prefix[i] == s[i]);
        }
        lemma_with_breaks_plain(prefix, w, k);
        let b = with_breaks(prefix, w, k);
        let col = wrap_column(prefix, w, k);
        let tail = if col == w {
            seq!['\n', s.last()]
        } else {
            seq![s.last()]
        };
        assert(s.last() == s[s.len() - 1]);
        let all = b + tail;
        assert forall|i: int| 0 <= i < all.len() implies all[i] != '\x1b' by {
            if i < b.len() {
                assert(all[i] == b[i]);
            } else {
                assert(all[i] == tail[i - b.len()]);
            }
        }
    }
}

/// A whole run of plain text (no escape characters, no line feeds), printed
/// in colour with lines wrapped at a width of at least one column, writes
/// the same pieces and leaves the colour wave at the same point as the same
/// text with a line feed put before each character that finds the line full,
/// printed without wrapping; neither run meets a fault.
pub proof fn law_session_line_wrap_is_explicit_breaks(c: Control, input: Seq<char>)
    requires
        c.print_color,
        1 <= c.terminal_width,
        is_plain_text(input),
    ensures
        ({
            let wrapped = Mode { line_wrap: true, word_wrap: false, constantly_flush: false };
            let unwrapped = Mode { line_wrap: false, word_wrap: false, constantly_flush: false };
            let broken = with_breaks(input, c.terminal_width, 0);
            let s1 = spec_session(wrapped, c, Seq::empty(), input);
            let s2 = spec_session(unwrapped, c, Seq::empty(), broken);
            &&& spec_session_fault(wrapped, c, Seq::empty(), input) is None
            &&& spec_session_fault(unwrapped, c, Seq::empty(), broken) is None
            &&& s1.pieces == s2.pieces
            &&& s1.control == s2.control
        }),
{
    let wrapped = Mode { line_wrap: true, word_wrap: false, constantly_flush: false };
    let unwrapped = Mode { line_wrap: false, word_wrap: false, constantly_flush: false };
    let w = c.terminal_width;
    let broken = with_breaks(input, w, 0);
    let o1 = crate::printer::outcome(spec_start(wrapped, c), c, Seq::empty(), Seq::empty());
    let o2 = crate::printer::outcome(spec_start(unwrapped, c), c, Seq::empty(), Seq::empty());
    assert(write_alike(o1, o2));
    law_line_wrap_is_explicit_breaks(o1, o2, input);
    assert(has_no_escape(input));
    law_line_wrap_keeps_width(o1, input);
    lemma_plain_faults(o1, input);
    lemma_with_breaks_plain(input, w, 0);
    lemma_unwrapped_no_fault(o2, broken);
    lemma_run_keeps_idle(o2, broken);
}

} // verus!
