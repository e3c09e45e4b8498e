//! Background mode: white space at the start of a line stays plain, and
//! everything after the first other character is painted.
use vstd::prelude::*;
use crate::chars::spec_is_whitespace;
use crate::control::{Control, Piece};
use crate::laws::is_plain_text;
use crate::printer::{
    bump,    painted, printed_after_word, spec_handle_newline, spec_print_word_lol, word_overflows_line, spec_accepts, spec_fault, spec_feed, spec_paint_word, word_fits,
    Outcome, Printer,
};
use crate::session::{spec_run, spec_run_fault};

verus! {

/// Whether every character of `s` is white space.
pub open spec fn all_blank(s: Seq<char>) -> bool {
    forall|j: int| 0 <= j < s.len() ==> spec_is_whitespace(#[trigger] s[j])
}

/// What background mode writes for the character at `k` of `input` when the
/// wave stood at `seed` before `input[0]`: the character as it is, while it
/// and everything before it on the line is white space that is still kept
/// plain; otherwise the character with a background colour taken `k` steps
/// further along the wave.
pub open spec fn background_piece(input: Seq<char>, k: int, seed: int, plain_start: bool) -> Piece {
    if plain_start && all_blank(input.take(k + 1)) {
        Piece::Text(input[k])
    } else {
        Piece::PaintBackground(input[k], (seed + k) as u64)
    }
}

proof fn lemma_blank_step(input: Seq<char>)
    requires
        input.len() > 0,
    ensures
        all_blank(input) == (all_blank(input.drop_last()) && spec_is_whitespace(input.last())),
        input.take(input.len() as int) == input,
        input.drop_last().take(input.len() - 1) == input.drop_last(),
{
    let prefix = input.drop_last();
    if all_blank(prefix) && spec_is_whitespace(input.last()) {
        assert forall|j: int| 0 <= j < input.len() implies spec_is_whitespace(input[j]) by {
            if j < prefix.len() {
                assert(input[j] == prefix[j]);
            }
        }
    }
    if all_blank(input) {
        assert forall|j: int| 0 <= j < prefix.len() implies spec_is_whitespace(prefix[j]) by {
            assert(input[j] == prefix[j]);
        }
        assert(spec_is_whitespace(input[input.len() - 1]));
    }
    assert(input.take(input.len() as int) =~= input);
    assert(prefix.take(input.len() - 1) =~= prefix);
}

proof fn lemma_background_step(o: Outcome, ch: char)
    requires
        o.control.print_color,
        o.control.background_mode,
        !o.printer.mode.line_wrap,
        !o.printer.mode.word_wrap,
        !o.printer.mode.constantly_flush,
        o.printer.escape is Idle,
        ch != '\x1b',
        ch != '\n',
        o.control.seed < u64::MAX,
    ensures
        ({
            let plain = o.printer.ignoring_whitespace && spec_is_whitespace(ch);
            spec_feed(o, ch) == Outcome {
                printer: Printer { ignoring_whitespace: plain, ..o.printer },
                control: Control { seed: (o.control.seed + 1) as u64, ..o.control },
                buffer: o.buffer,
                pieces: o.pieces.push(
                    if plain {
                        Piece::Text(ch)
                    } else {
                        Piece::PaintBackground(ch, o.control.seed)
                    },
                ),
            }
        }),
        spec_fault(o, ch) is None,
{
    let plain = o.printer.ignoring_whitespace && spec_is_whitespace(ch);
    assert(spec_feed(o, ch) =~= Outcome {
        printer: Printer { ignoring_whitespace: plain, ..o.printer },
        control: Control { seed: (o.control.seed + 1) as u64, ..o.control },
        buffer: o.buffer,
        pieces: o.pieces.push(
            if plain {
                Piece::Text(ch)
            } else {
                Piece::PaintBackground(ch, o.control.seed)
            },
        ),
    });
}

proof fn lemma_background_pieces(
    input: Seq<char>,
    seed: int,
    plain_start: bool,
    o_pieces: Seq<Piece>,
    before: Seq<Piece>,
    after: Seq<Piece>,
)
    requires
        input.len() > 0,
        before.len() == o_pieces.len() + input.len() - 1,
        before.take(o_pieces.len() as int) == o_pieces,
        forall|k: int|
            0 <= k < input.len() - 1 ==> before[o_pieces.len() + k] == background_piece(
                input.drop_last(),
                k,
                seed,
                plain_start,
            ),
        after == before.push(background_piece(input, input.len() - 1, seed, plain_start)),
    ensures
        after.len() == o_pieces.len() + input.len(),
        after.take(o_pieces.len() as int) == o_pieces,
        forall|k: int|
            0 <= k < input.len() ==> after[o_pieces.len() + k] == background_piece(
                input,
                k,
                seed,
                plain_start,
            ),
{
    let n = o_pieces.len();
    let prefix = input.drop_last();
    assert(after.take(n as int) =~= before.take(n as int));
    assert forall|k: int| 0 <= k < input.len() implies after[n + k] == background_piece(
        input,
        k,
        seed,
        plain_start,
    ) by {
        if k < input.len() - 1 {
            assert(input.take(k + 1) =~= prefix.take(k + 1));
            assert(input[k] == prefix[k]);
            assert(after[n + k] == before[n + k]);
            assert(background_piece(input, k, seed, plain_start) == background_piece(
                prefix,
                k,
                seed,
                plain_start,
            ));
        } else {
            assert(n + k == before.len());
        }
    }
}

/// In background mode, printed without wrapping and without escape
/// sequences or line feeds, a line's leading white space is written plain
/// while the printer still keeps it plain, and every later character (the
/// white space between words included) is painted with a background colour;
/// each character moves the wave one step, plain or not.
pub proof fn law_background_paints_after_first_letter(o: Outcome, input: Seq<char>)
    requires
        o.control.print_color,
        o.control.background_mode,
        !o.printer.mode.line_wrap,
        !o.printer.mode.word_wrap,
        !o.printer.mode.constantly_flush,
        o.printer.escape is Idle,
        is_plain_text(input),
        o.control.seed + input.len() <= u64::MAX,
    ensures
        ({
            let r = spec_run(o, input);
            let n = o.pieces.len();
            &&& r.pieces.len() == n + input.len()
            &&& r.pieces.take(n as int) == o.pieces
            &&& forall|k: int|
                0 <= k < input.len() ==> r.pieces[n + k] == background_piece(
                    input,
                    k,
                    o.control.seed as int,
                    o.printer.ignoring_whitespace,
                )
            &&& r.printer == (Printer {
                ignoring_whitespace: o.printer.ignoring_whitespace && all_blank(input),
                ..o.printer
            })
            &&& r.control == (Control { seed: (o.control.seed + input.len()) as u64, ..o.control })
            &&& r.buffer == o.buffer
        }),
        spec_run_fault(o, input) is None,
    decreases input.len(),
{
    let n = o.pieces.len();
    if input.len() == 0 {
        assert(o.pieces.take(n as int) =~= o.pieces);
        assert(o.printer =~= Printer { ignoring_whitespace: o.printer.ignoring_whitespace && all_blank(input), ..o.printer });
    } else {
        let prefix = input.drop_last();
        assert forall|k: int| 0 <= k < prefix.len() implies prefix[k] != '\x1b' && prefix[k]
            != '\n' by {
            assert(prefix[k] == input[k]);
        }
        law_background_paints_after_first_letter(o, prefix);
        lemma_blank_step(input);
        let r0 = spec_run(o, prefix);
        let ch = input.last();
        let m = prefix.len() as int;
        assert(ch == input[m]);
        lemma_background_step(r0, ch);
        let r = spec_run(o, input);
        assert(r == spec_feed(r0, ch));
        assert(input.take(m + 1) =~= input);
        assert(r.pieces == r0.pieces.push(
            background_piece(input, m, o.control.seed as int, o.printer.ignoring_whitespace),
        ));
        lemma_background_pieces(
            input,
            o.control.seed as int,
            o.printer.ignoring_whitespace,
            o.pieces,
            r0.pieces,
            r.pieces,
        );
    }
}

/// Writing a word keeps white space plain only while the word is all white
/// space: the flag that painting gives back says that white space is still
/// plain exactly when it was before and no character of the word is
/// anything else.
pub proof fn law_paint_word_ends_plain_start(ignoring: bool, seed: u64, background: bool, word: Seq<char>)
    ensures
        spec_paint_word(ignoring, seed, background, word).0 == (ignoring && all_blank(word)),
    decreases word.len(),
{
    if word.len() > 0 {
        law_paint_word_ends_plain_start(ignoring, seed, background, word.drop_last());
        lemma_blank_step(word);
    }
}

proof fn lemma_push_len(ps: Seq<Piece>, p: Piece)
    ensures
        ps.push(p).len() == ps.len() + 1,
        forall|k: int| 0 <= k < ps.len() ==> ps.push(p)[k] == ps[k],
        ps.push(p)[ps.len() as int] == p,
{
}

/// Whether `m` is where the plain white space at the start of `word` ends:
/// none of it unless white space is still kept plain, and otherwise the
/// white space before the first other character (the whole word if it is
/// all white space).
pub open spec fn plain_run_ends(ignoring: bool, word: Seq<char>, m: int) -> bool {
    &&& 0 <= m <= word.len()
    &&& !ignoring ==> m == 0
    &&& ignoring ==> all_blank(word.take(m)) && (m == word.len() || !spec_is_whitespace(word[m]))
}

/// Writing a word: the white space before `m`, where the plain white space
/// ends, is written as it is; every character from `m` on (white space
/// between words included) is painted, at consecutive points of the wave
/// from `seed` on, so that the wave moves one step for each painted
/// character.
pub proof fn law_paint_word_shape(
    ignoring: bool,
    seed: u64,
    background: bool,
    word: Seq<char>,
    m: int,
)
    requires
        plain_run_ends(ignoring, word, m),
        seed + word.len() <= u64::MAX,
    ensures
        ({
            let (ign, s, ps) = spec_paint_word(ignoring, seed, background, word);
            &&& ign == (ignoring && all_blank(word))
            &&& s == seed + word.len() - m
            &&& ps.len() == word.len()
            &&& forall|k: int| 0 <= k < m ==> ps[k] == Piece::Text(word[k])
            &&& forall|k: int|
                m <= k < word.len() ==> ps[k] == painted(word[k], (seed + k - m) as u64, background)
        }),
    decreases word.len(),
{
    law_paint_word_ends_plain_start(ignoring, seed, background, word);
    if word.len() > 0 {
        let prefix = word.drop_last();
        let mp = if m == word.len() {
            m - 1
        } else {
            m
        };
        assert(prefix.take(mp) =~= word.take(mp));
        if ignoring && mp < prefix.len() {
            assert(prefix[mp] == word[mp]);
        }
        if ignoring && m == word.len() {
            assert(all_blank(word)) by {
                assert(word.take(m) =~= word);
            }
        }
        law_paint_word_shape(ignoring, seed, background, prefix, mp);
        law_paint_word_ends_plain_start(ignoring, seed, background, prefix);
        lemma_blank_step(word);
        let t0 = spec_paint_word(ignoring, seed, background, prefix);
        let t1 = spec_paint_word(ignoring, seed, background, word);
        let ign0 = t0.0;
        let s0 = t0.1;
        let ps0 = t0.2;
        let ps = t1.2;
        let ch = word.last();
        assert(ch == word[word.len() - 1]);
        assert(word.drop_last() == prefix);
        assert(ps0.len() == prefix.len());
        assert(spec_paint_word(ignoring, seed, background, word) == if ign0 && spec_is_whitespace(
            ch,
        ) {
            (ign0, s0, ps0.push(Piece::Text(ch)))
        } else {
            (false, bump(s0, 1), ps0.push(painted(ch, s0, background)))
        });
        if ign0 && spec_is_whitespace(ch) {
            assert(ps == ps0.push(Piece::Text(ch)));
            lemma_push_len(ps0, Piece::Text(ch));
            assert(ps.len() == word.len());
            assert(all_blank(word));
            assert(m == word.len());
        } else {
            assert(ps == ps0.push(painted(ch, s0, background)));
            lemma_push_len(ps0, painted(ch, s0, background));
            assert(ps.len() == word.len());
            assert(mp == m);
        }
        assert(ps0.len() == prefix.len());
        assert(ps.len() == word.len());
        assert forall|k: int| 0 <= k < m implies ps[k] == Piece::Text(word[k]) by {
            if k < prefix.len() {
                assert(ps[k] == ps0[k]);
                assert(prefix[k] == word[k]);
            }
        }
        assert forall|k: int| m <= k < word.len() implies ps[k] == painted(
            word[k],
            (seed + k - m) as u64,
            background,
        ) by {
            if k < prefix.len() {
                assert(ps[k] == ps0[k]);
                assert(prefix[k] == word[k]);
            }
        }
    }
}

/// Whether `p` paints `ch` with a background colour.
pub open spec fn paints_background_of(p: Piece, ch: char) -> bool {
    match p {
        Piece::PaintBackground(c, _) => c == ch,
        _ => false,
    }
}

/// In background mode with words kept whole, the space that ends a word
/// holding anything but white space is painted, where it stays on the line:
/// once the word is written, white space is no longer kept plain.
pub proof fn law_space_after_word_painted(o: Outcome)
    requires
        o.control.print_color,
        o.control.background_mode,
        o.printer.mode.word_wrap,
        !o.printer.mode.constantly_flush,
        o.printer.escape is Idle,
        !all_blank(o.buffer),
        word_fits(o),
        printed_after_word(o) < o.control.terminal_width - 1,
    ensures
        paints_background_of(spec_feed(o, ' ').pieces.last(), ' '),
        !spec_feed(o, ' ').printer.ignoring_whitespace,
{
    let w = spec_print_word_lol(o);
    law_paint_word_ends_plain_start(
        w.printer.ignoring_whitespace,
        w.control.seed,
        true,
        o.buffer,
    );
    let o1 = if word_overflows_line(o) {
        spec_handle_newline(o)
    } else {
        o
    };
    law_paint_word_ends_plain_start(
        o1.printer.ignoring_whitespace,
        o1.control.seed,
        true,
        o1.buffer,
    );
    assert(!w.printer.ignoring_whitespace);
    assert(w.printer.printed_chars_on_line == printed_after_word(o));
}

} // verus!
