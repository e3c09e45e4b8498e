//! Whole escape sequences pass through the printer untouched.
use vstd::prelude::*;
use crate::control::{Escape, Piece};
use crate::laws::{law_escape_passes_through, lemma_texts_unfold, texts};
use crate::printer::{reset_pieces, spec_accepts, spec_feed, with_pieces, Outcome, Printer};
use crate::session::{spec_run, spec_run_fault};

verus! {

/// Whether the code of `ch` lies between `lo` and `hi`, both included.
pub open spec fn code_in(ch: char, lo: u32, hi: u32) -> bool {
    lo <= ch as u32 <= hi
}

/// Whether `s` is a control sequence whose parameters end at `p`: the
/// escape character, `[`, the parameter bytes `s[2..p]` (codes 0x30 to
/// 0x3f: digits and `:;<=>?`), the intermediate bytes `s[p..len - 1]` (codes
/// 0x20 to 0x2f) and one final byte (codes 0x40 to 0x7e).
pub open spec fn is_control_sequence(s: Seq<char>, p: int) -> bool {
    &&& s.len() >= 3
    &&& 2 <= p < s.len()
    &&& s[0] == '\x1b'
    &&& s[1] == '['
    &&& forall|j: int| 2 <= j < p ==> code_in(#[trigger] s[j], 0x30, 0x3f)
    &&& forall|j: int| p <= j < s.len() - 1 ==> code_in(#[trigger] s[j], 0x20, 0x2f)
    &&& code_in(s[s.len() - 1], 0x40, 0x7e)
}

/// Whether `s` is an nF escape sequence: the escape character, one or more
/// intermediate bytes (codes 0x20 to 0x2f) and one final byte (codes 0x30
/// to 0x7e).
pub open spec fn is_nf_sequence(s: Seq<char>) -> bool {
    &&& s.len() >= 3
    &&& s[0] == '\x1b'
    &&& forall|j: int| 1 <= j < s.len() - 1 ==> code_in(#[trigger] s[j], 0x20, 0x2f)
    &&& code_in(s[s.len() - 1], 0x30, 0x7e)
}

/// What follows a finished escape sequence: the colours reset and the
/// output flushed, where the mode flushes after everything.
pub open spec fn after_sequence(o: Outcome) -> Seq<Piece> {
    if o.printer.mode.constantly_flush {
        reset_pieces(o.control).push(Piece::Flush)
    } else {
        Seq::empty()
    }
}

/// `o` inside an escape sequence at `e`, with `written` written after what
/// it had written.
pub open spec fn inside(o: Outcome, e: Escape, written: Seq<Piece>) -> Outcome {
    Outcome {
        printer: Printer { escape: e, ..o.printer },
        pieces: o.pieces + written,
        ..o
    }
}

proof fn lemma_take_step(s: Seq<char>, k: int)
    requires
        1 <= k <= s.len(),
    ensures
        s.take(k).drop_last() == s.take(k - 1),
        s.take(k).last() == s[k - 1],
        s.take(k).len() == k,
        texts(s.take(k)) == texts(s.take(k - 1)).push(Piece::Text(s[k - 1])),
{
    assert(s.take(k).drop_last() =~= s.take(k - 1));
    lemma_texts_unfold(s.take(k));
}

proof fn lemma_opening(o: Outcome, s: Seq<char>)
    requires
        o.control.print_color,
        o.printer.escape is Idle,
        s.len() >= 1,
        s[0] == '\x1b',
    ensures
        spec_run(o, s.take(1)) == inside(o, Escape::Start, texts(s.take(1))),
        spec_run_fault(o, s.take(1)) is None,
{
    lemma_take_step(s, 1);
    assert(s.take(0) =~= Seq::<char>::empty());
    assert(texts(s.take(0)) =~= Seq::<Piece>::empty());
    assert(spec_run(o, s.take(0)) == o);
    assert(spec_run_fault(o, s.take(0)) is None);
    assert(spec_accepts(o, '\x1b'));
    assert(o.pieces.push(Piece::Text('\x1b')) =~= o.pieces + texts(s.take(1)));
}

/// The place in the sequence after the first `k` characters of a control
/// sequence whose parameters end at `p`.
pub open spec fn csi_place(k: int, p: int) -> Escape {
    if k == 1 {
        Escape::Start
    } else if k <= p {
        Escape::CsiParams
    } else {
        Escape::CsiIntermediates
    }
}

proof fn lemma_control_prefix(o: Outcome, s: Seq<char>, p: int, k: int)
    requires
        o.control.print_color,
        o.printer.escape is Idle,
        is_control_sequence(s, p),
        1 <= k < s.len(),
    ensures
        spec_run(o, s.take(k)) == inside(o, csi_place(k, p), texts(s.take(k))),
        spec_run_fault(o, s.take(k)) is None,
    decreases k,
{
    if k == 1 {
        lemma_opening(o, s);
    } else {
        lemma_control_prefix(o, s, p, k - 1);
        lemma_take_step(s, k);
        let r = spec_run(o, s.take(k - 1));
        let ch = s[k - 1];
        if k - 1 >= 2 && k - 1 < p {
            assert(code_in(s[k - 1], 0x30, 0x3f));
        } else if k - 1 >= p {
            assert(code_in(s[k - 1], 0x20, 0x2f));
        }
        law_escape_passes_through(r, ch);
        assert(o.pieces + texts(s.take(k)) =~= (o.pieces + texts(s.take(k - 1))).push(
            Piece::Text(ch),
        ));
        assert(spec_run(o, s.take(k)) =~= inside(o, csi_place(k, p), texts(s.take(k))));
    }
}

/// A whole control sequence (such as `ESC [ 1 ; 3 1 m`), read outside any
/// other sequence, is written as it is, character by character: it moves
/// the colour wave no step, leaves the line's column count and the waiting
/// word as they were, and meets no fault; once it ends, the colours are
/// reset and the output flushed where the mode flushes after everything.
pub proof fn law_control_sequence_passes_through(o: Outcome, s: Seq<char>, p: int)
    requires
        o.control.print_color,
        o.printer.escape is Idle,
        is_control_sequence(s, p),
    ensures
        spec_run(o, s) == with_pieces(o, o.pieces + texts(s) + after_sequence(o)),
        spec_run_fault(o, s) is None,
{
    let n = s.len() as int;
    lemma_control_prefix(o, s, p, n - 1);
    lemma_take_step(s, n);
    assert(s.take(n) =~= s);
    let r = spec_run(o, s.take(n - 1));
    let ch = s[n - 1];
    law_escape_passes_through(r, ch);
    assert(o.pieces + texts(s) + after_sequence(o) =~= (o.pieces + texts(s.take(n - 1))).push(
        Piece::Text(ch),
    ) + after_sequence(o));
    assert(spec_run(o, s) =~= with_pieces(o, o.pieces + texts(s) + after_sequence(o)));
}

proof fn lemma_nf_prefix(o: Outcome, s: Seq<char>, k: int)
    requires
        o.control.print_color,
        o.printer.escape is Idle,
        is_nf_sequence(s),
        1 <= k < s.len(),
    ensures
        spec_run(o, s.take(k)) == inside(
            o,
            if k == 1 {
                Escape::Start
            } else {
                Escape::Nf
            },
            texts(s.take(k)),
        ),
        spec_run_fault(o, s.take(k)) is None,
    decreases k,
{
    if k == 1 {
        lemma_opening(o, s);
    } else {
        lemma_nf_prefix(o, s, k - 1);
        lemma_take_step(s, k);
        let r = spec_run(o, s.take(k - 1));
        let ch = s[k - 1];
        assert(code_in(s[k - 1], 0x20, 0x2f));
        law_escape_passes_through(r, ch);
        assert(o.pieces + texts(s.take(k)) =~= (o.pieces + texts(s.take(k - 1))).push(
            Piece::Text(ch),
        ));
        assert(spec_run(o, s.take(k)) =~= inside(o, Escape::Nf, texts(s.take(k))));
    }
}

/// A whole nF escape sequence (such as `ESC ( B`), read outside any other
/// sequence, is written as it is, character by character: it moves the
/// colour wave no step, leaves the line's column count and the waiting word
/// as they were, and meets no fault; once it ends, the colours are reset and
/// the output flushed where the mode flushes after everything.
pub proof fn law_nf_sequence_passes_through(o: Outcome, s: Seq<char>)
    requires
        o.control.print_color,
        o.printer.escape is Idle,
        is_nf_sequence(s),
    ensures
        spec_run(o, s) == with_pieces(o, o.pieces + texts(s) + after_sequence(o)),
        spec_run_fault(o, s) is None,
{
    let n = s.len() as int;
    lemma_nf_prefix(o, s, n - 1);
    lemma_take_step(s, n);
    assert(s.take(n) =~= s);
    let r = spec_run(o, s.take(n - 1));
    let ch = s[n - 1];
    law_escape_passes_through(r, ch);
    assert(o.pieces + texts(s) + after_sequence(o) =~= (o.pieces + texts(s.take(n - 1))).push(
        Piece::Text(ch),
    ) + after_sequence(o));
    assert(spec_run(o, s) =~= with_pieces(o, o.pieces + texts(s) + after_sequence(o)));
}

} // verus!
