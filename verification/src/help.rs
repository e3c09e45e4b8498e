//! Splitting text into lines, and printing the help text in colour.
use vstd::prelude::*;
use crate::control::{spec_mode_for, Control, Piece};
use crate::session::{lines_end_pieces, print_lines_lol, spec_lines_fault, spec_lines_run};

verus! {

/// `line` without a carriage return at its end.
pub open spec fn strip_cr(line: Seq<char>) -> Seq<char> {
    if line.len() > 0 && line.last() == '\r' {
        line.drop_last()
    } else {
        line
    }
}

/// The lines of `s` that a line feed has closed (each without its line
/// ending, a carriage return before the line feed dropped) and the text
/// after the last line feed.
pub open spec fn spec_split(s: Seq<char>) -> (Seq<Seq<char>>, Seq<char>)
    decreases s.len(),
{
    if s.len() == 0 {
        (Seq::empty(), Seq::empty())
    } else {
        let (done, cur) = spec_split(s.drop_last());
        if s.last() == '\n' {
            (done.push(strip_cr(cur)), Seq::empty())
        } else {
            (done, cur.push(s.last()))
        }
    }
}

/// The lines of `s`: split at each line feed, a carriage return before a
/// line feed dropped, and no empty line after a final line feed.
pub open spec fn spec_lines(s: Seq<char>) -> Seq<Seq<char>> {
    let (done, cur) = spec_split(s);
    if cur.len() == 0 {
        done
    } else {
        done.push(cur)
    }
}

/// Splits `s` into its lines.
pub fn split_lines(s: &str) -> (lines: Vec<Vec<char>>)
    ensures
        lines.deep_view() == spec_lines(s@),
{
    let n = s.unicode_len();
    let mut done: Vec<Vec<char>> = Vec::new();
    let mut cur: Vec<char> = Vec::new();
    let mut i: usize = 0;
    while i < n
        invariant
            0 <= i <= n,
            n == s@.len(),
            ({
                let (d, cu) = spec_split(s@.take(i as int));
                &&& done.deep_view() == d
                &&& cur@ == cu
            }),
        decreases n - i,
    {
        let ch = s.get_char(i);
        let ghost d0 = done.deep_view();
        proof {
            assert(s@.take(i + 1).drop_last() =~= s@.take(i as int));
            assert(s@.take(i + 1).last() == ch);
        }
        if ch == '\n' {
            let mut line = cur;
            let len = line.len();
            if len > 0 && line[len - 1] == '\r' {
                line.pop();
            }
            let ghost stripped = line@;
            done.push(line);
            cur = Vec::new();
            proof {
                assert(done.deep_view()[done.len() - 1] =~= stripped);
                assert(done.deep_view() =~= d0.push(stripped));
            }
        } else {
            cur.push(ch);
        }
        i += 1;
    }
    assert(s@.take(n as int) =~= s@);
    if cur.len() > 0 {
        let ghost d0 = done.deep_view();
        let ghost last = cur@;
        done.push(cur);
        proof {
            assert(done.deep_view()[done.len() - 1] =~= last);
            assert(done.deep_view() =~= d0.push(last));
        }
    }
    done
}

/// Prints the help (or version) text, line by line, in colour.
pub fn print_rainbow_help(help: &str, c: &mut Control, out: &mut Vec<Piece>)
    requires
        spec_lines_fault(spec_mode_for(*old(c), false), *old(c), Seq::empty(), spec_lines(help@))
            is None,
    ensures
        ({
            let r = spec_lines_run(spec_mode_for(*old(c), false), *old(c), Seq::empty(), spec_lines(help@));
            &&& *final(c) == r.control
            &&& final(out)@ == old(out)@ + r.pieces + lines_end_pieces(r.control)
        }),
{
    let lines = split_lines(help);
    print_lines_lol(&lines, c, out);
}

} // verus!
