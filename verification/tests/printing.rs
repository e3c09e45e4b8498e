use lolcat::control::UNLIMITED_WIDTH;
use lolcat::{
    calc_fg_color, generic_print_chars_lol, is_stdin, is_whitespace, lines_fault, mode_for,
    print_chars_fault, print_chars_lol, resolve_print_color, resolve_word_wrap,
    print_lines_lol, print_rainbow_help, resolve_terminal_width, session_fault, split_lines,
    Control, Fault, Mode, Piece, Printer, WordBuffer,
};
use Piece::{Flush, LineBreak, Paint, PaintBackground, ResetBackground, ResetForeground, Stall, Text};

fn control(width: u16, word_wrap: bool) -> Control {
    Control {
        seed: 0,
        background_mode: false,
        dialup_mode: false,
        print_color: true,
        word_wrap,
        terminal_width: width,
    }
}

fn chars(s: &str) -> Vec<char> {
    s.chars().collect()
}

fn render(s: &str, c: &mut Control, constantly_flush: bool) -> Vec<Piece> {
    let input = chars(s);
    assert_eq!(print_chars_fault(&input, c, constantly_flush), None);
    let mut out = Vec::new();
    print_chars_lol(&input, c, constantly_flush, &mut out);
    out
}

fn fault_of(s: &str, c: &Control) -> Option<Fault> {
    session_fault(mode_for(c, false), &chars(s), c, &WordBuffer::new())
}

#[test]
fn paints_at_consecutive_seeds() {
    let mut c = control(UNLIMITED_WIDTH, false);
    c.seed = 5;
    assert_eq!(render("ab", &mut c, false), vec![Paint('a', 5), Paint('b', 6)]);
    assert_eq!(c.seed, 7);
}

#[test]
fn each_line_starts_one_step_further() {
    let mut c = control(UNLIMITED_WIDTH, false);
    assert_eq!(
        render("abc\nd\n", &mut c, false),
        vec![Paint('a', 0), Paint('b', 1), Paint('c', 2), LineBreak, Paint('d', 1), LineBreak]
    );
    assert_eq!(c.seed, 2);
}

#[test]
fn wraps_long_lines() {
    let mut c = control(2, false);
    assert_eq!(
        render("abc", &mut c, false),
        vec![Paint('a', 0), Paint('b', 1), LineBreak, Paint('c', 1)]
    );
}

#[test]
fn line_wrap_never_exceeds_width() {
    for width in 1u16..6 {
        let mut c = control(width, false);
        let out = render("the quick brown fox jumps over the lazy dog\nand again", &mut c, false);
        let mut on_line = 0;
        for p in &out {
            match p {
                LineBreak => on_line = 0,
                Paint(..) | PaintBackground(..) | Text(_) => {
                    on_line += 1;
                    assert!(on_line <= width);
                }
                _ => {}
            }
        }
    }
}

#[test]
fn shows_every_character_but_line_feeds() {
    let text = "hello world\nsecond line here\n\nend";
    for width in [3u16, 7, UNLIMITED_WIDTH] {
        let mut c = control(width, false);
        let out = render(text, &mut c, false);
        let shown: String = out
            .iter()
            .filter_map(|p| match p {
                Paint(ch, _) | PaintBackground(ch, _) | Text(ch) => Some(*ch),
                _ => None,
            })
            .collect();
        assert_eq!(shown, text.replace('\n', ""));
    }
}

#[test]
fn word_wrap_keeps_words_whole() {
    let mut c = control(6, true);
    assert_eq!(
        render("ab cd ef\n", &mut c, false),
        vec![
            Paint('a', 0),
            Paint('b', 1),
            Paint(' ', 2),
            Paint('c', 3),
            Paint('d', 4),
            LineBreak,
            Paint('e', 1),
            Paint('f', 2),
            LineBreak,
        ]
    );
    assert_eq!(c.seed, 2);
}

#[test]
fn word_wrap_breaks_a_word_as_long_as_the_line() {
    let mut c = control(4, true);
    assert_eq!(
        render("abcd\n", &mut c, false),
        vec![Paint('a', 0), Paint('b', 1), Paint('c', 2), LineBreak, Paint('d', 1), LineBreak]
    );
}

#[test]
fn word_wrap_keeps_all_letters() {
    let text = "lorem ipsum dolor sit amet consectetur\nadipiscing elit\n";
    for width in [4u16, 9, 20] {
        let mut c = control(width, true);
        let out = render(text, &mut c, false);
        let shown: String = out
            .iter()
            .filter_map(|p| match p {
                Paint(ch, _) | PaintBackground(ch, _) | Text(ch) => Some(*ch),
                _ => None,
            })
            .filter(|ch| *ch != ' ')
            .collect();
        assert_eq!(shown, text.replace(' ', "").replace('\n', ""));
    }
}

#[test]
fn word_at_end_of_stream_is_printed() {
    let mut c = control(80, true);
    assert_eq!(render("ab", &mut c, false), vec![Paint('a', 0), Paint('b', 1)]);
    assert_eq!(c.seed, 2);
    let mut c = control(80, true);
    assert_eq!(
        render("x ab", &mut c, true),
        vec![
            ResetForeground,
            Flush,
            Paint('x', 0),
            Paint(' ', 1),
            ResetForeground,
            Flush,
            ResetForeground,
            Flush,
            ResetForeground,
            Flush,
            Paint('a', 2),
            Paint('b', 3),
            ResetForeground,
            Flush,
        ]
    );
}

#[test]
fn background_mode_leaves_leading_space_plain() {
    let mut c = control(UNLIMITED_WIDTH, false);
    c.background_mode = true;
    assert_eq!(
        render(" a\n b", &mut c, false),
        vec![
            Text(' '),
            PaintBackground('a', 1),
            ResetBackground,
            LineBreak,
            Text(' '),
            PaintBackground('b', 2),
        ]
    );
}

#[test]
fn escape_sequences_pass_through() {
    let mut c = control(UNLIMITED_WIDTH, false);
    assert_eq!(
        render("\x1b[31mX\x1b(B", &mut c, false),
        vec![
            Text('\x1b'),
            Text('['),
            Text('3'),
            Text('1'),
            Text('m'),
            Paint('X', 0),
            Text('\x1b'),
            Text('('),
            Text('B'),
        ]
    );
    assert_eq!(c.seed, 1);
}

#[test]
fn constantly_flush_resets_after_each_character_and_sequence() {
    let mut c = control(UNLIMITED_WIDTH, false);
    assert_eq!(
        render("a\x1b[0mb", &mut c, true),
        vec![
            Paint('a', 0),
            ResetForeground,
            Flush,
            Text('\x1b'),
            Text('['),
            Text('0'),
            Text('m'),
            ResetForeground,
            Flush,
            Paint('b', 1),
            ResetForeground,
            Flush,
        ]
    );
}

#[test]
fn dialup_mode_stalls_after_line_breaks() {
    let mut c = control(UNLIMITED_WIDTH, false);
    c.dialup_mode = true;
    assert_eq!(render("a\n", &mut c, false), vec![Paint('a', 0), LineBreak, Stall]);
}

#[test]
fn without_color_everything_is_written_as_it_is() {
    let mut c = control(3, true);
    c.print_color = false;
    let text = "a\x1b[31m long line\n";
    assert_eq!(render(text, &mut c, false), chars(text).into_iter().map(Text).collect::<Vec<_>>());
    assert_eq!(c.seed, 0);
}

#[test]
fn faults_of_broken_escape_sequences() {
    let c = control(UNLIMITED_WIDTH, false);
    assert_eq!(fault_of("a\x1b", &c), Some(Fault::EscapeWithoutSequence));
    assert_eq!(fault_of("\x1b[3", &c), Some(Fault::CsiUnterminated));
    assert_eq!(fault_of("\x1b[ ", &c), Some(Fault::CsiUnterminated));
    assert_eq!(fault_of("\x1b[\x01", &c), Some(Fault::CsiBadTerminator));
    assert_eq!(fault_of("\x1b[ 3", &c), Some(Fault::CsiBadTerminator));
    assert_eq!(fault_of("\x1b(", &c), Some(Fault::NfUnterminated));
    assert_eq!(fault_of("\x1b(\x7f", &c), Some(Fault::NfBadTerminator));
    assert_eq!(fault_of("\x1bM", &c), None);
    let mut plain = c;
    plain.print_color = false;
    assert_eq!(fault_of("\x1b[", &plain), None);
}

#[test]
fn faults_of_column_overflow() {
    let c = control(0, true);
    assert_eq!(fault_of("a b", &c), Some(Fault::ColumnOverflow));
    let c = control(0, false);
    let long: String = std::iter::repeat('x').take(70000).collect();
    assert_eq!(fault_of(&long, &c), Some(Fault::ColumnOverflow));
}

#[test]
fn lines_end_with_a_foreground_reset() {
    let mut c = control(UNLIMITED_WIDTH, false);
    let lines = vec![chars("ab"), chars("c")];
    assert_eq!(lines_fault(mode_for(&c, false), &lines, &c), None);
    let mut out = Vec::new();
    print_lines_lol(&lines, &mut c, &mut out);
    assert_eq!(
        out,
        vec![Paint('a', 0), Paint('b', 1), LineBreak, Paint('c', 1), LineBreak, ResetForeground]
    );
}

#[test]
fn lines_without_color() {
    let mut c = control(UNLIMITED_WIDTH, false);
    c.print_color = false;
    let lines = vec![chars("ab")];
    let mut out = Vec::new();
    print_lines_lol(&lines, &mut c, &mut out);
    assert_eq!(out, vec![Text('a'), Text('b'), Text('\n')]);
}

#[test]
fn lines_match_one_stream() {
    let text = "first line of text\nsecond, longer line of text\n\n  indented\n";
    for (width, word_wrap, background) in [(5u16, false, false), (7, true, true), (UNLIMITED_WIDTH, false, true)] {
        let mut c1 = control(width, word_wrap);
        c1.background_mode = background;
        let mut c2 = c1;
        let lines = split_lines(text);
        let mut by_lines = Vec::new();
        print_lines_lol(&lines, &mut c1, &mut by_lines);
        let by_stream = render(text, &mut c2, false);
        assert_eq!(by_lines.pop(), Some(ResetForeground));
        assert_eq!(by_lines, by_stream);
        assert_eq!(c1, c2);
    }
}

#[test]
fn lines_fault_finds_broken_line() {
    let c = control(UNLIMITED_WIDTH, false);
    let lines = vec![chars("fine"), chars("broken \x1b[")];
    assert_eq!(lines_fault(mode_for(&c, false), &lines, &c), Some(Fault::CsiBadTerminator));
}

#[test]
fn split_lines_matches_str_lines() {
    for s in ["", "a", "a\n", "a\nb", "a\r\nb\r\n", "\n\n", "a\rb", "x\r", "x\r\r\n", "é\n€😀"] {
        let expected: Vec<Vec<char>> = s.lines().map(|l| l.chars().collect()).collect();
        assert_eq!(split_lines(s), expected, "{:?}", s);
    }
}

#[test]
fn split_lines_rejoins() {
    let s = "one\ntwo\n\nthree";
    let joined: String = split_lines(s).iter().map(|l| l.iter().collect::<String>() + "\n").collect();
    assert_eq!(joined, format!("{}\n", s));
}

#[test]
fn rainbow_help_prints_each_line() {
    let mut c = control(UNLIMITED_WIDTH, false);
    let mut out = Vec::new();
    print_rainbow_help("ab\nc", &mut c, &mut out);
    assert_eq!(
        out,
        vec![Paint('a', 0), Paint('b', 1), LineBreak, Paint('c', 1), LineBreak, ResetForeground]
    );
}

#[test]
fn printer_fed_by_hand_matches_whole_run() {
    let text = "some \x1b[1mbold\x1b[0m text\nand more";
    let mut c1 = control(6, true);
    let mut c2 = c1;
    let whole = render(text, &mut c1, true);
    let mut p = Printer::start(mode_for(&c2, true), &c2);
    let mut buf = WordBuffer::new();
    let mut out = Vec::new();
    for ch in text.chars() {
        assert_eq!(p.fault(ch, &c2, &buf), None);
        p.feed(ch, &mut c2, &mut buf, &mut out);
    }
    assert_eq!(p.end_fault(&c2, &buf), None);
    assert!(p.is_idle());
    p.finish(&mut c2, &mut buf, &mut out);
    assert_eq!(out, whole);
    assert_eq!(c1, c2);
}

#[test]
fn foreground_for_background() {
    assert_eq!(calc_fg_color(0xa1), (0, 0, 0));
    assert_eq!(calc_fg_color(0xff), (0, 0, 0));
    assert_eq!(calc_fg_color(0xa0), (0xff, 0xff, 0xff));
    assert_eq!(calc_fg_color(0), (0xff, 0xff, 0xff));
}

#[test]
fn stdin_when_no_file_name() {
    assert!(is_stdin(&String::new()));
    assert!(!is_stdin(&"file.txt".to_string()));
}

#[test]
fn terminal_width_choice() {
    assert_eq!(resolve_terminal_width(Some(0), Some(80)), UNLIMITED_WIDTH);
    assert_eq!(resolve_terminal_width(Some(40), Some(80)), 40);
    assert_eq!(resolve_terminal_width(None, Some(80)), 80);
    assert_eq!(resolve_terminal_width(None, None), UNLIMITED_WIDTH);
}

#[test]
fn mode_choice() {
    let c = control(UNLIMITED_WIDTH, true);
    assert_eq!(mode_for(&c, true), Mode { line_wrap: false, word_wrap: false, constantly_flush: true });
    let c = control(80, false);
    assert_eq!(mode_for(&c, false), Mode { line_wrap: true, word_wrap: false, constantly_flush: false });
    let c = control(80, true);
    assert_eq!(mode_for(&c, false), Mode { line_wrap: true, word_wrap: true, constantly_flush: false });
}

#[test]
fn whitespace_matches_std() {
    for v in 0u32..0x110000 {
        if let Some(ch) = char::from_u32(v) {
            assert_eq!(is_whitespace(ch), ch.is_whitespace(), "{:x}", v);
        }
    }
}

#[test]
fn word_buffer_counts_characters() {
    let mut b = WordBuffer::new();
    for ch in ['a', 'é', '€', '😀'] {
        b.push(ch);
    }
    assert_eq!(b.len(), 4);
    assert_eq!(b.len16(), 4);
    assert_eq!(b.get(1), 'é');
    let d = b.duplicate();
    b.clear();
    assert_eq!(b.len(), 0);
    assert_eq!(b.len16(), 0);
    assert_eq!(d.len16(), 4);
}

#[test]
fn multibyte_word_counts_characters_against_width() {
    // Six two-byte letters at a width of four columns: the word is printed
    // once it reaches the width, and no line holds more than four letters.
    let mut c = control(4, true);
    let out = render("éééééé\n", &mut c, false);
    assert_eq!(
        out,
        vec![
            Paint('é', 0),
            Paint('é', 1),
            Paint('é', 2),
            LineBreak,
            Paint('é', 1),
            Paint('é', 2),
            Paint('é', 3),
            LineBreak,
        ]
    );
}

#[test]
fn word_wrap_never_exceeds_width() {
    let text = "a few words, some of them rather long: incomprehensibilities, and ééééééé\nnext";
    for width in 1u16..12 {
        let mut c = control(width, true);
        let out = render(text, &mut c, false);
        let mut on_line = 0;
        for p in &out {
            match p {
                LineBreak => on_line = 0,
                Paint(..) | PaintBackground(..) | Text(_) => {
                    on_line += 1;
                    let limit = if width >= 2 { width - 1 } else { width };
                    assert!(on_line <= limit, "width {}", width);
                }
                _ => {}
            }
        }
    }
}

#[test]
fn line_wrap_is_explicit_line_breaks() {
    let text = "abcdefghij";
    for width in 1u16..5 {
        let mut c1 = control(width, false);
        let wrapped = render(text, &mut c1, false);
        let mut broken = String::new();
        for (i, ch) in text.chars().enumerate() {
            if i > 0 && i % width as usize == 0 {
                broken.push('\n');
            }
            broken.push(ch);
        }
        let mut c2 = control(UNLIMITED_WIDTH, false);
        let unwrapped = render(&broken, &mut c2, false);
        assert_eq!(wrapped, unwrapped, "width {}", width);
        assert_eq!(c1.seed, c2.seed);
    }
}

#[test]
fn generic_run_leaves_last_word_waiting() {
    let mut c = control(80, true);
    let input = chars("ab cd");
    let mut buf = WordBuffer::new();
    assert_eq!(session_fault(mode_for(&c, false), &input, &c, &buf), None);
    let mut out = Vec::new();
    generic_print_chars_lol::<true, true, false>(&input, &mut c, &mut buf, &mut out);
    assert_eq!(out, vec![Paint('a', 0), Paint('b', 1), Paint(' ', 2)]);
    assert_eq!(buf.len(), 2);
    assert_eq!(buf.get(0), 'c');
    assert_eq!(buf.get(1), 'd');
    assert_eq!(c.seed, 3);
}

#[test]
fn print_chars_fault_counts_the_last_word() {
    let c = control(UNLIMITED_WIDTH, true);
    assert_eq!(print_chars_fault(&chars("ab\x1b["), &c, false), Some(Fault::CsiUnterminated));
    assert_eq!(print_chars_fault(&chars("ab"), &c, true), None);
}

#[test]
fn word_wrap_and_colour_choices() {
    assert!(resolve_word_wrap(Some(true), &String::new()));
    assert!(!resolve_word_wrap(Some(false), &"f".to_string()));
    assert!(resolve_word_wrap(None, &"f".to_string()));
    assert!(!resolve_word_wrap(None, &String::new()));
    assert!(resolve_print_color(true, false));
    assert!(resolve_print_color(false, true));
    assert!(!resolve_print_color(false, false));
}
