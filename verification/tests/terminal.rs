use scal::ansi::{parse_ansi, AnsiSpan, TermColor};
use scal::terminal::{
    colorize_cmd, slice_spans_by_byte_range, typed_len, ColoredLine, ColoredSpan,
    TerminalTextBuffer,
};

fn parts(spans: &[ColoredSpan]) -> Vec<(TermColor, String)> {
    spans.iter().map(|s| (s.color, s.text.clone())).collect()
}

fn line_parts(lines: &[ColoredLine]) -> Vec<Vec<(TermColor, String)>> {
    lines.iter().map(|l| parts(&l.spans)).collect()
}

fn span_parts(spans: &[AnsiSpan]) -> Vec<(TermColor, String, usize, usize)> {
    spans.iter().map(|s| (s.color, s.text.clone(), s.byte_start, s.byte_end)).collect()
}

const C0: TermColor = TermColor::Base(12);
const C1: TermColor = TermColor::Base(10);

#[test]
fn colorize_splits_program_and_arguments() {
    let spans = colorize_cmd("git  commit -m", C0, C1);
    assert_eq!(
        parts(&spans),
        vec![
            (C0, "git".to_string()),
            (C0, "  ".to_string()),
            (C1, "commit".to_string()),
            (C0, " ".to_string()),
            (C1, "-m".to_string()),
        ]
    );
}

#[test]
fn colorize_keeps_leading_and_trailing_whitespace() {
    let spans = colorize_cmd(" ls ", C0, C1);
    assert_eq!(
        parts(&spans),
        vec![(C0, " ".to_string()), (C0, "ls".to_string()), (C0, " ".to_string())]
    );
    assert!(colorize_cmd("", C0, C1).is_empty());
}

#[test]
fn slicing_keeps_only_the_byte_range() {
    let spans = parse_ansi("\x1b[31mhello\x1b[32mworld\x1b[0m", TermColor::Default);
    let sliced = slice_spans_by_byte_range(&spans, 7, 9);
    assert_eq!(
        span_parts(&sliced),
        vec![
            (TermColor::Base(8), "llo".to_string(), 7, 10),
            (TermColor::Base(11), "w".to_string(), 15, 16),
        ]
    );
    assert!(slice_spans_by_byte_range(&spans, 0, 0).is_empty());
}

#[test]
fn slicing_past_the_end_gives_nothing() {
    let spans = parse_ansi("abc", TermColor::Default);
    assert!(slice_spans_by_byte_range(&spans, 3, 5).is_empty());
    let all = slice_spans_by_byte_range(&spans, 0, 100);
    assert_eq!(span_parts(&all), vec![(TermColor::Default, "abc".to_string(), 0, 3)]);
}

#[test]
fn typed_length_counts_the_displayed_text() {
    assert_eq!(typed_len("cargo build", None), 11);
    assert_eq!(typed_len("cargo build", Some("cb")), 2);
    assert_eq!(typed_len("é", None), 2);
}

fn buffer_with_entry(output: &str) -> TerminalTextBuffer {
    let mut b = TerminalTextBuffer::new("$ ".to_string());
    b.add_entry("ls -l".to_string(), None, output.to_string(), String::new());
    b
}

#[test]
fn new_entry_reveals_nothing_but_the_prompt_and_cursor() {
    let b = buffer_with_entry("out");
    assert_eq!(b.current_entry, 0);
    assert!(b.dirty);
    let lines = b.build_content();
    assert_eq!(
        line_parts(&lines),
        vec![vec![
            (TermColor::Default, "$ ".to_string()),
            (TermColor::Base(5), "\u{2588}".to_string()),
        ]]
    );
}

#[test]
fn typing_and_output_reveal_show_their_parts() {
    let mut b = buffer_with_entry("one\ntwo");
    b.set_input_reveal(4);
    let lines = b.build_content();
    assert_eq!(
        line_parts(&lines),
        vec![vec![
            (TermColor::Default, "$ ".to_string()),
            (C0, "ls".to_string()),
            (C0, " ".to_string()),
            (C1, "-".to_string()),
            (TermColor::Base(5), "\u{2588}".to_string()),
        ]]
    );
    b.set_input_reveal(100);
    b.set_output_reveal(5);
    let lines = b.build_content();
    assert_eq!(
        line_parts(&lines),
        vec![
            vec![
                (TermColor::Default, "$ ".to_string()),
                (C0, "ls".to_string()),
                (C0, " ".to_string()),
                (C1, "-l".to_string()),
            ],
            vec![(TermColor::Default, "one\nt".to_string())],
        ]
    );
}

#[test]
fn entry_prompt_overrides_the_default_prompt() {
    let mut b = TerminalTextBuffer::new("$ ".to_string());
    b.add_entry("x".to_string(), Some("y".to_string()), String::new(), "\x1b[32m>\x1b[0m ".to_string());
    b.set_input_reveal(1);
    let lines = b.build_content();
    assert_eq!(
        line_parts(&lines),
        vec![vec![
            (TermColor::Base(11), ">".to_string()),
            (TermColor::Default, " ".to_string()),
            (C0, "y".to_string()),
        ]]
    );
}

#[test]
fn skip_stops_at_the_end_of_the_output() {
    let mut b = buffer_with_entry("abcdef");
    b.dirty = false;
    b.skip_output(2);
    assert_eq!(b.entries[0].output_skip, 2);
    b.skip_output(10);
    assert_eq!(b.entries[0].output_skip, 6);
    assert!(b.dirty);
}

#[test]
fn skipped_output_is_not_shown() {
    let mut b = buffer_with_entry("abcdef");
    b.set_input_reveal(5);
    b.skip_output(2);
    b.set_output_reveal(3);
    let lines = b.build_content();
    assert_eq!(line_parts(&lines)[1], vec![(TermColor::Default, "cde".to_string())]);
}

#[test]
fn push_appends_and_reveals_the_rest() {
    let mut b = buffer_with_entry("abc");
    b.skip_output(1);
    b.push_output("de");
    assert_eq!(b.entries[0].pushed_text.as_deref(), Some("de"));
    assert_eq!(b.entries[0].output_reveal, 4);
    b.push_output("f");
    assert_eq!(b.entries[0].pushed_text.as_deref(), Some("def"));
    assert_eq!(b.entries[0].output_reveal, 5);
    b.set_input_reveal(5);
    let lines = b.build_content();
    assert_eq!(line_parts(&lines)[1], vec![(TermColor::Default, "bcdef".to_string())]);
}

#[test]
fn pull_all_range_covers_what_is_left() {
    let mut b = buffer_with_entry("abcd");
    b.skip_output(1);
    b.set_output_reveal(1);
    assert_eq!(b.pull_all_range(), (1, 3));
    b.push_output("xy");
    assert_eq!(b.pull_all_range(), (5, 5));
    assert_eq!(b.current_output_reveal(), 5);
}

#[test]
fn without_entries_output_actions_only_mark_the_buffer() {
    let mut b = TerminalTextBuffer::new("$ ".to_string());
    b.dirty = false;
    b.skip_output(3);
    b.push_output("x");
    b.set_output_reveal(2);
    assert!(b.entries.is_empty());
    assert!(b.dirty);
    assert_eq!(b.pull_all_range(), (0, 0));
    assert_eq!(b.current_output_reveal(), 0);
    assert!(b.current_entry().is_none());
    assert!(b.build_content().is_empty());
}

#[test]
fn entries_are_drawn_in_order() {
    let mut b = TerminalTextBuffer::new("$ ".to_string());
    b.add_entry("a".to_string(), None, "1".to_string(), String::new());
    b.set_input_reveal(1);
    b.set_output_reveal(1);
    b.add_entry("b".to_string(), None, "2".to_string(), String::new());
    assert_eq!(b.current_entry, 1);
    b.set_input_reveal(1);
    let lines = b.build_content();
    assert_eq!(
        line_parts(&lines),
        vec![
            vec![(TermColor::Default, "$ ".to_string()), (C0, "a".to_string())],
            vec![(TermColor::Default, "1".to_string())],
            vec![(TermColor::Default, "$ ".to_string()), (C0, "b".to_string())],
        ]
    );
}

#[test]
fn pull_line_reaches_the_end_of_the_line() {
    let mut b = buffer_with_entry("ab\ncd\nef");
    assert_eq!(b.pull_line_range(), (0, 3));
    b.set_output_reveal(3);
    assert_eq!(b.pull_line_range(), (3, 3));
    b.set_output_reveal(4);
    assert_eq!(b.pull_line_range(), (4, 2));
    b.set_output_reveal(6);
    assert_eq!(b.pull_line_range(), (6, 2));
    b.set_output_reveal(50);
    assert_eq!(b.pull_line_range(), (50, 0));
    b.set_output_reveal(0);
    b.skip_output(2);
    // The shown part starts at the newline, which ends the line.
    assert_eq!(b.pull_line_range(), (0, 1));
}

#[test]
fn pull_line_counts_bytes_of_wide_characters() {
    let b = buffer_with_entry("é\nx");
    assert_eq!(b.pull_line_range(), (0, 3));
    let empty = TerminalTextBuffer::new(String::new());
    assert_eq!(empty.pull_line_range(), (0, 0));
}
