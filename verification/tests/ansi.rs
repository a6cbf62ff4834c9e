use scal::ansi::{
    ansi_256_color, ansi_color, ansi_table_from_base16, parse_ansi, parse_sgr, TermColor,
};

/// The terminal's default text color.
fn default() -> TermColor {
    TermColor::Default
}

/// Base16 palette entry 8 (base08), which ANSI red stands for.
fn red() -> TermColor {
    TermColor::Base(8)
}

/// Base16 palette entry 11 (base0B), which ANSI green stands for.
fn green() -> TermColor {
    TermColor::Base(11)
}

/// Base16 palette entry 13 (base0D), which ANSI blue stands for.
fn blue() -> TermColor {
    TermColor::Base(13)
}

#[test]
fn test_parse_sgr_empty() {
    assert_eq!(parse_sgr("", default(), default()), Some(default()));
}

#[test]
fn test_parse_sgr_reset() {
    assert_eq!(parse_sgr("0", default(), red()), Some(default()));
}

#[test]
fn test_parse_sgr_red() {
    assert_eq!(parse_sgr("31", default(), default()), Some(red()));
}

#[test]
fn test_parse_sgr_green() {
    assert_eq!(parse_sgr("32", default(), default()), Some(green()));
}

#[test]
fn test_parse_sgr_combined_reset_then_green() {
    assert_eq!(parse_sgr("0;32", default(), default()), Some(green()));
}

#[test]
fn test_parse_sgr_combined_reset_bold_green() {
    assert_eq!(parse_sgr("0;1;32", default(), default()), Some(green()));
}

#[test]
fn test_parse_sgr_combined_reset_bold_red() {
    assert_eq!(parse_sgr("0;1;31", default(), default()), Some(red()));
}

#[test]
fn test_parse_sgr_bold_blue() {
    assert_eq!(parse_sgr("01;34", default(), default()), Some(blue()));
}

#[test]
fn test_parse_sgr_partial_override() {
    assert_eq!(parse_sgr("0;31", default(), green()), Some(red()));
}

#[test]
fn test_parse_ansi_simple_colors() {
    let text = "\x1b[31mhello\x1b[0m";
    let spans = parse_ansi(text, default());
    assert_eq!(spans.len(), 1);
    assert_eq!(spans[0].color, red());
    assert_eq!(spans[0].text, "hello");
}

#[test]
fn test_parse_ansi_multi_span() {
    let text = "\x1b[31mhello\x1b[32mworld\x1b[0m";
    let spans = parse_ansi(text, default());
    assert_eq!(spans.len(), 2);
    assert_eq!(spans[0].color, red());
    assert_eq!(spans[0].text, "hello");
    assert_eq!(spans[1].color, green());
    assert_eq!(spans[1].text, "world");
}

#[test]
fn test_parse_ansi_combined_sgr() {
    let text = "\x1b[0;1;32mCompiling\x1b[0m";
    let spans = parse_ansi(text, default());
    assert_eq!(spans.len(), 1);
    assert_eq!(spans[0].color, green());
    assert_eq!(spans[0].text, "Compiling");
}

#[test]
fn test_parse_ansi_ls_like_dir_entry() {
    let text = "\x1b[0m\x1b[01;34m.\x1b[0m";
    let spans = parse_ansi(text, default());
    assert_eq!(spans.len(), 1);
    assert_eq!(spans[0].color, blue());
    assert_eq!(spans[0].text, ".");
}

#[test]
fn test_parse_ansi_cargo_like_output() {
    let text = "\x1b[0;1;32m   Compiling\x1b[0m foo v1.0.0\n\x1b[0;1;31merror[E0425]:\x1b[0m cannot find";
    let spans = parse_ansi(text, default());
    assert!(spans.len() >= 3);
    assert_eq!(spans[0].color, green());
    assert!(spans[0].text.contains("Compiling"));
    assert_eq!(spans[2].color, red());
    assert!(spans[2].text.contains("error"));
}

#[test]
fn parse_ansi_byte_offsets_cover_text() {
    let text = "\x1b[31mhé\x1b[0mllo";
    let spans = parse_ansi(text, default());
    assert_eq!(spans.len(), 2);
    assert_eq!((spans[0].byte_start, spans[0].byte_end), (5, 8));
    assert_eq!(&text[5..8], "hé");
    assert_eq!(spans[1].color, default());
    assert_eq!((spans[1].byte_start, spans[1].byte_end), (12, 15));
    assert_eq!(spans[1].text, "llo");
}

#[test]
fn parse_ansi_plain_text_is_one_default_span() {
    let spans = parse_ansi("plain text", default());
    assert_eq!(spans.len(), 1);
    assert_eq!(spans[0].color, default());
    assert_eq!(spans[0].text, "plain text");
    assert_eq!((spans[0].byte_start, spans[0].byte_end), (0, 10));
    assert!(parse_ansi("", default()).is_empty());
}

#[test]
fn parse_ansi_non_sgr_sequence_splits_but_keeps_color() {
    let spans = parse_ansi("\x1b[32mab\x1b[2Kcd", default());
    assert_eq!(spans.len(), 2);
    assert_eq!(spans[0].text, "ab");
    assert_eq!(spans[1].text, "cd");
    assert_eq!(spans[1].color, green());
}

#[test]
fn parse_ansi_lone_escape_is_text() {
    let spans = parse_ansi("a\x1bb", default());
    assert_eq!(spans.len(), 1);
    assert_eq!(spans[0].text, "a\x1bb");
}

#[test]
fn parse_ansi_unterminated_sequence_counts_as_sgr() {
    let spans = parse_ansi("x\x1b[31", default());
    assert_eq!(spans.len(), 1);
    assert_eq!(spans[0].text, "x");
    let spans = parse_ansi("\x1b[31", default());
    assert!(spans.is_empty());
}

#[test]
fn parse_sgr_256_and_truecolor() {
    assert_eq!(parse_sgr("38;5;1", default(), default()), Some(red()));
    assert_eq!(parse_sgr("38;5;196", default(), default()), Some(TermColor::Rgb(255, 0, 0)));
    assert_eq!(parse_sgr("38;5;232", default(), default()), Some(TermColor::Rgb(8, 8, 8)));
    assert_eq!(parse_sgr("38;5;255", default(), default()), Some(TermColor::Rgb(238, 238, 238)));
    assert_eq!(parse_sgr("38;2;1;2;3", default(), default()), Some(TermColor::Rgb(1, 2, 3)));
    assert_eq!(parse_sgr("38;2;1;2;300", default(), green()), None);
    assert_eq!(parse_sgr("38;5", default(), default()), None);
    assert_eq!(parse_sgr("1", default(), green()), None);
    assert_eq!(parse_sgr("91", default(), default()), Some(TermColor::Base(9)));
    assert_eq!(parse_sgr("97", default(), default()), Some(TermColor::Base(7)));
    assert_eq!(parse_sgr("+31", default(), default()), Some(red()));
}

#[test]
fn ansi_color_tables() {
    assert_eq!(ansi_color(0), TermColor::Base(0));
    assert_eq!(ansi_color(7), TermColor::Base(5));
    assert_eq!(ansi_color(100), TermColor::Base(7));
    assert_eq!(ansi_256_color(16), TermColor::Rgb(0, 0, 0));
    assert_eq!(ansi_256_color(231), TermColor::Rgb(255, 255, 255));
    assert_eq!(ansi_256_color(67), TermColor::Rgb(95, 135, 175));
    let base: [u32; 16] = [0, 1, 2, 3, 4, 5, 6, 7, 8, 9, 10, 11, 12, 13, 14, 15];
    let table = ansi_table_from_base16(&base);
    assert_eq!(table, [0, 8, 11, 10, 13, 14, 12, 5, 3, 9, 11, 10, 13, 14, 12, 7]);
}

#[test]
fn parse_ansi_spans_are_separated_by_escapes() {
    let spans = parse_ansi("a\x1b[31mb\x1b[0m\x1b[32mc", default());
    assert_eq!(spans.len(), 3);
    for w in spans.windows(2) {
        assert!(w[0].byte_end < w[1].byte_start);
    }
}
