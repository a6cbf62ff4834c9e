//! ANSI escape sequences in captured terminal output: SGR color codes and the
//! split of text into colored spans.
use vstd::prelude::*;
use crate::text::{
    byte_len, byte_slice, chars_of, decimal_digits, decimal_value, is_boundary, is_digit,
    lemma_char_index_unique,
    lemma_utf8_len_concat, lemma_utf8_len_prefix_monotone, lemma_utf8_len_push, len_utf8,
    parse_u8_range, parse_u8_spec, string_from_chars, utf8_len,
};

verus! {

/// The color of a piece of terminal text, resolved against the terminal's
/// palette only when it is drawn.
#[derive(Clone, Copy, Debug, PartialEq, Eq, Structural)]
pub enum TermColor {
    /// The terminal's default text color.
    Default,
    /// An entry (0..16) of the Base16 palette of the terminal's theme.
    Base(u8),
    /// An explicit 8-bit RGB color.
    Rgb(u8, u8, u8),
}

/// A run of text drawn in one color. `byte_start..byte_end` is where the run's
/// characters lie in the parsed string, counted in UTF-8 bytes.
#[derive(Clone, Debug)]
pub struct AnsiSpan {
    pub color: TermColor,
    pub text: String,
    pub byte_start: usize,
    pub byte_end: usize,
}

/// The mathematical content of an [`AnsiSpan`].
pub struct SpanModel {
    pub color: TermColor,
    pub text: Seq<char>,
    pub byte_start: nat,
    pub byte_end: nat,
}

impl View for AnsiSpan {
    type V = SpanModel;

    open spec fn view(&self) -> SpanModel {
        SpanModel {
            color: self.color,
            text: self.text@,
            byte_start: self.byte_start as nat,
            byte_end: self.byte_end as nat,
        }
    }
}

/// The views of a sequence of spans.
pub open spec fn spans_view(spans: Seq<AnsiSpan>) -> Seq<SpanModel> {
    spans.map_values(|s: AnsiSpan| s@)
}

/// The Base16 palette entry that stands for each of the 16 standard ANSI
/// colors: black, red, green, yellow, blue, magenta, cyan, white, then their
/// bright variants.
pub open spec fn ansi_to_base16(i: int) -> u8 {
    if i == 0 {
        0
    } else if i == 1 {
        8
    } else if i == 2 {
        11
    } else if i == 3 {
        10
    } else if i == 4 {
        13
    } else if i == 5 {
        14
    } else if i == 6 {
        12
    } else if i == 7 {
        5
    } else if i == 8 {
        3
    } else if i == 9 {
        9
    } else if i == 10 {
        11
    } else if i == 11 {
        10
    } else if i == 12 {
        13
    } else if i == 13 {
        14
    } else if i == 14 {
        12
    } else {
        7
    }
}

/// Build the 16-entry ANSI color table from a Base16 palette.
pub fn ansi_table_from_base16<C: Copy>(base: &[C; 16]) -> (table: [C; 16])
    ensures
        forall|i: int| 0 <= i < 16 ==> #[trigger] table@[i] == base@[ansi_to_base16(i) as int],
{
    let table = [
        base[0],
        base[8],
        base[11],
        base[10],
        base[13],
        base[14],
        base[12],
        base[5],
        base[3],
        base[9],
        base[11],
        base[10],
        base[13],
        base[14],
        base[12],
        base[7],
    ];
    assert forall|i: int| 0 <= i < 16 implies #[trigger] table@[i] == base@[ansi_to_base16(
        i,
    ) as int] by {
        if i == 0 {
        } else if i == 1 {
        } else if i == 2 {
        } else if i == 3 {
        } else if i == 4 {
        } else if i == 5 {
        } else if i == 6 {
        } else if i == 7 {
        } else if i == 8 {
        } else if i == 9 {
        } else if i == 10 {
        } else if i == 11 {
        } else if i == 12 {
        } else if i == 13 {
        } else if i == 14 {
        } else {
        }
    }
    table
}

/// Standard ANSI color `index`; indices past 15 are clamped to 15.
pub open spec fn ansi_color_spec(index: int) -> TermColor {
    TermColor::Base(ansi_to_base16(if index < 15 { index } else { 15 }))
}

/// Standard ANSI color `index`; indices past 15 are clamped to 15.
pub fn ansi_color(index: usize) -> (c: TermColor)
    ensures
        c == ansi_color_spec(index as int),
{
    let i = if index < 15 {
        index
    } else {
        15
    };
    let b: u8 = if i == 0 {
        0
    } else if i == 1 {
        8
    } else if i == 2 {
        11
    } else if i == 3 {
        10
    } else if i == 4 {
        13
    } else if i == 5 {
        14
    } else if i == 6 {
        12
    } else if i == 7 {
        5
    } else if i == 8 {
        3
    } else if i == 9 {
        9
    } else if i == 10 {
        11
    } else if i == 11 {
        10
    } else if i == 12 {
        13
    } else if i == 13 {
        14
    } else if i == 14 {
        12
    } else {
        7
    };
    TermColor::Base(b)
}

/// Channel intensity of a level (0..6) of the 6x6x6 color cube of the
/// 256-color palette.
pub open spec fn cube_level(v: int) -> u8 {
    if v == 0 {
        0
    } else if v == 1 {
        95
    } else if v == 2 {
        135
    } else if v == 3 {
        175
    } else if v == 4 {
        215
    } else {
        255
    }
}

/// Color `index` of the 256-color palette: the 16 standard colors, then a
/// 6x6x6 color cube (16..232), then a gray ramp from 8 in steps of 10.
pub open spec fn ansi_256_spec(index: int) -> TermColor {
    if index < 16 {
        ansi_color_spec(index)
    } else if index < 232 {
        let n = index - 16;
        TermColor::Rgb(cube_level(n / 36), cube_level((n % 36) / 6), cube_level(n % 6))
    } else {
        let v = (8 + ((index - 232) % 256) * 10) as u8;
        TermColor::Rgb(v, v, v)
    }
}

fn cube(v: usize) -> (c: u8)
    ensures
        c == cube_level(if v < 5 { v as int } else { 5 }),
{
    if v == 0 {
        0
    } else if v == 1 {
        95
    } else if v == 2 {
        135
    } else if v == 3 {
        175
    } else if v == 4 {
        215
    } else {
        255
    }
}

/// Color `index` of the 256-color palette. The gray ramp is computed on the
/// low byte of `index - 232`, which must stay within the 24 gray levels' range
/// of 8-bit arithmetic.
pub fn ansi_256_color(index: usize) -> (c: TermColor)
    requires
        index < 232 || (index - 232) % 256 < 25,
    ensures
        c == ansi_256_spec(index as int),
{
    if index < 16 {
        return ansi_color(index);
    }
    if index < 232 {
        let n = index - 16;
        let r = cube(n / 36);
        let g = cube((n % 36) / 6);
        let b = cube(n % 6);
        return TermColor::Rgb(r, g, b);
    }
    let gray = ((index - 232) % 256) as u8;
    let v: u8 = 8 + gray * 10;
    TermColor::Rgb(v, v, v)
}

/// `s` split at every occurrence of `sep`, as `str::split` does: `n`
/// separators give `n + 1` parts, some of which may be empty.
pub open spec fn split_on(s: Seq<char>, sep: char) -> Seq<Seq<char>>
    decreases s.len(),
{
    if s.len() == 0 {
        seq![Seq::<char>::empty()]
    } else {
        let parts = split_on(s.drop_last(), sep);
        if s.last() == sep {
            parts.push(Seq::<char>::empty())
        } else {
            parts.update(parts.len() - 1, parts.last().push(s.last()))
        }
    }
}

pub proof fn lemma_split_on_nonempty(s: Seq<char>, sep: char)
    ensures
        split_on(s, sep).len() >= 1,
    decreases s.len(),
{
    if s.len() > 0 {
        lemma_split_on_nonempty(s.drop_last(), sep);
    }
}

/// The parts of `cs[lo..hi]` between occurrences of `sep`, as ranges of `cs`.
pub fn split_ranges(cs: &[char], lo: usize, hi: usize, sep: char) -> (r: Vec<(usize, usize)>)
    requires
        lo <= hi <= cs@.len(),
    ensures
        r@.len() == split_on(cs@.subrange(lo as int, hi as int), sep).len(),
        forall|k: int|
            0 <= k < r@.len() ==> {
                &&& lo <= (#[trigger] r@[k]).0 <= r@[k].1 <= hi
                &&& cs@.subrange(r@[k].0 as int, r@[k].1 as int) == split_on(
                    cs@.subrange(lo as int, hi as int),
                    sep,
                )[k]
            },
{
    let mut closed: Vec<(usize, usize)> = Vec::new();
    let mut cur: usize = lo;
    let mut i: usize = lo;
    while i < hi
        invariant
            lo <= cur <= i <= hi <= cs@.len(),
            split_on(cs@.subrange(lo as int, i as int), sep).len() == closed@.len() + 1,
            split_on(cs@.subrange(lo as int, i as int), sep).last() == cs@.subrange(
                cur as int,
                i as int,
            ),
            forall|k: int|
                0 <= k < closed@.len() ==> {
                    &&& lo <= (#[trigger] closed@[k]).0 <= closed@[k].1 <= hi
                    &&& cs@.subrange(closed@[k].0 as int, closed@[k].1 as int) == split_on(
                        cs@.subrange(lo as int, i as int),
                        sep,
                    )[k]
                },
        decreases hi - i,
    {
        let ghost prev = split_on(cs@.subrange(lo as int, i as int), sep);
        assert(cs@.subrange(lo as int, i + 1).drop_last() =~= cs@.subrange(lo as int, i as int));
        assert(cs@.subrange(lo as int, i + 1).last() == cs@[i as int]);
        if cs[i] == sep {
            closed.push((cur, i));
            cur = i + 1;
            assert(cs@.subrange(cur as int, i + 1) =~= Seq::<char>::empty());
        } else {
            assert(cs@.subrange(cur as int, i + 1) =~= cs@.subrange(cur as int, i as int).push(
                cs@[i as int],
            ));
        }
        i = i + 1;
    }
    closed.push((cur, hi));
    closed
}

/// Whether two sequences of characters are equal.
fn range_is(cs: &[char], r: (usize, usize), c: char) -> (b: bool)
    requires
        r.0 <= r.1 <= cs@.len(),
    ensures
        b == (cs@.subrange(r.0 as int, r.1 as int) == seq![c]),
{
    if r.1 - r.0 == 1 && cs[r.0] == c {
        assert(cs@.subrange(r.0 as int, r.1 as int) =~= seq![c]);
        true
    } else {
        if r.1 - r.0 == 1 {
            assert(cs@.subrange(r.0 as int, r.1 as int)[0] != seq![c][0]);
        } else {
            assert(cs@.subrange(r.0 as int, r.1 as int).len() != seq![c].len());
        }
        false
    }
}

/// The effect of the SGR parameters `parts[i..]` on the color, starting from
/// `color`; `changed` records whether any parameter set a color.
pub open spec fn sgr_loop(
    parts: Seq<Seq<char>>,
    i: int,
    color: TermColor,
    changed: bool,
    default_color: TermColor,
) -> (TermColor, bool)
    decreases parts.len() - i,
{
    if i < 0 || i >= parts.len() {
        (color, changed)
    } else if parts[i].len() == 0 {
        sgr_loop(parts, i + 1, color, changed, default_color)
    } else {
        match parse_u8_spec(parts[i]) {
            Some(n) => {
                if n == 0 {
                    sgr_loop(parts, i + 1, default_color, true, default_color)
                } else if 30 <= n <= 37 {
                    sgr_loop(parts, i + 1, ansi_color_spec(n - 30), true, default_color)
                } else if 90 <= n <= 97 {
                    sgr_loop(parts, i + 1, ansi_color_spec(n - 90 + 8), true, default_color)
                } else if n == 38 && i + 1 < parts.len() {
                    if parts[i + 1] == seq!['5'] && i + 2 < parts.len() {
                        match parse_u8_spec(parts[i + 2]) {
                            Some(idx) => sgr_loop(
                                parts,
                                i + 3,
                                ansi_256_spec(idx as int),
                                true,
                                default_color,
                            ),
                            None => sgr_loop(parts, i + 3, color, changed, default_color),
                        }
                    } else if parts[i + 1] == seq!['2'] && i + 4 < parts.len() {
                        match (
                            parse_u8_spec(parts[i + 2]),
                            parse_u8_spec(parts[i + 3]),
                            parse_u8_spec(parts[i + 4]),
                        ) {
                            (Some(r), Some(g), Some(b)) => sgr_loop(
                                parts,
                                i + 5,
                                TermColor::Rgb(r, g, b),
                                true,
                                default_color,
                            ),
                            _ => sgr_loop(parts, i + 5, color, changed, default_color),
                        }
                    } else {
                        sgr_loop(parts, i + 1, color, changed, default_color)
                    }
                } else {
                    sgr_loop(parts, i + 1, color, changed, default_color)
                }
            },
            None => sgr_loop(parts, i + 1, color, changed, default_color),
        }
    }
}

/// The color that the SGR parameter string `params` (the part between `ESC [`
/// and `m`) selects, or `None` when it selects none. An empty string and a
/// lone `0` reset to `default_color`; `0` resets, `30..=37` and `90..=97`
/// select standard colors, `38;5;N` a 256-palette color and `38;2;R;G;B` an
/// RGB color. Other parameters (such as bold) are skipped.
pub open spec fn parse_sgr_spec(
    params: Seq<char>,
    default_color: TermColor,
    current_color: TermColor,
) -> Option<TermColor> {
    let parts = split_on(params, ';');
    if params.len() == 0 {
        Some(default_color)
    } else if parts.len() == 1 && parts[0] == seq!['0'] {
        Some(default_color)
    } else {
        let (color, changed) = sgr_loop(parts, 0, current_color, false, default_color);
        if changed {
            Some(color)
        } else {
            None
        }
    }
}

/// [`parse_sgr`] on the characters `cs[lo..hi]`.
pub fn parse_sgr_range(
    cs: &[char],
    lo: usize,
    hi: usize,
    default_color: TermColor,
    current_color: TermColor,
) -> (r: Option<TermColor>)
    requires
        lo <= hi <= cs@.len(),
    ensures
        r == parse_sgr_spec(cs@.subrange(lo as int, hi as int), default_color, current_color),
{
    let ghost params = cs@.subrange(lo as int, hi as int);
    if lo == hi {
        return Some(default_color);
    }
    let parts = split_ranges(cs, lo, hi, ';');
    let ghost sparts = split_on(params, ';');
    if parts.len() == 1 && range_is(cs, parts[0], '0') {
        return Some(default_color);
    }
    let mut color = current_color;
    let mut changed = false;
    let mut i: usize = 0;
    while i < parts.len()
        invariant
            lo <= hi <= cs@.len(),
            params == cs@.subrange(lo as int, hi as int),
            sparts == split_on(params, ';'),
            parts@.len() == sparts.len(),
            forall|k: int|
                0 <= k < parts@.len() ==> {
                    &&& lo <= (#[trigger] parts@[k]).0 <= parts@[k].1 <= hi
                    &&& cs@.subrange(parts@[k].0 as int, parts@[k].1 as int) == sparts[k]
                },
            i <= parts@.len(),
            sgr_loop(sparts, i as int, color, changed, default_color) == sgr_loop(
                sparts,
                0,
                current_color,
                false,
                default_color,
            ),
        decreases parts@.len() - i,
    {
        let p = parts[i];
        assert(cs@.subrange(p.0 as int, p.1 as int) == sparts[i as int]);
        if p.0 == p.1 {
            i = i + 1;
            continue;
        }
        match parse_u8_range(cs, p.0, p.1) {
            Some(n) => {
                if n == 0 {
                    color = default_color;
                    changed = true;
                } else if 30 <= n && n <= 37 {
                    color = ansi_color((n - 30) as usize);
                    changed = true;
                } else if 90 <= n && n <= 97 {
                    color = ansi_color((n - 90 + 8) as usize);
                    changed = true;
                } else if n == 38 && i + 1 < parts.len() {
                    assert(cs@.subrange(parts@[i + 1].0 as int, parts@[i + 1].1 as int)
                        == sparts[i + 1]);
                    if range_is(cs, parts[i + 1], '5') && parts.len() - i > 2 {
                        let q = parts[i + 2];
                        assert(cs@.subrange(q.0 as int, q.1 as int) == sparts[i + 2]);
                        match parse_u8_range(cs, q.0, q.1) {
                            Some(idx) => {
                                color = ansi_256_color(idx as usize);
                                changed = true;
                            },
                            None => {},
                        }
                        i = i + 2;
                    } else if range_is(cs, parts[i + 1], '2') && parts.len() - i > 4 {
                        let qr = parts[i + 2];
                        let qg = parts[i + 3];
                        let qb = parts[i + 4];
                        assert(cs@.subrange(qr.0 as int, qr.1 as int) == sparts[i + 2]);
                        assert(cs@.subrange(qg.0 as int, qg.1 as int) == sparts[i + 3]);
                        assert(cs@.subrange(qb.0 as int, qb.1 as int) == sparts[i + 4]);
                        let pr = parse_u8_range(cs, qr.0, qr.1);
                        let pg = parse_u8_range(cs, qg.0, qg.1);
                        let pb = parse_u8_range(cs, qb.0, qb.1);
                        match (pr, pg, pb) {
                            (Some(r), Some(g), Some(b)) => {
                                color = TermColor::Rgb(r, g, b);
                                changed = true;
                            },
                            _ => {},
                        }
                        i = i + 4;
                    }
                }
            },
            None => {},
        }
        i = i + 1;
    }
    if changed {
        Some(color)
    } else {
        None
    }
}

/// The two-character parameter string `first` `digit` splits into itself,
/// denotes `10 * first + digit`, and sets the color that code selects.
proof fn lemma_two_digit_sgr(first: char, d: int, default_color: TermColor, current_color: TermColor)
    requires
        '1' <= first <= '9',
        0 <= d <= 9,
    ensures
        ({
            let s = seq![first, (d + 48) as char];
            let n = (first as int - 48) * 10 + d;
            &&& parse_u8_spec(s) == Some(n as u8)
            &&& split_on(s, ';') == seq![s]
            &&& parse_sgr_spec(s, default_color, current_color) == (if 30 <= n <= 37 {
                Some(ansi_color_spec(n - 30))
            } else if 90 <= n <= 97 {
                Some(ansi_color_spec(n - 90 + 8))
            } else {
                None
            })
        }),
{
    let c = (d + 48) as char;
    let s = seq![first, c];
    let n = (first as int - 48) * 10 + d;
    assert(s.drop_last() =~= seq![first]);
    assert(seq![first].drop_last() =~= Seq::<char>::empty());
    assert(split_on(Seq::<char>::empty(), ';') == seq![Seq::<char>::empty()]);
    assert(Seq::<char>::empty().push(first) =~= seq![first]);
    assert(split_on(seq![first], ';') =~= seq![seq![first]]);
    assert(seq![first].push(c) =~= s);
    assert(split_on(s, ';') =~= seq![s]);
    assert(decimal_digits(s) == s);
    assert(decimal_value(Seq::<char>::empty()) == 0);
    assert(decimal_value(seq![first]) == first as int - 48);
    assert(decimal_value(s) == n);
    assert(forall|i: int| 0 <= i < s.len() ==> #[trigger] is_digit(s[i]));
    assert(parse_u8_spec(s) == Some(n as u8));
    let parts = seq![s];
    assert(s != seq!['0']) by {
        assert(s.len() != seq!['0'].len());
    }
    assert(sgr_loop(parts, 1, ansi_color_spec(n - 30), true, default_color) == (
    ansi_color_spec(n - 30), true));
    assert(sgr_loop(parts, 1, ansi_color_spec(n - 90 + 8), true, default_color) == (
    ansi_color_spec(n - 90 + 8), true));
    assert(sgr_loop(parts, 1, current_color, false, default_color) == (current_color, false));
}

/// Every standard foreground code selects its color: `30` to `37` give
/// black, red, green, yellow, blue, magenta, cyan and white of the palette
/// (Base16 entries 0, 8, 11, 10, 13, 14, 12 and 5), and `90` to `97` their
/// bright variants (entries 3, 9, 11, 10, 13, 14, 12 and 7), whatever the
/// default and current colors are.
pub proof fn lemma_standard_sgr_colors(d: int, default_color: TermColor, current_color: TermColor)
    requires
        0 <= d <= 7,
    ensures
        parse_sgr_spec(seq!['3', (d + 48) as char], default_color, current_color) == Some(
            TermColor::Base(seq![0u8, 8, 11, 10, 13, 14, 12, 5][d]),
        ),
        parse_sgr_spec(seq!['9', (d + 48) as char], default_color, current_color) == Some(
            TermColor::Base(seq![3u8, 9, 11, 10, 13, 14, 12, 7][d]),
        ),
{
    lemma_two_digit_sgr('3', d, default_color, current_color);
    lemma_two_digit_sgr('9', d, default_color, current_color);
    assert(('3' as int - 48) * 10 + d == 30 + d);
    assert(('9' as int - 48) * 10 + d == 90 + d);
}

/// Parse SGR parameters. Returns `Some(color)` when the parameters select a
/// color (a reset selects `default_color`), `None` otherwise.
pub fn parse_sgr(params: &str, default_color: TermColor, current_color: TermColor) -> (r: Option<
    TermColor,
>)
    ensures
        r == parse_sgr_spec(params@, default_color, current_color),
{
    let cs = chars_of(params);
    assert(cs@.subrange(0, cs@.len() as int) =~= cs@);
    parse_sgr_range(cs.as_slice(), 0, cs.len(), default_color, current_color)
}


/// Characters that may appear in the parameters of a control sequence.
pub open spec fn is_param_char(c: char) -> bool {
    ('0' <= c <= '9') || c == ';' || c == ':'
}

/// The escape character that starts a control sequence.
pub open spec fn is_esc(c: char) -> bool {
    c == '\x1b'
}

/// Index of the first character at or after `j` that is not a parameter
/// character (or the end of `cs`).
pub open spec fn params_end(cs: Seq<char>, j: int) -> int
    decreases cs.len() - j,
{
    if j >= cs.len() {
        cs.len() as int
    } else if is_param_char(cs[j]) {
        params_end(cs, j + 1)
    } else {
        j
    }
}

pub proof fn lemma_params_end_bounds(cs: Seq<char>, j: int)
    requires
        0 <= j <= cs.len(),
    ensures
        j <= params_end(cs, j) <= cs.len(),
        forall|k: int| j <= k < params_end(cs, j) ==> #[trigger] is_param_char(cs[k]),
        params_end(cs, j) < cs.len() ==> !is_param_char(cs[params_end(cs, j)]),
    decreases cs.len() - j,
{
    if j < cs.len() && is_param_char(cs[j]) {
        lemma_params_end_bounds(cs, j + 1);
    }
}

/// The state of the left-to-right scan of [`parse_ansi`]: the spans emitted
/// so far, the current color, and the text gathered since the last escape.
pub struct AnsiScan {
    pub spans: Seq<SpanModel>,
    pub color: TermColor,
    pub buf: Seq<char>,
}

/// Emit the gathered text (if any) as a span that ends at character `i` of `cs`.
pub open spec fn flush(cs: Seq<char>, i: int, st: AnsiScan) -> AnsiScan {
    if st.buf.len() == 0 {
        st
    } else {
        let end = utf8_len(cs.take(i));
        AnsiScan {
            spans: st.spans.push(
                SpanModel {
                    color: st.color,
                    text: st.buf,
                    byte_start: (end - utf8_len(st.buf)) as nat,
                    byte_end: end,
                },
            ),
            color: st.color,
            buf: Seq::<char>::empty(),
        }
    }
}

/// Where the control sequence that starts at `i` (with `ESC [`) ends: just
/// past its terminator, or at the end of `cs` when the text stops inside it.
pub open spec fn escape_next(cs: Seq<char>, i: int) -> int {
    let k = params_end(cs, i + 2);
    if k < cs.len() {
        k + 1
    } else {
        k
    }
}

/// The color in effect after the control sequence that starts at `i`: only an
/// SGR sequence (terminator `m`, also assumed when the text ends inside the
/// sequence) can change it.
pub open spec fn escape_color(
    cs: Seq<char>,
    i: int,
    color: TermColor,
    default_color: TermColor,
) -> TermColor {
    let k = params_end(cs, i + 2);
    let term = if k < cs.len() {
        cs[k]
    } else {
        'm'
    };
    if term == 'm' {
        match parse_sgr_spec(cs.subrange(i + 2, k), default_color, color) {
            Some(c) => c,
            None => color,
        }
    } else {
        color
    }
}

/// The scan of `cs` from character `i` on, in state `st`.
pub open spec fn scan(cs: Seq<char>, i: int, st: AnsiScan, default_color: TermColor) -> AnsiScan
    decreases cs.len() - i,
{
    if i < 0 || i >= cs.len() {
        st
    } else if is_esc(cs[i]) && i + 1 < cs.len() && cs[i + 1] == '[' {
        let st1 = flush(cs, i, st);
        proof {
            lemma_params_end_bounds(cs, i + 2);
        }
        scan(
            cs,
            escape_next(cs, i),
            AnsiScan {
                spans: st1.spans,
                color: escape_color(cs, i, st1.color, default_color),
                buf: Seq::<char>::empty(),
            },
            default_color,
        )
    } else {
        scan(
            cs,
            i + 1,
            AnsiScan { spans: st.spans, color: st.color, buf: st.buf.push(cs[i]) },
            default_color,
        )
    }
}

/// The spans that [`parse_ansi`] gives for the characters `cs`.
pub open spec fn parse_ansi_spec(cs: Seq<char>, default_color: TermColor) -> Seq<SpanModel> {
    let st = scan(
        cs,
        0,
        AnsiScan { spans: Seq::<SpanModel>::empty(), color: default_color, buf: Seq::<char>::empty() },
        default_color,
    );
    flush(cs, cs.len() as int, st).spans
}

/// Parse a string containing ANSI escape sequences into colored text spans.
/// Supports standard 16-color (30-37, 90-97), 256-color (38;5;N), and
/// truecolor (38;2;R;G;B) foreground codes plus reset (0).
pub fn parse_ansi(text: &str, default_color: TermColor) -> (spans: Vec<AnsiSpan>)
    ensures
        spans_view(spans@) == parse_ansi_spec(text@, default_color),
{
    let total = byte_len(text);
    let cvec = chars_of(text);
    let cs = cvec.as_slice();
    let n = cs.len();
    let ghost init = AnsiScan {
        spans: Seq::<SpanModel>::empty(),
        color: default_color,
        buf: Seq::<char>::empty(),
    };
    let mut spans: Vec<AnsiSpan> = Vec::new();
    let mut current_color = default_color;
    let mut buf: Vec<char> = Vec::new();
    let mut buf_bytes: usize = 0;
    let mut byte_pos: usize = 0;
    let mut i: usize = 0;
    proof {
        assert(spans_view(spans@) =~= Seq::<SpanModel>::empty());
        assert(cs@.take(0) =~= Seq::<char>::empty());
        assert(utf8_len(cs@.take(0)) == 0);
    }
    while i < n
        invariant
            n == cs@.len(),
            cs@ == text@,
            total == utf8_len(cs@),
            i <= n,
            byte_pos == utf8_len(cs@.take(i as int)),
            buf_bytes == utf8_len(buf@),
            buf_bytes <= byte_pos,
            scan(
                cs@,
                i as int,
                AnsiScan { spans: spans_view(spans@), color: current_color, buf: buf@ },
                default_color,
            ) == scan(cs@, 0, init, default_color),
        decreases n - i,
    {
        proof {
            lemma_utf8_len_prefix_monotone(cs@, i as int, n as int);
            assert(cs@.take(n as int) =~= cs@);
        }
        if cs[i] == '\x1b' && i + 1 < n && cs[i + 1] == '[' {
            let ghost st = AnsiScan { spans: spans_view(spans@), color: current_color, buf: buf@ };
            if buf.len() > 0 {
                let t = string_from_chars(buf.as_slice());
                let span = AnsiSpan {
                    color: current_color,
                    text: t,
                    byte_start: byte_pos - buf_bytes,
                    byte_end: byte_pos,
                };
                spans.push(span);
                assert(spans_view(spans@) =~= flush(cs@, i as int, st).spans);
                buf = Vec::new();
                buf_bytes = 0;
            }
            let ghost st1 = flush(cs@, i as int, st);
            assert(st1.spans == spans_view(spans@));
            // `ESC [`
            proof {
                assert(cs@.take(i + 1) =~= cs@.take(i as int).push(cs@[i as int]));
                lemma_utf8_len_push(cs@.take(i as int), cs@[i as int]);
                assert(cs@.take(i + 2) =~= cs@.take(i + 1).push(cs@[i + 1]));
                lemma_utf8_len_push(cs@.take(i + 1), cs@[i + 1]);
                lemma_utf8_len_prefix_monotone(cs@, i + 2, n as int);
            }
            byte_pos = byte_pos + 2;
            let mut j: usize = i + 2;
            proof {
                lemma_params_end_bounds(cs@, i + 2);
            }
            while j < n && (('0' <= cs[j] && cs[j] <= '9') || cs[j] == ';' || cs[j] == ':')
                invariant
                    n == cs@.len(),
                    total == utf8_len(cs@),
                    i + 2 <= j <= n,
                    byte_pos == utf8_len(cs@.take(j as int)),
                    params_end(cs@, i + 2) == params_end(cs@, j as int),
                decreases n - j,
            {
                proof {
                    assert(cs@.take(j + 1) =~= cs@.take(j as int).push(cs@[j as int]));
                    lemma_utf8_len_push(cs@.take(j as int), cs@[j as int]);
                    lemma_utf8_len_prefix_monotone(cs@, j + 1, n as int);
                    assert(cs@.take(n as int) =~= cs@);
                }
                byte_pos = byte_pos + len_utf8(cs[j]);
                j = j + 1;
            }
            let k = j;
            assert(k == params_end(cs@, i + 2));
            let mut terminator = 'm';
            let mut next = k;
            if k < n {
                terminator = cs[k];
                proof {
                    assert(cs@.take(k + 1) =~= cs@.take(k as int).push(cs@[k as int]));
                    lemma_utf8_len_push(cs@.take(k as int), cs@[k as int]);
                    lemma_utf8_len_prefix_monotone(cs@, k + 1, n as int);
                    assert(cs@.take(n as int) =~= cs@);
                }
                byte_pos = byte_pos + len_utf8(cs[k]);
                next = k + 1;
            }
            if terminator == 'm' {
                match parse_sgr_range(cs, i + 2, k, default_color, current_color) {
                    Some(c) => {
                        current_color = c;
                    },
                    None => {},
                }
            }
            assert(buf@ =~= Seq::<char>::empty());
            i = next;
        } else {
            let ch = cs[i];
            proof {
                assert(cs@.take(i + 1) =~= cs@.take(i as int).push(cs@[i as int]));
                lemma_utf8_len_push(cs@.take(i as int), cs@[i as int]);
                lemma_utf8_len_push(buf@, cs@[i as int]);
                lemma_utf8_len_prefix_monotone(cs@, i + 1, n as int);
                assert(cs@.take(n as int) =~= cs@);
            }
            let w = len_utf8(ch);
            buf.push(ch);
            buf_bytes = buf_bytes + w;
            byte_pos = byte_pos + w;
            i = i + 1;
        }
    }
    let ghost st = AnsiScan { spans: spans_view(spans@), color: current_color, buf: buf@ };
    assert(scan(cs@, n as int, st, default_color) == st);
    if buf.len() > 0 {
        let t = string_from_chars(buf.as_slice());
        let span = AnsiSpan {
            color: current_color,
            text: t,
            byte_start: byte_pos - buf_bytes,
            byte_end: byte_pos,
        };
        spans.push(span);
        assert(spans_view(spans@) =~= flush(cs@, n as int, st).spans);
    }
    spans
}


/// The span's text is the run of characters `cs[a..b]`, and its byte offsets
/// are where that run starts and ends in the encoding of `cs`.
pub open spec fn span_placed_at(cs: Seq<char>, sp: SpanModel, a: int, b: int) -> bool {
    &&& 0 <= a < b <= cs.len()
    &&& sp.text == cs.subrange(a, b)
    &&& sp.byte_start == utf8_len(cs.take(a))
    &&& sp.byte_end == utf8_len(cs.take(b))
}

/// The span holds a non-empty run of characters of `cs` at its byte offsets.
pub open spec fn span_placed(cs: Seq<char>, sp: SpanModel) -> bool {
    exists|a: int, b: int| span_placed_at(cs, sp, a, b)
}

/// Each span starts after the previous one ends: an escape sequence lies
/// between any two spans.
pub open spec fn spans_ordered(spans: Seq<SpanModel>) -> bool {
    forall|k: int| 0 < k < spans.len() ==> spans[k - 1].byte_end < #[trigger] spans[k].byte_start
}

/// What the scan keeps true: the gathered text is the run of characters just
/// before position `i`, and the spans emitted so far are placed, ordered, and
/// end before the gathered text starts (an escape sequence lies between).
pub open spec fn scan_inv(cs: Seq<char>, i: int, st: AnsiScan) -> bool {
    &&& 0 <= i <= cs.len()
    &&& st.buf.len() <= i
    &&& st.buf == cs.subrange(i - st.buf.len(), i)
    &&& forall|k: int| 0 <= k < st.spans.len() ==> span_placed(cs, #[trigger] st.spans[k])
    &&& spans_ordered(st.spans)
    &&& st.spans.len() > 0 ==> st.spans.last().byte_end < utf8_len(cs.take(i - st.buf.len()))
}

proof fn lemma_flush_inv(cs: Seq<char>, i: int, st: AnsiScan)
    requires
        scan_inv(cs, i, st),
    ensures
        ({
            let f = flush(cs, i, st);
            &&& forall|k: int| 0 <= k < f.spans.len() ==> span_placed(cs, #[trigger] f.spans[k])
            &&& spans_ordered(f.spans)
            &&& f.spans.len() > 0 ==> f.spans.last().byte_end <= utf8_len(cs.take(i))
            &&& f.color == st.color
        }),
{
    let f = flush(cs, i, st);
    if st.buf.len() > 0 {
        let a = i - st.buf.len();
        assert(cs.take(i) =~= cs.take(a) + cs.subrange(a, i));
        lemma_utf8_len_concat(cs.take(a), cs.subrange(a, i));
        let sp = f.spans.last();
        assert(span_placed_at(cs, sp, a, i));
        assert(span_placed(cs, sp));
        assert forall|k: int| 0 <= k < f.spans.len() implies span_placed(cs, #[trigger] f.spans[k]) by {
            if k < st.spans.len() {
                assert(f.spans[k] == st.spans[k]);
            }
        }
        assert(cs.take(i - 0) =~= cs.take(i));
        assert(f.buf =~= cs.subrange(i, i));
    } else {
        assert(cs.take(i - 0) =~= cs.take(i));
    }
}

proof fn lemma_scan_inv(cs: Seq<char>, i: int, st: AnsiScan, default_color: TermColor)
    requires
        scan_inv(cs, i, st),
    ensures
        ({
            let f = flush(cs, cs.len() as int, scan(cs, i, st, default_color));
            &&& forall|k: int| 0 <= k < f.spans.len() ==> span_placed(cs, #[trigger] f.spans[k])
            &&& spans_ordered(f.spans)
        }),
    decreases cs.len() - i,
{
    if i >= cs.len() {
        lemma_flush_inv(cs, i, st);
    } else if is_esc(cs[i]) && i + 1 < cs.len() && cs[i + 1] == '[' {
        let st1 = flush(cs, i, st);
        lemma_flush_inv(cs, i, st);
        lemma_params_end_bounds(cs, i + 2);
        let next = escape_next(cs, i);
        let st2 = AnsiScan {
            spans: st1.spans,
            color: escape_color(cs, i, st1.color, default_color),
            buf: Seq::<char>::empty(),
        };
        lemma_utf8_len_prefix_monotone(cs, i, next);
        assert(cs.take(next - 0) =~= cs.take(next));
        assert(cs.subrange(next, next) =~= Seq::<char>::empty());
        assert(scan_inv(cs, next, st2));
        lemma_scan_inv(cs, next, st2, default_color);
    } else {
        let st2 = AnsiScan { spans: st.spans, color: st.color, buf: st.buf.push(cs[i]) };
        assert(st2.buf =~= cs.subrange(i + 1 - st2.buf.len(), i + 1));
        assert(scan_inv(cs, i + 1, st2));
        lemma_scan_inv(cs, i + 1, st2, default_color);
    }
}

/// Each span's byte offsets delimit, in the encoding of the parsed string,
/// exactly the span's (non-empty) text, and the spans come in order with a
/// gap (an escape sequence) between any two.
pub proof fn lemma_parse_ansi_spans_placed(cs: Seq<char>, default_color: TermColor)
    ensures
        ({
            let spans = parse_ansi_spec(cs, default_color);
            &&& spans_ordered(spans)
            &&& forall|k: int|
                0 <= k < spans.len() ==> {
                    &&& (#[trigger] spans[k]).byte_start < spans[k].byte_end
                    &&& is_boundary(cs, spans[k].byte_start as int)
                    &&& is_boundary(cs, spans[k].byte_end as int)
                    &&& byte_slice(cs, spans[k].byte_start as int, spans[k].byte_end as int)
                        == spans[k].text
                    &&& spans[k].text.len() > 0
                }
        }),
{
    let init = AnsiScan {
        spans: Seq::<SpanModel>::empty(),
        color: default_color,
        buf: Seq::<char>::empty(),
    };
    assert(cs.subrange(0, 0) =~= Seq::<char>::empty());
    assert(scan_inv(cs, 0, init));
    lemma_scan_inv(cs, 0, init, default_color);
    let spans = parse_ansi_spec(cs, default_color);
    assert forall|k: int| 0 <= k < spans.len() implies {
        &&& (#[trigger] spans[k]).byte_start < spans[k].byte_end
        &&& is_boundary(cs, spans[k].byte_start as int)
        &&& is_boundary(cs, spans[k].byte_end as int)
        &&& byte_slice(cs, spans[k].byte_start as int, spans[k].byte_end as int) == spans[k].text
        &&& spans[k].text.len() > 0
    } by {
        assert(span_placed(cs, spans[k]));
        let (a, b) = choose|a: int, b: int| span_placed_at(cs, spans[k], a, b);
        lemma_char_index_unique(cs, a);
        lemma_char_index_unique(cs, b);
        lemma_utf8_len_prefix_monotone(cs, a, b);
    }
}


/// The characters of `cs` from `i` on that are not part of a control
/// sequence (`ESC [`, parameters, terminator).
pub open spec fn strip_escapes(cs: Seq<char>, i: int) -> Seq<char>
    decreases cs.len() - i,
{
    if i < 0 || i >= cs.len() {
        Seq::<char>::empty()
    } else if is_esc(cs[i]) && i + 1 < cs.len() && cs[i + 1] == '[' {
        proof {
            lemma_params_end_bounds(cs, i + 2);
        }
        strip_escapes(cs, escape_next(cs, i))
    } else {
        seq![cs[i]] + strip_escapes(cs, i + 1)
    }
}

/// The texts of the spans, one after the other.
pub open spec fn span_texts(spans: Seq<SpanModel>) -> Seq<char>
    decreases spans.len(),
{
    if spans.len() == 0 {
        Seq::<char>::empty()
    } else {
        span_texts(spans.drop_last()) + spans.last().text
    }
}

proof fn lemma_scan_texts(cs: Seq<char>, i: int, st: AnsiScan, default_color: TermColor)
    requires
        0 <= i <= cs.len(),
    ensures
        span_texts(flush(cs, cs.len() as int, scan(cs, i, st, default_color)).spans) == span_texts(
            st.spans,
        ) + st.buf + strip_escapes(cs, i),
    decreases cs.len() - i,
{
    if i >= cs.len() {
        let f = flush(cs, i, st);
        if st.buf.len() > 0 {
            assert(f.spans.drop_last() =~= st.spans);
        }
        assert(span_texts(st.spans) + st.buf + Seq::<char>::empty() =~= span_texts(st.spans)
            + st.buf);
        if st.buf.len() == 0 {
            assert(span_texts(st.spans) + st.buf =~= span_texts(st.spans));
        }
    } else if is_esc(cs[i]) && i + 1 < cs.len() && cs[i + 1] == '[' {
        let st1 = flush(cs, i, st);
        lemma_params_end_bounds(cs, i + 2);
        let next = escape_next(cs, i);
        let st2 = AnsiScan {
            spans: st1.spans,
            color: escape_color(cs, i, st1.color, default_color),
            buf: Seq::<char>::empty(),
        };
        lemma_scan_texts(cs, next, st2, default_color);
        if st.buf.len() > 0 {
            assert(st1.spans.drop_last() =~= st.spans);
            assert(span_texts(st1.spans) == span_texts(st.spans) + st.buf);
        } else {
            assert(st.buf =~= Seq::<char>::empty());
        }
        assert(span_texts(st2.spans) + st2.buf + strip_escapes(cs, next) =~= span_texts(st.spans)
            + st.buf + strip_escapes(cs, i));
    } else {
        let st2 = AnsiScan { spans: st.spans, color: st.color, buf: st.buf.push(cs[i]) };
        lemma_scan_texts(cs, i + 1, st2, default_color);
        assert(span_texts(st2.spans) + st2.buf + strip_escapes(cs, i + 1) =~= span_texts(st.spans)
            + st.buf + strip_escapes(cs, i));
    }
}

/// Parsing loses no text: the spans' texts, one after the other, are the
/// input with its control sequences removed.
pub proof fn lemma_parse_ansi_keeps_text(cs: Seq<char>, default_color: TermColor)
    ensures
        span_texts(parse_ansi_spec(cs, default_color)) == strip_escapes(cs, 0),
{
    let init = AnsiScan {
        spans: Seq::<SpanModel>::empty(),
        color: default_color,
        buf: Seq::<char>::empty(),
    };
    lemma_scan_texts(cs, 0, init, default_color);
    assert(span_texts(init.spans) + init.buf + strip_escapes(cs, 0) =~= strip_escapes(cs, 0));
}

} // verus!
