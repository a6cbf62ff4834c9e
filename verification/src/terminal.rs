//! The text model of the simulated terminal window: the typed commands, their
//! captured output, and how much of each is revealed, turned into colored lines.
use vstd::prelude::*;
use crate::ansi::{AnsiSpan, SpanModel, TermColor, parse_ansi, parse_ansi_spec, spans_view};
use crate::text::{
    byte_len, byte_slice, char_width, chars_of, is_boundary, len_utf8, lemma_utf8_len_concat,
    lemma_utf8_len_prefix_monotone, lemma_utf8_len_push, push_char, slice_by_bytes,
    string_from_chars, utf8_len,
};

verus! {

/// A run of terminal text in one color.
#[derive(Debug)]
pub struct ColoredSpan {
    pub color: TermColor,
    pub text: String,
}

/// One line of terminal text.
#[derive(Debug)]
pub struct ColoredLine {
    pub spans: Vec<ColoredSpan>,
}

/// The mathematical content of a [`ColoredSpan`].
pub struct ColoredModel {
    pub color: TermColor,
    pub text: Seq<char>,
}

impl View for ColoredSpan {
    type V = ColoredModel;

    open spec fn view(&self) -> ColoredModel {
        ColoredModel { color: self.color, text: self.text@ }
    }
}

/// The views of a sequence of colored spans.
pub open spec fn colored_view(spans: Seq<ColoredSpan>) -> Seq<ColoredModel> {
    spans.map_values(|s: ColoredSpan| s@)
}

impl View for ColoredLine {
    type V = Seq<ColoredModel>;

    open spec fn view(&self) -> Seq<ColoredModel> {
        colored_view(self.spans@)
    }
}

/// The views of a sequence of lines.
pub open spec fn lines_view(lines: Seq<ColoredLine>) -> Seq<Seq<ColoredModel>> {
    lines.map_values(|l: ColoredLine| l@)
}

/// ASCII whitespace as `u8::is_ascii_whitespace` defines it: space, tab,
/// line feed, form feed and carriage return.
pub open spec fn is_ascii_ws(c: char) -> bool {
    c == ' ' || c == '\t' || c == '\n' || c == '\x0C' || c == '\r'
}

/// End of the run of whitespace (`ws == true`) or of non-whitespace
/// (`ws == false`) characters that starts at `p`.
pub open spec fn run_end(cs: Seq<char>, p: int, ws: bool) -> int
    decreases cs.len() - p,
{
    if p < 0 || p >= cs.len() {
        cs.len() as int
    } else if is_ascii_ws(cs[p]) == ws {
        run_end(cs, p + 1, ws)
    } else {
        p
    }
}

pub proof fn lemma_run_end(cs: Seq<char>, p: int, ws: bool)
    requires
        0 <= p <= cs.len(),
    ensures
        p <= run_end(cs, p, ws) <= cs.len(),
        forall|k: int| p <= k < run_end(cs, p, ws) ==> is_ascii_ws(#[trigger] cs[k]) == ws,
        run_end(cs, p, ws) < cs.len() ==> is_ascii_ws(cs[run_end(cs, p, ws)]) != ws,
    decreases cs.len() - p,
{
    if p < cs.len() && is_ascii_ws(cs[p]) == ws {
        lemma_run_end(cs, p + 1, ws);
    }
}

/// The colored spans of a command from character `p` on: whitespace runs and
/// the first word in `c0`, every later word in `c1`.
pub open spec fn colorize_from(
    cs: Seq<char>,
    p: int,
    first: bool,
    c0: TermColor,
    c1: TermColor,
) -> Seq<ColoredModel>
    decreases cs.len() - p,
{
    if p < 0 || p >= cs.len() {
        Seq::<ColoredModel>::empty()
    } else {
        let w = run_end(cs, p, true);
        let ws_part = if w > p {
            seq![ColoredModel { color: c0, text: cs.subrange(p, w) }]
        } else {
            Seq::<ColoredModel>::empty()
        };
        if w >= cs.len() {
            ws_part
        } else {
            proof {
                lemma_run_end(cs, p, true);
                lemma_run_end(cs, w, false);
            }
            let t = run_end(cs, w, false);
            let color = if first {
                c0
            } else {
                c1
            };
            ws_part + seq![ColoredModel { color, text: cs.subrange(w, t) }] + colorize_from(
                cs,
                t,
                false,
                c0,
                c1,
            )
        }
    }
}

/// Split a command into colored spans: the program name (first word) and the
/// whitespace in `cmd_color0`, the arguments in `cmd_color1`.
pub fn colorize_cmd(cmd: &str, cmd_color0: TermColor, cmd_color1: TermColor) -> (spans: Vec<
    ColoredSpan,
>)
    ensures
        colored_view(spans@) == colorize_from(cmd@, 0, true, cmd_color0, cmd_color1),
{
    let cv = chars_of(cmd);
    let cs = cv.as_slice();
    let n = cs.len();
    let mut spans: Vec<ColoredSpan> = Vec::new();
    let mut first = true;
    let mut pos: usize = 0;
    assert(colored_view(spans@) =~= Seq::<ColoredModel>::empty());
    while pos < n
        invariant
            n == cs@.len(),
            cs@ == cmd@,
            pos <= n,
            colored_view(spans@) + colorize_from(cs@, pos as int, first, cmd_color0, cmd_color1)
                == colorize_from(cs@, 0, true, cmd_color0, cmd_color1),
        decreases n - pos,
    {
        let ghost before = colored_view(spans@);
        let ghost p = pos as int;
        proof {
            lemma_run_end(cs@, p, true);
        }
        let ws_start = pos;
        while pos < n && (cs[pos] == ' ' || cs[pos] == '\t' || cs[pos] == '\n' || cs[pos] == '\x0C'
            || cs[pos] == '\r')
            invariant
                n == cs@.len(),
                ws_start <= pos <= n,
                run_end(cs@, ws_start as int, true) == run_end(cs@, pos as int, true),
            decreases n - pos,
        {
            pos = pos + 1;
        }
        let ghost w = pos as int;
        assert(w == run_end(cs@, p, true));
        if pos > ws_start {
            let piece = slice_chars(cs, ws_start, pos);
            spans.push(ColoredSpan { color: cmd_color0, text: piece });
        }
        let ghost ws_part = if w > p {
            seq![ColoredModel { color: cmd_color0, text: cs@.subrange(p, w) }]
        } else {
            Seq::<ColoredModel>::empty()
        };
        assert(colored_view(spans@) =~= before + ws_part);
        if pos >= n {
            assert(colorize_from(cs@, p, first, cmd_color0, cmd_color1) == ws_part);
            assert(colorize_from(cs@, n as int, false, cmd_color0, cmd_color1)
                =~= Seq::<ColoredModel>::empty());
            assert(colored_view(spans@) + colorize_from(
                cs@,
                n as int,
                false,
                cmd_color0,
                cmd_color1,
            ) =~= before + ws_part);
            pos = n;
            first = false;
        } else {
            proof {
                lemma_run_end(cs@, w, false);
            }
            let tok_start = pos;
            while pos < n && !(cs[pos] == ' ' || cs[pos] == '\t' || cs[pos] == '\n' || cs[pos]
                == '\x0C' || cs[pos] == '\r')
                invariant
                    n == cs@.len(),
                    tok_start <= pos <= n,
                    run_end(cs@, tok_start as int, false) == run_end(cs@, pos as int, false),
                decreases n - pos,
            {
                pos = pos + 1;
            }
            let color = if first {
                first = false;
                cmd_color0
            } else {
                cmd_color1
            };
            let piece = slice_chars(cs, tok_start, pos);
            spans.push(ColoredSpan { color, text: piece });
            assert(colored_view(spans@) =~= before + ws_part + seq![
                ColoredModel { color, text: cs@.subrange(w, pos as int) },
            ]);
        }
    }
    assert(colorize_from(cs@, pos as int, first, cmd_color0, cmd_color1) =~= Seq::<
        ColoredModel,
    >::empty());
    assert(colored_view(spans@) =~= colored_view(spans@) + Seq::<ColoredModel>::empty());
    spans
}

/// A string holding `cs[lo..hi]`.
fn slice_chars(cs: &[char], lo: usize, hi: usize) -> (s: String)
    requires
        lo <= hi <= cs@.len(),
    ensures
        s@ == cs@.subrange(lo as int, hi as int),
{
    let mut v: Vec<char> = Vec::new();
    let mut i = lo;
    while i < hi
        invariant
            lo <= i <= hi <= cs@.len(),
            v@ == cs@.subrange(lo as int, i as int),
        decreases hi - i,
    {
        v.push(cs[i]);
        assert(cs@.subrange(lo as int, i + 1) =~= cs@.subrange(lo as int, i as int).push(
            cs@[i as int],
        ));
        i = i + 1;
    }
    string_from_chars(v.as_slice())
}


/// The span overlaps the byte range `[skip, end)`.
pub open spec fn span_hits(sp: SpanModel, skip: int, end: int) -> bool {
    sp.byte_end > skip && sp.byte_start < end
}

/// Offset (within the span's text) where the range `[skip, end)` starts.
pub open spec fn span_lo(sp: SpanModel, skip: int) -> int {
    (if sp.byte_start >= skip {
        sp.byte_start as int
    } else {
        skip
    }) - sp.byte_start
}

/// Offset (within the span's text) where the range `[skip, end)` ends.
pub open spec fn span_hi(sp: SpanModel, end: int) -> int {
    (if sp.byte_end <= end {
        sp.byte_end as int
    } else {
        end
    }) - sp.byte_start
}

/// The part of one span that falls in `[skip, end)`, if it is not empty.
pub open spec fn slice_span(sp: SpanModel, skip: int, end: int) -> Option<SpanModel> {
    if span_hits(sp, skip, end) && span_lo(sp, skip) < span_hi(sp, end) {
        Some(
            SpanModel {
                color: sp.color,
                text: byte_slice(sp.text, span_lo(sp, skip), span_hi(sp, end)),
                byte_start: (sp.byte_start + span_lo(sp, skip)) as nat,
                byte_end: (sp.byte_start + span_hi(sp, end)) as nat,
            },
        )
    } else {
        None
    }
}

/// The parts of the spans that fall in `[skip, end)`, in order.
pub open spec fn slice_spans_from(spans: Seq<SpanModel>, skip: int, end: int) -> Seq<SpanModel>
    decreases spans.len(),
{
    if spans.len() == 0 {
        Seq::<SpanModel>::empty()
    } else {
        let rest = slice_spans_from(spans.drop_last(), skip, end);
        match slice_span(spans.last(), skip, end) {
            Some(sp) => rest.push(sp),
            None => rest,
        }
    }
}

/// What [`slice_spans_by_byte_range`] gives: nothing for an empty range, else
/// the parts of the spans within `[skip, skip + reveal)`.
pub open spec fn slice_spans_spec(spans: Seq<SpanModel>, skip: int, reveal: int) -> Seq<
    SpanModel,
> {
    if reveal == 0 {
        Seq::<SpanModel>::empty()
    } else {
        slice_spans_from(spans, skip, skip + reveal)
    }
}

/// Slicing one span within `[skip, end)` stays inside its text at character
/// boundaries, as byte slicing of its string demands.
pub open spec fn span_slice_ok(sp: SpanModel, skip: int, end: int) -> bool {
    span_hits(sp, skip, end) ==> {
        &&& sp.byte_start <= sp.byte_end
        &&& span_lo(sp, skip) < span_hi(sp, end) ==> {
            &&& is_boundary(sp.text, span_lo(sp, skip))
            &&& is_boundary(sp.text, span_hi(sp, end))
        }
    }
}

/// Every span can be sliced within `[skip, skip + reveal)`.
pub open spec fn slice_spans_ok(spans: Seq<SpanModel>, skip: int, reveal: int) -> bool {
    ||| reveal == 0
    ||| {
        &&& skip + reveal <= usize::MAX
        &&& forall|i: int|
            0 <= i < spans.len() ==> span_slice_ok(#[trigger] spans[i], skip, skip + reveal)
    }
}

/// Given parsed ANSI spans and a raw byte range [skip, skip+reveal) of the
/// text they were parsed from, return spans covering only that range. Spans that fall
/// entirely outside the range are omitted; partial spans are sliced at their
/// byte boundaries.
pub fn slice_spans_by_byte_range(spans: &[AnsiSpan], skip: usize, reveal: usize) -> (r: Vec<
    AnsiSpan,
>)
    requires
        slice_spans_ok(spans_view(spans@), skip as int, reveal as int),
    ensures
        spans_view(r@) == slice_spans_spec(spans_view(spans@), skip as int, reveal as int),
{
    if reveal == 0 {
        let r: Vec<AnsiSpan> = Vec::new();
        assert(spans_view(r@) =~= Seq::<SpanModel>::empty());
        return r;
    }
    let end = skip + reveal;
    let ghost sv = spans_view(spans@);
    let mut result: Vec<AnsiSpan> = Vec::new();
    let mut i: usize = 0;
    assert(spans_view(result@) =~= Seq::<SpanModel>::empty());
    assert(sv.take(0) =~= Seq::<SpanModel>::empty());
    while i < spans.len()
        invariant
            sv == spans_view(spans@),
            end == skip + reveal,
            reveal > 0,
            slice_spans_ok(sv, skip as int, reveal as int),
            i <= spans@.len(),
            spans_view(result@) == slice_spans_from(sv.take(i as int), skip as int, end as int),
        decreases spans@.len() - i,
    {
        let span = &spans[i];
        assert(sv[i as int] == span@);
        assert(span_slice_ok(sv[i as int], skip as int, end as int));
        assert(sv.take(i + 1).drop_last() =~= sv.take(i as int));
        assert(sv.take(i + 1).last() == span@);
        if span.byte_end > skip && span.byte_start < end {
            let lo = (if span.byte_start >= skip {
                span.byte_start
            } else {
                skip
            }) - span.byte_start;
            let hi = (if span.byte_end <= end {
                span.byte_end
            } else {
                end
            }) - span.byte_start;
            if lo < hi {
                let cv = chars_of(span.text.as_str());
                let piece = slice_by_bytes(cv.as_slice(), lo, hi);
                let text = string_from_chars(piece.as_slice());
                let sliced = AnsiSpan {
                    color: span.color,
                    text,
                    byte_start: span.byte_start + lo,
                    byte_end: span.byte_start + hi,
                };
                result.push(sliced);
                assert(spans_view(result@) =~= slice_spans_from(
                    sv.take(i as int),
                    skip as int,
                    end as int,
                ).push(sliced@));
            }
        }
        i = i + 1;
    }
    assert(sv.take(spans@.len() as int) =~= sv);
    result
}


/// One command typed into the terminal, with its captured output and how much
/// of both is revealed (in bytes).
#[derive(Debug)]
pub struct TerminalEntry {
    pub command: String,
    pub display_override: Option<String>,
    pub output: String,
    pub prompt: String,
    pub input_reveal: usize,
    pub output_skip: usize,
    pub output_reveal: usize,
    pub pushed_text: Option<String>,
}

/// The characters of an optional string.
pub open spec fn opt_view(o: Option<String>) -> Option<Seq<char>> {
    match o {
        Some(s) => Some(s@),
        None => None,
    }
}

/// The mathematical content of a [`TerminalEntry`].
pub struct EntryModel {
    pub command: Seq<char>,
    pub display_override: Option<Seq<char>>,
    pub output: Seq<char>,
    pub prompt: Seq<char>,
    pub input_reveal: nat,
    pub output_skip: nat,
    pub output_reveal: nat,
    pub pushed_text: Option<Seq<char>>,
}

impl View for TerminalEntry {
    type V = EntryModel;

    open spec fn view(&self) -> EntryModel {
        EntryModel {
            command: self.command@,
            display_override: opt_view(self.display_override),
            output: self.output@,
            prompt: self.prompt@,
            input_reveal: self.input_reveal as nat,
            output_skip: self.output_skip as nat,
            output_reveal: self.output_reveal as nat,
            pushed_text: opt_view(self.pushed_text),
        }
    }
}

/// The views of a sequence of entries.
pub open spec fn entries_view(entries: Seq<TerminalEntry>) -> Seq<EntryModel> {
    entries.map_values(|e: TerminalEntry| e@)
}

impl EntryModel {
    /// The text shown as the typed command.
    pub open spec fn display(self) -> Seq<char> {
        match self.display_override {
            Some(d) => d,
            None => self.command,
        }
    }

    /// The captured output followed by any text pushed after it.
    pub open spec fn output_text(self) -> Seq<char> {
        match self.pushed_text {
            Some(p) => self.output + p,
            None => self.output,
        }
    }

    /// How many bytes of the typed command are shown.
    pub open spec fn reveal_len(self) -> nat {
        let n = utf8_len(self.display());
        if self.input_reveal < n {
            self.input_reveal
        } else {
            n
        }
    }

    /// How many leading bytes of the output are skipped.
    pub open spec fn skip_len(self) -> nat {
        let n = utf8_len(self.output_text());
        if self.output_skip < n {
            self.output_skip
        } else {
            n
        }
    }

    /// How many bytes of the output after the skipped part are shown.
    pub open spec fn shown_len(self) -> nat {
        let available = utf8_len(self.output_text()) - self.skip_len();
        if self.output_reveal < available {
            self.output_reveal
        } else {
            available as nat
        }
    }

    /// Drawing the entry slices its strings only at character boundaries.
    pub open spec fn drawable(self) -> bool {
        &&& is_boundary(self.display(), self.reveal_len() as int)
        &&& slice_spans_ok(
            parse_ansi_spec(self.output_text(), TermColor::Default),
            self.skip_len() as int,
            self.shown_len() as int,
        )
    }
}

/// Spans of parsed ANSI text as colored spans.
pub open spec fn to_colored(spans: Seq<SpanModel>) -> Seq<ColoredModel> {
    spans.map_values(|s: SpanModel| ColoredModel { color: s.color, text: s.text })
}

/// The block cursor drawn after a partly typed command.
pub open spec fn cursor_span() -> ColoredModel {
    ColoredModel { color: TermColor::Base(5), text: seq!['\u{2588}'] }
}

/// The lines that one entry draws: the prompt with the revealed part of the
/// command (and a cursor while the command is still being typed), then the
/// revealed part of the output, if any.
pub open spec fn entry_lines(prompt: Seq<char>, e: EntryModel) -> Seq<Seq<ColoredModel>> {
    let display = e.display();
    let visible = byte_slice(display, 0, e.reveal_len() as int);
    let prompt_text = if e.prompt.len() == 0 {
        prompt
    } else {
        e.prompt
    };
    let cmd_line = to_colored(parse_ansi_spec(prompt_text, TermColor::Default)) + (if visible.len()
        > 0 {
        colorize_from(visible, 0, true, TermColor::Base(12), TermColor::Base(10))
    } else {
        Seq::<ColoredModel>::empty()
    }) + (if e.reveal_len() < utf8_len(display) {
        seq![cursor_span()]
    } else {
        Seq::<ColoredModel>::empty()
    });
    let sliced = slice_spans_spec(
        parse_ansi_spec(e.output_text(), TermColor::Default),
        e.skip_len() as int,
        e.shown_len() as int,
    );
    if sliced.len() > 0 {
        seq![cmd_line, to_colored(sliced)]
    } else {
        seq![cmd_line]
    }
}

/// The lines that all entries draw, in order.
pub open spec fn content_spec(prompt: Seq<char>, entries: Seq<EntryModel>) -> Seq<
    Seq<ColoredModel>,
>
    decreases entries.len(),
{
    if entries.len() == 0 {
        Seq::<Seq<ColoredModel>>::empty()
    } else {
        content_spec(prompt, entries.drop_last()) + entry_lines(prompt, entries.last())
    }
}

/// The text content of the simulated terminal: the default prompt, the typed
/// entries, and which entry the output animations act on.
#[derive(Debug)]
pub struct TerminalTextBuffer {
    pub prompt: String,
    pub entries: Vec<TerminalEntry>,
    pub current_entry: usize,
    pub dirty: bool,
}

/// Append the spans, as colored spans, to `out`.
fn extend_colored(out: &mut Vec<ColoredSpan>, spans: &Vec<AnsiSpan>)
    ensures
        colored_view(final(out)@) == colored_view(old(out)@) + to_colored(spans_view(spans@)),
{
    let ghost start = colored_view(out@);
    let ghost sv = spans_view(spans@);
    let mut i: usize = 0;
    assert(to_colored(sv.take(0)) =~= Seq::<ColoredModel>::empty());
    assert(colored_view(out@) =~= start + to_colored(sv.take(0)));
    while i < spans.len()
        invariant
            sv == spans_view(spans@),
            i <= spans@.len(),
            colored_view(out@) == start + to_colored(sv.take(i as int)),
        decreases spans@.len() - i,
    {
        let t = spans[i].text.clone();
        let ghost prev = out@;
        out.push(ColoredSpan { color: spans[i].color, text: t });
        assert(sv[i as int] == spans@[i as int]@);
        assert(colored_view(out@) =~= colored_view(prev).push(
            ColoredModel { color: sv[i as int].color, text: sv[i as int].text },
        ));
        assert(to_colored(sv.take(i + 1)) =~= to_colored(sv.take(i as int)).push(
            ColoredModel { color: sv[i as int].color, text: sv[i as int].text },
        ));
        assert(colored_view(out@) =~= start + to_colored(sv.take(i + 1)));
        i = i + 1;
    }
    assert(sv.take(spans@.len() as int) =~= sv);
}


/// Append the lines that one entry draws to `lines`.
fn push_entry_lines(prompt: &String, entry: &TerminalEntry, lines: &mut Vec<ColoredLine>)
    requires
        entry@.drawable(),
    ensures
        lines_view(final(lines)@) == lines_view(old(lines)@) + entry_lines(prompt@, entry@),
{
    let ghost e = entry@;
    let ghost before = lines_view(lines@);
    let display_cmd: &str = match &entry.display_override {
        Some(d) => d.as_str(),
        None => entry.command.as_str(),
    };
    assert(display_cmd@ == e.display());
    let display_len = byte_len(display_cmd);
    let reveal_len = if entry.input_reveal < display_len {
        entry.input_reveal
    } else {
        display_len
    };
    assert(reveal_len == e.reveal_len());
    let dchars = chars_of(display_cmd);
    assert(is_boundary(dchars@, 0)) by {
        assert(dchars@.take(0) =~= Seq::<char>::empty());
        assert(utf8_len(dchars@.take(0)) == 0);
    }
    let visible_chars = slice_by_bytes(dchars.as_slice(), 0, reveal_len);
    let visible = string_from_chars(visible_chars.as_slice());
    let prompt_text: &str = if entry.prompt.as_str().is_empty() {
        prompt.as_str()
    } else {
        entry.prompt.as_str()
    };
    let prompt_spans = parse_ansi(prompt_text, TermColor::Default);
    let mut cmd_spans: Vec<ColoredSpan> = Vec::new();
    assert(colored_view(cmd_spans@) =~= Seq::<ColoredModel>::empty());
    extend_colored(&mut cmd_spans, &prompt_spans);
    let ghost prompt_part = colored_view(cmd_spans@);
    assert(prompt_part =~= to_colored(
        parse_ansi_spec(
            if e.prompt.len() == 0 {
                prompt@
            } else {
                e.prompt
            },
            TermColor::Default,
        ),
    ));
    let ghost cmd_part = if visible@.len() > 0 {
        colorize_from(visible@, 0, true, TermColor::Base(12), TermColor::Base(10))
    } else {
        Seq::<ColoredModel>::empty()
    };
    if visible_chars.len() > 0 {
        let mut colored = colorize_cmd(visible.as_str(), TermColor::Base(12), TermColor::Base(10));
        let ghost a = cmd_spans@;
        let ghost b = colored@;
        cmd_spans.append(&mut colored);
        assert(colored_view(cmd_spans@) =~= colored_view(a) + colored_view(b));
    }
    assert(colored_view(cmd_spans@) =~= prompt_part + cmd_part);
    let ghost cursor_part = if e.reveal_len() < utf8_len(e.display()) {
        seq![cursor_span()]
    } else {
        Seq::<ColoredModel>::empty()
    };
    if reveal_len < display_len {
        let mut block = String::new();
        push_char(&mut block, '\u{2588}');
        let ghost a = cmd_spans@;
        cmd_spans.push(ColoredSpan { color: TermColor::Base(5), text: block });
        assert(colored_view(cmd_spans@) =~= colored_view(a).push(cursor_span()));
    }
    assert(colored_view(cmd_spans@) =~= prompt_part + cmd_part + cursor_part);
    let ghost cmd_line = colored_view(cmd_spans@);
    lines.push(ColoredLine { spans: cmd_spans });
    assert(lines_view(lines@) =~= before.push(cmd_line));

    let mut ov = chars_of(entry.output.as_str());
    match &entry.pushed_text {
        Some(p) => {
            let mut pv = chars_of(p.as_str());
            ov.append(&mut pv);
        },
        None => {},
    }
    assert(ov@ =~= e.output_text());
    let output_text = string_from_chars(ov.as_slice());
    let total = byte_len(output_text.as_str());
    let skip = if entry.output_skip < total {
        entry.output_skip
    } else {
        total
    };
    let available = total - skip;
    let reveal = if entry.output_reveal < available {
        entry.output_reveal
    } else {
        available
    };
    assert(skip == e.skip_len());
    assert(reveal == e.shown_len());
    let all_spans = parse_ansi(output_text.as_str(), TermColor::Default);
    let sliced = slice_spans_by_byte_range(all_spans.as_slice(), skip, reveal);
    if sliced.len() > 0 {
        let mut out_spans: Vec<ColoredSpan> = Vec::new();
        assert(colored_view(out_spans@) =~= Seq::<ColoredModel>::empty());
        extend_colored(&mut out_spans, &sliced);
        let ghost out_line = colored_view(out_spans@);
        lines.push(ColoredLine { spans: out_spans });
        assert(lines_view(lines@) =~= before + seq![cmd_line, out_line]);
    } else {
        assert(lines_view(lines@) =~= before + seq![cmd_line]);
    }
}

impl TerminalTextBuffer {
    /// An empty terminal with the given default prompt.
    pub fn new(prompt: String) -> (b: Self)
        ensures
            b.prompt@ == prompt@,
            b.entries@.len() == 0,
            b.current_entry == 0,
            b.dirty,
    {
        TerminalTextBuffer { prompt, entries: Vec::new(), current_entry: 0, dirty: true }
    }

    /// Add a typed command with its captured output and prompt; nothing of it
    /// is revealed yet, and it becomes the current entry.
    pub fn add_entry(
        &mut self,
        command: String,
        display_override: Option<String>,
        output: String,
        prompt: String,
    )
        ensures
            final(self).prompt == old(self).prompt,
            final(self).entries@.len() == old(self).entries@.len() + 1,
            forall|i: int|
                0 <= i < old(self).entries@.len() ==> final(self).entries@[i] == old(
                    self,
                ).entries@[i],
            final(self).entries@.last()@ == (EntryModel {
                command: command@,
                display_override: opt_view(display_override),
                output: output@,
                prompt: prompt@,
                input_reveal: 0,
                output_skip: 0,
                output_reveal: 0,
                pushed_text: None,
            }),
            final(self).current_entry == old(self).entries@.len(),
            final(self).dirty,
    {
        self.entries.push(
            TerminalEntry {
                command,
                display_override,
                output,
                prompt,
                input_reveal: 0,
                output_skip: 0,
                output_reveal: 0,
                pushed_text: None,
            },
        );
        self.current_entry = self.entries.len() - 1;
        self.dirty = true;
    }

    /// Whether there is a current entry.
    pub open spec fn has_current(&self) -> bool {
        self.current_entry < self.entries@.len()
    }

    /// The entry that output animations act on, if any.
    pub fn current_entry(&self) -> (e: Option<&TerminalEntry>)
        ensures
            self.has_current() ==> e == Some(&self.entries@[self.current_entry as int]),
            !self.has_current() ==> e is None,
    {
        if self.current_entry < self.entries.len() {
            Some(&self.entries[self.current_entry])
        } else {
            None
        }
    }

    /// Every entry can be drawn (its strings are sliced at character boundaries).
    pub open spec fn drawable(&self) -> bool {
        forall|i: int|
            0 <= i < self.entries@.len() ==> (#[trigger] self.entries@[i])@.drawable()
    }

    /// The colored lines that the terminal shows.
    pub fn build_content(&self) -> (lines: Vec<ColoredLine>)
        requires
            self.drawable(),
        ensures
            lines_view(lines@) == content_spec(self.prompt@, entries_view(self.entries@)),
    {
        let ghost ev = entries_view(self.entries@);
        let mut lines: Vec<ColoredLine> = Vec::new();
        let mut i: usize = 0;
        assert(lines_view(lines@) =~= Seq::<Seq<ColoredModel>>::empty());
        assert(ev.take(0) =~= Seq::<EntryModel>::empty());
        while i < self.entries.len()
            invariant
                ev == entries_view(self.entries@),
                self.drawable(),
                i <= self.entries@.len(),
                lines_view(lines@) == content_spec(self.prompt@, ev.take(i as int)),
            decreases self.entries@.len() - i,
        {
            assert(self.entries@[i as int]@.drawable());
            push_entry_lines(&self.prompt, &self.entries[i], &mut lines);
            assert(ev.take(i + 1).drop_last() =~= ev.take(i as int));
            assert(ev.take(i + 1).last() == self.entries@[i as int]@);
            i = i + 1;
        }
        assert(ev.take(self.entries@.len() as int) =~= ev);
        lines
    }
}


/// The entry after skipping `bytes` more bytes of its output: the skip grows
/// by `bytes` but not past the end of the captured output.
pub open spec fn after_skip(o: EntryModel, bytes: nat) -> EntryModel {
    EntryModel {
        output_skip: if o.output_skip + bytes < utf8_len(o.output) {
            (o.output_skip + bytes) as nat
        } else {
            utf8_len(o.output)
        },
        ..o
    }
}

/// The entry after appending `text` to its output: the pushed text grows by
/// `text`, and everything after the skipped part is revealed.
pub open spec fn after_push(o: EntryModel, text: Seq<char>) -> EntryModel {
    let pushed = match o.pushed_text {
        Some(p) => p + text,
        None => text,
    };
    let total = utf8_len(o.output) + utf8_len(pushed);
    EntryModel {
        pushed_text: Some(pushed),
        output_reveal: if total >= o.output_skip {
            (total - o.output_skip) as nat
        } else {
            0
        },
        ..o
    }
}

/// The byte offset just past the first newline at or after byte `p` of
/// `text`, whose first character starts at byte `base`; the end of the text
/// when no newline follows.
pub open spec fn line_end_after(text: Seq<char>, base: int, p: int) -> int
    decreases text.len(),
{
    if text.len() == 0 {
        base
    } else if base >= p && text[0] == '\n' {
        base + 1
    } else {
        line_end_after(text.drop_first(), base + char_width(text[0]), p)
    }
}

/// The byte length of a captured output together with the text pushed after it.
pub open spec fn output_total(e: EntryModel) -> nat {
    utf8_len(e.output_text())
}

impl TerminalTextBuffer {
    /// `new` differs from `old` at most in the current entry.
    pub open spec fn only_current_changed(old: &Self, new: &Self) -> bool {
        &&& new.prompt == old.prompt
        &&& new.current_entry == old.current_entry
        &&& new.entries@.len() == old.entries@.len()
        &&& forall|i: int|
            0 <= i < old.entries@.len() && i != old.current_entry ==> new.entries@[i]
                == old.entries@[i]
    }

    /// Permanently skip `bytes` more bytes of the current entry's output (no
    /// further than its end).
    pub fn skip_output(&mut self, bytes: usize)
        requires
            old(self).has_current() ==> old(self).entries@[old(self).current_entry as int].output_skip
                + bytes <= usize::MAX,
        ensures
            Self::only_current_changed(old(self), final(self)),
            final(self).dirty,
            old(self).has_current() ==> final(self).entries@[old(self).current_entry as int]@
                == after_skip(old(self).entries@[old(self).current_entry as int]@, bytes as nat),
            old(self).has_current() ==> {
                let o = old(self).entries@[old(self).current_entry as int]@;
                let n = final(self).entries@[old(self).current_entry as int]@.output_skip;
                &&& o.output_skip + bytes <= utf8_len(o.output) ==> n == o.output_skip + bytes
                &&& o.output_skip + bytes > utf8_len(o.output) ==> n == utf8_len(o.output)
            },
    {
        if self.current_entry < self.entries.len() {
            let i = self.current_entry;
            let out_len = byte_len(self.entries[i].output.as_str());
            let s = self.entries[i].output_skip + bytes;
            let new_skip = if s < out_len {
                s
            } else {
                out_len
            };
            self.entries[i].output_skip = new_skip;
        }
        self.dirty = true;
    }

    /// Append text to the current entry's output and reveal everything after
    /// the skipped part.
    pub fn push_output(&mut self, text: &str)
        requires
            old(self).has_current() ==> output_total(
                old(self).entries@[old(self).current_entry as int]@,
            ) + utf8_len(text@) <= usize::MAX,
        ensures
            Self::only_current_changed(old(self), final(self)),
            final(self).dirty,
            old(self).has_current() ==> final(self).entries@[old(self).current_entry as int]@
                == after_push(old(self).entries@[old(self).current_entry as int]@, text@),
    {
        if self.current_entry < self.entries.len() {
            let i = self.current_entry;
            let ghost o = self.entries@[i as int]@;
            let mut pv: Vec<char> = match &self.entries[i].pushed_text {
                Some(p) => chars_of(p.as_str()),
                None => Vec::new(),
            };
            let mut tv = chars_of(text);
            pv.append(&mut tv);
            let pushed = string_from_chars(pv.as_slice());
            let ghost pushed_spec = match o.pushed_text {
                Some(p) => p + text@,
                None => text@,
            };
            assert(pushed@ =~= pushed_spec);
            proof {
                crate::text::lemma_utf8_len_concat(o.output, pushed_spec);
                match o.pushed_text {
                    Some(p) => {
                        crate::text::lemma_utf8_len_concat(o.output, p);
                        crate::text::lemma_utf8_len_concat(p, text@);
                        assert(o.output + p + text@ =~= o.output + (p + text@));
                        crate::text::lemma_utf8_len_concat(o.output + p, text@);
                    },
                    None => {
                        assert(o.output_text() == o.output);
                    },
                }
            }
            let out_len = byte_len(self.entries[i].output.as_str());
            let pushed_len = byte_len(pushed.as_str());
            let total = out_len + pushed_len;
            let skip = self.entries[i].output_skip;
            let reveal = if total >= skip {
                total - skip
            } else {
                0
            };
            self.entries[i].pushed_text = Some(pushed);
            self.entries[i].output_reveal = reveal;
        }
        self.dirty = true;
    }

    /// The current entry's revealed output length and how much output is left
    /// after the skipped part: the start and extent of a "reveal all" animation.
    pub fn pull_all_range(&self) -> (r: (usize, usize))
        requires
            self.has_current() ==> output_total(self.entries@[self.current_entry as int]@)
                <= usize::MAX,
        ensures
            self.has_current() ==> {
                let e = self.entries@[self.current_entry as int]@;
                r == (e.output_reveal as usize, if output_total(e) >= e.output_skip {
                    (output_total(e) - e.output_skip) as usize
                } else {
                    0usize
                })
            },
            !self.has_current() ==> r == (0usize, 0usize),
    {
        if self.current_entry < self.entries.len() {
            let e = &self.entries[self.current_entry];
            let out_len = byte_len(e.output.as_str());
            let pushed_len = match &e.pushed_text {
                Some(p) => byte_len(p.as_str()),
                None => 0,
            };
            proof {
                match e@.pushed_text {
                    Some(p) => crate::text::lemma_utf8_len_concat(e@.output, p),
                    None => {},
                }
            }
            let total = out_len + pushed_len;
            let remaining = if total >= e.output_skip {
                total - e.output_skip
            } else {
                0
            };
            (e.output_reveal, remaining)
        } else {
            (0, 0)
        }
    }

    /// The current entry's revealed output length, and how many bytes
    /// reveal its output from the end of what is shown to the end of that
    /// line (through its newline, or to the end of the output when no
    /// newline follows): the start and extent of a "pull line" animation.
    pub fn pull_line_range(&self) -> (r: (usize, usize))
        requires
            self.has_current() ==> output_total(self.entries@[self.current_entry as int]@)
                <= usize::MAX,
        ensures
            self.has_current() ==> {
                let e = self.entries@[self.current_entry as int]@;
                let p = (e.skip_len() + e.shown_len()) as int;
                r == (e.output_reveal as usize, (line_end_after(e.output_text(), 0, p) - p) as usize)
            },
            !self.has_current() ==> r == (0usize, 0usize),
    {
        if self.current_entry >= self.entries.len() {
            return (0, 0);
        }
        let e = &self.entries[self.current_entry];
        let ghost m = e@;
        let mut text = chars_of(e.output.as_str());
        match &e.pushed_text {
            Some(p) => {
                let mut pv = chars_of(p.as_str());
                text.append(&mut pv);
            },
            None => {},
        }
        assert(text@ =~= m.output_text());
        let total = byte_len(string_from_chars(text.as_slice()).as_str());
        let skip = if e.output_skip < total {
            e.output_skip
        } else {
            total
        };
        let shown = if e.output_reveal < total - skip {
            e.output_reveal
        } else {
            total - skip
        };
        let p = skip + shown;
        assert(p == m.skip_len() + m.shown_len());
        let ghost t = text@;
        let mut i: usize = 0;
        let mut b: usize = 0;
        assert(t.skip(0) =~= t);
        assert(t.take(0) =~= Seq::<char>::empty());
        assert(utf8_len(t) == utf8_len(t.take(t.len() as int))) by {
            assert(t.take(t.len() as int) =~= t);
        }
        while i < text.len()
            invariant
                t == text@,
                t == m.output_text(),
                self.has_current(),
                m == self.entries@[self.current_entry as int]@,
                e.output_reveal == m.output_reveal,
                p == m.skip_len() + m.shown_len(),
                i <= t.len(),
                b == utf8_len(t.take(i as int)),
                total == utf8_len(t),
                utf8_len(t) == utf8_len(t.take(t.len() as int)),
                p <= total,
                line_end_after(t, 0, p as int) == line_end_after(t.skip(i as int), b as int, p as int),
            decreases t.len() - i,
        {
            let c = text[i];
            assert(t.skip(i as int)[0] == c);
            proof {
                assert(t.take(i + 1) =~= t.take(i as int).push(c));
                lemma_utf8_len_push(t.take(i as int), c);
                lemma_utf8_len_prefix_monotone(t, i + 1, t.len() as int);
                assert(t.skip(i as int).drop_first() =~= t.skip(i + 1));
            }
            if b >= p && c == '\n' {
                return (e.output_reveal, b + 1 - p);
            }
            b = b + len_utf8(c);
            i = i + 1;
        }
        assert(t.skip(i as int) =~= Seq::<char>::empty());
        (e.output_reveal, total - p)
    }

    /// The current entry's revealed output length (0 without a current entry):
    /// where a "pull" animation starts.
    pub fn current_output_reveal(&self) -> (r: usize)
        ensures
            self.has_current() ==> r == self.entries@[self.current_entry as int].output_reveal,
            !self.has_current() ==> r == 0,
    {
        if self.current_entry < self.entries.len() {
            self.entries[self.current_entry].output_reveal
        } else {
            0
        }
    }

    /// Reveal the first `n` bytes of the current entry's output after the
    /// skipped part.
    pub fn set_output_reveal(&mut self, n: usize)
        ensures
            Self::only_current_changed(old(self), final(self)),
            final(self).dirty,
            old(self).has_current() ==> final(self).entries@[old(self).current_entry as int]@
                == (EntryModel {
                output_reveal: n as nat,
                ..old(self).entries@[old(self).current_entry as int]@
            }),
    {
        if self.current_entry < self.entries.len() {
            let i = self.current_entry;
            self.entries[i].output_reveal = n;
        }
        self.dirty = true;
    }

    /// Reveal the first `n` bytes of the current entry's command.
    pub fn set_input_reveal(&mut self, n: usize)
        ensures
            Self::only_current_changed(old(self), final(self)),
            final(self).dirty,
            old(self).has_current() ==> final(self).entries@[old(self).current_entry as int]@
                == (EntryModel {
                input_reveal: n as nat,
                ..old(self).entries@[old(self).current_entry as int]@
            }),
    {
        if self.current_entry < self.entries.len() {
            let i = self.current_entry;
            self.entries[i].input_reveal = n;
        }
        self.dirty = true;
    }
}

/// The number of bytes that typing a command reveals in full: the length of
/// the displayed text (the override when there is one).
pub fn typed_len(command: &str, display_override: Option<&str>) -> (n: usize)
    ensures
        n == utf8_len(
            match display_override {
                Some(d) => d@,
                None => command@,
            },
        ),
{
    match display_override {
        Some(d) => byte_len(d),
        None => byte_len(command),
    }
}


/// The texts of colored spans, one after the other.
pub open spec fn colored_texts(spans: Seq<ColoredModel>) -> Seq<char>
    decreases spans.len(),
{
    if spans.len() == 0 {
        Seq::<char>::empty()
    } else {
        colored_texts(spans.drop_last()) + spans.last().text
    }
}

proof fn lemma_colored_texts_concat(a: Seq<ColoredModel>, b: Seq<ColoredModel>)
    ensures
        colored_texts(a + b) == colored_texts(a) + colored_texts(b),
    decreases b.len(),
{
    if b.len() == 0 {
        assert(a + b =~= a);
        assert(colored_texts(a) + colored_texts(b) =~= colored_texts(a));
    } else {
        lemma_colored_texts_concat(a, b.drop_last());
        assert((a + b).drop_last() =~= a + b.drop_last());
        assert(colored_texts(a) + colored_texts(b.drop_last()) + b.last().text =~= colored_texts(a)
            + (colored_texts(b.drop_last()) + b.last().text));
    }
}

proof fn lemma_colorize_from_texts(
    cs: Seq<char>,
    p: int,
    first: bool,
    c0: TermColor,
    c1: TermColor,
)
    requires
        0 <= p <= cs.len(),
    ensures
        colored_texts(colorize_from(cs, p, first, c0, c1)) == cs.subrange(p, cs.len() as int),
    decreases cs.len() - p,
{
    if p < cs.len() {
        lemma_run_end(cs, p, true);
        let w = run_end(cs, p, true);
        let ws_part = if w > p {
            seq![ColoredModel { color: c0, text: cs.subrange(p, w) }]
        } else {
            Seq::<ColoredModel>::empty()
        };
        if w > p {
            let m = ColoredModel { color: c0, text: cs.subrange(p, w) };
            assert(ws_part == seq![m]);
            assert(seq![m].drop_last() =~= Seq::<ColoredModel>::empty());
            assert(seq![m].last() == m);
            assert(colored_texts(seq![m]) == colored_texts(Seq::<ColoredModel>::empty()) + m.text);
            assert(colored_texts(ws_part) =~= Seq::<char>::empty() + cs.subrange(p, w));
        } else {
            assert(cs.subrange(p, w) =~= Seq::<char>::empty());
        }
        assert(colored_texts(ws_part) =~= cs.subrange(p, w));
        if w < cs.len() {
            lemma_run_end(cs, w, false);
            let t = run_end(cs, w, false);
            let color = if first {
                c0
            } else {
                c1
            };
            let tok = seq![ColoredModel { color, text: cs.subrange(w, t) }];
            lemma_colorize_from_texts(cs, t, false, c0, c1);
            let rest = colorize_from(cs, t, false, c0, c1);
            lemma_colored_texts_concat(ws_part, tok);
            lemma_colored_texts_concat(ws_part + tok, rest);
            let mt = ColoredModel { color, text: cs.subrange(w, t) };
            assert(tok.drop_last() =~= Seq::<ColoredModel>::empty());
            assert(tok.last() == mt);
            assert(colored_texts(tok) == colored_texts(Seq::<ColoredModel>::empty()) + mt.text);
            assert(colored_texts(tok) =~= Seq::<char>::empty() + cs.subrange(w, t));
            assert(cs.subrange(p, w) + cs.subrange(w, t) + cs.subrange(t, cs.len() as int)
                =~= cs.subrange(p, cs.len() as int));
        } else {
            assert(cs.subrange(p, w) =~= cs.subrange(p, cs.len() as int));
        }
    } else {
        assert(cs.subrange(p, cs.len() as int) =~= Seq::<char>::empty());
    }
}

/// Coloring a command loses no text: the spans' texts, one after the
/// other, are the command.
pub proof fn lemma_colorize_keeps_text(cmd: Seq<char>, c0: TermColor, c1: TermColor)
    ensures
        colored_texts(colorize_from(cmd, 0, true, c0, c1)) == cmd,
{
    lemma_colorize_from_texts(cmd, 0, true, c0, c1);
    assert(cmd.subrange(0, cmd.len() as int) =~= cmd);
}


/// Pushing text to an entry reveals all of its output after the skipped part,
/// the pushed text included.
pub proof fn lemma_push_reveals_rest(o: EntryModel, text: Seq<char>)
    ensures
        ({
            let n = after_push(o, text);
            &&& n.output_text() == o.output_text() + text
            &&& n.shown_len() == utf8_len(n.output_text()) - n.skip_len()
        }),
{
    let n = after_push(o, text);
    let pushed = match o.pushed_text {
        Some(p) => p + text,
        None => text,
    };
    match o.pushed_text {
        Some(p) => {
            assert(o.output + (p + text) =~= o.output + p + text);
        },
        None => {},
    }
    lemma_utf8_len_concat(o.output, pushed);
}

/// Skipping never goes past the end of the captured output and never moves
/// back.
pub proof fn lemma_skip_bounded(o: EntryModel, bytes: nat)
    requires
        o.output_skip <= utf8_len(o.output),
    ensures
        o.output_skip <= after_skip(o, bytes).output_skip <= utf8_len(o.output),
        after_skip(o, bytes).output == o.output,
{
}

/// Skipping adds up: skipping `bytes` more moves the skip forward by exactly
/// `bytes` until it reaches the end of the captured output, where it stops;
/// two skips in a row skip as much as one skip of their sum.
pub proof fn lemma_skip_cumulative(o: EntryModel, a: nat, b: nat)
    ensures
        o.output_skip + a <= utf8_len(o.output) ==> after_skip(o, a).output_skip == o.output_skip
            + a,
        o.output_skip + a >= utf8_len(o.output) ==> after_skip(o, a).output_skip == utf8_len(
            o.output,
        ),
        after_skip(after_skip(o, a), b).output_skip == after_skip(o, a + b).output_skip,
        after_skip(after_skip(o, a), b) == after_skip(o, a + b),
{
}

/// Revealing, from the start that `pull_all_range` reports, as many bytes
/// as it reports remain shows all of the output after the skipped part.
pub proof fn lemma_pull_all_shows_rest(o: EntryModel)
    ensures
        ({
            let remaining = if output_total(o) >= o.output_skip {
                (output_total(o) - o.output_skip) as nat
            } else {
                0nat
            };
            let n = EntryModel { output_reveal: o.output_reveal + remaining, ..o };
            n.shown_len() == utf8_len(n.output_text()) - n.skip_len()
        }),
{
}


/// Every sliced span lies within the revealed byte range `[skip, skip +
/// reveal)` and within the span it was cut from.
pub proof fn lemma_slice_spans_within(spans: Seq<SpanModel>, skip: int, reveal: int)
    requires
        skip >= 0,
        reveal >= 0,
    ensures
        forall|k: int|
            0 <= k < slice_spans_spec(spans, skip, reveal).len() ==> {
                let sp = #[trigger] slice_spans_spec(spans, skip, reveal)[k];
                skip <= sp.byte_start < sp.byte_end <= skip + reveal
            },
{
    if reveal > 0 {
        lemma_slice_from_within(spans, skip, skip + reveal);
    }
}

proof fn lemma_slice_from_within(spans: Seq<SpanModel>, skip: int, end: int)
    requires
        0 <= skip < end,
    ensures
        forall|k: int|
            0 <= k < slice_spans_from(spans, skip, end).len() ==> {
                let sp = #[trigger] slice_spans_from(spans, skip, end)[k];
                skip <= sp.byte_start < sp.byte_end <= end
            },
    decreases spans.len(),
{
    if spans.len() > 0 {
        lemma_slice_from_within(spans.drop_last(), skip, end);
        let rest = slice_spans_from(spans.drop_last(), skip, end);
        match slice_span(spans.last(), skip, end) {
            Some(sp) => {
                assert forall|k: int| 0 <= k < rest.push(sp).len() implies {
                    let x = #[trigger] rest.push(sp)[k];
                    skip <= x.byte_start < x.byte_end <= end
                } by {
                    if k < rest.len() {
                        assert(rest.push(sp)[k] == rest[k]);
                    }
                }
            },
            None => {},
        }
    }
}

} // verus!
