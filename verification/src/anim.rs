//! Plain vocabulary of animation descriptions: languages, layout options,
//! easing curves, animation styles, and source locations of timeline entries.
use vstd::prelude::*;
use crate::text::{string_from_chars, chars_of};

verus! {

/// Programming language of a code block, for syntax highlighting.
#[derive(Clone, Copy, Debug, PartialEq, Eq, Hash, Structural)]
pub enum Syntax {
    Rust,
    Nix,
    Python,
    JS,
    Zig,
}

/// How an image or SVG fills its box.
#[derive(Clone, Copy, Debug, PartialEq, Eq, Structural)]
pub enum StretchMode {
    Fit,
    Fill,
}

/// Direction in which a layout places its children.
#[derive(Clone, Copy, Debug, PartialEq, Eq, Structural)]
pub enum LayoutDir {
    Column,
    Row,
}

/// Placement of layout children along an axis.
#[derive(Clone, Copy, Debug, PartialEq, Eq, Structural)]
pub enum Alignment {
    Start,
    Center,
    End,
}

/// Simple way to make your animations smooth. <https://easings.net/>
#[derive(Clone, Copy, Debug, PartialEq, Eq, Structural)]
pub enum Ease {
    Linear,
    OutCubic,
    InOutCubic,
    InOutBack,
    OutBack,
    InBack,
}

/// How code (or terminal text) appears while it is animated.
#[derive(Clone, Copy, Debug, PartialEq, Eq, Structural)]
pub enum CodeAnimationStyle {
    TypeWriter,
    TypeWriterInstantResize,
    Fold,
    Reveal,
}

/// Actions for animating terminal output reveal.
#[derive(Clone, Debug)]
pub enum TerminalOutputAction {
    /// Permanently skip N bytes from the start of the output.
    Skip(usize),
    /// Reveal N bytes from the current position (animated).
    Pull(usize),
    /// Append text to the output.
    Push(String),
    /// Reveal all remaining output (animated).
    PullAll,
    /// Reveal output from the current position to the end of the current line (animated).
    PullLine,
}

/// Horizontal alignment of text lines.
#[derive(Clone, Copy, Debug, PartialEq, Eq, Structural)]
pub enum Align {
    Left,
    Right,
    Center,
    Justified,
    End,
}

/// A font chosen by family or by name.
#[derive(Clone, Debug)]
pub enum FontSpec {
    Family(String),
    Named(String),
}

/// Category of a timeline operation, as the preview's timeline colors it.
#[derive(Clone, Copy, Debug, PartialEq, Eq, Structural)]
pub enum OpKind {
    Instantiate,
    Transform,
    Code,
    Wait,
    Sound,
    Composite,
}

/// Where in the animation source a timeline entry was written.
#[derive(Clone, Debug)]
pub struct SourceLoc {
    pub file: String,
    pub line: u32,
}

/// The decimal digits of `n`, most significant first, without leading zeros.
pub open spec fn decimal_digits_of(n: nat) -> Seq<char>
    decreases n,
{
    if n < 10 {
        seq![(n + 48) as char]
    } else {
        decimal_digits_of(n / 10).push(((n % 10) + 48) as char)
    }
}

/// The decimal digits of `n`.
pub fn u32_to_decimal(n: u32) -> (s: Vec<char>)
    ensures
        s@ == decimal_digits_of(n as nat),
{
    let mut digits: Vec<char> = Vec::new();
    let mut m = n;
    // Collect the digits least significant first.
    loop
        invariant_except_break
            decimal_digits_of(n as nat) == decimal_digits_of(m as nat) + digits@.reverse(),
        ensures
            decimal_digits_of(n as nat) == digits@.reverse(),
        decreases m,
    {
        let d = (m % 10) as u8;
        let c = (d + 48) as char;
        if m < 10 {
            let ghost before = digits@;
            digits.push(c);
            assert(digits@.reverse() =~= seq![c] + before.reverse());
            assert(decimal_digits_of(m as nat) == seq![c]);
            assert(decimal_digits_of(n as nat) =~= digits@.reverse());
            break;
        }
        let ghost before = digits@;
        digits.push(c);
        assert(digits@.reverse() =~= seq![c] + before.reverse());
        assert(decimal_digits_of(m as nat) == decimal_digits_of((m / 10) as nat).push(c));
        assert(decimal_digits_of((m / 10) as nat).push(c) + before.reverse() =~= decimal_digits_of(
            (m / 10) as nat,
        ) + (seq![c] + before.reverse()));
        m = m / 10;
    }
    let mut out: Vec<char> = Vec::new();
    let mut i = digits.len();
    while i > 0
        invariant
            i <= digits@.len(),
            out@ == digits@.subrange(i as int, digits@.len() as int).reverse(),
        decreases i,
    {
        i = i - 1;
        let ghost before = out@;
        out.push(digits[i]);
        assert(digits@.subrange(i as int, digits@.len() as int) =~= seq![digits@[i as int]]
            + digits@.subrange(i + 1, digits@.len() as int));
        assert(out@ =~= digits@.subrange(i as int, digits@.len() as int).reverse());
    }
    assert(digits@.subrange(0, digits@.len() as int) =~= digits@);
    assert(decimal_digits_of(n as nat) =~= digits@.reverse());
    out
}

impl SourceLoc {
    /// The location as the preview prints it: `at FILE:LINE`.
    pub fn to_display_string(&self) -> (s: String)
        ensures
            s@ == "at "@ + self.file@ + ":"@ + decimal_digits_of(self.line as nat),
    {
        let mut v: Vec<char> = chars_of("at ");
        let mut f = chars_of(self.file.as_str());
        v.append(&mut f);
        let mut colon = chars_of(":");
        v.append(&mut colon);
        let mut digits = u32_to_decimal(self.line);
        v.append(&mut digits);
        string_from_chars(v.as_slice())
    }
}

} // verus!
