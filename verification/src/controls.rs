//! The keyboard controls of the preview window.
use vstd::prelude::*;
use crate::settings::str_eq;

verus! {

/// A key as the preview sees it.
pub enum PreviewKey {
    Space,
    ArrowLeft,
    ArrowRight,
    ArrowUp,
    ArrowDown,
    Home,
    End,
    /// A key that types text.
    Character(String),
    /// Any other key.
    Other,
}

/// What a key press asks of the preview.
#[derive(Clone, Copy, Debug, PartialEq, Eq, Structural)]
pub enum PreviewAction {
    /// Pause a playing preview, or play a paused one.
    TogglePause,
    /// Go to the next operation.
    StepForward,
    /// Go to the previous operation.
    StepBackward,
    /// Move the playhead by this many seconds, staying within the animation.
    SeekBy(i8),
    /// Move the playhead five seconds on, no further than the end.
    SkipForward,
    /// Move the playhead five seconds back, no further than the start.
    SkipBackward,
    /// Play again from the start.
    Replay,
    /// Move the playhead to the end.
    SeekToEnd,
    /// Show less time on the timeline.
    ZoomIn,
    /// Show more time on the timeline.
    ZoomOut,
}

/// Whether a typed key is the letter `lower` in either case.
pub open spec fn is_letter(k: PreviewKey, lower: char, upper: char) -> bool {
    k matches PreviewKey::Character(s) && (s@ == seq![lower] || s@ == seq![upper])
}

/// The action that a key asks for, with or without shift held.
pub open spec fn key_action_spec(k: PreviewKey, shift: bool) -> Option<PreviewAction> {
    if k is Space {
        Some(PreviewAction::TogglePause)
    } else if k is ArrowRight || is_letter(k, 'l', 'L') {
        Some(if shift { PreviewAction::SeekBy(1i8) } else { PreviewAction::StepForward })
    } else if k is ArrowLeft || is_letter(k, 'h', 'H') {
        Some(if shift { PreviewAction::SeekBy(-1i8) } else { PreviewAction::StepBackward })
    } else if k is ArrowUp {
        Some(PreviewAction::SkipForward)
    } else if k is ArrowDown {
        Some(PreviewAction::SkipBackward)
    } else if k is Home {
        Some(PreviewAction::Replay)
    } else if k is End {
        Some(PreviewAction::SeekToEnd)
    } else if is_letter(k, 'j', 'J') {
        Some(PreviewAction::ZoomIn)
    } else if is_letter(k, 'k', 'K') {
        Some(PreviewAction::ZoomOut)
    } else {
        None
    }
}

/// Which way an action moves the playhead: forward (positive), backward
/// (negative), or not at all (zero).
pub open spec fn direction(a: PreviewAction) -> int {
    match a {
        PreviewAction::StepForward | PreviewAction::SkipForward | PreviewAction::SeekToEnd => 1,
        PreviewAction::StepBackward | PreviewAction::SkipBackward | PreviewAction::Replay => -1,
        PreviewAction::SeekBy(n) => n as int,
        _ => 0,
    }
}

/// Keys that move forward in time: right, up, end and `l`.
pub open spec fn moves_forward(k: PreviewKey) -> bool {
    k is ArrowRight || k is ArrowUp || k is End || is_letter(k, 'l', 'L')
}

/// Keys that move backward in time: left, down, home and `h`.
pub open spec fn moves_backward(k: PreviewKey) -> bool {
    k is ArrowLeft || k is ArrowDown || k is Home || is_letter(k, 'h', 'H')
}

/// The bindings, for either state of shift: up skips five seconds forward
/// and down five seconds back whatever shift says; right and `l`, left and
/// `h` step without shift and seek one second with it; every key that
/// moves in time moves forward or backward as its name says; space
/// toggles pause; `j` and `k` zoom; other keys do nothing.
pub proof fn lemma_key_bindings(shift: bool, k: PreviewKey)
    ensures
        key_action_spec(PreviewKey::ArrowUp, shift) == Some(PreviewAction::SkipForward),
        key_action_spec(PreviewKey::ArrowDown, shift) == Some(PreviewAction::SkipBackward),
        key_action_spec(PreviewKey::ArrowUp, true) == key_action_spec(PreviewKey::ArrowUp, false),
        key_action_spec(PreviewKey::ArrowRight, shift) == Some(
            if shift { PreviewAction::SeekBy(1i8) } else { PreviewAction::StepForward },
        ),
        key_action_spec(PreviewKey::ArrowLeft, shift) == Some(
            if shift { PreviewAction::SeekBy(-1i8) } else { PreviewAction::StepBackward },
        ),
        key_action_spec(PreviewKey::Home, shift) == Some(PreviewAction::Replay),
        key_action_spec(PreviewKey::End, shift) == Some(PreviewAction::SeekToEnd),
        key_action_spec(PreviewKey::Space, shift) == Some(PreviewAction::TogglePause),
        key_action_spec(PreviewKey::Other, shift) is None,
        is_letter(k, 'j', 'J') ==> key_action_spec(k, shift) == Some(PreviewAction::ZoomIn),
        is_letter(k, 'k', 'K') ==> key_action_spec(k, shift) == Some(PreviewAction::ZoomOut),
        is_letter(k, 'l', 'L') ==> key_action_spec(k, shift) == key_action_spec(
            PreviewKey::ArrowRight,
            shift,
        ),
        is_letter(k, 'h', 'H') ==> key_action_spec(k, shift) == key_action_spec(
            PreviewKey::ArrowLeft,
            shift,
        ),
        key_action_spec(k, shift) matches Some(a) ==> (moves_forward(k) ==> direction(a) > 0) && (
        moves_backward(k) ==> direction(a) < 0),
        !moves_forward(k) && !moves_backward(k) ==> key_action_spec(k, shift) == key_action_spec(
            k,
            !shift,
        ),
{
    assert(seq!['l'][0] == 'l' && seq!['L'][0] == 'L' && seq!['h'][0] == 'h' && seq!['H'][0] == 'H');
    assert(seq!['j'][0] == 'j' && seq!['J'][0] == 'J' && seq!['k'][0] == 'k' && seq!['K'][0] == 'K');
}

/// Whether `s` is the one-letter string `lower` or `upper`.
fn is_one_of(s: &str, lower: &str, upper: &str) -> (b: bool)
    ensures
        b == (s@ == lower@ || s@ == upper@),
{
    str_eq(s, lower) || str_eq(s, upper)
}

/// The action that a key press asks of the preview: space pauses or plays,
/// right and `l` step forward (with shift: a second on), left and `h` step
/// back (with shift: a second back), up and down skip five seconds, home
/// replays, end goes to the end, `j` and `k` zoom in and out. Other keys,
/// `r` among them, ask nothing.
pub fn key_action(key: &PreviewKey, shift: bool) -> (a: Option<PreviewAction>)
    ensures
        a == key_action_spec(*key, shift),
        *key is ArrowUp ==> a == Some(PreviewAction::SkipForward),
        *key is ArrowDown ==> a == Some(PreviewAction::SkipBackward),
        a matches Some(act) ==> (moves_forward(*key) ==> direction(act) > 0) && (moves_backward(
            *key,
        ) ==> direction(act) < 0),
{
    proof {
        lemma_key_bindings(shift, *key);
        reveal_strlit("l");
        reveal_strlit("L");
        reveal_strlit("h");
        reveal_strlit("H");
        reveal_strlit("j");
        reveal_strlit("J");
        reveal_strlit("k");
        reveal_strlit("K");
    }
    match key {
        PreviewKey::Space => Some(PreviewAction::TogglePause),
        PreviewKey::ArrowRight => Some(
            if shift {
                PreviewAction::SeekBy(1)
            } else {
                PreviewAction::StepForward
            },
        ),
        PreviewKey::ArrowLeft => Some(
            if shift {
                PreviewAction::SeekBy(-1)
            } else {
                PreviewAction::StepBackward
            },
        ),
        PreviewKey::ArrowUp => Some(PreviewAction::SkipForward),
        PreviewKey::ArrowDown => Some(PreviewAction::SkipBackward),
        PreviewKey::Home => Some(PreviewAction::Replay),
        PreviewKey::End => Some(PreviewAction::SeekToEnd),
        PreviewKey::Character(c) => {
            let c = c.as_str();
            assert(*key matches PreviewKey::Character(s) && s@ == c@);
            assert("l"@ == seq!['l'] && "L"@ == seq!['L'] && "h"@ == seq!['h'] && "H"@ == seq!['H']);
            assert("j"@ == seq!['j'] && "J"@ == seq!['J'] && "k"@ == seq!['k'] && "K"@ == seq!['K']);
            if is_one_of(c, "l", "L") {
                Some(
                    if shift {
                        PreviewAction::SeekBy(1)
                    } else {
                        PreviewAction::StepForward
                    },
                )
            } else if is_one_of(c, "h", "H") {
                Some(
                    if shift {
                        PreviewAction::SeekBy(-1)
                    } else {
                        PreviewAction::StepBackward
                    },
                )
            } else if is_one_of(c, "j", "J") {
                Some(PreviewAction::ZoomIn)
            } else if is_one_of(c, "k", "K") {
                Some(PreviewAction::ZoomOut)
            } else {
                None
            }
        },
        PreviewKey::Other => None,
    }
}

} // verus!
