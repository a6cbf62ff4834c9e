use scal::controls::{key_action, PreviewAction, PreviewKey};

fn ch(s: &str) -> PreviewKey {
    PreviewKey::Character(s.to_string())
}

#[test]
fn keys_map_to_preview_actions() {
    assert_eq!(key_action(&PreviewKey::Space, false), Some(PreviewAction::TogglePause));
    assert_eq!(key_action(&PreviewKey::Space, true), Some(PreviewAction::TogglePause));
    assert_eq!(key_action(&PreviewKey::ArrowRight, false), Some(PreviewAction::StepForward));
    assert_eq!(key_action(&PreviewKey::ArrowRight, true), Some(PreviewAction::SeekBy(1)));
    assert_eq!(key_action(&PreviewKey::ArrowLeft, false), Some(PreviewAction::StepBackward));
    assert_eq!(key_action(&PreviewKey::ArrowLeft, true), Some(PreviewAction::SeekBy(-1)));
    assert_eq!(key_action(&PreviewKey::ArrowUp, true), Some(PreviewAction::SkipForward));
    assert_eq!(key_action(&PreviewKey::ArrowDown, false), Some(PreviewAction::SkipBackward));
    assert_eq!(key_action(&PreviewKey::Home, false), Some(PreviewAction::Replay));
    assert_eq!(key_action(&PreviewKey::End, false), Some(PreviewAction::SeekToEnd));
    assert_eq!(key_action(&PreviewKey::Other, true), None);
}

#[test]
fn letter_keys_in_either_case() {
    assert_eq!(key_action(&ch("l"), false), Some(PreviewAction::StepForward));
    assert_eq!(key_action(&ch("L"), true), Some(PreviewAction::SeekBy(1)));
    assert_eq!(key_action(&ch("h"), false), Some(PreviewAction::StepBackward));
    assert_eq!(key_action(&ch("H"), true), Some(PreviewAction::SeekBy(-1)));
    assert_eq!(key_action(&ch("j"), true), Some(PreviewAction::ZoomIn));
    assert_eq!(key_action(&ch("K"), false), Some(PreviewAction::ZoomOut));
    assert_eq!(key_action(&ch("r"), false), None);
    assert_eq!(key_action(&ch("ll"), false), None);
    assert_eq!(key_action(&ch(""), false), None);
}
