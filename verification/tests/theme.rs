use scal::theme::{HighlightSpec, SyntaxTheme};

fn palette() -> [u32; 16] {
    let mut p = [0u32; 16];
    for (i, c) in p.iter_mut().enumerate() {
        *c = 0x100 + i as u32;
    }
    p
}

#[test]
fn highlight_spec_keeps_names_and_indices() {
    let spec = HighlightSpec::new(vec!["keyword", "string"], vec![14, 11]);
    assert_eq!(spec.names, vec!["keyword".to_string(), "string".to_string()]);
    assert_eq!(spec.indices, vec![14, 11]);
}

#[test]
fn theme_takes_colors_from_the_palette() {
    let spec = HighlightSpec::new(vec!["keyword", "string", "comment"], vec![14, 11, 3]);
    let theme = SyntaxTheme::from_base16_and_spec(palette(), spec);
    assert_eq!(theme.highlight_colors, vec![0x10e, 0x10b, 0x103]);
    assert_eq!(theme.default_color, 0x105);
    assert_eq!(theme.highlight_names.len(), 3);
}

#[test]
fn color_lookup_by_name() {
    let spec = HighlightSpec::new(vec!["keyword", "string", "keyword"], vec![14, 11, 2]);
    let theme = SyntaxTheme::from_base16_and_spec(palette(), spec);
    assert_eq!(theme.color_for_name("string"), Some(0x10b));
    // The first entry of a repeated name wins.
    assert_eq!(theme.color_for_name("keyword"), Some(0x10e));
    assert_eq!(theme.color_for_name("type"), None);
    assert_eq!(theme.color_for_name(""), None);
}
