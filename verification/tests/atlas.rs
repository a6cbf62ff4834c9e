use scal::atlas::GlyphAtlas;

fn pixel(a: &GlyphAtlas, x: u32, y: u32) -> [u8; 4] {
    let i = ((y * a.width + x) * 4) as usize;
    [a.pixels[i], a.pixels[i + 1], a.pixels[i + 2], a.pixels[i + 3]]
}

#[test]
fn new_atlas_is_empty_and_dirty() {
    let a = GlyphAtlas::with_size(8);
    assert_eq!(a.width, 8);
    assert_eq!(a.height, 8);
    assert_eq!(a.pixels.len(), 8 * 8 * 4);
    assert!(a.pixels.iter().all(|b| *b == 0));
    assert!(a.dirty);
    assert_eq!((a.cursor_x, a.cursor_y, a.row_height), (0, 0, 0));
}

#[test]
fn update_data_is_handed_out_once_per_change() {
    let mut a = GlyphAtlas::with_size(4);
    {
        let d = a.get_glyph_update_data().expect("a new atlas is dirty");
        assert_eq!((d.width, d.height, d.pixels.len()), (4, 4, 64));
    }
    assert!(!a.dirty);
    assert!(a.get_glyph_update_data().is_none());
    a.dirty = true;
    assert!(a.get_glyph_update_data().is_some());
}

#[test]
fn mask_glyph_is_drawn_white_with_coverage_alpha() {
    let mut a = GlyphAtlas::with_size(8);
    let pos = a.place_glyph(2, 2, &[10, 20, 30, 40], false);
    assert_eq!(pos, (0, 0));
    assert_eq!(pixel(&a, 0, 0), [255, 255, 255, 10]);
    assert_eq!(pixel(&a, 1, 0), [255, 255, 255, 20]);
    assert_eq!(pixel(&a, 0, 1), [255, 255, 255, 30]);
    assert_eq!(pixel(&a, 1, 1), [255, 255, 255, 40]);
    assert_eq!(pixel(&a, 2, 0), [0, 0, 0, 0]);
    assert_eq!(pixel(&a, 0, 2), [0, 0, 0, 0]);
    assert_eq!((a.cursor_x, a.cursor_y, a.row_height), (3, 0, 2));
}

#[test]
fn colour_glyph_is_copied() {
    let mut a = GlyphAtlas::with_size(8);
    a.place_glyph(1, 1, &[1, 2, 3, 4], false);
    let pos = a.place_glyph(1, 2, &[5, 6, 7, 8, 9, 10, 11, 12], true);
    assert_eq!(pos, (2, 0));
    assert_eq!(pixel(&a, 2, 0), [5, 6, 7, 8]);
    assert_eq!(pixel(&a, 2, 1), [9, 10, 11, 12]);
    assert_eq!(pixel(&a, 0, 0), [255, 255, 255, 1]);
    assert_eq!((a.cursor_x, a.cursor_y, a.row_height), (4, 0, 2));
}

#[test]
fn glyph_reaching_the_edge_starts_a_new_shelf() {
    let mut a = GlyphAtlas::with_size(8);
    assert_eq!(a.place_glyph(3, 2, &[1; 6], false), (0, 0));
    assert_eq!(a.place_glyph(3, 1, &[2; 3], false), (4, 0));
    // 8 + 3 reaches the right edge: the next shelf starts below the tallest
    // glyph of this one, with a gap of one row.
    assert_eq!(a.place_glyph(3, 1, &[3; 3], false), (0, 3));
    assert_eq!((a.cursor_x, a.cursor_y, a.row_height), (4, 3, 1));
    assert_eq!(pixel(&a, 0, 3), [255, 255, 255, 3]);
    assert_eq!(pixel(&a, 0, 2), [0, 0, 0, 0]);
}

#[test]
fn empty_glyph_only_moves_the_cursor() {
    let mut a = GlyphAtlas::with_size(4);
    let before = a.pixels.clone();
    assert_eq!(a.place_glyph(0, 0, &[], true), (0, 0));
    assert_eq!(a.pixels, before);
    assert_eq!((a.cursor_x, a.cursor_y, a.row_height), (1, 0, 0));
}

#[test]
fn placing_does_not_mark_the_atlas_changed() {
    let mut a = GlyphAtlas::with_size(4);
    let _ = a.get_glyph_update_data();
    a.place_glyph(1, 1, &[7], false);
    assert!(!a.dirty);
}

use scal::atlas::{pack_label_strip, LabelImage, LABEL_PADDING};

fn label(canvas: Vec<u8>, width: u32, height: u32) -> LabelImage {
    LabelImage { canvas, width, height }
}

#[test]
fn no_labels_give_no_strip() {
    assert!(pack_label_strip(&[], 22).is_none());
}

#[test]
fn labels_are_laid_out_left_to_right_and_centred() {
    let labels = [label(vec![1, 2, 3, 4], 2, 2), label(vec![], 0, 0)];
    let s = pack_label_strip(&labels, 2).expect("labels give a strip");
    assert_eq!(LABEL_PADDING, 4);
    assert_eq!((s.width, s.height), (15, 10));
    assert_eq!(s.positions, vec![(4, 4), (10, 5)]);
    assert_eq!(s.pixels.len(), 150);
    let at = |r: usize, c: usize| s.pixels[r * 15 + c];
    assert_eq!((at(4, 4), at(4, 5), at(5, 4), at(5, 5)), (1, 2, 3, 4));
    let lit = s.pixels.iter().filter(|b| **b != 0).count();
    assert_eq!(lit, 4);
}

#[test]
fn tall_labels_are_clipped_at_the_bottom() {
    let labels = [label(vec![9; 12], 1, 12)];
    let s = pack_label_strip(&labels, 0).expect("one label gives a strip");
    assert_eq!((s.width, s.height), (9, 8));
    assert_eq!(s.positions, vec![(4, 0)]);
    for r in 0..8 {
        assert_eq!(s.pixels[r * 9 + 4], 9);
    }
    assert_eq!(s.pixels.iter().filter(|b| **b != 0).count(), 8);
}
