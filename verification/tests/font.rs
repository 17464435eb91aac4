use captui::font::{digit_pixel, digit_rows, GLYPH_H, GLYPH_W};

#[test]
fn digit_one_has_a_stem() {
    assert!(digit_pixel(1, 2, 0));
    assert!(digit_pixel(1, 2, 6));
    assert!(!digit_pixel(1, 0, 0));
}

#[test]
fn out_of_range_is_blank() {
    assert!(!digit_pixel(8, GLYPH_W, 0));
    assert!(!digit_pixel(8, 0, GLYPH_H));
}

#[test]
fn wraps_modulo_ten() {
    assert_eq!(digit_rows(0), digit_rows(10));
}
