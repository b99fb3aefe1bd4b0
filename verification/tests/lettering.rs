use twistypuzzle::render::font::{ellipsize, text_block_width, text_width, GlyphTable};

/// Printable ASCII, four columns a glyph, with a narrow `i`, `.` and a wide `M`.
fn glyphs() -> GlyphTable {
    let mut widths = vec![4u8; 95];
    widths[(b'i' - 32) as usize] = 1;
    widths[(b'.' - 32) as usize] = 1;
    widths[(b'M' - 32) as usize] = 5;
    GlyphTable { first: 32, last: 126, widths }
}

#[test]
fn joined_text_is_one_tracking_column_wider_than_its_parts() {
    let t = glyphs();
    for scale in 1..4u32 {
        let a = text_width(&t, "ab", scale);
        let b = text_width(&t, "Mi", scale);
        assert_eq!(text_width(&t, "abMi", scale), a + scale + b);
    }
    assert_eq!(text_width(&t, "ab", 1), 9);
    assert_eq!(text_width(&t, "ab", 2), 18);
}

#[test]
fn block_width_is_the_widest_line() {
    let t = glyphs();
    assert_eq!(text_block_width(&t, "i\nM", 1), 5);
    assert_eq!(text_block_width(&t, "", 1), 0);
    assert_eq!(text_block_width(&t, "i\nab\nM", 2), 18);
}

#[test]
fn ellipsis_keeps_the_longest_prefix_that_fits() {
    let t = glyphs();
    assert_eq!(ellipsize(&t, "hi", 100, 1), "hi");
    let cut = ellipsize(&t, "hello world", 20, 1);
    assert_eq!(cut, "hel...");
    assert!(text_width(&t, &cut, 1) <= 20);
    assert!(text_width(&t, "hell...", 1) > 20);
    assert_eq!(ellipsize(&t, "hello world", 4, 1), "");
}
