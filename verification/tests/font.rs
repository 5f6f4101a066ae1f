use drive_game2::font::{build_patterns, glyph_pattern, row_pattern, GLYPHS};

#[test]
fn row_patterns() {
    assert_eq!(row_pattern(".###."), 0x70);
    assert_eq!(row_pattern("#...#"), 0x88);
    assert_eq!(row_pattern("#####"), 0xF8);
    assert_eq!(row_pattern(""), 0);
    assert_eq!(row_pattern("........"), 0);
    // a pattern holds eight dots
    assert_eq!(row_pattern("##########"), 0xFF);
    assert_eq!(row_pattern(".......##"), 0x01);
}

#[test]
fn glyph_patterns() {
    let a = glyph_pattern(["..#..", ".#.#.", "#...#", "#...#", "#####", "#...#", "#...#"]);
    assert_eq!(a, [0x20, 0x50, 0x88, 0x88, 0xF8, 0x88, 0x88, 0x00]);
}

#[test]
fn font_patterns() {
    let p = build_patterns();
    assert_eq!(p.len(), 256);
    assert_eq!(p[b'0' as usize], [0x70, 0x88, 0x98, 0xA8, 0xC8, 0x88, 0x70, 0x00]);
    assert_eq!(p[b'A' as usize], [0x20, 0x50, 0x88, 0x88, 0xF8, 0x88, 0x88, 0x00]);
    assert_eq!(p[b'>' as usize], [0x40, 0x20, 0x10, 0x08, 0x10, 0x20, 0x40, 0x00]);
    assert_eq!(p[0x83], [0x10, 0x38, 0x7C, 0xFE, 0x7C, 0x38, 0x10, 0x00]);
    assert_eq!(p[0x0B], [0x24, 0x42, 0x81, 0x7E, 0x22, 0x22, 0x42, 0x8C]);
    assert_eq!(p[0x0C], [0x44, 0xEA, 0x55, 0xE4, 0x41, 0xC2, 0x4C, 0x00]);
    // codes without a glyph are blank
    assert_eq!(p[b' ' as usize], [0; 8]);
    assert_eq!(p[b'%' as usize], [0; 8]);
    assert_eq!(p[255], [0; 8]);
    for (code, rows) in GLYPHS {
        assert_eq!(p[code as usize], glyph_pattern(rows));
    }
}
