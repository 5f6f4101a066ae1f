use drive_game2::screen::{msx_color, Screen1, ESC, SPACE};

fn blank() -> Screen1 {
    Screen1::new()
}

fn row_text(s: &Screen1, row: usize, from: usize, n: usize) -> Vec<u8> {
    (from..from + n).map(|c| s.char_at(row * 32 + c)).collect()
}

#[test]
fn new_screen_is_blank() {
    let s = blank();
    for pos in 0..768 {
        assert_eq!(s.char_at(pos), SPACE);
    }
    for i in 0..32 {
        assert_eq!(s.color(i), 0x1F);
    }
    assert_eq!(s.backdrop(), 14);
    assert_eq!(s.sprite(0), (0, 209, 15));
    assert_eq!(s.sprite(1), (0, 209, 1));
}

#[test]
fn print_text_and_wrap() {
    let mut s = blank();
    s.locate(30, 2);
    s.print(b"ABC");
    assert_eq!(row_text(&s, 2, 30, 2), b"AB".to_vec());
    assert_eq!(s.char_at(3 * 32), b'C');
    // LOCATE keeps the cursor on the screen
    s.locate(-5, 99);
    s.print(b"Z");
    assert_eq!(s.char_at(23 * 32), b'Z');
}

#[test]
fn print_escape_locate() {
    let mut s = blank();
    // ESC Y, row + 32, column + 32
    s.print(&[ESC, b'Y', 32 + 5, 32 + 3, b'Q']);
    assert_eq!(s.char_at(5 * 32 + 3), b'Q');
}

#[test]
fn print_escape_insert_line() {
    let mut s = blank();
    s.print(b"AB");
    s.locate(0, 1);
    s.print(b"CD");
    s.locate(5, 0);
    s.print(&[ESC, b'L', b'x']);
    // the cursor's line moved down and was cleared; the cursor went to its start
    assert_eq!(row_text(&s, 0, 0, 3), b"x  ".to_vec());
    assert_eq!(row_text(&s, 1, 0, 2), b"AB".to_vec());
    assert_eq!(row_text(&s, 2, 0, 2), b"CD".to_vec());
}

#[test]
fn print_graphic_character() {
    let mut s = blank();
    s.print(&[1, 0x4B, 1, 0x4C, b'!']);
    assert_eq!(row_text(&s, 0, 0, 3), vec![0x0B, 0x0C, b'!']);
}

#[test]
fn println_scrolls_at_bottom() {
    let mut s = blank();
    s.print(b"TOP");
    s.locate(0, 23);
    s.println(b"END");
    assert_eq!(row_text(&s, 22, 0, 3), b"END".to_vec());
    assert_eq!(row_text(&s, 23, 0, 3), b"   ".to_vec());
    // the top line scrolled off
    assert_eq!(row_text(&s, 0, 0, 3), b"   ".to_vec());
    s.println(b"X");
    assert_eq!(row_text(&s, 21, 0, 3), b"END".to_vec());
    assert_eq!(row_text(&s, 22, 0, 1), b"X".to_vec());
}

#[test]
fn cls_clears_and_homes() {
    let mut s = blank();
    s.locate(4, 4);
    s.print(b"HELLO");
    s.cls();
    assert_eq!(s.char_at(4 * 32 + 4), SPACE);
    s.print(b"A");
    assert_eq!(s.char_at(0), b'A');
}

#[test]
fn render_text_colours() {
    let mut s = blank();
    // every space shows its left column of dots in the foreground
    s.set_pattern(32, [0x80, 0, 0, 0, 0, 0, 0, 0]);
    let img = s.render();
    assert_eq!(img.len(), 256 * 192);
    assert_eq!(img[0], 1);
    assert_eq!(img[1], 15);
    assert_eq!(img[8], 1);
    assert_eq!(img[256], 15);
    // colour 0 shows the backdrop
    s.set_color(4, 0x00);
    s.set_backdrop(0x1D);
    let img = s.render();
    assert_eq!(img[0], 13);
    assert_eq!(img[1], 13);
    assert_eq!(s.dot(0, 0), 13);
}

#[test]
fn render_sprites_in_front() {
    let mut s = blank();
    s.set_sprite_pattern(0, [0xFF; 8]);
    s.set_sprite_pattern(1, [0xFF; 8]);
    s.set_sprite(1, (10, 20, 8));
    // sprites are drawn one line below their y
    assert_eq!(s.dot(10, 20), 15);
    assert_eq!(s.dot(10, 21), 8);
    assert_eq!(s.dot(17, 28), 8);
    assert_eq!(s.dot(18, 21), 15);
    // sprite 0 in front of sprite 1
    s.set_sprite(0, (14, 20, 0x13));
    assert_eq!(s.dot(14, 21), 3);
    assert_eq!(s.dot(13, 21), 8);
    // colour 0 hides a sprite
    s.set_sprite(0, (14, 20, 0));
    assert_eq!(s.dot(14, 21), 8);
    // partly above the screen
    s.set_sprite(1, (0, -4, 6));
    assert_eq!(s.dot(0, 0), 6);
    assert_eq!(s.dot(0, 3), 6);
    assert_eq!(s.dot(0, 4), 6);
    assert_eq!(s.dot(0, 5), 15);
    let img = s.render();
    assert_eq!(img[3 * 256 + 7], 6);
    assert_eq!(img[3 * 256 + 8], 15);
}

#[test]
fn msx_palette() {
    assert_eq!(msx_color(0), (0, 0, 0));
    assert_eq!(msx_color(15), (255, 255, 255));
    assert_eq!(msx_color(2), (36, 218, 36));
    assert_eq!(msx_color(14), (182, 182, 182));
    assert_eq!(msx_color(0x1E), (182, 182, 182));
    assert_eq!(msx_color(13), (218, 72, 182));
}

#[test]
fn sprite_and_pattern_accessors() {
    let mut s = blank();
    s.set_pattern(200, [1, 2, 3, 4, 5, 6, 7, 8]);
    assert_eq!(s.pattern(200), [1, 2, 3, 4, 5, 6, 7, 8]);
    s.set_sprite(0, (-3, 7, 2));
    assert_eq!(s.sprite(0), (-3, 7, 2));
    s.set_color(31, 0x42);
    assert_eq!(s.color(31), 0x42);
}

#[test]
fn print_in_two_parts() {
    let mut whole = blank();
    let mut parts = blank();
    let text = [b'A', ESC, b'Y', 32 + 3, 32 + 4, b'B', 1, 0x4B];
    whole.print(&text);
    parts.print(&text[..5]);
    parts.print(&text[5..]);
    for pos in 0..768 {
        assert_eq!(whole.char_at(pos), parts.char_at(pos));
    }
    assert_eq!(whole.char_at(3 * 32 + 4), b'B');
    // cut inside an item, the parts read otherwise: ESC alone is a character
    let mut cut = blank();
    cut.print(&text[..2]);
    cut.print(&text[2..]);
    assert_eq!(cut.char_at(1), ESC);
}
