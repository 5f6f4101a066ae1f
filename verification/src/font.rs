//! The character font: a 5×7 dot design for the digits, the capital letters, the
//! brackets and the angle brackets, drawn for this game (not the MSX's ROM font),
//! and the three graphic characters the game shows (♦, 分, 秒).

use vstd::prelude::*;
use vstd::string::StringSliceAdditionalSpecFns;

verus! {

/// The pattern of ♦ (code 83h).
pub open spec fn diamond_pattern() -> [u8; 8] {
    [0x10, 0x38, 0x7C, 0xFE, 0x7C, 0x38, 0x10, 0x00]
}

/// The pattern of 分 (the graphic character at code 0Bh).
pub open spec fn fun_pattern() -> [u8; 8] {
    [0x24, 0x42, 0x81, 0x7E, 0x22, 0x22, 0x42, 0x8C]
}

/// The pattern of 秒 (the graphic character at code 0Ch).
pub open spec fn byou_pattern() -> [u8; 8] {
    [0x44, 0xEA, 0x55, 0xE4, 0x41, 0xC2, 0x4C, 0x00]
}

/// The font's glyphs: a character code and its seven rows, `#` for a dot.
pub const GLYPHS: [(u8, [&'static str; 7]); 40] = [
    (48, [".###.", "#...#", "#..##", "#.#.#", "##..#", "#...#", ".###."]),
    (49, ["..#..", ".##..", "..#..", "..#..", "..#..", "..#..", ".###."]),
    (50, [".###.", "#...#", "....#", "..##.", ".#...", "#....", "#####"]),
    (51, ["#####", "...#.", "..#..", "...#.", "....#", "#...#", ".###."]),
    (52, ["...#.", "..##.", ".#.#.", "#..#.", "#####", "...#.", "...#."]),
    (53, ["#####", "#....", "####.", "....#", "....#", "#...#", ".###."]),
    (54, ["..##.", ".#...", "#....", "####.", "#...#", "#...#", ".###."]),
    (55, ["#####", "....#", "...#.", "..#..", ".#...", ".#...", ".#..."]),
    (56, [".###.", "#...#", "#...#", ".###.", "#...#", "#...#", ".###."]),
    (57, [".###.", "#...#", "#...#", ".####", "....#", "...#.", ".##.."]),
    (65, ["..#..", ".#.#.", "#...#", "#...#", "#####", "#...#", "#...#"]),
    (66, ["####.", "#...#", "#...#", "####.", "#...#", "#...#", "####."]),
    (67, [".###.", "#...#", "#....", "#....", "#....", "#...#", ".###."]),
    (68, ["####.", "#...#", "#...#", "#...#", "#...#", "#...#", "####."]),
    (69, ["#####", "#....", "#....", "####.", "#....", "#....", "#####"]),
    (70, ["#####", "#....", "#....", "####.", "#....", "#....", "#...."]),
    (71, [".###.", "#...#", "#....", "#.###", "#...#", "#...#", ".####"]),
    (72, ["#...#", "#...#", "#...#", "#####", "#...#", "#...#", "#...#"]),
    (73, [".###.", "..#..", "..#..", "..#..", "..#..", "..#..", ".###."]),
    (74, ["..###", "...#.", "...#.", "...#.", "...#.", "#..#.", ".##.."]),
    (75, ["#...#", "#..#.", "#.#..", "##...", "#.#..", "#..#.", "#...#"]),
    (76, ["#....", "#....", "#....", "#....", "#....", "#....", "#####"]),
    (77, ["#...#", "##.##", "#.#.#", "#.#.#", "#...#", "#...#", "#...#"]),
    (78, ["#...#", "#...#", "##..#", "#.#.#", "#..##", "#...#", "#...#"]),
    (79, [".###.", "#...#", "#...#", "#...#", "#...#", "#...#", ".###."]),
    (80, ["####.", "#...#", "#...#", "####.", "#....", "#....", "#...."]),
    (81, [".###.", "#...#", "#...#", "#...#", "#.#.#", "#..#.", ".##.#"]),
    (82, ["####.", "#...#", "#...#", "####.", "#.#..", "#..#.", "#...#"]),
    (83, [".###.", "#...#", "#....", ".###.", "....#", "#...#", ".###."]),
    (84, ["#####", "..#..", "..#..", "..#..", "..#..", "..#..", "..#.."]),
    (85, ["#...#", "#...#", "#...#", "#...#", "#...#", "#...#", ".###."]),
    (86, ["#...#", "#...#", "#...#", "#...#", "#...#", ".#.#.", "..#.."]),
    (87, ["#...#", "#...#", "#...#", "#.#.#", "#.#.#", "##.##", "#...#"]),
    (88, ["#...#", "#...#", ".#.#.", "..#..", ".#.#.", "#...#", "#...#"]),
    (89, ["#...#", "#...#", ".#.#.", "..#..", "..#..", "..#..", "..#.."]),
    (90, ["#####", "....#", "...#.", "..#..", ".#...", "#....", "#####"]),
    (91, [".###.", ".#...", ".#...", ".#...", ".#...", ".#...", ".###."]),
    (93, [".###.", "...#.", "...#.", "...#.", "...#.", "...#.", ".###."]),
    (60, ["...#.", "..#..", ".#...", "#....", ".#...", "..#..", "...#."]),
    (62, [".#...", "..#..", "...#.", "....#", "...#.", "..#..", ".#..."]),
];

/// One row of dots as a pattern byte: the `x`-th character, when it is `#`, sets
/// bit `7 - x`.
pub open spec fn row_bits(s: Seq<u8>, n: int) -> u8
    decreases n,
{
    if n <= 0 {
        0
    } else if s[n - 1] == 35 {
        row_bits(s, n - 1) | (0x80u8 >> ((n - 1) as u8))
    } else {
        row_bits(s, n - 1)
    }
}

/// The dots of a row that a pattern holds: its first eight.
pub open spec fn row_width(s: Seq<u8>) -> int {
    if s.len() < 8 {
        s.len() as int
    } else {
        8
    }
}

/// A row of dots as a pattern byte.
pub fn row_pattern(row: &str) -> (b: u8)
    ensures
        b == row_bits(row.spec_bytes(), row_width(row.spec_bytes())),
{
    let s = row.as_bytes();
    let n = if s.len() < 8 { s.len() } else { 8 };
    let mut b: u8 = 0;
    let mut x: usize = 0;
    while x < n
        invariant
            s@ == row.spec_bytes(),
            n == row_width(s@),
            x <= n <= 8,
            b == row_bits(s@, x as int),
        decreases n - x,
    {
        if s[x] == 35 {
            b = b | (0x80u8 >> (x as u8));
        }
        x = x + 1;
    }
    b
}

/// A glyph's pattern: its seven rows, and an empty eighth.
pub fn glyph_pattern(rows: [&str; 7]) -> (p: [u8; 8])
    ensures
        forall|y: int| 0 <= y < 7 ==> #[trigger] p@[y] == row_bits(rows@[y].spec_bytes(), row_width(rows@[y].spec_bytes())),
        p@[7] == 0,
{
    let mut p = [0u8; 8];
    let mut y: usize = 0;
    while y < 7
        invariant
            y <= 7,
            forall|j: int| 0 <= j < y ==> #[trigger] p@[j] == row_bits(rows@[j].spec_bytes(), row_width(rows@[j].spec_bytes())),
            forall|j: int| y <= j < 8 ==> #[trigger] p@[j] == 0,
        decreases 7 - y,
    {
        p[y] = row_pattern(rows[y]);
        y = y + 1;
    }
    p
}

/// Row `y` of the pattern of a glyph with the given rows: the dots of the row,
/// and an empty eighth row.
pub open spec fn glyph_row(rows: [&str; 7], y: int) -> u8 {
    if 0 <= y < 7 {
        row_bits(rows[y].spec_bytes(), row_width(rows[y].spec_bytes()))
    } else {
        0
    }
}

/// Row `y` of the pattern of `code` after the first `k` glyphs of the font are
/// set: the last of them with that code decides, and codes without a glyph are
/// blank.
pub open spec fn font_row(code: int, y: int, k: int) -> u8
    decreases k,
{
    if k <= 0 {
        0
    } else if GLYPHS[k - 1].0 == code {
        glyph_row(GLYPHS[k - 1].1, y)
    } else {
        font_row(code, y, k - 1)
    }
}

/// Row `y` of the pattern of character code `c`: ♦, 分 and 秒 at their codes, else
/// the font's glyph, blank for codes without one.
pub open spec fn font_pattern_row(c: int, y: int) -> u8 {
    if c == 0x83 {
        diamond_pattern()[y]
    } else if c == 0x0B {
        fun_pattern()[y]
    } else if c == 0x0C {
        byou_pattern()[y]
    } else {
        font_row(c, y, 40)
    }
}

/// The patterns of all 256 character codes: the font's glyphs, ♦, 分 and 秒, and
/// blank patterns for the other codes.
pub fn build_patterns() -> (pat: Vec<[u8; 8]>)
    ensures
        pat.len() == 256,
        forall|c: int, y: int| 0 <= c < 256 && 0 <= y < 8 ==> #[trigger] pat@[c][y] == font_pattern_row(c, y),
{
    let mut pat: Vec<[u8; 8]> = Vec::new();
    let mut code: usize = 0;
    while code < 256
        invariant
            code <= 256,
            pat.len() == code,
            forall|c: int, y: int| 0 <= c < code && 0 <= y < 8 ==> #[trigger] pat@[c][y] == 0,
        decreases 256 - code,
    {
        pat.push([0u8; 8]);
        code = code + 1;
    }
    let mut k: usize = 0;
    while k < 40
        invariant
            k <= 40,
            pat.len() == 256,
            forall|c: int, y: int| 0 <= c < 256 && 0 <= y < 8 ==> #[trigger] pat@[c][y] == font_row(c, y, k as int),
        decreases 40 - k,
    {
        let (code, rows) = GLYPHS[k];
        let p = glyph_pattern(rows);
        pat.set(code as usize, p);
        assert forall|c: int, y: int| 0 <= c < 256 && 0 <= y < 8 implies #[trigger] pat@[c][y] == font_row(
            c,
            y,
            (k + 1) as int,
        ) by {
            if c == code as int {
                assert(pat@[c] == p);
            }
        }
        k = k + 1;
    }
    pat.set(0x83, [0x10, 0x38, 0x7C, 0xFE, 0x7C, 0x38, 0x10, 0x00]);
    pat.set(0x0B, [0x24, 0x42, 0x81, 0x7E, 0x22, 0x22, 0x42, 0x8C]);
    pat.set(0x0C, [0x44, 0xEA, 0x55, 0xE4, 0x41, 0xC2, 0x4C, 0x00]);
    pat
}

} // verus!
