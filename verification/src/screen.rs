//! A small VDP in SCREEN 1: a 32×24 grid of character codes, 256 8×8 patterns,
//! a foreground/background colour per group of eight codes, two 8×8 sprites, and
//! the PRINT statement's text output with its escape sequences.

use vstd::prelude::*;
use crate::font::{build_patterns, font_pattern_row};

verus! {

/// Escape, which starts the `ESC L` (insert line) and `ESC Y` (locate) sequences.
pub const ESC: u8 = 27;
/// The space character, which cleared cells hold.
pub const SPACE: u8 = 32;

/// The screen: character codes, patterns, colours, sprites and the text cursor.
pub struct Screen1 {
    name: [u8; 768],
    patterns: Vec<[u8; 8]>,
    colors: [u8; 32],
    backdrop: u8,
    sprite_pat: [[u8; 8]; 2],
    sprites: [(i32, i32, u8); 2],
    cx: usize,
    cy: usize,
}

/// The screen as a value.
#[verifier::ext_equal]
pub struct ScreenView {
    /// The character code of each cell, row by row.
    pub name: Seq<u8>,
    /// The 8×8 pattern of each character code, a byte per row, bit 7 leftmost.
    pub patterns: Seq<[u8; 8]>,
    /// Foreground (high nibble) and background (low nibble) colour of each group of
    /// eight codes; colour 0 shows the backdrop.
    pub colors: Seq<u8>,
    pub backdrop: u8,
    pub sprite_pat: Seq<[u8; 8]>,
    /// Each sprite's x, y (drawn one line lower, as on the MSX) and colour.
    pub sprites: Seq<(i32, i32, u8)>,
    pub cx: int,
    pub cy: int,
}

impl View for Screen1 {
    type V = ScreenView;

    closed spec fn view(&self) -> ScreenView {
        ScreenView {
            name: self.name@,
            patterns: self.patterns@,
            colors: self.colors@,
            backdrop: self.backdrop,
            sprite_pat: self.sprite_pat@,
            sprites: self.sprites@,
            cx: self.cx as int,
            cy: self.cy as int,
        }
    }
}

/// `x` held within `lo..=hi`.
pub open spec fn clamp(x: int, lo: int, hi: int) -> int {
    if x < lo {
        lo
    } else if x > hi {
        hi
    } else {
        x
    }
}

impl ScreenView {
    /// The screen's invariant: 768 cells, 256 patterns, 32 colour entries, two
    /// sprites, and the cursor on the screen.
    pub open spec fn wf(self) -> bool {
        &&& self.name.len() == 768
        &&& self.patterns.len() == 256
        &&& self.colors.len() == 32
        &&& self.sprite_pat.len() == 2
        &&& self.sprites.len() == 2
        &&& 0 <= self.cx < 32
        &&& 0 <= self.cy < 24
    }

    /// `CLS`: every cell a space, the cursor home.
    pub open spec fn cls(self) -> ScreenView {
        ScreenView { name: Seq::new(768, |k: int| SPACE), cx: 0, cy: 0, ..self }
    }

    /// `LOCATE x,y`, held within the screen.
    pub open spec fn locate(self, x: int, y: int) -> ScreenView {
        ScreenView { cx: clamp(x, 0, 31), cy: clamp(y, 0, 23), ..self }
    }

    /// A line feed: to the start of the next line, scrolling the screen up one line
    /// from the bottom one.
    pub open spec fn newline(self) -> ScreenView {
        if self.cy == 23 {
            ScreenView {
                name: Seq::new(768, |k: int| if k < 736 { self.name[k + 32] } else { SPACE }),
                cx: 0,
                ..self
            }
        } else {
            ScreenView { cx: 0, cy: self.cy + 1, ..self }
        }
    }

    /// `ESC L`: the cursor's line and those below move down one line (the bottom
    /// one is lost), the cursor's line is cleared, and the cursor goes to its start.
    pub open spec fn insert_line(self) -> ScreenView {
        let y = self.cy;
        ScreenView {
            name: Seq::new(
                768,
                |k: int|
                    if k < y * 32 {
                        self.name[k]
                    } else if k < (y + 1) * 32 {
                        SPACE
                    } else {
                        self.name[k - 32]
                    },
            ),
            cx: 0,
            ..self
        }
    }

    /// A character at the cursor, which moves on (to the next line past the right
    /// edge).
    pub open spec fn put(self, c: u8) -> ScreenView {
        let v = ScreenView { name: self.name.update(self.cy * 32 + self.cx, c), cx: self.cx + 1, ..self };
        if self.cx + 1 >= 32 {
            v.newline()
        } else {
            v
        }
    }

    /// The PRINT item at `i`: `ESC L`, `ESC Y` with row and column (offset by 32),
    /// a graphic character (01h followed by its code plus 40h), or a character.
    /// `None` for a graphic character whose second byte is below 40h.
    pub open spec fn print_item(self, s: Seq<u8>, i: int) -> Option<(ScreenView, int)> {
        if s[i] == ESC && i + 1 < s.len() && s[i + 1] == 76 {
            Some((self.insert_line(), i + 2))
        } else if s[i] == ESC && i + 1 < s.len() && s[i + 1] == 89 && s.len() - i > 3 {
            Some((self.locate(s[i + 3] - 32, s[i + 2] - 32), i + 4))
        } else if s[i] == 1 && i + 1 < s.len() {
            if s[i + 1] < 64 {
                None
            } else {
                Some((self.put((s[i + 1] - 64) as u8), i + 2))
            }
        } else {
            Some((self.put(s[i]), i + 1))
        }
    }

    /// PRINT of the bytes of `s` from `i` on; `None` where an item is undefined.
    pub open spec fn print_from(self, s: Seq<u8>, i: int) -> Option<ScreenView>
        decreases s.len() - i,
    {
        if i < 0 || i >= s.len() {
            Some(self)
        } else {
            match self.print_item(s, i) {
                None => None,
                Some((v, j)) => if i < j {
                    v.print_from(s, j)
                } else {
                    None
                },
            }
        }
    }

    pub open spec fn print(self, s: Seq<u8>) -> Option<ScreenView> {
        self.print_from(s, 0)
    }
}

/// A screen cleared to spaces with the given patterns, colour 1 on 15 for every
/// code, backdrop 14, sprites below the visible area, and the cursor home.
pub open spec fn initial_screen(patterns: Seq<[u8; 8]>) -> ScreenView {
    ScreenView {
        name: Seq::new(768, |k: int| SPACE),
        patterns,
        colors: Seq::new(32, |k: int| 0x1Fu8),
        backdrop: 14,
        sprite_pat: Seq::new(2, |i: int| [0u8; 8usize]),
        sprites: seq![(0i32, 209i32, 15u8), (0i32, 209i32, 1u8)],
        cx: 0,
        cy: 0,
    }
}

impl Screen1 {
    /// A cleared screen with the font's patterns.
    pub fn new() -> (s: Screen1)
        ensures
            s@ =~~= initial_screen(s@.patterns),
            forall|c: int, y: int| 0 <= c < 256 && 0 <= y < 8 ==> #[trigger] s@.patterns[c][y] == font_pattern_row(c, y),
            s@.wf(),
    {
        let patterns = build_patterns();
        let s = Screen1 {
            name: [SPACE; 768],
            patterns,
            colors: [0x1F; 32],
            backdrop: 14,
            sprite_pat: [[0; 8]; 2],
            sprites: [(0, 209, 15), (0, 209, 1)],
            cx: 0,
            cy: 0,
        };
        assert(s@.name =~= initial_screen(s@.patterns).name);
        assert(s@.colors =~= initial_screen(s@.patterns).colors);
        assert(s@.sprite_pat =~= initial_screen(s@.patterns).sprite_pat);
        assert(s@.sprites =~= initial_screen(s@.patterns).sprites);
        s
    }

    pub fn cls(&mut self)
        requires
            old(self)@.wf(),
        ensures
            final(self)@ =~~= old(self)@.cls(),
            final(self)@.wf(),
    {
        self.name = [SPACE; 768];
        self.cx = 0;
        self.cy = 0;
        assert(self@.name =~= old(self)@.cls().name);
    }

    pub fn locate(&mut self, x: i32, y: i32)
        requires
            old(self)@.wf(),
        ensures
            final(self)@ =~~= old(self)@.locate(x as int, y as int),
            final(self)@.wf(),
    {
        self.cx = if x < 0 { 0 } else if x > 31 { 31 } else { x as usize };
        self.cy = if y < 0 { 0 } else if y > 23 { 23 } else { y as usize };
    }

    pub fn newline(&mut self)
        requires
            old(self)@.wf(),
        ensures
            final(self)@ =~~= old(self)@.newline(),
            final(self)@.wf(),
    {
        self.cx = 0;
        if self.cy == 23 {
            let ghost old_name = self.name@;
            let ghost v0 = self@;
            let mut k: usize = 0;
            while k < 768
                invariant
                    self@ == (ScreenView { name: self.name@, ..v0 }),
                    self.name@.len() == 768,
                    old_name.len() == 768,
                    k <= 768,
                    forall|m: int| 0 <= m < k ==> #[trigger] self.name@[m] == (if m < 736 {
                        old_name[m + 32]
                    } else {
                        SPACE
                    }),
                    forall|m: int| k <= m < 768 ==> #[trigger] self.name@[m] == old_name[m],
                decreases 768 - k,
            {
                if k < 736 {
                    self.name[k] = self.name[k + 32];
                } else {
                    self.name[k] = SPACE;
                }
                k = k + 1;
            }
            assert(self@.name =~= old(self)@.newline().name);
        } else {
            self.cy = self.cy + 1;
        }
    }

    pub fn insert_line(&mut self)
        requires
            old(self)@.wf(),
        ensures
            final(self)@ =~~= old(self)@.insert_line(),
            final(self)@.wf(),
    {
        let y = self.cy;
        let ghost old_name = self.name@;
        let ghost v0 = self@;
        let mut k: usize = 768;
        while k > (y + 1) * 32
            invariant
                self@ == (ScreenView { name: self.name@, ..v0 }),
                y == old(self)@.cy,
                0 <= y < 24,
                (y + 1) * 32 <= k <= 768,
                self.name@.len() == 768,
                old_name.len() == 768,
                forall|m: int| k <= m < 768 ==> #[trigger] self.name@[m] == old_name[m - 32],
                forall|m: int| 0 <= m < k ==> #[trigger] self.name@[m] == old_name[m],
            decreases k,
        {
            k = k - 1;
            self.name[k] = self.name[k - 32];
        }
        let mut m: usize = y * 32;
        while m < (y + 1) * 32
            invariant
                self@ == (ScreenView { name: self.name@, ..v0 }),
                y == old(self)@.cy,
                0 <= y < 24,
                y * 32 <= m <= (y + 1) * 32,
                self.name@.len() == 768,
                old_name.len() == 768,
                forall|j: int| (y + 1) * 32 <= j < 768 ==> #[trigger] self.name@[j] == old_name[j - 32],
                forall|j: int| 0 <= j < y * 32 ==> #[trigger] self.name@[j] == old_name[j],
                forall|j: int| y * 32 <= j < m ==> #[trigger] self.name@[j] == SPACE,
            decreases (y + 1) * 32 - m,
        {
            self.name[m] = SPACE;
            m = m + 1;
        }
        self.cx = 0;
        assert(self@.name =~= old(self)@.insert_line().name);
    }

    pub fn put(&mut self, c: u8)
        requires
            old(self)@.wf(),
        ensures
            final(self)@ =~~= old(self)@.put(c),
            final(self)@.wf(),
    {
        self.name[self.cy * 32 + self.cx] = c;
        if self.cx + 1 >= 32 {
            self.newline();
        } else {
            self.cx = self.cx + 1;
        }
    }

    /// PRINT of the bytes `s` (without a line feed).
    pub fn print(&mut self, s: &[u8])
        requires
            old(self)@.wf(),
            old(self)@.print(s@) is Some,
        ensures
            final(self)@ =~~= old(self)@.print(s@).unwrap(),
            final(self)@.wf(),
    {
        let ghost target = old(self)@.print(s@).unwrap();
        let mut i: usize = 0;
        while i < s.len()
            invariant
                self@.wf(),
                i <= s.len(),
                self@.print_from(s@, i as int) == Some(target),
            decreases s.len() - i,
        {
            let c = s[i];
            if c == ESC && i + 1 < s.len() && s[i + 1] == 76 {
                self.insert_line();
                i = i + 2;
            } else if c == ESC && i + 1 < s.len() && s[i + 1] == 89 && s.len() - i > 3 {
                self.locate(s[i + 3] as i32 - 32, s[i + 2] as i32 - 32);
                i = i + 4;
            } else if c == 1 && i + 1 < s.len() {
                self.put(s[i + 1] - 0x40);
                i = i + 2;
            } else {
                self.put(c);
                i = i + 1;
            }
        }
    }

    /// PRINT of the bytes `s` and a line feed.
    pub fn println(&mut self, s: &[u8])
        requires
            old(self)@.wf(),
            old(self)@.print(s@) is Some,
        ensures
            final(self)@ =~~= old(self)@.print(s@).unwrap().newline(),
            final(self)@.wf(),
    {
        self.print(s);
        self.newline();
    }
}

/// Text that PRINT can always show: every graphic-character prefix 01h that has a
/// byte after it is followed by a code of at least 40h.
pub open spec fn printable(s: Seq<u8>) -> bool {
    forall|k: int| 0 < k < s.len() && s[k - 1] == 1 ==> #[trigger] s[k] >= 64
}

proof fn lemma_print_from_printable(v: ScreenView, s: Seq<u8>, i: int)
    requires
        printable(s),
        v.wf(),
    ensures
        v.print_from(s, i) matches Some(r) && r.wf(),
    decreases s.len() - i,
{
    if 0 <= i < s.len() {
        if s[i] == 1 && i + 1 < s.len() {
            assert(s[(i + 1) - 1] == 1);
            assert(s[i + 1] >= 64);
        }
        lemma_ops_keep_wf(v);
        if let Some((v2, j)) = v.print_item(s, i) {
            if s[i] == ESC && i + 1 < s.len() && s[i + 1] == 76 {
            } else if s[i] == ESC && i + 1 < s.len() && s[i + 1] == 89 && i + 3 < s.len() {
            } else if s[i] == 1 && i + 1 < s.len() {
                lemma_ops_keep_wf(v.put((s[i + 1] - 64) as u8));
            }
            lemma_print_from_printable(v2, s, j);
        }
    }
}

proof fn lemma_ops_keep_wf(v: ScreenView)
    requires
        v.wf(),
    ensures
        v.cls().wf(),
        v.newline().wf(),
        v.insert_line().wf(),
        forall|c: u8| #[trigger] v.put(c).wf(),
        forall|x: int, y: int| #[trigger] v.locate(x, y).wf(),
{
    assert forall|c: u8| #[trigger] v.put(c).wf() by {
        let v1 = ScreenView { name: v.name.update(v.cy * 32 + v.cx, c), cx: v.cx + 1, ..v };
        if v.cx + 1 >= 32 {
            assert(v1.newline() == ScreenView { cx: 0, ..v1.newline() });
        }
    }
}

/// A character put on the screen reads back at the cursor's cell, unless it filled
/// the bottom right cell and the screen scrolled; the cursor moves one cell on.
pub proof fn law_put_reads_back(v: ScreenView, c: u8)
    requires
        v.wf(),
        !(v.cx == 31 && v.cy == 23),
    ensures
        v.put(c).name[v.cy * 32 + v.cx] == c,
        v.put(c).wf(),
        v.cx < 31 ==> v.put(c).cx == v.cx + 1 && v.put(c).cy == v.cy,
        v.cx == 31 ==> v.put(c).cx == 0 && v.put(c).cy == v.cy + 1,
{
    lemma_ops_keep_wf(v);
}

/// Where the PRINT item at `i` ends: after `ESC L`, after `ESC Y` with its row and
/// column, after a graphic character's two bytes, or after one byte.
pub open spec fn item_end(s: Seq<u8>, i: int) -> int {
    if s[i] == ESC && i + 1 < s.len() && s[i + 1] == 76 {
        i + 2
    } else if s[i] == ESC && i + 1 < s.len() && s[i + 1] == 89 && s.len() - i > 3 {
        i + 4
    } else if s[i] == 1 && i + 1 < s.len() {
        i + 2
    } else {
        i + 1
    }
}

/// Reading the items of `s` one after another from `i` passes position `j`.
pub open spec fn walks_to(s: Seq<u8>, i: int, j: int) -> bool
    decreases s.len() - i,
{
    if i == j {
        true
    } else if i < 0 || i > j || i >= s.len() {
        false
    } else {
        walks_to(s, item_end(s, i), j)
    }
}

/// The screen `r` (where defined) with `rest` printed on it.
pub open spec fn then_print(r: Option<ScreenView>, rest: Seq<u8>) -> Option<ScreenView> {
    match r {
        None => None,
        Some(w) => w.print(rest),
    }
}

proof fn lemma_item_end(v: ScreenView, s: Seq<u8>, i: int)
    requires
        0 <= i < s.len(),
    ensures
        i < item_end(s, i) <= s.len(),
        v.print_item(s, i) matches Some((_, e)) ==> e == item_end(s, i),
{
}

proof fn lemma_print_shift(v: ScreenView, a: Seq<u8>, b: Seq<u8>, j: int)
    requires
        0 <= j,
    ensures
        v.print_from(a + b, a.len() + j) == v.print_from(b, j),
    decreases b.len() - j,
{
    let n = a.len() as int;
    if j < b.len() {
        let s = a + b;
        assert(s[n + j] == b[j]);
        if j + 1 < b.len() {
            assert(s[n + j + 1] == b[j + 1]);
        }
        if j + 2 < b.len() {
            assert(s[n + j + 2] == b[j + 2]);
        }
        if j + 3 < b.len() {
            assert(s[n + j + 3] == b[j + 3]);
        }
        match v.print_item(b, j) {
            None => {},
            Some((v2, e)) => {
                assert(v.print_item(s, n + j) == Some((v2, n + e)));
                if j < e {
                    lemma_print_shift(v2, a, b, e);
                }
            },
        }
    }
}

proof fn lemma_print_prefix(v: ScreenView, a: Seq<u8>, b: Seq<u8>, i: int)
    requires
        0 <= i <= a.len(),
        walks_to(a + b, i, a.len() as int),
    ensures
        v.print_from(a + b, i) == then_print(v.print_from(a, i), b),
    decreases a.len() - i,
{
    let s = a + b;
    if i == a.len() {
        lemma_print_shift(v, a, b, 0);
    } else {
        let e = item_end(s, i);
        lemma_item_end(v, s, i);
        assert(e <= a.len()) by {
            assert(walks_to(s, e, a.len() as int));
            if e > a.len() {
                assert(!walks_to(s, e, a.len() as int));
            }
        }
        assert(s[i] == a[i]);
        if i + 1 < a.len() {
            assert(s[i + 1] == a[i + 1]);
        }
        if i + 2 < a.len() {
            assert(s[i + 2] == a[i + 2]);
        }
        if i + 3 < a.len() {
            assert(s[i + 3] == a[i + 3]);
        }
        assert(item_end(a, i) == e);
        assert(v.print_item(s, i) == v.print_item(a, i));
        lemma_item_end(v, a, i);
        match v.print_item(a, i) {
            None => {},
            Some((v2, e2)) => {
                lemma_print_prefix(v2, a, b, e2);
            },
        }
    }
}

/// PRINT reads its text item by item: where the items of `a + b` pass the end of
/// `a`, printing `a + b` is printing `a` and then `b`.
pub proof fn law_print_concatenation(v: ScreenView, a: Seq<u8>, b: Seq<u8>)
    requires
        walks_to(a + b, 0, a.len() as int),
    ensures
        v.print(a + b) == then_print(v.print(a), b),
{
    lemma_print_prefix(v, a, b, 0);
}

/// Above the bottom line, a character put on the screen takes the cursor's cell,
/// leaves every other cell as it was, and moves the cursor to the next cell (row
/// by row).
pub proof fn law_put_moves_on(v: ScreenView, c: u8)
    requires
        v.wf(),
        v.cy < 23,
    ensures
        v.put(c).name == v.name.update(v.cy * 32 + v.cx, c),
        v.put(c).cy * 32 + v.put(c).cx == v.cy * 32 + v.cx + 1,
        v.put(c).wf(),
{
    lemma_ops_keep_wf(v);
}

/// `ESC L` moves the cursor's line and those below it down one line (the bottom
/// line is lost), blanks the cursor's line and puts the cursor at its start; the
/// lines above stay.
pub proof fn law_insert_line(v: ScreenView)
    requires
        v.wf(),
    ensures
        ({
            let w = v.insert_line();
            &&& w.wf()
            &&& w.cx == 0 && w.cy == v.cy
            &&& forall|row: int, col: int|
                0 <= row < 24 && 0 <= col < 32 ==> #[trigger] w.name[row * 32 + col] == if row < v.cy {
                    v.name[row * 32 + col]
                } else if row == v.cy {
                    SPACE
                } else {
                    v.name[(row - 1) * 32 + col]
                }
        }),
{
    lemma_ops_keep_wf(v);
    assert forall|row: int, col: int| 0 <= row < 24 && 0 <= col < 32 implies #[trigger] v.insert_line().name[
        row * 32 + col] == if row < v.cy {
        v.name[row * 32 + col]
    } else if row == v.cy {
        SPACE
    } else {
        v.name[(row - 1) * 32 + col]
    } by {
        let k = row * 32 + col;
        assert(0 <= k < 768);
        if row < v.cy {
            assert(k < v.cy * 32);
        } else if row == v.cy {
            assert(v.cy * 32 <= k < (v.cy + 1) * 32);
        } else {
            assert(k >= (v.cy + 1) * 32);
            assert(k - 32 == (row - 1) * 32 + col);
        }
    }
}

/// A line feed goes to the start of the next line; on the bottom line every line
/// moves up one (the top one is lost) and the bottom line is blank.
pub proof fn law_newline(v: ScreenView)
    requires
        v.wf(),
    ensures
        ({
            let w = v.newline();
            &&& w.wf()
            &&& w.cx == 0
            &&& v.cy < 23 ==> w.cy == v.cy + 1 && w.name == v.name
            &&& v.cy == 23 ==> w.cy == 23 && forall|row: int, col: int|
                0 <= row < 24 && 0 <= col < 32 ==> #[trigger] w.name[row * 32 + col] == if row < 23 {
                    v.name[(row + 1) * 32 + col]
                } else {
                    SPACE
                }
        }),
{
    lemma_ops_keep_wf(v);
    if v.cy == 23 {
        assert forall|row: int, col: int| 0 <= row < 24 && 0 <= col < 32 implies #[trigger] v.newline().name[
            row * 32 + col] == if row < 23 {
            v.name[(row + 1) * 32 + col]
        } else {
            SPACE
        } by {
            let k = row * 32 + col;
            if row < 23 {
                assert(k < 736);
                assert(k + 32 == (row + 1) * 32 + col);
            } else {
                assert(k >= 736);
            }
        }
    }
}

/// `CLS` blanks every cell and homes the cursor; `LOCATE` puts the cursor at the
/// given column and row, held within 0..=31 and 0..=23; neither changes anything else.
pub proof fn law_cls_locate(v: ScreenView, x: int, y: int)
    requires
        v.wf(),
    ensures
        forall|k: int| 0 <= k < 768 ==> #[trigger] v.cls().name[k] == SPACE,
        v.cls().cx == 0 && v.cls().cy == 0,
        v.cls().wf(),
        v.locate(x, y).name == v.name,
        v.locate(x, y).cx == if x < 0 { 0 } else if x > 31 { 31 } else { x },
        v.locate(x, y).cy == if y < 0 { 0 } else if y > 23 { 23 } else { y },
        v.locate(x, y).wf(),
{
    lemma_ops_keep_wf(v);
}

/// PRINT's items: `ESC L` inserts a line; `ESC Y` with a row and a column (each
/// offset by 32) moves the cursor there; 01h and a byte of at least 40h puts the
/// graphic character of that byte less 40h; any single byte, even a lone escape or
/// 01h, is put as a character.
pub proof fn law_print_items(v: ScreenView, r: u8, c: u8, x: u8)
    ensures
        v.print(seq![ESC, 76u8]) == Some(v.insert_line()),
        v.print(seq![ESC, 89u8, r, c]) == Some(v.locate(c - 32, r - 32)),
        x >= 64 ==> v.print(seq![1u8, x]) == Some(v.put((x - 64) as u8)),
        x < 64 ==> v.print(seq![1u8, x]) is None,
        v.print(seq![x]) == Some(v.put(x)),
{
    assert(v.insert_line().print_from(seq![ESC, 76u8], 2) == Some(v.insert_line()));
    assert(v.locate(c - 32, r - 32).print_from(seq![ESC, 89u8, r, c], 4) == Some(v.locate(c - 32, r - 32)));
    assert(v.put((x - 64) as u8).print_from(seq![1u8, x], 2) == Some(v.put((x - 64) as u8)));
    assert(v.put(x).print_from(seq![x], 1) == Some(v.put(x)));
}

/// PRINT of printable text is defined on any screen and keeps it well-formed.
pub proof fn law_printable_text_prints(v: ScreenView, s: Seq<u8>)
    requires
        printable(s),
        v.wf(),
    ensures
        v.print(s) matches Some(r) && r.wf(),
{
    lemma_print_from_printable(v, s, 0);
}

impl Screen1 {
    /// The character code of cell `pos` (row by row).
    pub fn char_at(&self, pos: usize) -> (c: u8)
        requires
            self@.wf(),
            pos < 768,
        ensures
            c == self@.name[pos as int],
    {
        self.name[pos]
    }

    /// Colour entry `i`.
    pub fn color(&self, i: usize) -> (c: u8)
        requires
            self@.wf(),
            i < 32,
        ensures
            c == self@.colors[i as int],
    {
        self.colors[i]
    }

    pub fn set_color(&mut self, i: usize, c: u8)
        requires
            old(self)@.wf(),
            i < 32,
        ensures
            final(self)@ =~~= (ScreenView { colors: old(self)@.colors.update(i as int, c), ..old(self)@ }),
            final(self)@.wf(),
    {
        self.colors[i] = c;
    }

    pub fn backdrop(&self) -> (b: u8)
        ensures
            b == self@.backdrop,
    {
        self.backdrop
    }

    pub fn set_backdrop(&mut self, b: u8)
        requires
            old(self)@.wf(),
        ensures
            final(self)@ == (ScreenView { backdrop: b, ..old(self)@ }),
            final(self)@.wf(),
    {
        self.backdrop = b;
    }

    pub fn set_pattern(&mut self, code: usize, p: [u8; 8])
        requires
            old(self)@.wf(),
            code < 256,
        ensures
            final(self)@ =~~= (ScreenView { patterns: old(self)@.patterns.update(code as int, p), ..old(self)@ }),
            final(self)@.wf(),
    {
        self.patterns.set(code, p);
    }

    pub fn pattern(&self, code: usize) -> (p: [u8; 8])
        requires
            self@.wf(),
            code < 256,
        ensures
            p == self@.patterns[code as int],
    {
        self.patterns[code]
    }

    pub fn set_sprite_pattern(&mut self, n: usize, p: [u8; 8])
        requires
            old(self)@.wf(),
            n < 2,
        ensures
            final(self)@ =~~= (ScreenView { sprite_pat: old(self)@.sprite_pat.update(n as int, p), ..old(self)@ }),
            final(self)@.wf(),
    {
        self.sprite_pat[n] = p;
    }

    /// Sprite `n`'s x, y and colour.
    pub fn sprite(&self, n: usize) -> (s: (i32, i32, u8))
        requires
            self@.wf(),
            n < 2,
        ensures
            s == self@.sprites[n as int],
    {
        self.sprites[n]
    }

    pub fn set_sprite(&mut self, n: usize, s: (i32, i32, u8))
        requires
            old(self)@.wf(),
            n < 2,
        ensures
            final(self)@ =~~= (ScreenView { sprites: old(self)@.sprites.update(n as int, s), ..old(self)@ }),
            final(self)@.wf(),
    {
        self.sprites[n] = s;
    }
}

/// Whether bit `x` of a pattern row is set, bit 7 being the leftmost dot.
pub open spec fn pattern_bit(row: u8, x: int) -> bool {
    row & (0x80u8 >> (x as u8)) != 0
}

/// The palette entry that a colour nibble shows: colour 0 is transparent and
/// shows the backdrop.
pub open spec fn shown_color(nibble: u8, backdrop: u8) -> u8 {
    if nibble == 0 {
        backdrop & 15
    } else {
        nibble
    }
}

/// Width and height of the picture in dots, and its number of dots.
pub const WIDTH: usize = 256;
pub const HEIGHT: usize = 192;
pub const DOTS: usize = 49152;

impl ScreenView {
    /// The colour of dot (`px`, `py`) of the text layer: the dot of the cell's
    /// character pattern in the foreground colour of its group, or the background.
    pub open spec fn tile_dot(self, px: int, py: int) -> u8 {
        let ch = self.name[(py / 8) * 32 + px / 8];
        let c = self.colors[(ch / 8) as int];
        if pattern_bit(self.patterns[ch as int][py % 8], px % 8) {
            shown_color(c >> 4, self.backdrop)
        } else {
            shown_color(c & 15, self.backdrop)
        }
    }

    /// Whether sprite `n` covers dot (`px`, `py`): it is visible (colour not 0, y
    /// below 208) and its pattern has that dot, the pattern standing at x and one
    /// line below y.
    pub open spec fn sprite_covers(self, n: int, px: int, py: int) -> bool {
        let (sx, sy, color) = self.sprites[n];
        &&& color != 0
        &&& sy < 208
        &&& 0 <= px - sx < 8
        &&& 0 <= py - sy - 1 < 8
        &&& pattern_bit(self.sprite_pat[n][py - sy - 1], px - sx)
    }

    /// The palette entry of dot (`px`, `py`): sprite 0 in front of sprite 1 in
    /// front of the text.
    pub open spec fn dot(self, px: int, py: int) -> u8 {
        if self.sprite_covers(0, px, py) {
            self.sprites[0].2 & 15
        } else if self.sprite_covers(1, px, py) {
            self.sprites[1].2 & 15
        } else {
            self.tile_dot(px, py)
        }
    }

    /// The whole picture, row by row.
    pub open spec fn picture(self) -> Seq<u8> {
        Seq::new(DOTS as nat, |k: int| self.dot(k % 256, k / 256))
    }
}

/// The MSX2 start-up palette, 3 bits per red, green and blue.
pub open spec fn palette_levels(i: int) -> (u8, u8, u8) {
    let t = seq![
        (0u8, 0u8, 0u8), (0u8, 0u8, 0u8), (1u8, 6u8, 1u8), (3u8, 7u8, 3u8),
        (1u8, 1u8, 7u8), (2u8, 3u8, 7u8), (5u8, 1u8, 1u8), (2u8, 6u8, 7u8),
        (7u8, 1u8, 1u8), (7u8, 3u8, 3u8), (6u8, 6u8, 1u8), (6u8, 6u8, 4u8),
        (1u8, 4u8, 1u8), (6u8, 2u8, 5u8), (5u8, 5u8, 5u8), (7u8, 7u8, 7u8),
    ];
    t[i]
}

fn level_to_byte(l: u8) -> (b: u8)
    requires
        l <= 7,
    ensures
        b == l * 255 / 7,
{
    (l as u32 * 255 / 7) as u8
}

/// The 8-bit red, green and blue of palette entry `i` (taken modulo 16).
pub fn msx_color(i: u8) -> (rgb: (u8, u8, u8))
    ensures
        ({
            let (r, g, b) = palette_levels((i & 15) as int);
            rgb.0 == r * 255 / 7 && rgb.1 == g * 255 / 7 && rgb.2 == b * 255 / 7
        }),
{
    let (r, g, b) = match i & 15 {
        0 => (0u8, 0u8, 0u8),
        1 => (0, 0, 0),
        2 => (1, 6, 1),
        3 => (3, 7, 3),
        4 => (1, 1, 7),
        5 => (2, 3, 7),
        6 => (5, 1, 1),
        7 => (2, 6, 7),
        8 => (7, 1, 1),
        9 => (7, 3, 3),
        10 => (6, 6, 1),
        11 => (6, 6, 4),
        12 => (1, 4, 1),
        13 => (6, 2, 5),
        14 => (5, 5, 5),
        _ => (7, 7, 7),
    };
    proof {
        assert((i & 15) < 16) by (bit_vector);
    }
    (level_to_byte(r), level_to_byte(g), level_to_byte(b))
}

impl Screen1 {
    fn tile_dot(&self, px: usize, py: usize) -> (c: u8)
        requires
            self@.wf(),
            px < 256,
            py < 192,
        ensures
            c == self@.tile_dot(px as int, py as int),
    {
        let ch = self.name[(py / 8) * 32 + px / 8];
        let c = self.colors[(ch / 8) as usize];
        let row = self.patterns[ch as usize][py % 8];
        let nibble = if row & (0x80u8 >> ((px % 8) as u8)) != 0 {
            c >> 4
        } else {
            c & 15
        };
        if nibble == 0 {
            self.backdrop & 15
        } else {
            nibble
        }
    }

    fn sprite_covers(&self, n: usize, px: usize, py: usize) -> (b: bool)
        requires
            self@.wf(),
            n < 2,
            px < 256,
            py < 192,
        ensures
            b == self@.sprite_covers(n as int, px as int, py as int),
    {
        let (sx, sy, color) = self.sprites[n];
        if color == 0 || sy >= 208 {
            return false;
        }
        let dx: i64 = px as i64 - sx as i64;
        let dy: i64 = py as i64 - sy as i64 - 1;
        if dx < 0 || dx >= 8 || dy < 0 || dy >= 8 {
            return false;
        }
        let row = self.sprite_pat[n][dy as usize];
        row & (0x80u8 >> (dx as u8)) != 0
    }

    /// The palette entry of dot (`px`, `py`).
    pub fn dot(&self, px: usize, py: usize) -> (c: u8)
        requires
            self@.wf(),
            px < 256,
            py < 192,
        ensures
            c == self@.dot(px as int, py as int),
    {
        if self.sprite_covers(0, px, py) {
            self.sprites[0].2 & 15
        } else if self.sprite_covers(1, px, py) {
            self.sprites[1].2 & 15
        } else {
            self.tile_dot(px, py)
        }
    }

    /// The picture as palette entries, 256 dots a row, 192 rows.
    pub fn render(&self) -> (img: Vec<u8>)
        requires
            self@.wf(),
        ensures
            img@ == self@.picture(),
    {
        let mut img: Vec<u8> = Vec::new();
        let mut k: usize = 0;
        while k < DOTS
            invariant
                self@.wf(),
                k <= DOTS,
                img@.len() == k,
                forall|j: int| 0 <= j < k ==> #[trigger] img@[j] == self@.dot(j % 256, j / 256),
            decreases DOTS - k,
        {
            img.push(self.dot(k % 256, k / 256));
            k = k + 1;
        }
        assert(img@ =~= self@.picture());
        img
    }
}

/// PRINT changes only the text and the cursor.
pub proof fn lemma_print_changes_only_text(v: ScreenView, s: Seq<u8>, i: int)
    ensures
        v.print_from(s, i) matches Some(r) ==> r == (ScreenView { name: r.name, cx: r.cx, cy: r.cy, ..v }),
    decreases s.len() - i,
{
    if 0 <= i < s.len() {
        if let Some((v2, j)) = v.print_item(s, i) {
            if i < j {
                lemma_print_changes_only_text(v2, s, j);
            }
        }
    }
}

} // verus!
