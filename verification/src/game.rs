//! The racing game's rules: the road, the car's motion, what the car runs into,
//! the random numbers of `RND(1)`, and `PRINT USING` for the times.
//!
//! The rules keep the names of the BASIC program's variables: `W` the road's left
//! edge, `T` the distance in the current class, `C` the class, `F` whether the
//! class line has been passed, `X`, `Y` the car, `XX` its sideways speed, `SP` its
//! slowness (smaller is faster), `HI` the best time.

use vstd::prelude::*;
use vstd::arithmetic::div_mod::{lemma_div_is_ordered, lemma_div_multiples_vanish};
use crate::screen::{Screen1, ScreenView, ESC, clamp, printable, law_printable_text_prints, lemma_print_changes_only_text};

verus! {

/// The diamond character of the road's shoulders.
pub const DIAMOND: u8 = 0x83;

/// `2^53`: `RND(1)` is a 53-bit random integer over this.
pub open spec fn two53() -> int {
    0x20_0000_0000_0000
}

/// Integer division rounded toward zero, as `as i32` and `/` on `i32` round.
pub open spec fn trunc_div(a: int, b: int) -> int {
    if a >= 0 {
        a / b
    } else {
        -((-a) / b)
    }
}

pub open spec fn signum(a: int) -> int {
    if a > 0 {
        1
    } else if a < 0 {
        -1
    } else {
        0
    }
}

/// The xorshift generator's step (shifts 13, 7, 17).
pub open spec fn xorshift(s: u64) -> u64 {
    let a = s ^ (s << 13u64);
    let b = a ^ (a >> 7u64);
    b ^ (b << 17u64)
}

/// `RND(1)`: a 53-bit random integer `k`, standing for `k / 2^53`.
pub struct Rng {
    pub seed: u64,
}

impl Rng {
    /// The next random integer below `2^53`.
    pub fn next(&mut self) -> (k: u64)
        ensures
            final(self).seed == xorshift(old(self).seed),
            k == xorshift(old(self).seed) >> 11u64,
            k < two53(),
    {
        let mut s = self.seed;
        s = s ^ (s << 13);
        s = s ^ (s >> 7);
        s = s ^ (s << 17);
        self.seed = s;
        let k = s >> 11;
        assert(s >> 11u64 < 0x20_0000_0000_0000) by (bit_vector);
        k
    }
}

/// `S(STICK)`: right is +1, left is -1.
pub open spec fn stick_step(s: int) -> int {
    if s == 3 {
        1
    } else if s == 7 {
        -1
    } else {
        0
    }
}

pub fn s_tab(s: usize) -> (d: i32)
    ensures
        d == stick_step(s as int),
{
    match s {
        3 => 1,
        7 => -1,
        _ => 0,
    }
}

/// `STICK` from the four arrow keys: 1 up, then clockwise to 8 up-left; 0 for no
/// key or any other combination.
pub open spec fn stick_of_keys(up: bool, right: bool, down: bool, left: bool) -> int {
    if up && !right && !down && !left {
        1
    } else if up && right && !down && !left {
        2
    } else if !up && right && !down && !left {
        3
    } else if !up && right && down && !left {
        4
    } else if !up && !right && down && !left {
        5
    } else if !up && !right && down && left {
        6
    } else if !up && !right && !down && left {
        7
    } else if up && !right && !down && left {
        8
    } else {
        0
    }
}

pub fn stick_direction(up: bool, right: bool, down: bool, left: bool) -> (s: usize)
    ensures
        s == stick_of_keys(up, right, down, left),
{
    match (up, right, down, left) {
        (true, false, false, false) => 1,
        (true, true, false, false) => 2,
        (false, true, false, false) => 3,
        (false, true, true, false) => 4,
        (false, false, true, false) => 5,
        (false, false, true, true) => 6,
        (false, false, false, true) => 7,
        (true, false, false, true) => 8,
        _ => 0,
    }
}

/// `CH(code)`: what the car runs into on a character: 1 road, 2 safety zone (the
/// shoulder's diamonds), 3 an obstacle car (and the blank off the road), 4 the class
/// line (letters), 0 nothing.
pub open spec fn hit_kind(code: int) -> int {
    if code == 32 {
        3
    } else if code == 131 || code == 133 {
        2
    } else if 161 <= code <= 255 && (code - 161) % 8 == 0 {
        3
    } else if 65 <= code < 91 {
        4
    } else if 33 <= code <= 99 {
        1
    } else {
        0
    }
}

pub fn hit_kind_of(code: u8) -> (k: i32)
    ensures
        k == hit_kind(code as int),
{
    if code == 32 {
        3
    } else if code == 131 || code == 133 {
        2
    } else if code >= 161 && (code - 161) % 8 == 0 {
        3
    } else if 65 <= code && code < 91 {
        4
    } else if 33 <= code && code <= 99 {
        1
    } else {
        0
    }
}

/// `W$(w)`: insert a line at the cursor, then the road with its left edge at
/// column `w + 1`: `w + 1` diamonds, `a%%%%%%b`, and diamonds to the 32nd column.
pub open spec fn road_line(w: int) -> Seq<u8> {
    seq![ESC, 76u8] + Seq::new((w + 1) as nat, |k: int| DIAMOND) + seq![97u8, 37, 37, 37, 37, 37, 37, 98]
        + Seq::new((23 - w) as nat, |k: int| DIAMOND)
}

pub fn road_line_of(w: usize) -> (s: Vec<u8>)
    requires
        w <= 22,
    ensures
        s@ == road_line(w as int),
        printable(s@),
{
    let mut s: Vec<u8> = Vec::new();
    s.push(ESC);
    s.push(76);
    let mut k: usize = 0;
    while k < w + 1
        invariant
            k <= w + 1 <= 23,
            s@ == seq![ESC, 76u8] + Seq::new(k as nat, |j: int| DIAMOND),
        decreases w + 1 - k,
    {
        s.push(DIAMOND);
        k = k + 1;
        assert(s@ =~= seq![ESC, 76u8] + Seq::new(k as nat, |j: int| DIAMOND));
    }
    let mid: [u8; 8] = [97, 37, 37, 37, 37, 37, 37, 98];
    let mut m: usize = 0;
    while m < 8
        invariant
            m <= 8,
            mid@ == seq![97u8, 37, 37, 37, 37, 37, 37, 98],
            s@ == seq![ESC, 76u8] + Seq::new((w + 1) as nat, |j: int| DIAMOND) + mid@.subrange(0, m as int),
        decreases 8 - m,
    {
        s.push(mid[m]);
        m = m + 1;
        assert(s@ =~= seq![ESC, 76u8] + Seq::new((w + 1) as nat, |j: int| DIAMOND) + mid@.subrange(
            0,
            m as int,
        ));
    }
    let ghost head = s@;
    let mut k: usize = 0;
    while k < 23 - w
        invariant
            w <= 22,
            k <= 23 - w,
            s@ == head + Seq::new(k as nat, |j: int| DIAMOND),
        decreases 23 - w - k,
    {
        s.push(DIAMOND);
        k = k + 1;
        assert(s@ =~= head + Seq::new(k as nat, |j: int| DIAMOND));
    }
    assert(mid@.subrange(0, 8) =~= mid@);
    assert(s@ =~= road_line(w as int));
    assert forall|k: int| 0 < k < s@.len() && s@[k - 1] == 1 implies #[trigger] s@[k] >= 64 by {
        assert(s@[k - 1] != 1);
    }
    s
}

/// The decimal digits of `n`.
pub open spec fn digits(n: nat) -> Seq<u8>
    decreases n,
{
    if n < 10 {
        seq![(48 + n) as u8]
    } else {
        digits(n / 10) + seq![(48 + n % 10) as u8]
    }
}

/// `n` in decimal, with a minus sign when negative (as `to_string`).
pub open spec fn decimal(n: int) -> Seq<u8> {
    if n < 0 {
        seq![45u8] + digits((-n) as nat)
    } else {
        digits(n as nat)
    }
}

fn digits_of(n: u64) -> (s: Vec<u8>)
    ensures
        s@ == digits(n as nat),
    decreases n,
{
    if n < 10 {
        let mut s = Vec::new();
        s.push(48 + n as u8);
        s
    } else {
        let mut s = digits_of(n / 10);
        s.push(48 + (n % 10) as u8);
        s
    }
}

/// `n` in decimal.
pub fn decimal_of(n: i32) -> (s: Vec<u8>)
    ensures
        s@ == decimal(n as int),
{
    if n < 0 {
        let m = (-(n as i64)) as u64;
        let d = digits_of(m);
        let mut s = Vec::new();
        s.push(45);
        let mut i: usize = 0;
        while i < d.len()
            invariant
                i <= d.len(),
                s@ == seq![45u8] + d@.subrange(0, i as int),
            decreases d.len() - i,
        {
            s.push(d[i]);
            i = i + 1;
            assert(s@ =~= seq![45u8] + d@.subrange(0, i as int));
        }
        assert(d@.subrange(0, d@.len() as int) =~= d@);
        s
    } else {
        digits_of(n as u64)
    }
}

/// The end of the run of `#` at `i`.
pub open spec fn hashes_end(f: Seq<u8>, i: int) -> int
    decreases f.len() - i,
{
    if 0 <= i < f.len() && f[i] == 35 {
        hashes_end(f, i + 1)
    } else {
        i
    }
}

/// The `k`-th value to format, 0 past the end.
pub open spec fn value_at(vals: Seq<i32>, k: int) -> int {
    if 0 <= k < vals.len() {
        vals[k] as int
    } else {
        0
    }
}

/// A number in a field of `w` characters: right-aligned, or whole after a `%` when
/// it does not fit.
pub open spec fn using_field(s: Seq<u8>, w: int) -> Seq<u8> {
    if s.len() > w {
        seq![37u8] + s
    } else {
        Seq::new((w - s.len()) as nat, |k: int| 32u8) + s
    }
}

pub open spec fn max0(x: int) -> int {
    if x > 0 { x } else { 0 }
}

/// `PRINT USING` from `i` on with the `k`-th value next: each run of `#` is a field
/// for the next value, other bytes are copied.
pub open spec fn using_from(f: Seq<u8>, i: int, vals: Seq<i32>, k: int) -> Seq<u8>
    decreases max0(f.len() - i),
{
    if i < 0 || i >= f.len() {
        seq![]
    } else if f[i] == 35 {
        let j = hashes_end(f, i);
        if i < j {
            using_field(decimal(value_at(vals, k)), j - i) + using_from(f, j, vals, k + 1)
        } else {
            seq![]
        }
    } else {
        seq![f[i]] + using_from(f, i + 1, vals, k)
    }
}

/// A run of `#` ends within the format, after its first `#`.
pub proof fn lemma_hashes_end(f: Seq<u8>, i: int)
    requires
        0 <= i <= f.len(),
    ensures
        i <= hashes_end(f, i) <= f.len(),
        0 <= i < f.len() && f[i] == 35 ==> i < hashes_end(f, i),
    decreases f.len() - i,
{
    if i < f.len() && f[i] == 35 {
        lemma_hashes_end(f, i + 1);
    }
}

/// A run of `#` from `i` to the end of the format ends there.
proof fn lemma_hashes_to_end(f: Seq<u8>, i: int)
    requires
        0 <= i <= f.len(),
        forall|k: int| i <= k < f.len() ==> #[trigger] f[k] == 35,
    ensures
        hashes_end(f, i) == f.len(),
    decreases f.len() - i,
{
    if i < f.len() {
        lemma_hashes_to_end(f, i + 1);
    }
}

proof fn lemma_using_plain(f: Seq<u8>, i: int, vals: Seq<i32>, k: int)
    requires
        0 <= i <= f.len(),
        forall|m: int| 0 <= m < f.len() ==> #[trigger] f[m] != 35,
    ensures
        using_from(f, i, vals, k) == f.subrange(i, f.len() as int),
    decreases f.len() - i,
{
    if i < f.len() {
        lemma_using_plain(f, i + 1, vals, k);
        assert(seq![f[i]] + f.subrange(i + 1, f.len() as int) =~= f.subrange(i, f.len() as int));
    } else {
        assert(f.subrange(i, f.len() as int) =~= seq![]);
    }
}

/// `PRINT USING` copies a format without `#` as it is; a run of `w` `#` shows a
/// one-digit value right-aligned after `w - 1` spaces (a missing value as 0), and a
/// two-digit value in a one-character field in full after a `%`.
pub proof fn law_using_fields(f: Seq<u8>, vals: Seq<i32>, w: nat, n: i32)
    ensures
        (forall|m: int| 0 <= m < f.len() ==> #[trigger] f[m] != 35) ==> using_from(f, 0, vals, 0) == f,
        w >= 1 && 0 <= n <= 9 ==> using_from(Seq::new(w, |k: int| 35u8), 0, seq![n], 0) == Seq::new(
            (w - 1) as nat,
            |k: int| 32u8,
        ) + seq![(48 + n) as u8],
        w >= 1 ==> using_from(Seq::new(w, |k: int| 35u8), 0, Seq::<i32>::empty(), 0) == Seq::new(
            (w - 1) as nat,
            |k: int| 32u8,
        ) + seq![48u8],
        10 <= n <= 99 ==> using_from(seq![35u8], 0, seq![n], 0) == seq![
            37u8,
            (48 + n / 10) as u8,
            (48 + n % 10) as u8,
        ],
{
    if forall|m: int| 0 <= m < f.len() ==> #[trigger] f[m] != 35 {
        lemma_using_plain(f, 0, vals, 0);
        assert(f.subrange(0, f.len() as int) =~= f);
    }
    if w >= 1 {
        let h = Seq::new(w, |k: int| 35u8);
        lemma_hashes_to_end(h, 0);
        assert(using_from(h, w as int, seq![n], 1) == Seq::<u8>::empty());
        assert(using_from(h, w as int, Seq::<i32>::empty(), 1) == Seq::<u8>::empty());
        if 0 <= n <= 9 {
            assert(decimal(n as int) == seq![(48 + n) as u8]);
            assert(using_field(seq![(48 + n) as u8], w as int) + Seq::<u8>::empty() =~= Seq::new(
                (w - 1) as nat,
                |k: int| 32u8,
            ) + seq![(48 + n) as u8]);
        }
        assert(decimal(0) == seq![48u8]);
        assert(using_field(seq![48u8], w as int) + Seq::<u8>::empty() =~= Seq::new(
            (w - 1) as nat,
            |k: int| 32u8,
        ) + seq![48u8]);
    }
    if 10 <= n <= 99 {
        let h = seq![35u8];
        lemma_hashes_to_end(h, 0);
        assert(digits((n / 10) as nat) == seq![(48 + n / 10) as u8]);
        assert(decimal(n as int) =~= seq![(48 + n / 10) as u8, (48 + n % 10) as u8]);
        assert(using_from(h, 1, seq![n], 1) == Seq::<u8>::empty());
        assert(using_field(decimal(n as int), 1) + Seq::<u8>::empty() =~= seq![
            37u8,
            (48 + n / 10) as u8,
            (48 + n % 10) as u8,
        ]);
    }
}

/// `PRINT USING fmt; vals`: each run of `#` takes the next value (0 when they run
/// out), right-aligned in the run's width, or in full after a `%` if wider.
pub fn using(fmt: &[u8], vals: &[i32]) -> (out: Vec<u8>)
    ensures
        out@ == using_from(fmt@, 0, vals@, 0),
{
    let mut out: Vec<u8> = Vec::new();
    let mut vi: usize = 0;
    let mut i: usize = 0;
    while i < fmt.len()
        invariant
            i <= fmt.len(),
            vi <= i,
            using_from(fmt@, 0, vals@, 0) == out@ + using_from(fmt@, i as int, vals@, vi as int),
        decreases fmt.len() - i,
    {
        if fmt[i] == 35 {
            let start = i;
            proof {
                lemma_hashes_end(fmt@, i as int);
            }
            while i < fmt.len() && fmt[i] == 35
                invariant
                    start <= i <= fmt.len(),
                    hashes_end(fmt@, start as int) == hashes_end(fmt@, i as int),
                decreases fmt.len() - i,
            {
                i = i + 1;
            }
            let w = i - start;
            let v: i32 = if vi < vals.len() { vals[vi] } else { 0 };
            let s = decimal_of(v);
            let ghost before = out@;
            if s.len() > w {
                out.push(37);
                let mut k: usize = 0;
                while k < s.len()
                    invariant
                        k <= s.len(),
                        out@ == before + seq![37u8] + s@.subrange(0, k as int),
                    decreases s.len() - k,
                {
                    out.push(s[k]);
                    k = k + 1;
                    assert(out@ =~= before + seq![37u8] + s@.subrange(0, k as int));
                }
            } else {
                let mut k: usize = 0;
                while k < w - s.len()
                    invariant
                        s.len() <= w,
                        k <= w - s.len(),
                        out@ == before + Seq::new(k as nat, |j: int| 32u8),
                    decreases w - s.len() - k,
                {
                    out.push(32);
                    k = k + 1;
                    assert(out@ =~= before + Seq::new(k as nat, |j: int| 32u8));
                }
                let ghost mid = out@;
                let mut k: usize = 0;
                while k < s.len()
                    invariant
                        k <= s.len(),
                        out@ == mid + s@.subrange(0, k as int),
                    decreases s.len() - k,
                {
                    out.push(s[k]);
                    k = k + 1;
                    assert(out@ =~= mid + s@.subrange(0, k as int));
                }
            }
            proof {
                assert(s@.subrange(0, s@.len() as int) =~= s@);
                assert(out@ =~= before + using_field(decimal(value_at(vals@, vi as int)), w as int));
                assert(using_from(fmt@, start as int, vals@, vi as int) == using_field(
                    decimal(value_at(vals@, vi as int)),
                    w as int,
                ) + using_from(fmt@, i as int, vals@, vi + 1));
                assert(out@ + using_from(fmt@, i as int, vals@, vi + 1) =~= before + using_from(
                    fmt@,
                    start as int,
                    vals@,
                    vi as int,
                ));
            }
            vi = vi + 1;
        } else {
            let ghost before = out@;
            out.push(fmt[i]);
            proof {
                assert(out@ + using_from(fmt@, i + 1, vals@, vi as int) =~= before + using_from(
                    fmt@,
                    i as int,
                    vals@,
                    vi as int,
                ));
            }
            i = i + 1;
        }
    }
    assert(out@ + seq![] =~= out@);
    out
}

/// The bytes of `parts` one after another.
pub fn cat(parts: &[&[u8]]) -> (out: Vec<u8>)
    ensures
        out@ == parts@.fold_left(Seq::<u8>::empty(), |acc: Seq<u8>, p: &[u8]| acc + p@),
{
    let mut out: Vec<u8> = Vec::new();
    let mut i: usize = 0;
    while i < parts.len()
        invariant
            i <= parts.len(),
            out@ == parts@.subrange(0, i as int).fold_left(Seq::<u8>::empty(), |acc: Seq<u8>, p: &[u8]| acc + p@),
        decreases parts.len() - i,
    {
        let p = parts[i];
        let mut k: usize = 0;
        let ghost before = out@;
        while k < p.len()
            invariant
                k <= p.len(),
                out@ == before + p@.subrange(0, k as int),
            decreases p.len() - k,
        {
            out.push(p[k]);
            k = k + 1;
            assert(out@ =~= before + p@.subrange(0, k as int));
        }
        proof {
            assert(p@.subrange(0, p@.len() as int) =~= p@);
            let f = |acc: Seq<u8>, p: &[u8]| acc + p@;
            assert(parts@.subrange(0, i + 1).drop_last() =~= parts@.subrange(0, i as int));
        }
        i = i + 1;
    }
    assert(parts@.subrange(0, parts@.len() as int) =~= parts@);
    out
}

/// The BASIC program's numeric variables.
#[derive(Clone, Copy)]
pub struct Vars {
    pub hi: i32,
    pub c: i32,
    pub f: bool,
    pub t: i32,
    pub x: i32,
    pub y: i32,
    pub w: i32,
    pub xx: i32,
    pub sp: i32,
}

impl Vars {
    /// The variables during a race: the road within the screen, a class 1..=5, the
    /// distance below 10000, speeds within their limits, the car above the bottom of
    /// the screen, and sideways within a strip of the road that grows only as the
    /// car is pushed down (it is pushed down whenever it is off the road).
    pub open spec fn racing(self) -> bool {
        &&& 0 <= self.w <= 22
        &&& 1 <= self.c <= 5
        &&& 0 <= self.t <= 9999
        &&& 0 <= self.sp <= 6
        &&& -4 <= self.xx <= 4
        &&& 0 <= self.y < 206
        &&& -(12036 + self.y) <= self.x <= 12036 + self.y
    }
}

/// Where line 140's `ON CH(...) GOTO` leads.
#[derive(Clone, Copy, PartialEq, Eq, Debug)]
pub enum Next {
    /// `GOTO 100`: the next step.
    Main,
    /// Line 160: the safety zone pushes the car back.
    Safety,
    /// Line 170: a crash.
    Crash,
    /// Line 190: the class line.
    ClassLine,
}

/// What one step of the race (lines 100 to 140) did besides the screen and the
/// variables: where it leads, whether it placed an obstacle or the class line (each
/// makes the step take longer), and the engine's tone period (`SOUND 0,Y`) unless
/// the car left the screen.
#[derive(Clone, Copy, PartialEq, Eq, Debug)]
pub struct StepOutcome {
    pub next: Next,
    pub obstacle: bool,
    pub class_line: bool,
    pub engine: Option<u8>,
}

/// The class line's text: 64 copies of the letter of the next class (E for class 1
/// down to A for class 5).
pub open spec fn class_line_text(c: int) -> Seq<u8> {
    Seq::new(64, |k: int| (70 - c) as u8)
}

/// Where the car's centre is on the screen (row by row), rounding toward zero.
pub open spec fn car_cell(x: int, y: int) -> int {
    trunc_div(x + 4, 8) + trunc_div(y, 8) * 32
}

/// The spacing, in units of `2^-53`, of the `f64` values near `x · 2^-53`, for
/// `0 <= x < 2^60` (values below 128): 1 below 1.0, doubling at each power of two.
pub open spec fn f64_grid(x: int) -> int {
    if x < 0x20_0000_0000_0000 {
        1
    } else if x < 0x40_0000_0000_0000 {
        2
    } else if x < 0x80_0000_0000_0000 {
        4
    } else if x < 0x100_0000_0000_0000 {
        8
    } else if x < 0x200_0000_0000_0000 {
        16
    } else if x < 0x400_0000_0000_0000 {
        32
    } else if x < 0x800_0000_0000_0000 {
        64
    } else {
        128
    }
}

/// `x · 2^-53` rounded to an `f64` as `f64` arithmetic rounds (to the nearest, ties
/// to even), in units of `2^-53`, for `0 <= x < 2^60`.
pub open spec fn f64_round(x: int) -> int {
    let g = f64_grid(x);
    let q = x / g;
    let r = x % g;
    if 2 * r < g {
        q * g
    } else if 2 * r > g {
        (q + 1) * g
    } else if q % 2 == 0 {
        q * g
    } else {
        (q + 1) * g
    }
}

/// Rounding moves a value by at most half the spacing.
pub proof fn lemma_f64_round_bounds(x: int)
    requires
        0 <= x < 0x1000_0000_0000_0000,
    ensures
        1 <= f64_grid(x) <= 128,
        x < 0x80_0000_0000_0000 ==> f64_grid(x) <= 4,
        x < 0x200_0000_0000_0000 ==> f64_grid(x) <= 16,
        x < 0x400_0000_0000_0000 ==> f64_grid(x) <= 32,
        0 <= f64_round(x),
        x - f64_grid(x) / 2 <= f64_round(x) <= x + f64_grid(x) / 2,
        f64_round(x) >= (x / two53()) * two53(),
{
    let g = f64_grid(x);
    let q = x / g;
    let r = x % g;
    let h = two53() / g;
    assert(h * g == two53() && h >= 1) by {
        if g == 1 {
            assert(h == 0x20_0000_0000_0000);
        } else if g == 2 {
            assert(h == 0x10_0000_0000_0000);
        } else if g == 4 {
            assert(h == 0x8_0000_0000_0000);
        } else if g == 8 {
            assert(h == 0x4_0000_0000_0000);
        } else if g == 16 {
            assert(h == 0x2_0000_0000_0000);
        } else if g == 32 {
            assert(h == 0x1_0000_0000_0000);
        } else if g == 64 {
            assert(h == 0x8000_0000_0000);
        } else {
            assert(h == 0x4000_0000_0000);
        }
    }
    let m = x / two53();
    assert(m * two53() <= x && m >= 0) by (nonlinear_arith)
        requires m == x / two53(), x >= 0, two53() == 0x20_0000_0000_0000;
    assert(m * two53() == (m * h) * g) by (nonlinear_arith)
        requires h * g == two53();
    lemma_div_is_ordered((m * h) * g, x, g);
    lemma_div_multiples_vanish(m * h, g);
    assert(q >= m * h);
    assert(q * g >= (m * h) * g) by (nonlinear_arith)
        requires q >= m * h, g >= 1;
    assert(1 <= g <= 128);
    assert(x == q * g + r && 0 <= r < g) by (nonlinear_arith)
        requires g >= 1, q == x / g, r == x % g;
    assert(q >= 0) by (nonlinear_arith)
        requires g >= 1, q == x / g, x >= 0;
    assert(q * g >= 0) by (nonlinear_arith)
        requires q >= 0, g >= 1;
    assert((q + 1) * g == q * g + g) by (nonlinear_arith);
    assert(g % 2 == 0 || g == 1);
}

/// `f64_round` on machine integers.
fn f64_round_of(x: u64) -> (r: u64)
    requires
        x < 0x1000_0000_0000_0000,
    ensures
        r == f64_round(x as int),
        r <= x + 64,
{
    let g: u64 = if x < 0x20_0000_0000_0000 {
        1
    } else if x < 0x40_0000_0000_0000 {
        2
    } else if x < 0x80_0000_0000_0000 {
        4
    } else if x < 0x100_0000_0000_0000 {
        8
    } else if x < 0x200_0000_0000_0000 {
        16
    } else if x < 0x400_0000_0000_0000 {
        32
    } else if x < 0x800_0000_0000_0000 {
        64
    } else {
        128
    };
    proof {
        lemma_f64_round_bounds(x as int);
    }
    let q = x / g;
    let r = x % g;
    assert(x as int == q * g + r && q * g <= x) by (nonlinear_arith)
        requires g >= 1, q == x / g, r == x % g, x >= 0;
    assert((q + 1) * g == q * g + g) by (nonlinear_arith);
    if 2 * r < g {
        q * g
    } else if 2 * r > g {
        (q + 1) * g
    } else if q % 2 == 0 {
        q * g
    } else {
        (q + 1) * g
    }
}

/// Line 100 before its bounds: `W + RND(1)·3 - 1` in `f64` (with `RND(1) = k / 2^53`),
/// truncated toward zero. The product and the sum round as `f64` does; taking 1
/// away is exact.
pub open spec fn sway_raw(w: int, k: int) -> int {
    trunc_div(f64_round(w * two53() + f64_round(3 * k)) - two53(), two53())
}

/// Line 100: the road's edge `w` sways by -1, 0 or +1, 23 becoming 22 and -1
/// becoming 0. (From 22 the rounding can reach 24, for which there is no road line
/// `W$(24)`: see `sway_in_range`.)
pub open spec fn sway(w: int, k: int) -> int {
    let w0 = sway_raw(w, k);
    if w0 == 23 {
        22
    } else if w0 == -1 {
        0
    } else {
        w0
    }
}

/// The next race step has a road line to draw: the swayed edge is at most 22.
pub open spec fn sway_in_range(v: Vars, seed: u64) -> bool {
    sway(v.w as int, (xorshift(seed) >> 11u64) as int) <= 22
}

/// The swayed edge before its bounds lies within -1..=24.
pub proof fn lemma_sway_range(w: int, k: int)
    requires
        0 <= w <= 22,
        0 <= k < two53(),
    ensures
        -1 <= sway_raw(w, k) <= 24,
        0 <= sway(w, k) <= 24,
        sway(w, k) <= 22 <==> sway_raw(w, k) != 24,
        w == 22 || sway(w, k) <= 22,
{
    lemma_f64_round_bounds(3 * k);
    let a = f64_round(3 * k);
    assert(0 <= a <= 3 * k + 2);
    lemma_f64_round_bounds(w * two53() + a);
    let b = f64_round(w * two53() + a);
    assert(0 <= b <= w * two53() + a + 16);
    let c = b - two53();
    if c >= 0 {
        assert(c / two53() <= w + 2) by (nonlinear_arith)
            requires 0 <= c <= (w + 2) * two53() + 15, two53() == 0x20_0000_0000_0000, w >= 0;
        assert(c / two53() <= 24);
    } else {
        assert((-c) / two53() <= 1) by (nonlinear_arith)
            requires 0 < -c <= two53(), two53() == 0x20_0000_0000_0000;
    }
}

/// `sway_raw` on machine integers.
pub(crate) fn sway_raw_of(w: i32, k: u64) -> (w0: i64)
    requires
        0 <= w <= 22,
        k < two53(),
    ensures
        w0 == sway_raw(w as int, k as int),
        -1 <= w0 <= 24,
{
    proof {
        lemma_sway_range(w as int, k as int);
        lemma_f64_round_bounds(3 * k);
    }
    let a = f64_round_of(3 * k);
    let b = f64_round_of(w as u64 * 0x20_0000_0000_0000 + a);
    trunc_div_i64(b as i64 - 0x20_0000_0000_0000, 0x20_0000_0000_0000)
}

/// Line 110: the road moves down a line with its edge at `w`; the distance grows with
/// the square of the car's height above line 160; past 9999 the class line is drawn
/// and the distance restarts, otherwise an obstacle car may appear (more often in
/// higher classes). The screen, random seed, distance, `F`, and whether an obstacle
/// and the class line appeared.
pub open spec fn scroll_road(v: Vars, w: int, scr: ScreenView, seed: u64) -> (ScreenView, u64, int, bool, bool, bool) {
    let scr1 = scr.locate(0, 0).print(road_line(w)).unwrap().newline();
    let t0 = v.t + (160 - v.y) * (160 - v.y) / 80;
    if t0 > 9999 {
        (scr1.locate(0, 0).print(class_line_text(v.c as int)).unwrap(), seed, 0, false, false, true)
    } else {
        let s2 = xorshift(seed);
        let k2 = (s2 >> 11u64) as int;
        // RND(1)·(C + 7) > 6, the product rounded as f64
        if f64_round(k2 * (v.c + 7)) > 6 * two53() {
            let s3 = xorshift(s2);
            let k3 = (s3 >> 11u64) as int;
            let s4 = xorshift(s3);
            let k4 = (s4 >> 11u64) as int;
            // W + 2 + RND(1)·6 and RND(1)·12, rounded as f64, then truncated
            let ox = f64_round((w + 2) * two53() + f64_round(6 * k3)) / two53();
            let car = 161 + f64_round(12 * k4) / two53() * 8;
            (scr1.locate(ox, 0).print(seq![car as u8]).unwrap(), s4, t0, v.f, true, false)
        } else {
            (scr1, s2, t0, v.f, false, false)
        }
    }
}

/// Lines 120 to 140: the trigger speeds the car up (`SP` 0..=6, from 7 back to 5),
/// the stick steers with inertia (`XX` within -4..=4), and the car moves: down by
/// `SP` and one step toward the top, sideways by `XX`.
pub open spec fn steer(v: Vars, trigger: bool, stick: int) -> Vars {
    let sp0 = v.sp + 1 + if trigger { -2int } else { 0int };
    let sp = if sp0 < 0 { 0 } else if sp0 > 6 { 5 } else { sp0 };
    let xx = clamp(v.xx + stick_step(stick), -4, 4);
    let y = v.y + sp - signum(v.y as int);
    let x = v.x + xx;
    Vars { sp: sp as i32, xx: xx as i32, y: y as i32, x: x as i32, ..v }
}

/// Line 140: off the screen's bottom (or top) is a crash; otherwise what the car's
/// cell holds decides.
pub open spec fn landing(x: int, y: int, scr: ScreenView) -> Next {
    let pos = car_cell(x, y);
    let code: int = if 0 <= pos < 768 { scr.name[pos] as int } else { 0 };
    if trunc_div(y, 190) != 0 {
        Next::Crash
    } else {
        let k = hit_kind(code);
        if k == 1 {
            Next::Main
        } else if k == 3 {
            Next::Crash
        } else if k == 4 {
            Next::ClassLine
        } else {
            Next::Safety
        }
    }
}

/// Both sprites at the car's position.
pub open spec fn place_car(scr: ScreenView, x: int, y: int) -> ScreenView {
    ScreenView {
        sprites: scr.sprites.update(0, (x as i32, y as i32, scr.sprites[0].2)).update(
            1,
            (x as i32, y as i32, scr.sprites[1].2),
        ),
        ..scr
    }
}

/// One race step (lines 100 to 140): the variables, the screen, the random seed,
/// and the outcome.
pub open spec fn race_step(v: Vars, scr: ScreenView, seed: u64, trigger: bool, stick: int) -> (
    Vars,
    ScreenView,
    u64,
    StepOutcome,
) {
    let s1 = xorshift(seed);
    let w = sway(v.w as int, (s1 >> 11u64) as int);
    let (scr2, seed2, t, f, obstacle, class_line) = scroll_road(v, w, scr, s1);
    let v2 = steer(Vars { t: t as i32, f, w: w as i32, ..v }, trigger, stick);
    let scr3 = place_car(scr2, v2.x as int, v2.y as int);
    let off_screen = trunc_div(v2.y as int, 190) != 0;
    (
        v2,
        scr3,
        seed2,
        StepOutcome {
            next: landing(v2.x as int, v2.y as int, scr3),
            obstacle,
            class_line,
            engine: if off_screen { None } else { Some(v2.y as u8) },
        },
    )
}

/// `n / d` rounded toward zero.
fn trunc_div_i64(n: i64, d: i64) -> (q: i64)
    requires
        d > 0,
        n > i64::MIN,
    ensures
        q == trunc_div(n as int, d as int),
{
    if n >= 0 {
        (n as u64 / d as u64) as i64
    } else {
        -(((-n) as u64 / d as u64) as i64)
    }
}

fn sway_road(w: i32, k: u64) -> (w2: i32)
    requires
        0 <= w <= 22,
        k < two53(),
        sway(w as int, k as int) <= 22,
    ensures
        w2 == sway(w as int, k as int),
        0 <= w2 <= 22,
{
    proof {
        lemma_sway_range(w as int, k as int);
    }
    let w0 = sway_raw_of(w, k);
    if w0 == 23 {
        22
    } else if w0 == -1 {
        0
    } else {
        w0 as i32
    }
}

/// The obstacle car's column and code from the random integers `k3`, `k4`.
proof fn lemma_obstacle_range(w: int, k3: int, k4: int)
    requires
        0 <= w <= 22,
        0 <= k3 < two53(),
        0 <= k4 < two53(),
    ensures
        0 <= f64_round(6 * k3) <= 6 * two53() + 2,
        0 <= f64_round((w + 2) * two53() + f64_round(6 * k3)) / two53() <= 31,
        0 <= f64_round(12 * k4) / two53() <= 11,
{
    lemma_f64_round_bounds(6 * k3);
    let a = f64_round(6 * k3);
    lemma_f64_round_bounds((w + 2) * two53() + a);
    let b = f64_round((w + 2) * two53() + a);
    assert(0 <= b <= 31 * two53());
    assert(b / two53() <= 31) by (nonlinear_arith)
        requires 0 <= b <= 31 * two53(), two53() == 0x20_0000_0000_0000;
    lemma_f64_round_bounds(12 * k4);
    let c = f64_round(12 * k4);
    assert(0 <= c <= 12 * two53() - 4);
    assert(c / two53() <= 11) by (nonlinear_arith)
        requires 0 <= c <= 12 * two53() - 4, two53() == 0x20_0000_0000_0000;
}

proof fn lemma_printable_class_line(c: int)
    requires
        1 <= c <= 5,
    ensures
        printable(class_line_text(c)),
{
}

fn scroll(v: &mut Vars, w: i32, scr: &mut Screen1, rng: &mut Rng) -> (r: (bool, bool))
    requires
        old(v).racing(),
        0 <= w <= 22,
        old(scr)@.wf(),
    ensures
        final(scr)@.wf(),
        ({
            let (scr2, seed2, t, f, obstacle, class_line) = scroll_road(*old(v), w as int, old(scr)@, old(rng).seed);
            &&& final(scr)@ == scr2
            &&& final(rng).seed == seed2
            &&& *final(v) == Vars { t: t as i32, f, ..*old(v) }
            &&& r == (obstacle, class_line)
            &&& 0 <= t <= 9999
        }),
{
    scr.locate(0, 0);
    let line = road_line_of(w as usize);
    proof {
        law_printable_text_prints(scr@, line@);
    }
    scr.println(line.as_slice());
    let d = 160 - v.y;
    assert(0 <= d * d <= 160 * 160) by (nonlinear_arith)
        requires -46 < d <= 160;
    let t0 = v.t + d * d / 80;
    if t0 > 9999 {
        v.t = 0;
        v.f = false;
        scr.locate(0, 0);
        let text = [(70 - v.c) as u8; 64];
        proof {
            assert(text@ =~= class_line_text(v.c as int));
            lemma_printable_class_line(v.c as int);
            law_printable_text_prints(scr@, text@);
        }
        scr.print(&text);
        (false, true)
    } else {
        v.t = t0;
        let k2 = rng.next();
        assert(k2 * (v.c + 7) <= 12 * two53()) by (nonlinear_arith)
            requires k2 < two53(), 1 <= v.c <= 5;
        let p = f64_round_of(k2 * (v.c + 7) as u64);
        if p > 6 * 0x20_0000_0000_0000 {
            let k3 = rng.next();
            let k4 = rng.next();
            proof {
                lemma_obstacle_range(w as int, k3 as int, k4 as int);
            }
            let a = f64_round_of(6 * k3);
            let b = f64_round_of((w as u64 + 2) * 0x20_0000_0000_0000 + a);
            let ox = (b / 0x20_0000_0000_0000) as i32;
            let q4 = f64_round_of(12 * k4) / 0x20_0000_0000_0000;
            let car: u8 = 161 + q4 as u8 * 8;
            scr.locate(ox, 0);
            let one = [car];
            proof {
                assert(one@ =~= seq![car]);
                law_printable_text_prints(scr@, one@);
            }
            scr.print(&one);
            (true, false)
        } else {
            (false, false)
        }
    }
}

fn steer_car(v: &mut Vars, trigger: bool, stick: usize)
    requires
        old(v).racing(),
    ensures
        *final(v) == steer(*old(v), trigger, stick as int),
{
    v.sp = v.sp + 1 + if trigger { -2 } else { 0 };
    if v.sp < 0 {
        v.sp = 0;
    } else if v.sp > 6 {
        v.sp = 5;
    }
    v.xx = v.xx + s_tab(stick);
    v.xx = if v.xx < -4 { -4 } else if v.xx > 4 { 4 } else { v.xx };
    let sgn: i32 = if v.y > 0 { 1 } else if v.y < 0 { -1 } else { 0 };
    v.y = v.y + v.sp - sgn;
    v.x = v.x + v.xx;
}

fn landing_of(x: i32, y: i32, scr: &Screen1) -> (n: Next)
    requires
        scr@.wf(),
        -20000 < x < 20000,
    ensures
        n == landing(x as int, y as int, scr@),
{
    let pos = trunc_div_i64(x as i64 + 4, 8) + trunc_div_i64(y as i64, 8) * 32;
    let code: u8 = if 0 <= pos && pos < 768 { scr.char_at(pos as usize) } else { 0 };
    if trunc_div_i64(y as i64, 190) != 0 {
        Next::Crash
    } else {
        match hit_kind_of(code) {
            1 => Next::Main,
            3 => Next::Crash,
            4 => Next::ClassLine,
            _ => Next::Safety,
        }
    }
}

/// Lines 100 to 140: one step of the race.
pub fn main_step(v: &mut Vars, scr: &mut Screen1, rng: &mut Rng, trigger: bool, stick: usize) -> (out:
    StepOutcome)
    requires
        old(v).racing(),
        old(scr)@.wf(),
        sway_in_range(*old(v), old(rng).seed),
    ensures
        final(scr)@.wf(),
        (*final(v), final(scr)@, final(rng).seed, out) == race_step(
            *old(v),
            old(scr)@,
            old(rng).seed,
            trigger,
            stick as int,
        ),
{
    let k1 = rng.next();
    let w = sway_road(v.w, k1);
    let (obstacle, class_line) = scroll(v, w, scr, rng);
    v.w = w;
    steer_car(v, trigger, stick);
    let s0 = scr.sprite(0);
    scr.set_sprite(0, (v.x, v.y, s0.2));
    let s1 = scr.sprite(1);
    scr.set_sprite(1, (v.x, v.y, s1.2));
    let next = landing_of(v.x, v.y, scr);
    let off_screen = v.y / 190 != 0;
    StepOutcome { next, obstacle, class_line, engine: if off_screen { None } else { Some(v.y as u8) } }
}

/// The race's variables stay within their bounds from step to step: after a step
/// that goes on to the next one, and after one that lands in the safety zone and
/// pushes the car back 16 dots (line 160), the variables are again those of a race
/// (the class line, which also goes on, leaves them so too). In particular the car
/// never drifts out of a bounded strip, since off the road it is pushed down toward
/// a crash.
pub proof fn law_race_stays_in_bounds(v: Vars, scr: ScreenView, seed: u64, trigger: bool, stick: int)
    requires
        v.racing(),
        scr.wf(),
        sway_in_range(v, seed),
    ensures
        ({
            let (v2, scr2, seed2, out) = race_step(v, scr, seed, trigger, stick);
            &&& scr2.wf()
            &&& (out.next == Next::Main || out.next == Next::ClassLine) ==> v2.racing()
            &&& out.next == Next::Safety ==> (Vars { y: (v2.y + 16) as i32, ..v2 }).racing()
        }),
{
    let s1 = xorshift(seed);
    let k = (s1 >> 11u64) as int;
    assert(s1 >> 11u64 < 0x20_0000_0000_0000u64) by (bit_vector);
    let w = sway(v.w as int, k);
    lemma_sway_range(v.w as int, k);
    let (scr2, seed2, t, f, obstacle, class_line) = scroll_road(v, w, scr, s1);
    let d = 160 - v.y;
    assert(0 <= d * d <= 160 * 160) by (nonlinear_arith)
        requires -46 < d <= 160;
    law_printable_text_prints(scr.locate(0, 0), road_line(w));
    let scr1 = scr.locate(0, 0).print(road_line(w)).unwrap().newline();
    assert(scr1.wf());
    if v.t + d * d / 80 > 9999 {
        lemma_printable_class_line(v.c as int);
        law_printable_text_prints(scr1.locate(0, 0), class_line_text(v.c as int));
    } else {
        let s2 = xorshift(s1);
        let k2 = (s2 >> 11u64) as int;
        if f64_round(k2 * (v.c + 7)) > 6 * two53() {
            let s3 = xorshift(s2);
            let s4 = xorshift(s3);
            let car = 161 + f64_round(12 * ((s4 >> 11u64) as int)) / two53() * 8;
            let ox = f64_round((w + 2) * two53() + f64_round(6 * ((s3 >> 11u64) as int))) / two53();
            let one: Seq<u8> = seq![car as u8];
            assert(printable(one));
            law_printable_text_prints(scr1.locate(ox, 0), one);
        }
    }
    let (v2, scr3, seed3, out) = race_step(v, scr, seed, trigger, stick);
    assert(scr3.wf());
}

/// What one race step does to the car and the road's edge: the edge stays within
/// 0..=22 and moves by -1, 0 or +1, except by +2 where the `f64` rounding of line
/// 100 reaches the next integer; `SP` stays within 0..=6; `XX` takes the stick's
/// step within -4..=4; `Y` moves by `SP` less its sign, `X` by `XX`; both sprites
/// go to the car.
pub proof fn law_race_step_moves(v: Vars, scr: ScreenView, seed: u64, trigger: bool, stick: int)
    requires
        v.racing(),
        scr.wf(),
        sway_in_range(v, seed),
    ensures
        ({
            let (v2, scr2, seed2, out) = race_step(v, scr, seed, trigger, stick);
            let k = (xorshift(seed) >> 11u64) as int;
            &&& 0 <= v2.w <= 22
            &&& -1 <= v2.w - v.w <= 2
            &&& v2.w - v.w == 2 ==> sway_raw(v.w as int, k) == v.w + 2
            &&& 0 <= v2.sp <= 6
            &&& v2.xx == clamp(v.xx + stick_step(stick), -4, 4)
            &&& v2.y == v.y + v2.sp - signum(v.y as int)
            &&& v2.x == v.x + v2.xx
            &&& scr2.sprites[0] == (v2.x, v2.y, scr.sprites[0].2)
            &&& scr2.sprites[1] == (v2.x, v2.y, scr.sprites[1].2)
        }),
{
    let k = (xorshift(seed) >> 11u64) as int;
    let s1 = xorshift(seed);
    assert(s1 >> 11u64 < 0x20_0000_0000_0000u64) by (bit_vector);
    lemma_sway_range(v.w as int, k);
    lemma_f64_round_bounds(3 * k);
    let a = f64_round(3 * k);
    lemma_f64_round_bounds(v.w * two53() + a);
    let b = f64_round(v.w * two53() + a);
    let c = b - two53();
    assert((v.w * two53() + a) / two53() >= v.w) by (nonlinear_arith)
        requires a >= 0, v.w >= 0, two53() == 0x20_0000_0000_0000;
    assert(b >= v.w * two53()) by (nonlinear_arith)
        requires
            b >= ((v.w * two53() + a) / two53()) * two53(),
            (v.w * two53() + a) / two53() >= v.w,
            two53() > 0;
    if c >= 0 {
        assert(c / two53() >= v.w - 1) by (nonlinear_arith)
            requires c >= (v.w - 1) * two53(), c >= 0, two53() == 0x20_0000_0000_0000, v.w >= 0;
        assert(c / two53() <= v.w + 2) by (nonlinear_arith)
            requires 0 <= c <= (v.w + 2) * two53() + 15, two53() == 0x20_0000_0000_0000, v.w >= 0;
    }
    law_race_stays_in_bounds(v, scr, seed, trigger, stick);
    let (v2, scr2, seed2, out) = race_step(v, scr, seed, trigger, stick);
    lemma_scroll_keeps_sprites(v, v2.w as int, scr, s1);
}

/// Scrolling the road only prints: the sprites stay.
proof fn lemma_scroll_keeps_sprites(v: Vars, w: int, scr: ScreenView, seed: u64)
    requires
        scr.wf(),
        0 <= w <= 22,
        1 <= v.c <= 5,
    ensures
        scroll_road(v, w, scr, seed).0.sprites == scr.sprites,
{
    law_printable_text_prints(scr.locate(0, 0), road_line(w));
    lemma_print_changes_only_text(scr.locate(0, 0), road_line(w), 0);
    let scr1 = scr.locate(0, 0).print(road_line(w)).unwrap().newline();
    lemma_printable_class_line(v.c as int);
    law_printable_text_prints(scr1.locate(0, 0), class_line_text(v.c as int));
    lemma_print_changes_only_text(scr1.locate(0, 0), class_line_text(v.c as int), 0);
    let s2 = xorshift(seed);
    let s3 = xorshift(s2);
    let s4 = xorshift(s3);
    let ox = f64_round((w + 2) * two53() + f64_round(6 * ((s3 >> 11u64) as int))) / two53();
    let car = 161 + f64_round(12 * ((s4 >> 11u64) as int)) / two53() * 8;
    let one: Seq<u8> = seq![car as u8];
    assert(printable(one));
    law_printable_text_prints(scr1.locate(ox, 0), one);
    lemma_print_changes_only_text(scr1.locate(ox, 0), one, 0);
}

/// What the car runs into at the end of a race step, by the character code in its
/// cell (line 140's `ON CH(...) GOTO`): off the screen's top or bottom, a blank or an
/// obstacle car (161, 169, ..., 249) is a crash; a letter is the class line; a
/// diamond of the shoulder (131, 133) is the safety zone; the road's other
/// characters (33..=99) let the race go on; any other code (and a cell off the
/// screen) leads to the safety zone too. The engine sounds the car's height unless it
/// left the screen.
pub proof fn law_what_the_car_runs_into(v: Vars, scr: ScreenView, seed: u64, trigger: bool, stick: int)
    ensures
        ({
            let (v2, scr2, seed2, out) = race_step(v, scr, seed, trigger, stick);
            let pos = trunc_div(v2.x + 4, 8) + trunc_div(v2.y as int, 8) * 32;
            let code: int = if 0 <= pos < 768 { scr2.name[pos] as int } else { 0 };
            let on_screen = -190 < v2.y < 190;
            &&& !on_screen ==> out.next == Next::Crash && out.engine is None
            &&& on_screen ==> out.engine == Some(v2.y as u8)
            &&& on_screen && (code == 32 || (161 <= code <= 249 && (code - 161) % 8 == 0)) ==> out.next
                == Next::Crash
            &&& on_screen && 65 <= code <= 90 ==> out.next == Next::ClassLine
            &&& on_screen && (code == 131 || code == 133) ==> out.next == Next::Safety
            &&& on_screen && (33 <= code <= 64 || 91 <= code <= 99) ==> out.next == Next::Main
            &&& on_screen && (code <= 31 || (100 <= code <= 255 && code != 131 && code != 133 && !(161 <= code
                <= 249 && (code - 161) % 8 == 0))) ==> out.next == Next::Safety
        }),
{
    let (v2, scr2, seed2, out) = race_step(v, scr, seed, trigger, stick);
    let y = v2.y as int;
    if -190 < y < 190 {
        assert(trunc_div(y, 190) == 0);
    } else {
        assert(trunc_div(y, 190) != 0);
    }
}

/// A race step keeps the class and the best time.
pub proof fn lemma_race_step_keeps_class(v: Vars, scr: ScreenView, seed: u64, trigger: bool, stick: int)
    ensures
        race_step(v, scr, seed, trigger, stick).0.c == v.c,
        race_step(v, scr, seed, trigger, stick).0.hi == v.hi,
{
}

/// The distance of a race step (line 110): the car adds the square of its height
/// above line 160 over 80; past 9999 the distance restarts at 0, the class line (64
/// copies of `E` in class 1 down to `A` in class 5) fills the top two rows and `F`
/// is cleared; otherwise `F` stays and at most an obstacle car appears, an obstacle
/// code (161, 169, ..., 249) in the top row.
pub proof fn law_distance_and_class_line(v: Vars, scr: ScreenView, seed: u64, trigger: bool, stick: int)
    requires
        v.racing(),
        scr.wf(),
        sway_in_range(v, seed),
    ensures
        ({
            let (v2, scr2, seed2, out) = race_step(v, scr, seed, trigger, stick);
            let t0 = v.t + (160 - v.y) * (160 - v.y) / 80;
            &&& t0 > 9999 ==> {
                &&& v2.t == 0
                &&& !v2.f
                &&& out.class_line
                &&& !out.obstacle
                &&& forall|k: int| 0 <= k < 64 ==> #[trigger] scr2.name[k] == 70 - v.c
            }
            &&& t0 <= 9999 ==> v2.t == t0 && v2.f == v.f && !out.class_line
            &&& t0 <= 9999 && !out.obstacle ==> forall|k: int|
                0 <= k < 768 ==> #[trigger] scr2.name[k] == scr.locate(0, 0).print(road_line(v2.w as int)).unwrap().newline().name[k]
        }),
{
    let s1 = xorshift(seed);
    let k = (s1 >> 11u64) as int;
    assert(s1 >> 11u64 < 0x20_0000_0000_0000u64) by (bit_vector);
    lemma_sway_range(v.w as int, k);
    let w = sway(v.w as int, k);
    law_race_stays_in_bounds(v, scr, seed, trigger, stick);
    law_printable_text_prints(scr.locate(0, 0), road_line(w));
    let scr1 = scr.locate(0, 0).print(road_line(w)).unwrap().newline();
    let d = 160 - v.y;
    assert(0 <= d * d <= 160 * 160) by (nonlinear_arith)
        requires -46 < d <= 160;
    if v.t + d * d / 80 > 9999 {
        lemma_printable_class_line(v.c as int);
        law_printable_text_prints(scr1.locate(0, 0), class_line_text(v.c as int));
        lemma_class_line_cells(scr1.locate(0, 0), v.c as int);
        lemma_scroll_keeps_sprites(v, w, scr, s1);
    }
}

/// Printing the class line from the top left corner fills the top two rows with it.
proof fn lemma_class_line_cells(scr: ScreenView, c: int)
    requires
        scr.wf(),
        scr.cx == 0,
        scr.cy == 0,
        1 <= c <= 5,
    ensures
        scr.print(class_line_text(c)) matches Some(r) && forall|k: int| 0 <= k < 64 ==> #[trigger] r.name[k] == 70 - c,
{
    let s = class_line_text(c);
    lemma_printable_class_line(c);
    lemma_print_cells(scr, s, 0, 70 - c);
}

/// Printing plain characters (no escapes, no graphic prefix) from the top left puts
/// them in consecutive cells while within the first 64.
proof fn lemma_print_cells(v: ScreenView, s: Seq<u8>, i: int, ch: int)
    requires
        v.wf(),
        s.len() == 64,
        0 <= i <= 64,
        forall|k: int| 0 <= k < 64 ==> #[trigger] s[k] == ch,
        ch != ESC as int && ch != 1 && 0 <= ch < 256,
        v.cy * 32 + v.cx == i,
        forall|k: int| 0 <= k < i ==> #[trigger] v.name[k] == ch,
    ensures
        v.print_from(s, i) matches Some(r) && forall|k: int| 0 <= k < 64 ==> #[trigger] r.name[k] == ch,
    decreases 64 - i,
{
    if i < 64 {
        let v2 = v.put(s[i]);
        assert(v.print_item(s, i) == Some((v2, i + 1)));
        crate::screen::law_put_moves_on(v, s[i]);
        lemma_print_cells(v2, s, i + 1, ch);
    }
}

/// The first column from `k` on of a 32-cell line that holds the road's left edge
/// (`a`), or 12 where none does.
pub open spec fn left_edge_from(line: Seq<u8>, k: int) -> int
    decreases 32 - k,
{
    if k >= 32 {
        12
    } else if line[k] == 97 {
        k
    } else {
        left_edge_from(line, k + 1)
    }
}

/// The stick of the automatic driver: toward the middle of the road two rows above
/// the car (the road's left edge plus four cells), right (3) when more than four
/// dots left of it, left (7) when more than four dots right of it, else none (0).
pub open spec fn auto_stick_of(scr: ScreenView) -> int {
    let (x, y, _) = scr.sprites[0];
    let row = clamp(trunc_div(y as int, 8) - 2, 0, 23);
    let left = left_edge_from(scr.name.subrange(row * 32, row * 32 + 32), 0);
    let target = (left + 4) * 8 - 4;
    if x < target - 4 {
        3
    } else if x > target + 4 {
        7
    } else {
        0
    }
}

/// The stick of the automatic driver, which keeps the car in the middle of the road.
pub fn auto_stick(scr: &Screen1) -> (s: usize)
    requires
        scr@.wf(),
    ensures
        s == auto_stick_of(scr@),
{
    let (x, y, _) = scr.sprite(0);
    let r: i32 = y / 8 - 2;
    let row: usize = if r < 0 { 0 } else if r > 23 { 23 } else { r as usize };
    let ghost line = scr@.name.subrange(row * 32, row * 32 + 32);
    let mut k: usize = 0;
    while k < 32 && scr.char_at(row * 32 + k) != 97
        invariant
            scr@.wf(),
            row < 24,
            k <= 32,
            line == scr@.name.subrange(row * 32, row * 32 + 32),
            left_edge_from(line, k as int) == left_edge_from(line, 0),
        decreases 32 - k,
    {
        k = k + 1;
    }
    let left: i32 = if k < 32 { k as i32 } else { 12 };
    let target: i32 = (left + 4) * 8 - 4;
    if x < target - 4 {
        3
    } else if x > target + 4 {
        7
    } else {
        0
    }
}

} // verus!
