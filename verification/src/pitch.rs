//! Tone periods and note lengths of the PSG's PLAY sequencer.
//!
//! The PSG divides its clock (3.579545 MHz / 2) by 16 and by a 12-bit tone period.
//! A pitch is counted in semitones from A in octave 4 (440 Hz); the period that
//! sounds it is the nearest integer to `CLOCK / (16 · 440 · 2^(n/12))`, kept
//! within the register's range 1..=4095. Since `2^(n/12)` is irrational, that
//! quantity is stated here by raising both sides of each comparison to the
//! twelfth power, which keeps every statement within the integers.

use vstd::prelude::*;
use vstd::arithmetic::power2::*;
use vstd::arithmetic::mul::*;
use vstd::arithmetic::div_mod::*;

verus! {

/// `x` raised to the twelfth power.
pub open spec fn pow12(x: int) -> int {
    let x2 = x * x;
    let x3 = x2 * x;
    let x6 = x3 * x3;
    x6 * x6
}

/// Twice the exact tone period of pitch `n` exceeds `m`:
/// `2 · CLOCK / (16 · 440 · 2^(n/12)) > m`, that is `3579545 > 7040 · m · 2^(n/12)`,
/// with both sides raised to the twelfth power.
pub open spec fn twice_period_exceeds(m: int, n: int) -> bool {
    if n >= 0 {
        pow12(3579545) > pow12(7040 * m) * pow2(n as nat)
    } else {
        pow12(3579545) * pow2((-n) as nat) > pow12(7040 * m)
    }
}

/// The pitch of a note in semitones above A in octave 4.
pub open spec fn pitch_of(octave: int, semitone: int) -> int {
    12 * (octave - 4) + (semitone - 9)
}

/// `p` is the exact tone period of pitch `n`, rounded to the nearest integer and
/// kept within 1..=4095: `p - 1/2 < period` unless `p` is the lower bound,
/// `period < p + 1/2` unless `p` is the upper bound.
pub open spec fn is_tone_period(p: int, n: int) -> bool {
    &&& 1 <= p <= 4095
    &&& p > 1 ==> twice_period_exceeds(2 * p - 1, n)
    &&& p < 4095 ==> !twice_period_exceeds(2 * p + 1, n)
}

/// The tone period of pitch `n` (the only `p` with `is_tone_period(p, n)`).
pub open spec fn tone_period(n: int) -> int {
    choose|p: int| is_tone_period(p, n)
}

/// Length in 1/60 s of a note of length `1/length` at tempo `tempo` with `dots` dots:
/// `14400 / (tempo · length)`, each dot adding half of what the previous one added,
/// rounded down. A zero tempo or length gives an endless note.
pub open spec fn note_ticks(tempo: int, length: int, dots: nat) -> int {
    if tempo * length == 0 {
        u32::MAX as int
    } else {
        (14400 * (2 * pow2(dots) - 1)) / (tempo * length * pow2(dots))
    }
}

proof fn lemma_mul_mono(a: int, b: int, c: int, d: int)
    requires
        0 <= a <= b,
        0 <= c <= d,
    ensures
        0 <= a * c <= b * d,
{
    lemma_mul_inequality(a, b, c);
    lemma_mul_inequality(c, d, b);
    lemma_mul_nonnegative(a, c);
}

proof fn lemma_mul_strict_mono(a: int, b: int, c: int, d: int)
    requires
        0 <= a < b,
        0 <= c < d,
    ensures
        a * c < b * d,
{
    lemma_mul_mono(a, b, c, c);
    lemma_mul_strict_inequality(c, d, b);
}

/// The twelfth power is strictly increasing on the non-negative integers.
proof fn lemma_pow12_strict_mono(x: int, y: int)
    requires
        0 <= x < y,
    ensures
        0 <= pow12(x) < pow12(y),
{
    lemma_mul_strict_mono(x, y, x, y);
    lemma_mul_strict_mono(x * x, y * y, x, y);
    lemma_mul_strict_mono(x * x * x, y * y * y, x * x * x, y * y * y);
    let x6 = (x * x * x) * (x * x * x);
    let y6 = (y * y * y) * (y * y * y);
    lemma_mul_strict_mono(x6, y6, x6, y6);
}

proof fn lemma_pow12_nonneg(x: int)
    requires
        0 <= x,
    ensures
        0 <= pow12(x),
{
    lemma_pow12_strict_mono(x, x + 1);
}

/// Doubling the base multiplies the twelfth power by 4096.
proof fn lemma_pow12_double(x: int)
    ensures
        pow12(2 * x) == 4096 * pow12(x),
{
    assert(pow12(2 * x) == 4096 * pow12(x)) by (nonlinear_arith);
}

/// A larger bound is exceeded less often.
pub proof fn lemma_exceeds_mono_bound(m1: int, m2: int, n: int)
    requires
        0 <= m1 <= m2,
        twice_period_exceeds(m2, n),
    ensures
        twice_period_exceeds(m1, n),
{
    if m1 < m2 {
        lemma_pow12_strict_mono(7040 * m1, 7040 * m2);
    }
    lemma_pow2_pos(if n >= 0 { n as nat } else { (-n) as nat });
    if n >= 0 {
        lemma_mul_inequality(pow12(7040 * m1), pow12(7040 * m2), pow2(n as nat) as int);
    }
}

/// A higher pitch has a shorter period.
pub proof fn lemma_exceeds_mono_pitch(m: int, n1: int, n2: int)
    requires
        0 <= m,
        n1 <= n2,
        twice_period_exceeds(m, n2),
    ensures
        twice_period_exceeds(m, n1),
{
    let a = pow12(3579545);
    let b = pow12(7040 * m);
    lemma_pow12_nonneg(7040 * m);
    if n1 < n2 {
        if n1 >= 0 {
            lemma_pow2_strictly_increases(n1 as nat, n2 as nat);
            lemma_mul_inequality(pow2(n1 as nat) as int, pow2(n2 as nat) as int, b);
            lemma_mul_is_commutative(b, pow2(n1 as nat) as int);
            lemma_mul_is_commutative(b, pow2(n2 as nat) as int);
        } else if n2 < 0 {
            lemma_pow2_strictly_increases((-n2) as nat, (-n1) as nat);
            lemma_mul_inequality(pow2((-n2) as nat) as int, pow2((-n1) as nat) as int, a);
            lemma_mul_is_commutative(a, pow2((-n2) as nat) as int);
            lemma_mul_is_commutative(a, pow2((-n1) as nat) as int);
        } else {
            // n1 < 0 <= n2: a > b · 2^n2 >= b, and a · 2^-n1 >= a
            lemma_pow2_pos(n2 as nat);
            lemma_pow2_pos((-n1) as nat);
            lemma_mul_inequality(1, pow2(n2 as nat) as int, b);
            lemma_mul_inequality(1, pow2((-n1) as nat) as int, a);
        }
    }
}

/// One octave up halves the period: the bound `m` is exceeded an octave higher
/// exactly when `2 · m` is exceeded at the lower pitch.
pub proof fn lemma_exceeds_octave(m: int, n: int)
    requires
        0 <= m,
    ensures
        twice_period_exceeds(m, n + 12) == twice_period_exceeds(2 * m, n),
{
    let a = pow12(3579545);
    let b = pow12(7040 * m);
    lemma_pow12_double(7040 * m);
    assert(7040 * (2 * m) == 2 * (7040 * m));
    lemma_pow12_nonneg(7040 * m);
    lemma2_to64();
    if n >= 0 {
        lemma_pow2_adds(n as nat, 12);
        lemma_mul_is_associative(b, pow2(n as nat) as int, 4096);
        lemma_mul_is_commutative(b, 4096);
        lemma_mul_is_associative(4096, b, pow2(n as nat) as int);
    } else if n + 12 < 0 {
        lemma_pow2_adds((-(n + 12)) as nat, 12);
        assert((-(n + 12)) as nat + 12 == (-n) as nat);
        lemma_mul_is_associative(a, pow2((-(n + 12)) as nat) as int, 4096);
        lemma_mul_strict_inequality_converse_helper(a * pow2((-(n + 12)) as nat), b);
    } else {
        // -12 <= n < 0: 2^(n+12) · 2^(-n) == 4096
        let k = (n + 12) as nat;
        let j = (-n) as nat;
        lemma_pow2_adds(k, j);
        assert(k + j == 12);
        lemma_pow2_pos(k);
        lemma_pow2_pos(j);
        let pk = pow2(k) as int;
        let pj = pow2(j) as int;
        assert(pk * pj == 4096);
        // a > b · pk  <==>  a · pj > b · pk · pj == 4096 · b
        lemma_mul_strict_inequality_both_ways(a, b * pk, pj);
        lemma_mul_is_associative(b, pk, pj);
    }
}

proof fn lemma_mul_strict_inequality_converse_helper(x: int, b: int)
    ensures
        x * 4096 > 4096 * b <==> x > b,
{
    lemma_mul_is_commutative(x, 4096);
    if x > b {
        lemma_mul_strict_inequality(b, x, 4096);
    } else {
        lemma_mul_inequality(x, b, 4096);
    }
}

proof fn lemma_mul_strict_inequality_both_ways(x: int, y: int, c: int)
    requires
        c > 0,
    ensures
        x > y <==> x * c > y * c,
{
    if x > y {
        lemma_mul_strict_inequality(y, x, c);
    } else {
        lemma_mul_inequality(x, y, c);
    }
}

/// At most one period is the rounded tone period of a pitch.
pub proof fn lemma_tone_period_unique(p: int, q: int, n: int)
    requires
        is_tone_period(p, n),
        is_tone_period(q, n),
    ensures
        p == q,
{
    if p < q {
        lemma_exceeds_mono_bound(2 * p + 1, 2 * q - 1, n);
    } else if q < p {
        lemma_exceeds_mono_bound(2 * q + 1, 2 * p - 1, n);
    }
}

/// A period that meets `is_tone_period` is the value of `tone_period`.
pub proof fn lemma_tone_period_is(p: int, n: int)
    requires
        is_tone_period(p, n),
    ensures
        tone_period(n) == p,
        is_tone_period(tone_period(n), n),
{
    lemma_tone_period_unique(tone_period(n), p, n);
}

proof fn lemma_pow2_above_64()
    ensures
        pow2(65) == pow2(64) * pow2(1),
        pow2(66) == pow2(64) * pow2(2),
        pow2(67) == pow2(64) * pow2(3),
        pow2(68) == pow2(64) * pow2(4),
        pow2(69) == pow2(64) * pow2(5),
        pow2(70) == pow2(64) * pow2(6),
        pow2(71) == pow2(64) * pow2(7),
        pow2(72) == pow2(64) * pow2(8),
        pow2(73) == pow2(64) * pow2(9),
        pow2(74) == pow2(64) * pow2(10),
        pow2(75) == pow2(64) * pow2(11),
        pow2(76) == pow2(64) * pow2(12),
        pow2(77) == pow2(64) * pow2(13),
        pow2(78) == pow2(64) * pow2(14),
        pow2(79) == pow2(64) * pow2(15),
        pow2(80) == pow2(64) * pow2(16),
        pow2(81) == pow2(64) * pow2(17),
        pow2(82) == pow2(64) * pow2(18),
        pow2(83) == pow2(64) * pow2(19),
        pow2(84) == pow2(64) * pow2(20),
        pow2(85) == pow2(64) * pow2(21),
        pow2(86) == pow2(64) * pow2(22),
        pow2(87) == pow2(64) * pow2(23),
        pow2(88) == pow2(64) * pow2(24),
        pow2(89) == pow2(64) * pow2(25),
{
    lemma_pow2_adds(64, 1);
    lemma_pow2_adds(64, 2);
    lemma_pow2_adds(64, 3);
    lemma_pow2_adds(64, 4);
    lemma_pow2_adds(64, 5);
    lemma_pow2_adds(64, 6);
    lemma_pow2_adds(64, 7);
    lemma_pow2_adds(64, 8);
    lemma_pow2_adds(64, 9);
    lemma_pow2_adds(64, 10);
    lemma_pow2_adds(64, 11);
    lemma_pow2_adds(64, 12);
    lemma_pow2_adds(64, 13);
    lemma_pow2_adds(64, 14);
    lemma_pow2_adds(64, 15);
    lemma_pow2_adds(64, 16);
    lemma_pow2_adds(64, 17);
    lemma_pow2_adds(64, 18);
    lemma_pow2_adds(64, 19);
    lemma_pow2_adds(64, 20);
    lemma_pow2_adds(64, 21);
    lemma_pow2_adds(64, 22);
    lemma_pow2_adds(64, 23);
    lemma_pow2_adds(64, 24);
    lemma_pow2_adds(64, 25);
}

/// Below the table (lower than O0 A) the period reaches the register's upper bound.
proof fn lemma_below_table(n: int)
    requires
        n <= -49,
    ensures
        is_tone_period(4095, n),
{
    lemma2_to64();
    lemma2_to64_rest();
    assert(twice_period_exceeds(8189, -49)) by (nonlinear_arith)
        requires pow2(49) == 0x2000000000000;
    lemma_exceeds_mono_pitch(8189, n, -49);
}

/// Above the table (higher than O11 C+) the period reaches the register's lower bound.
proof fn lemma_above_table(n: int)
    requires
        n >= 89,
    ensures
        is_tone_period(1, n),
{
    lemma2_to64();
    lemma2_to64_rest();
    lemma_pow2_adds(64, 25);
    assert(!twice_period_exceeds(3, 89)) by (nonlinear_arith)
        requires pow2(89) == 0x20000000000000000000000;
    if twice_period_exceeds(3, n) {
        lemma_exceeds_mono_pitch(3, 89, n);
    }
}

/// The periods of pitches -48..=88 (O0 A to O11 C+), the range in which the rounded
/// period lies strictly between the register's bounds.
#[verifier::nonlinear]
#[verifier::rlimit(100)]
fn tone_period_table(n: i64) -> (p: u16)
    requires
        -48 <= n <= 88,
    ensures
        is_tone_period(p as int, n as int),
{
    proof {
        lemma2_to64();
        lemma2_to64_rest();
        lemma_pow2_above_64();
    }
    match n {
            -48 => 4068, -47 => 3839, -46 => 3624, -45 => 3420, -44 => 3229, -43 => 3047,
            -42 => 2876, -41 => 2715, -40 => 2562, -39 => 2419, -38 => 2283, -37 => 2155,
            -36 => 2034, -35 => 1920, -34 => 1812, -33 => 1710, -32 => 1614, -31 => 1524,
            -30 => 1438, -29 => 1357, -28 => 1281, -27 => 1209, -26 => 1141, -25 => 1077,
            -24 => 1017, -23 => 960, -22 => 906, -21 => 855, -20 => 807, -19 => 762,
            -18 => 719, -17 => 679, -16 => 641, -15 => 605, -14 => 571, -13 => 539,
            -12 => 508, -11 => 480, -10 => 453, -9 => 428, -8 => 404, -7 => 381,
            -6 => 360, -5 => 339, -4 => 320, -3 => 302, -2 => 285, -1 => 269,
            0 => 254, 1 => 240, 2 => 226, 3 => 214, 4 => 202, 5 => 190,
            6 => 180, 7 => 170, 8 => 160, 9 => 151, 10 => 143, 11 => 135,
            12 => 127, 13 => 120, 14 => 113, 15 => 107, 16 => 101, 17 => 95,
            18 => 90, 19 => 85, 20 => 80, 21 => 76, 22 => 71, 23 => 67,
            24 => 64, 25 => 60, 26 => 57, 27 => 53, 28 => 50, 29 => 48,
            30 => 45, 31 => 42, 32 => 40, 33 => 38, 34 => 36, 35 => 34,
            36 => 32, 37 => 30, 38 => 28, 39 => 27, 40 => 25, 41 => 24,
            42 => 22, 43 => 21, 44 => 20, 45 => 19, 46 => 18, 47 => 17,
            48 => 16, 49 => 15, 50 => 14, 51 => 13, 52 => 13, 53 => 12,
            54 => 11, 55 => 11, 56 => 10, 57 => 9, 58 => 9, 59 => 8,
            60 => 8, 61 => 7, 62 => 7, 63 => 7, 64 => 6, 65 => 6,
            66 => 6, 67 => 5, 68 => 5, 69 => 5, 70 => 4, 71 => 4,
            72 => 4, 73 => 4, 74 => 4, 75 => 3, 76 => 3, 77 => 3,
            78 => 3, 79 => 3, 80 => 3, 81 => 2, 82 => 2, 83 => 2,
            84 => 2, 85 => 2, 86 => 2, 87 => 2, 88 => 2,
        _ => 1,
    }
}

/// The PSG tone period of a note (`octave` as in PLAY's `O`, `semitone` 0 for C
/// up to 11 for B), O4A sounding 440 Hz: the nearest integer to
/// `CLOCK / (16 · 440 · 2^((octave - 4) + (semitone - 9) / 12))`, kept within 1..=4095.
pub fn period_of(octave: i32, semitone: i32) -> (p: u16)
    requires
        octave >= i32::MIN + 4,
        semitone >= i32::MIN + 9,
    ensures
        is_tone_period(p as int, pitch_of(octave as int, semitone as int)),
        p as int == tone_period(pitch_of(octave as int, semitone as int)),
{
    let n: i64 = 12 * (octave as i64 - 4) + (semitone as i64 - 9);
    let p = if n < -48 {
        proof {
            lemma_below_table(n as int);
        }
        4095u16
    } else if n > 88 {
        proof {
            lemma_above_table(n as int);
        }
        1u16
    } else {
        tone_period_table(n)
    };
    proof {
        lemma_tone_period_is(p as int, n as int);
    }
    p
}

/// Scanning up from 1 to the first `p` whose upper half-step is not exceeded.
spec fn scan_tone_period(n: int, p: int) -> int
    decreases 4095 - p,
{
    if p >= 4095 || !twice_period_exceeds(2 * p + 1, n) {
        p
    } else {
        scan_tone_period(n, p + 1)
    }
}

proof fn lemma_scan_tone_period(n: int, p: int)
    requires
        1 <= p <= 4095,
        p > 1 ==> twice_period_exceeds(2 * p - 1, n),
    ensures
        is_tone_period(scan_tone_period(n, p), n),
    decreases 4095 - p,
{
    if p < 4095 && twice_period_exceeds(2 * p + 1, n) {
        lemma_scan_tone_period(n, p + 1);
    }
}

/// Every pitch has a tone period.
pub proof fn lemma_tone_period_exists(n: int)
    ensures
        is_tone_period(tone_period(n), n),
{
    lemma_scan_tone_period(n, 1);
    lemma_tone_period_is(scan_tone_period(n, 1), n);
}

/// A higher pitch never has a longer tone period.
pub proof fn law_period_decreases_with_pitch(n1: int, n2: int)
    requires
        n1 <= n2,
    ensures
        tone_period(n2) <= tone_period(n1),
{
    lemma_tone_period_exists(n1);
    lemma_tone_period_exists(n2);
    let p1 = tone_period(n1);
    let p2 = tone_period(n2);
    if p1 < p2 {
        // p2 - 1/2 < period(n2) <= period(n1) < p1 + 1/2
        lemma_exceeds_mono_pitch(2 * p2 - 1, n1, n2);
        lemma_exceeds_mono_bound(2 * p1 + 1, 2 * p2 - 1, n1);
    }
}

/// One octave up halves the tone period, to within one step of rounding, wherever
/// neither period is held at a bound of the register.
pub proof fn law_octave_halves_period(n: int)
    requires
        1 < tone_period(n + 12),
        tone_period(n) < 4095,
    ensures
        tone_period(n) - 1 <= 2 * tone_period(n + 12) <= tone_period(n) + 1,
{
    lemma_tone_period_exists(n);
    lemma_tone_period_exists(n + 12);
    let p = tone_period(n);
    let q = tone_period(n + 12);
    // q - 1/2 < period(n) / 2 < p + 1/2 ...
    lemma_exceeds_octave(2 * q - 1, n);
    if 2 * q > p + 1 {
        lemma_exceeds_mono_bound(2 * p + 1, 2 * (2 * q - 1), n);
    }
    if q < 4095 {
        lemma_exceeds_octave(2 * q + 1, n);
        if p > 2 * q + 1 {
            lemma_exceeds_mono_bound(2 * (2 * q + 1), 2 * p - 1, n);
        }
    } else {
        // q == 4095 would need period(n) > 8189, beyond p < 4095
        lemma_exceeds_mono_bound(2 * p + 1, 2 * (2 * q - 1), n);
    }
}

/// The length in 1/60 s of a note at `tempo` with length `1/length` and `dots` dots
/// (as in MSX PLAY: `14400 / (T × L)`, each dot adding half the previous addition),
/// rounded down; a zero tempo or length gives `u32::MAX`.
pub fn ticks_of(tempo: u32, length: u32, dots: u32) -> (t: u32)
    ensures
        t as int == note_ticks(tempo as int, length as int, dots as nat),
{
    proof {
        lemma_mul_mono(tempo as int, u32::MAX as int, length as int, u32::MAX as int);
    }
    let p: u64 = tempo as u64 * length as u64;
    if p == 0 {
        return u32::MAX;
    }
    let q: u64 = 28800 / p;
    let r: u64 = 28800 % p;
    if dots >= 14 {
        proof {
            lemma_long_dotted_ticks(p as int, dots as nat);
        }
        if r == 0 {
            (q - 1) as u32
        } else {
            q as u32
        }
    } else {
        proof {
            lemma2_to64();
        }
        let mut s: u64 = 1;
        let mut k: u32 = 0;
        while k < dots
            invariant
                k <= dots < 14,
                s == pow2(k as nat),
            decreases dots - k,
        {
            proof {
                lemma_pow2_unfold((k + 1) as nat);
                lemma_pow2_strictly_increases(k as nat, 14);
                lemma2_to64();
            }
            s = s * 2;
            k = k + 1;
        }
        proof {
            lemma_pow2_strictly_increases(dots as nat, 14);
            lemma2_to64();
        }
        let num: u128 = 14400 * (2 * s as u128 - 1);
        proof {
            lemma_mul_mono(p as int, u64::MAX as int, s as int, 16384);
        }
        let den: u128 = p as u128 * s as u128;
        proof {
            lemma_short_dotted_ticks(p as int, s as int);
        }
        (num / den) as u32
    }
}

/// `a / b <= c / d` (rounded down) when `a / b <= c / d` as fractions.
proof fn lemma_div_cross(a: int, b: int, c: int, d: int)
    requires
        a >= 0,
        c >= 0,
        b > 0,
        d > 0,
        a * d <= c * b,
    ensures
        a / b <= c / d,
{
    let q = a / b;
    lemma_fundamental_div_mod(a, b);
    lemma_mod_pos_bound(a, b);
    lemma_div_pos_is_pos(a, b);
    assert(q * b * d <= a * d) by (nonlinear_arith)
        requires q * b <= a, d > 0;
    assert(q * d <= c) by (nonlinear_arith)
        requires q * b * d <= c * b, b > 0;
    lemma_fundamental_div_mod(c, d);
    lemma_mod_pos_bound(c, d);
    assert(q <= c / d) by (nonlinear_arith)
        requires q * d <= c, c == d * (c / d) + c % d, 0 <= c % d < d, d > 0;
}

/// A faster tempo or a shorter note value never makes a note longer, and a further
/// dot never makes it shorter.
pub proof fn law_note_ticks_monotone(t1: int, t2: int, l1: int, l2: int, d1: nat, d2: nat)
    requires
        1 <= t1 <= t2,
        1 <= l1 <= l2,
        d1 <= d2,
    ensures
        note_ticks(t2, l2, d1) <= note_ticks(t1, l1, d2),
{
    let p1 = pow2(d1) as int;
    let p2 = pow2(d2) as int;
    lemma_pow2_pos(d1);
    lemma_pow2_pos(d2);
    if d1 < d2 {
        lemma_pow2_strictly_increases(d1, d2);
    }
    assert(1 <= t1 * l1 <= t2 * l2) by (nonlinear_arith)
        requires 1 <= t1 <= t2, 1 <= l1 <= l2;
    let a = 14400 * (2 * p1 - 1);
    let b = t2 * l2 * p1;
    let c = 14400 * (2 * p2 - 1);
    let d = t1 * l1 * p2;
    assert(b > 0 && d > 0) by (nonlinear_arith)
        requires t2 * l2 >= 1, t1 * l1 >= 1, p1 >= 1, p2 >= 1, b == t2 * l2 * p1, d == t1 * l1 * p2;
    // (2·p1 - 1)·p2 <= (2·p2 - 1)·p1 since p1 <= p2
    assert(a * d <= c * b) by (nonlinear_arith)
        requires
            a == 14400 * (2 * p1 - 1),
            b == t2 * l2 * p1,
            c == 14400 * (2 * p2 - 1),
            d == t1 * l1 * p2,
            1 <= p1 <= p2,
            1 <= t1 * l1 <= t2 * l2,
    {
        assert((2 * p1 - 1) * p2 <= (2 * p2 - 1) * p1);
        assert(0 <= (2 * p1 - 1) * p2);
        assert((2 * p1 - 1) * p2 * (t1 * l1) <= (2 * p2 - 1) * p1 * (t2 * l2));
    }
    lemma_div_cross(a, b, c, d);
}

proof fn lemma_short_dotted_ticks(p: int, s: int)
    requires
        p >= 1,
        1 <= s <= 16384,
    ensures
        (14400 * (2 * s - 1)) / (p * s) <= 28800,
        p * s >= 1,
{
    lemma_mul_mono(1, p, 1, s);
    let num = 14400 * (2 * s - 1);
    let den = p * s;
    lemma_mul_inequality(1, p, s);
    lemma_div_is_ordered_by_denominator(num, s, den);
    lemma_div_is_ordered(num, 28800 * s, s);
    lemma_div_multiples_vanish(28800, s);
}

/// With 14 or more dots the dotted additions fall below one tick's worth of the
/// remainder: the length is `28800 / P` rounded down, one less when `P` divides 28800.
proof fn lemma_long_dotted_ticks(p: int, d: nat)
    requires
        p >= 1,
        d >= 14,
    ensures
        (14400 * (2 * pow2(d) - 1)) / (p * pow2(d)) == if 28800int % p == 0 {
            28800int / p - 1
        } else {
            28800int / p
        },
        28800int / p <= 28800,
        28800int % p == 0 ==> 28800int / p >= 1,
{
    let q = 28800int / p;
    let r = 28800int % p;
    let dd = pow2(d) as int;
    lemma2_to64();
    if d > 14 {
        lemma_pow2_strictly_increases(14, d);
    }
    lemma_fundamental_div_mod(28800, p);
    let num = 14400 * (2 * dd - 1);
    // num == q·(p·dd) + (r·dd - 14400)
    assert(num == q * (p * dd) + (r * dd - 14400)) by (nonlinear_arith)
        requires num == 14400 * (2 * dd - 1), 28800 == p * q + r;
    lemma_mul_mono(1, p, 1, dd);
    if r == 0 {
        assert(num == (q - 1) * (p * dd) + (p * dd - 14400)) by (nonlinear_arith)
            requires num == q * (p * dd) + (0 * dd - 14400);
        assert(0 <= p * dd - 14400 < p * dd) by (nonlinear_arith)
            requires p >= 1, dd > 16383;
        lemma_fundamental_div_mod_converse(num, p * dd, q - 1, p * dd - 14400);
        assert(q >= 1) by (nonlinear_arith)
            requires 28800 == p * q, p >= 1;
    } else {
        assert(0 <= r * dd - 14400 < p * dd) by (nonlinear_arith)
            requires 1 <= r < p, dd > 16383;
        lemma_fundamental_div_mod_converse(num, p * dd, q, r * dd - 14400);
    }
    lemma_div_pos_is_pos(28800, p);
    lemma_div_is_ordered_by_denominator(28800, 1, p);
}

}
