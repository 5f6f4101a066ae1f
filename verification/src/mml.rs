//! The PLAY statement's music macro language (MML), read into sequencer events.
//!
//! Commands (case-insensitive): `A`..`G` notes with `+`/`#`/`-` and an optional
//! length and dots, `N` key numbers (`N36` is O4C, `N0` a rest), `R` rests, `O`
//! octave, `L` default length, `T` tempo, `V` volume, `S` envelope shape, `M`
//! envelope period, `>`/`<` octave up/down. Anything else is skipped. The octave,
//! length, tempo, volume and envelope carry over from one PLAY to the next.

use vstd::prelude::*;
use vstd::string::StringSliceAdditionalSpecFns;
use crate::pitch::{note_ticks, period_of, pitch_of, ticks_of, tone_period};

verus! {

/// One step of the PLAY sequencer of a channel.
#[derive(Clone, Copy, Debug, PartialEq, Eq)]
pub enum Ev {
    /// A tone with its period register value, length in 1/60 s, volume, and
    /// envelope shape (`Some`) instead of a fixed volume.
    Note { period: u16, ticks: u32, vol: u8, env: Option<u8> },
    /// Silence for a number of 1/60 s.
    Rest { ticks: u32 },
    /// A new envelope period.
    EnvPeriod(u16),
}

/// The settings of one PLAY channel that carry over between PLAY statements.
#[derive(Clone, Copy, Debug, PartialEq, Eq)]
pub struct MmlState {
    pub octave: i32,
    pub length: u32,
    pub tempo: u32,
    pub volume: u8,
    pub env: Option<u8>,
}

/// The settings PLAY starts with: O4, L4, T120, V8, no envelope.
pub open spec fn initial_mml_state() -> MmlState {
    MmlState { octave: 4, length: 4, tempo: 120, volume: 8, env: None }
}

impl Default for MmlState {
    fn default() -> (s: Self)
        ensures
            s == initial_mml_state(),
    {
        MmlState { octave: 4, length: 4, tempo: 120, volume: 8, env: None }
    }
}

impl MmlState {
    /// Settings that PLAY can reach from its initial ones: a length of at least 1, a
    /// tempo of at least 32, a volume and an envelope shape of at most 15.
    pub open spec fn reachable(self) -> bool {
        &&& self.length >= 1
        &&& self.tempo >= 32
        &&& self.volume <= 15
        &&& (self.env matches Some(e) ==> e <= 15)
    }
}

/// ASCII upper case of a byte.
pub open spec fn ascii_upper(c: u8) -> u8 {
    if 97 <= c <= 122 {
        (c - 32) as u8
    } else {
        c
    }
}

/// The bytes of an MML string as the parser reads them: in upper case.
pub open spec fn mml_text(bytes: Seq<u8>) -> Seq<u8> {
    bytes.map_values(|c: u8| ascii_upper(c))
}

pub open spec fn is_digit(c: u8) -> bool {
    48 <= c <= 57
}

/// The end of the run of digits that starts at `i`.
pub open spec fn digits_end(b: Seq<u8>, i: int) -> int
    decreases b.len() - i,
{
    if 0 <= i < b.len() && is_digit(b[i]) {
        digits_end(b, i + 1)
    } else {
        i
    }
}

/// The decimal value of the digits `b[i..j]`.
pub open spec fn digits_value(b: Seq<u8>, i: int, j: int) -> int
    decreases j - i,
{
    if j <= i {
        0
    } else {
        digits_value(b, i, j - 1) * 10 + (b[j - 1] - 48)
    }
}

/// The number written at `i`: present when there is at least one digit and the
/// value fits a `u32`.
pub open spec fn number_at(b: Seq<u8>, i: int) -> Option<u32> {
    let j = digits_end(b, i);
    if j > i && digits_value(b, i, j) <= u32::MAX {
        Some(digits_value(b, i, j) as u32)
    } else {
        None
    }
}

/// The end of the run of dots that starts at `i`.
pub open spec fn dots_end(b: Seq<u8>, i: int) -> int
    decreases b.len() - i,
{
    if 0 <= i < b.len() && b[i] == 46 {
        dots_end(b, i + 1)
    } else {
        i
    }
}

pub open spec fn or_default(n: Option<u32>, d: u32) -> u32 {
    match n {
        Some(v) => v,
        None => d,
    }
}

/// A `u32` read as the `i32` with the same bits.
pub open spec fn wrap_i32(x: int) -> int {
    if x < 0x8000_0000 {
        x
    } else {
        x - 0x1_0000_0000
    }
}

/// Semitones above C of a note letter `C D E F G A B`.
pub open spec fn letter_semitone(c: u8) -> int {
    if c == 67 {
        0
    } else if c == 68 {
        2
    } else if c == 69 {
        4
    } else if c == 70 {
        5
    } else if c == 71 {
        7
    } else if c == 65 {
        9
    } else {
        11
    }
}

/// A note of a channel's settings with its tone period and length.
pub open spec fn note_event(st: MmlState, pitch: int, ticks: int) -> Ev {
    Ev::Note { period: tone_period(pitch) as u16, ticks: ticks as u32, vol: st.volume, env: st.env }
}

pub open spec fn min_int(a: int, b: int) -> int {
    if a <= b { a } else { b }
}

pub open spec fn max_int(a: int, b: int) -> int {
    if a >= b { a } else { b }
}

/// The command at `i` (with `i` in the text): where the next command starts, the
/// settings after it, and the event it adds. `None` where the octave would leave
/// the `i32` range (on `>`, `<`, a sharpened B or flattened C, or a note below
/// octave `i32::MIN + 4`) or a run of dots is longer than `u32::MAX`.
pub open spec fn mml_command(b: Seq<u8>, i: int, st: MmlState) -> Option<(int, MmlState, Option<Ev>)> {
    let c = b[i];
    let k = i + 1;
    if 65 <= c <= 71 {
        // A..G
        let acc: int = if k < b.len() && (b[k] == 43 || b[k] == 35) {
            1
        } else if k < b.len() && b[k] == 45 {
            -1
        } else {
            0
        };
        let k2 = if acc != 0 { k + 1 } else { k };
        let semi0 = letter_semitone(c) + acc;
        let semi = if semi0 < 0 { semi0 + 12 } else if semi0 > 11 { semi0 - 12 } else { semi0 };
        let oct = if semi0 < 0 {
            st.octave - 1
        } else if semi0 > 11 {
            st.octave + 1
        } else {
            st.octave as int
        };
        let len = or_default(number_at(b, k2), st.length);
        let k3 = digits_end(b, k2);
        let k4 = dots_end(b, k3);
        if oct < i32::MIN + 4 || oct > i32::MAX || k4 - k3 > u32::MAX {
            None
        } else {
            Some(
                (
                    k4,
                    st,
                    Some(
                        note_event(
                            st,
                            pitch_of(oct, semi),
                            note_ticks(st.tempo as int, len as int, (k4 - k3) as nat),
                        ),
                    ),
                ),
            )
        }
    } else if c == 78 || c == 82 {
        // N, R
        let k3 = digits_end(b, k);
        let k4 = dots_end(b, k3);
        let d = (k4 - k3) as nat;
        if k4 - k3 > u32::MAX {
            None
        } else if c == 78 {
            let n = wrap_i32(or_default(number_at(b, k), 0) as int);
            let ticks = note_ticks(st.tempo as int, st.length as int, d);
            if n == 0 {
                Some((k4, st, Some(Ev::Rest { ticks: ticks as u32 })))
            } else {
                // N36 is O4C, 45 semitones below O4A
                Some((k4, st, Some(note_event(st, n - 45, ticks))))
            }
        } else {
            let len = or_default(number_at(b, k), 4);
            Some(
                (
                    k4,
                    st,
                    Some(Ev::Rest { ticks: note_ticks(st.tempo as int, len as int, d) as u32 }),
                ),
            )
        }
    } else if c == 62 {
        // >
        if st.octave == i32::MAX {
            None
        } else {
            Some((k, MmlState { octave: (st.octave + 1) as i32, ..st }, None))
        }
    } else if c == 60 {
        // <
        if st.octave == i32::MIN {
            None
        } else {
            Some((k, MmlState { octave: (st.octave - 1) as i32, ..st }, None))
        }
    } else if c == 79 || c == 76 || c == 84 || c == 86 || c == 83 || c == 77 {
        // O L T V S M
        let n = number_at(b, k);
        let j = digits_end(b, k);
        if c == 79 {
            Some((j, MmlState { octave: wrap_i32(or_default(n, 4) as int) as i32, ..st }, None))
        } else if c == 76 {
            Some((j, MmlState { length: max_int(or_default(n, 4) as int, 1) as u32, ..st }, None))
        } else if c == 84 {
            Some((j, MmlState { tempo: max_int(or_default(n, 120) as int, 32) as u32, ..st }, None))
        } else if c == 86 {
            Some(
                (
                    j,
                    MmlState { volume: min_int(or_default(n, 8) as int, 15) as u8, env: None, ..st },
                    None,
                ),
            )
        } else if c == 83 {
            Some((j, MmlState { env: Some(min_int(or_default(n, 1) as int, 15) as u8), ..st }, None))
        } else {
            Some((j, st, Some(Ev::EnvPeriod((max_int(or_default(n, 255) as int, 1) % 65536) as u16))))
        }
    } else {
        Some((k, st, None))
    }
}

pub open spec fn opt_seq(e: Option<Ev>) -> Seq<Ev> {
    match e {
        Some(ev) => seq![ev],
        None => seq![],
    }
}

/// Reading the text from `i` on: the events and the final settings, or `None`
/// where a command is undefined.
pub open spec fn mml_run(b: Seq<u8>, i: int, st: MmlState) -> Option<(Seq<Ev>, MmlState)>
    decreases max_int(b.len() - i, 0),
{
    if i < 0 || i >= b.len() {
        Some((seq![], st))
    } else {
        match mml_command(b, i, st) {
            None => None,
            Some((j, st2, e)) => if i < j {
                match mml_run(b, j, st2) {
                    None => None,
                    Some((rest, fin)) => Some((opt_seq(e) + rest, fin)),
                }
            } else {
                None
            },
        }
    }
}

/// The events and final settings of PLAY's string `s` read with settings `st`.
pub open spec fn mml_parse(s: Seq<u8>, st: MmlState) -> Option<(Seq<Ev>, MmlState)> {
    mml_run(mml_text(s), 0, st)
}

proof fn lemma_digits_end_bounds(b: Seq<u8>, i: int)
    requires
        0 <= i <= b.len(),
    ensures
        i <= digits_end(b, i) <= b.len(),
        forall|k: int| i <= k < digits_end(b, i) ==> is_digit(#[trigger] b[k]),
    decreases b.len() - i,
{
    if i < b.len() && is_digit(b[i]) {
        lemma_digits_end_bounds(b, i + 1);
    }
}

proof fn lemma_dots_end_bounds(b: Seq<u8>, i: int)
    requires
        0 <= i <= b.len(),
    ensures
        i <= dots_end(b, i) <= b.len(),
    decreases b.len() - i,
{
    if i < b.len() && b[i] == 46 {
        lemma_dots_end_bounds(b, i + 1);
    }
}

proof fn lemma_digits_value_nonneg(b: Seq<u8>, i: int, j: int)
    requires
        0 <= i <= j <= b.len(),
        forall|k: int| i <= k < j ==> is_digit(#[trigger] b[k]),
    ensures
        digits_value(b, i, j) >= 0,
    decreases j - i,
{
    if j > i {
        lemma_digits_value_nonneg(b, i, j - 1);
    }
}

fn ascii_upper_exec(c: u8) -> (u: u8)
    ensures
        u == ascii_upper(c),
{
    if 97 <= c && c <= 122 {
        c - 32
    } else {
        c
    }
}

/// The upper-cased bytes of `s`.
fn mml_bytes(s: &str) -> (b: Vec<u8>)
    ensures
        b@ == mml_text(s.spec_bytes()),
{
    let raw = s.as_bytes();
    let mut b: Vec<u8> = Vec::new();
    let mut i: usize = 0;
    while i < raw.len()
        invariant
            raw@ == s.spec_bytes(),
            i <= raw.len(),
            b@ == mml_text(raw@).subrange(0, i as int),
        decreases raw.len() - i,
    {
        b.push(ascii_upper_exec(raw[i]));
        i = i + 1;
        assert(b@ =~= mml_text(raw@).subrange(0, i as int));
    }
    assert(b@ =~= mml_text(raw@));
    b
}

fn scan_digits(b: &Vec<u8>, i: usize) -> (j: usize)
    requires
        i <= b.len(),
    ensures
        j == digits_end(b@, i as int),
        i <= j <= b.len(),
{
    let mut j = i;
    while j < b.len() && 48 <= b[j] && b[j] <= 57
        invariant
            i <= j <= b.len(),
            digits_end(b@, i as int) == digits_end(b@, j as int),
        decreases b.len() - j,
    {
        j = j + 1;
    }
    j
}

fn scan_dots(b: &Vec<u8>, i: usize) -> (j: usize)
    requires
        i <= b.len(),
    ensures
        j == dots_end(b@, i as int),
        i <= j <= b.len(),
{
    let mut j = i;
    while j < b.len() && b[j] == 46
        invariant
            i <= j <= b.len(),
            dots_end(b@, i as int) == dots_end(b@, j as int),
        decreases b.len() - j,
    {
        j = j + 1;
    }
    j
}

/// The number at `i` and where its digits end.
fn read_number(b: &Vec<u8>, i: usize) -> (r: (Option<u32>, usize))
    requires
        i <= b.len(),
    ensures
        r.0 == number_at(b@, i as int),
        r.1 == digits_end(b@, i as int),
        i <= r.1 <= b.len(),
{
    let j = scan_digits(b, i);
    proof {
        lemma_digits_end_bounds(b@, i as int);
    }
    let mut acc: u64 = 0;
    let mut over = false;
    let mut k = i;
    while k < j
        invariant
            i <= k <= j <= b.len(),
            j == digits_end(b@, i as int),
            forall|m: int| i <= m < j ==> is_digit(#[trigger] b@[m]),
            !over ==> acc == digits_value(b@, i as int, k as int) && acc <= u32::MAX,
            over ==> digits_value(b@, i as int, k as int) > u32::MAX,
        decreases j - k,
    {
        let d = b[k] - 48;
        proof {
            assert(is_digit(b@[k as int]));
            lemma_digits_value_nonneg(b@, i as int, k as int);
        }
        if !over {
            acc = acc * 10 + d as u64;
            if acc > 0xffff_ffff {
                over = true;
            }
        }
        k = k + 1;
    }
    if j > i && !over {
        (Some(acc as u32), j)
    } else {
        (None, j)
    }
}

/// The number of dots at `i` (if it fits a `u32`) and where they end.
fn read_dots(b: &Vec<u8>, i: usize) -> (r: (Option<u32>, usize))
    requires
        i <= b.len(),
    ensures
        r.1 == dots_end(b@, i as int),
        i <= r.1 <= b.len(),
        r.0 is Some <==> r.1 - i <= u32::MAX,
        r.0 matches Some(d) ==> d == r.1 - i,
{
    let j = scan_dots(b, i);
    if j - i > 0xffff_ffff {
        (None, j)
    } else {
        ((Some((j - i) as u32)), j)
    }
}

fn semitone_of_letter(c: u8) -> (s: i32)
    ensures
        s == letter_semitone(c),
{
    if c == 67 {
        0
    } else if c == 68 {
        2
    } else if c == 69 {
        4
    } else if c == 70 {
        5
    } else if c == 71 {
        7
    } else if c == 65 {
        9
    } else {
        11
    }
}

fn unwrap_or(n: Option<u32>, d: u32) -> (v: u32)
    ensures
        v == or_default(n, d),
{
    match n {
        Some(v) => v,
        None => d,
    }
}

fn as_i32(x: u32) -> (v: i32)
    ensures
        v == wrap_i32(x as int),
{
    if x < 0x8000_0000 {
        x as i32
    } else {
        let v = x as i32;
        assert(x >= 0x8000_0000 ==> x as i32 == x - 0x1_0000_0000) by (bit_vector);
        v
    }
}

/// The `N` command's key: PLAY's octave `n / 12 + 1` and semitone `n % 12`
/// (both rounded toward zero), so that `N36` is O4C.
fn key_note(n: i32, st: &MmlState, ticks: u32) -> (e: Ev)
    ensures
        e == note_event(*st, n - 45, ticks as int),
{
    let w = n as i64;
    let (oct, semi): (i64, i64) = if w >= 0 {
        (w / 12 + 1, w % 12)
    } else {
        let m = -w;
        (1 - m / 12, -(m % 12))
    };
    proof {
        assert(12 * (oct - 4) + (semi - 9) == n - 45);
    }
    let p = period_of(oct as i32, semi as i32);
    Ev::Note { period: p, ticks, vol: st.volume, env: st.env }
}

/// One command of the text at `i`, as `mml_command` states it.
fn read_command(b: &Vec<u8>, i: usize, st: &MmlState) -> (r: Option<(usize, MmlState, Option<Ev>)>)
    requires
        i < b.len(),
    ensures
        match mml_command(b@, i as int, *st) {
            None => r is None,
            Some((j, st2, e)) => r matches Some((rj, rst, re)) && rj == j && rst == st2 && re == e
                && i < j <= b.len(),
        },
{
    let c = b[i];
    let k = i + 1;
    if 65 <= c && c <= 71 {
        let mut acc: i32 = 0;
        if k < b.len() && (b[k] == 43 || b[k] == 35) {
            acc = 1;
        } else if k < b.len() && b[k] == 45 {
            acc = -1;
        }
        let k2 = if acc != 0 { k + 1 } else { k };
        let semi0 = semitone_of_letter(c) + acc;
        let mut semi = semi0;
        let mut oct: i64 = st.octave as i64;
        if semi0 < 0 {
            semi = semi0 + 12;
            oct = oct - 1;
        } else if semi0 > 11 {
            semi = semi0 - 12;
            oct = oct + 1;
        }
        let (n, k3) = read_number(b, k2);
        let len = unwrap_or(n, st.length);
        let (d, k4) = read_dots(b, k3);
        if oct < i32::MIN as i64 + 4 || oct > i32::MAX as i64 {
            return None;
        }
        match d {
            None => None,
            Some(d) => {
                let period = period_of(oct as i32, semi);
                let ticks = ticks_of(st.tempo, len, d);
                Some((k4, *st, Some(Ev::Note { period, ticks, vol: st.volume, env: st.env })))
            },
        }
    } else if c == 78 || c == 82 {
        let (n, k3) = read_number(b, k);
        let (d, k4) = read_dots(b, k3);
        match d {
            None => None,
            Some(d) => {
                if c == 78 {
                    let key = as_i32(unwrap_or(n, 0));
                    let ticks = ticks_of(st.tempo, st.length, d);
                    if key == 0 {
                        Some((k4, *st, Some(Ev::Rest { ticks })))
                    } else {
                        Some((k4, *st, Some(key_note(key, st, ticks))))
                    }
                } else {
                    let len = unwrap_or(n, 4);
                    Some((k4, *st, Some(Ev::Rest { ticks: ticks_of(st.tempo, len, d) })))
                }
            },
        }
    } else if c == 62 {
        if st.octave == i32::MAX {
            None
        } else {
            Some((k, MmlState { octave: st.octave + 1, ..*st }, None))
        }
    } else if c == 60 {
        if st.octave == i32::MIN {
            None
        } else {
            Some((k, MmlState { octave: st.octave - 1, ..*st }, None))
        }
    } else if c == 79 || c == 76 || c == 84 || c == 86 || c == 83 || c == 77 {
        let (n, j) = read_number(b, k);
        if c == 79 {
            Some((j, MmlState { octave: as_i32(unwrap_or(n, 4)), ..*st }, None))
        } else if c == 76 {
            let v = unwrap_or(n, 4);
            Some((j, MmlState { length: if v < 1 { 1 } else { v }, ..*st }, None))
        } else if c == 84 {
            let v = unwrap_or(n, 120);
            Some((j, MmlState { tempo: if v < 32 { 32 } else { v }, ..*st }, None))
        } else if c == 86 {
            let v = unwrap_or(n, 8);
            Some((j, MmlState { volume: if v > 15 { 15 } else { v as u8 }, env: None, ..*st }, None))
        } else if c == 83 {
            let v = unwrap_or(n, 1);
            Some((j, MmlState { env: Some(if v > 15 { 15 } else { v as u8 }), ..*st }, None))
        } else {
            let v = unwrap_or(n, 255);
            let m = if v < 1 { 1 } else { v };
            let p = m as u16;
            assert(m as u16 == m % 65536) by (bit_vector);
            Some((j, *st, Some(Ev::EnvPeriod(p))))
        }
    } else {
        Some((k, *st, None))
    }
}

/// Reads PLAY's string `s` with the channel's settings `st`: the events, with `st`
/// left as the string leaves it; `None`, with `st` unchanged, where the string is
/// undefined (see `mml_command`).
pub fn try_parse_mml(s: &str, st: &mut MmlState) -> (out: Option<Vec<Ev>>)
    ensures
        match mml_parse(s.spec_bytes(), *old(st)) {
            None => out is None && *final(st) == *old(st),
            Some((evs, fin)) => out matches Some(v) && v@ == evs && *final(st) == fin,
        },
{
    let b = mml_bytes(s);
    let mut cur = *st;
    let mut out: Vec<Ev> = Vec::new();
    let mut i: usize = 0;
    let ghost b0 = b@;
    while i < b.len()
        invariant
            b@ == b0,
            b0 == mml_text(s.spec_bytes()),
            i <= b.len(),
            mml_parse(s.spec_bytes(), *st) == match mml_run(b0, i as int, cur) {
                None => None,
                Some((rest, fin)) => Some((out@ + rest, fin)),
            },
        decreases b.len() - i,
    {
        match read_command(&b, i, &cur) {
            None => {
                return None;
            },
            Some((j, next, e)) => {
                proof {
                    assert(out@ + (opt_seq(e) + mml_run(b0, j as int, next).unwrap().0) =~= (out@
                        + opt_seq(e)) + mml_run(b0, j as int, next).unwrap().0);
                }
                match e {
                    Some(ev) => {
                        out.push(ev);
                    },
                    None => {},
                }
                proof {
                    if e is None {
                        assert(out@ + opt_seq(e) =~= out@);
                    }
                }
                cur = next;
                i = j;
            },
        }
    }
    proof {
        assert(out@ + seq![] =~= out@);
    }
    *st = cur;
    Some(out)
}

/// Reads PLAY's string `s` with the channel's settings `st` into events, leaving
/// `st` as the string leaves it.
pub fn parse_mml(s: &str, st: &mut MmlState) -> (out: Vec<Ev>)
    requires
        mml_parse(s.spec_bytes(), *old(st)) is Some,
    ensures
        out@ == mml_parse(s.spec_bytes(), *old(st)).unwrap().0,
        *final(st) == mml_parse(s.spec_bytes(), *old(st)).unwrap().1,
{
    match try_parse_mml(s, st) {
        Some(v) => v,
        None => Vec::new(),
    }
}

/// A byte that starts a PLAY command: a note letter `A`..`G`, `N`, `R`, `O`, `L`,
/// `T`, `V`, `S`, `M`, `<` or `>`, in either case.
pub open spec fn is_command_letter(c: u8) -> bool {
    let u = ascii_upper(c);
    ||| 65 <= u <= 71
    ||| u == 78 || u == 82 || u == 79 || u == 76 || u == 84 || u == 86 || u == 83 || u == 77
    ||| u == 60 || u == 62
}

/// Nothing of a command at the end of `x` runs on into `y`: `y` is empty or starts
/// with neither a digit, a dot nor an accidental.
pub open spec fn cuts_cleanly(y: Seq<u8>) -> bool {
    y.len() == 0 || !(is_digit(y[0]) || y[0] == 46 || y[0] == 43 || y[0] == 35 || y[0] == 45)
}

proof fn lemma_digits_end_prefix(x: Seq<u8>, y: Seq<u8>, i: int)
    requires
        0 <= i <= x.len(),
        cuts_cleanly(y),
    ensures
        digits_end(x + y, i) == digits_end(x, i),
    decreases x.len() - i,
{
    if i < x.len() {
        assert((x + y)[i] == x[i]);
        lemma_digits_end_prefix(x, y, i + 1);
    } else if y.len() > 0 {
        assert((x + y)[i] == y[0]);
    }
}

proof fn lemma_dots_end_prefix(x: Seq<u8>, y: Seq<u8>, i: int)
    requires
        0 <= i <= x.len(),
        cuts_cleanly(y),
    ensures
        dots_end(x + y, i) == dots_end(x, i),
    decreases x.len() - i,
{
    if i < x.len() {
        assert((x + y)[i] == x[i]);
        lemma_dots_end_prefix(x, y, i + 1);
    } else if y.len() > 0 {
        assert((x + y)[i] == y[0]);
    }
}

proof fn lemma_digits_value_prefix(x: Seq<u8>, y: Seq<u8>, i: int, j: int)
    requires
        0 <= i,
        j <= x.len(),
    ensures
        digits_value(x + y, i, j) == digits_value(x, i, j),
    decreases j - i,
{
    if j > i {
        assert((x + y)[j - 1] == x[j - 1]);
        lemma_digits_value_prefix(x, y, i, j - 1);
    }
}

proof fn lemma_digits_end_shift(x: Seq<u8>, y: Seq<u8>, j: int)
    requires
        0 <= j <= y.len(),
    ensures
        digits_end(x + y, x.len() + j) == x.len() + digits_end(y, j),
    decreases y.len() - j,
{
    if j < y.len() {
        assert((x + y)[x.len() + j] == y[j]);
        lemma_digits_end_shift(x, y, j + 1);
    }
}

proof fn lemma_dots_end_shift(x: Seq<u8>, y: Seq<u8>, j: int)
    requires
        0 <= j <= y.len(),
    ensures
        dots_end(x + y, x.len() + j) == x.len() + dots_end(y, j),
    decreases y.len() - j,
{
    if j < y.len() {
        assert((x + y)[x.len() + j] == y[j]);
        lemma_dots_end_shift(x, y, j + 1);
    }
}

proof fn lemma_digits_value_shift(x: Seq<u8>, y: Seq<u8>, i: int, j: int)
    requires
        0 <= i,
        j <= y.len(),
    ensures
        digits_value(x + y, x.len() + i, x.len() + j) == digits_value(y, i, j),
    decreases j - i,
{
    if j > i {
        assert((x + y)[x.len() + j - 1] == y[j - 1]);
        lemma_digits_value_shift(x, y, i, j - 1);
    }
}

/// A command that starts within `x` reads the same in `x + y`.
proof fn lemma_command_prefix(x: Seq<u8>, y: Seq<u8>, i: int, st: MmlState)
    requires
        0 <= i < x.len(),
        cuts_cleanly(y),
    ensures
        mml_command(x + y, i, st) == mml_command(x, i, st),
        mml_command(x, i, st) matches Some((j, _, _)) ==> j <= x.len(),
{
    let k = i + 1;
    assert((x + y)[i] == x[i]);
    if k < x.len() {
        assert((x + y)[k] == x[k]);
    } else if y.len() > 0 {
        assert((x + y)[k] == y[0]);
    }
    let k2 = if k < x.len() && (x[k] == 43 || x[k] == 35 || x[k] == 45) { k + 1 } else { k };
    lemma_digits_end_prefix(x, y, k);
    lemma_digits_end_prefix(x, y, k2);
    lemma_digits_end_bounds(x, k);
    lemma_digits_end_bounds(x, k2);
    lemma_digits_value_prefix(x, y, k, digits_end(x, k));
    lemma_digits_value_prefix(x, y, k2, digits_end(x, k2));
    lemma_dots_end_prefix(x, y, digits_end(x, k));
    lemma_dots_end_prefix(x, y, digits_end(x, k2));
    lemma_dots_end_bounds(x, digits_end(x, k));
    lemma_dots_end_bounds(x, digits_end(x, k2));
}

/// A command that starts within `y` reads the same in `x + y`, shifted by `x`.
proof fn lemma_command_shift(x: Seq<u8>, y: Seq<u8>, j: int, st: MmlState)
    requires
        0 <= j < y.len(),
    ensures
        mml_command(x + y, x.len() + j, st) == match mml_command(y, j, st) {
            None => None,
            Some((e, st2, ev)) => Some((x.len() + e, st2, ev)),
        },
{
    let n = x.len() as int;
    let k = j + 1;
    assert((x + y)[n + j] == y[j]);
    if k < y.len() {
        assert((x + y)[n + k] == y[k]);
    }
    let k2 = if k < y.len() && (y[k] == 43 || y[k] == 35 || y[k] == 45) { k + 1 } else { k };
    lemma_digits_end_shift(x, y, k);
    lemma_digits_end_shift(x, y, k2);
    lemma_digits_end_bounds(y, k);
    lemma_digits_end_bounds(y, k2);
    lemma_digits_value_shift(x, y, k, digits_end(y, k));
    lemma_digits_value_shift(x, y, k2, digits_end(y, k2));
    lemma_dots_end_shift(x, y, digits_end(y, k));
    lemma_dots_end_shift(x, y, digits_end(y, k2));
}

proof fn lemma_run_shift(x: Seq<u8>, y: Seq<u8>, j: int, st: MmlState)
    requires
        0 <= j,
    ensures
        mml_run(x + y, x.len() + j, st) == mml_run(y, j, st),
    decreases max_int(y.len() - j, 0),
{
    if j < y.len() {
        lemma_command_shift(x, y, j, st);
        if let Some((e, st2, ev)) = mml_command(y, j, st) {
            if j < e {
                lemma_run_shift(x, y, e, st2);
            }
        }
    }
}

/// The events and final settings of reading `r1`, then the rest from the settings
/// it leaves.
pub open spec fn then_run(
    r1: Option<(Seq<Ev>, MmlState)>,
    rest: spec_fn(MmlState) -> Option<(Seq<Ev>, MmlState)>,
) -> Option<(Seq<Ev>, MmlState)> {
    match r1 {
        None => None,
        Some((e1, f1)) => match rest(f1) {
            None => None,
            Some((e2, f2)) => Some((e1 + e2, f2)),
        },
    }
}

proof fn lemma_run_prefix(x: Seq<u8>, y: Seq<u8>, i: int, st: MmlState)
    requires
        0 <= i <= x.len(),
        cuts_cleanly(y),
    ensures
        mml_run(x + y, i, st) == then_run(mml_run(x, i, st), |f: MmlState| mml_run(y, 0, f)),
    decreases x.len() - i,
{
    if i == x.len() {
        lemma_run_shift(x, y, 0, st);
        if let Some((e2, f2)) = mml_run(y, 0, st) {
            assert(seq![] + e2 =~= e2);
        }
    } else {
        lemma_command_prefix(x, y, i, st);
        if let Some((j, st2, e)) = mml_command(x, i, st) {
            if i < j {
                lemma_run_prefix(x, y, j, st2);
                if let Some((e1, f1)) = mml_run(x, j, st2) {
                    if let Some((e2, f2)) = mml_run(y, 0, f1) {
                        assert(opt_seq(e) + (e1 + e2) =~= (opt_seq(e) + e1) + e2);
                    }
                }
            }
        }
    }
}

/// PLAY reads its string command by command: where `b` starts with a command (or is
/// empty), reading `a + b` gives `a`'s events followed by `b`'s, `b` read with the
/// settings `a` leaves, and is undefined exactly where one of the two is.
pub proof fn law_parse_concatenation(a: Seq<u8>, b: Seq<u8>, st: MmlState)
    requires
        b.len() == 0 || is_command_letter(b[0]),
    ensures
        mml_parse(a + b, st) == then_run(mml_parse(a, st), |f: MmlState| mml_parse(b, f)),
{
    let x = mml_text(a);
    let y = mml_text(b);
    assert(mml_text(a + b) =~= x + y);
    if b.len() > 0 {
        assert(y[0] == ascii_upper(b[0]));
    }
    lemma_run_prefix(x, y, 0, st);
    assert((|f: MmlState| mml_run(y, 0, f)) =~= (|f: MmlState| mml_parse(b, f)));
}

/// `<` lowers and `>` raises the channel's octave by one before the rest of the
/// string is read (undefined past the `i32` range).
pub proof fn law_octave_steps(s: Seq<u8>, st: MmlState)
    ensures
        st.octave > i32::MIN ==> mml_parse(seq![60u8] + s, st) == mml_parse(
            s,
            MmlState { octave: (st.octave - 1) as i32, ..st },
        ),
        st.octave == i32::MIN ==> mml_parse(seq![60u8] + s, st) is None,
        st.octave < i32::MAX ==> mml_parse(seq![62u8] + s, st) == mml_parse(
            s,
            MmlState { octave: (st.octave + 1) as i32, ..st },
        ),
        st.octave == i32::MAX ==> mml_parse(seq![62u8] + s, st) is None,
{
    let y = mml_text(s);
    assert(mml_text(seq![60u8] + s) =~= mml_text(seq![60u8]) + y);
    assert(mml_text(seq![62u8] + s) =~= mml_text(seq![62u8]) + y);
    assert(mml_text(seq![60u8]) =~= seq![60u8]);
    assert(mml_text(seq![62u8]) =~= seq![62u8]);
    let down = MmlState { octave: (st.octave - 1) as i32, ..st };
    let up = MmlState { octave: (st.octave + 1) as i32, ..st };
    lemma_run_shift(seq![60u8], y, 0, down);
    lemma_run_shift(seq![62u8], y, 0, up);
    assert((seq![60u8] + y)[0] == 60u8);
    assert((seq![62u8] + y)[0] == 62u8);
}

/// A note letter alone plays the note of its semitone (C 0, D 2, E 4, F 5, G 7,
/// A 9, B 11) in the channel's octave, for the channel's length at its tempo, with
/// its volume and envelope; the settings stay.
pub proof fn law_note_letter(c: u8, st: MmlState)
    requires
        65 <= ascii_upper(c) <= 71,
        st.octave >= i32::MIN + 4,
    ensures
        ({
            let u = ascii_upper(c);
            let semi: int = if u == 67 {
                0
            } else if u == 68 {
                2
            } else if u == 69 {
                4
            } else if u == 70 {
                5
            } else if u == 71 {
                7
            } else if u == 65 {
                9
            } else {
                11
            };
            mml_parse(seq![c], st) == Some((
                seq![Ev::Note {
                    period: tone_period(12 * (st.octave - 4) + semi - 9) as u16,
                    ticks: note_ticks(st.tempo as int, st.length as int, 0) as u32,
                    vol: st.volume,
                    env: st.env,
                }],
                st,
            ))
        }),
{
    let b = mml_text(seq![c]);
    assert(b =~= seq![ascii_upper(c)]);
    assert(digits_end(b, 1) == 1);
    assert(dots_end(b, 1) == 1);
    assert(number_at(b, 1) is None);
    let ev = Ev::Note {
        period: tone_period(pitch_of(st.octave as int, letter_semitone(ascii_upper(c)))) as u16,
        ticks: note_ticks(st.tempo as int, st.length as int, 0) as u32,
        vol: st.volume,
        env: st.env,
    };
    assert(mml_command(b, 0, st) == Some((1int, st, Some(ev))));
    assert(mml_run(b, 1, st) == Some((Seq::<Ev>::empty(), st)));
    assert(opt_seq(Some(ev)) + Seq::<Ev>::empty() =~= seq![ev]);
    assert(seq![Ev::Note {
        period: tone_period(pitch_of(st.octave as int, letter_semitone(ascii_upper(c)))) as u16,
        ticks: note_ticks(st.tempo as int, st.length as int, 0) as u32,
        vol: st.volume,
        env: st.env,
    }] + seq![] =~= seq![Ev::Note {
        period: tone_period(pitch_of(st.octave as int, letter_semitone(ascii_upper(c)))) as u16,
        ticks: note_ticks(st.tempo as int, st.length as int, 0) as u32,
        vol: st.volume,
        env: st.env,
    }]);
}

/// A command that reads the whole of `b` reads as that command alone.
proof fn lemma_single_command(b: Seq<u8>, st: MmlState)
    requires
        b.len() >= 1,
        mml_command(b, 0, st) matches Some((j, _, _)) && j == b.len(),
    ensures
        match mml_command(b, 0, st) {
            Some((j, st2, e)) => mml_run(b, 0, st) == Some((opt_seq(e), st2)),
            None => true,
        },
{
    let (j, st2, e) = mml_command(b, 0, st).unwrap();
    assert(mml_run(b, j, st2) == Some((Seq::<Ev>::empty(), st2)));
    assert(opt_seq(e) + Seq::<Ev>::empty() =~= opt_seq(e));
}

/// The settings commands without a number take their defaults (`O` 4, `L` 4, `T`
/// 120, `V` 8 without envelope, `S` 1, `M` 255), `R` rests a quarter note and `N`
/// rests for the channel's length, at the channel's tempo; the other settings stay.
pub proof fn law_bare_commands(st: MmlState)
    ensures
        mml_parse(seq![79u8], st) == Some((Seq::<Ev>::empty(), MmlState { octave: 4, ..st })),
        mml_parse(seq![76u8], st) == Some((Seq::<Ev>::empty(), MmlState { length: 4, ..st })),
        mml_parse(seq![84u8], st) == Some((Seq::<Ev>::empty(), MmlState { tempo: 120, ..st })),
        mml_parse(seq![86u8], st) == Some((Seq::<Ev>::empty(), MmlState { volume: 8, env: None, ..st })),
        mml_parse(seq![83u8], st) == Some((Seq::<Ev>::empty(), MmlState { env: Some(1), ..st })),
        mml_parse(seq![77u8], st) == Some((seq![Ev::EnvPeriod(255)], st)),
        mml_parse(seq![82u8], st) == Some((seq![Ev::Rest { ticks: note_ticks(st.tempo as int, 4, 0) as u32 }], st)),
        mml_parse(seq![78u8], st) == Some((
            seq![Ev::Rest { ticks: note_ticks(st.tempo as int, st.length as int, 0) as u32 }],
            st,
        )),
{
    let cs = seq![79u8, 76u8, 84u8, 86u8, 83u8, 77u8, 82u8, 78u8];
    assert forall|i: int| 0 <= i < 8 implies #[trigger] mml_text(seq![cs[i]]) == seq![cs[i]] by {
        assert(mml_text(seq![cs[i]]) =~= seq![cs[i]]);
    }
    assert(mml_text(seq![79u8]) == seq![79u8]) by { assert(cs[0] == 79u8); }
    assert(mml_text(seq![76u8]) == seq![76u8]) by { assert(cs[1] == 76u8); }
    assert(mml_text(seq![84u8]) == seq![84u8]) by { assert(cs[2] == 84u8); }
    assert(mml_text(seq![86u8]) == seq![86u8]) by { assert(cs[3] == 86u8); }
    assert(mml_text(seq![83u8]) == seq![83u8]) by { assert(cs[4] == 83u8); }
    assert(mml_text(seq![77u8]) == seq![77u8]) by { assert(cs[5] == 77u8); }
    assert(mml_text(seq![82u8]) == seq![82u8]) by { assert(cs[6] == 82u8); }
    assert(mml_text(seq![78u8]) == seq![78u8]) by { assert(cs[7] == 78u8); }
    lemma_single_command(seq![79u8], st);
    lemma_single_command(seq![76u8], st);
    lemma_single_command(seq![84u8], st);
    lemma_single_command(seq![86u8], st);
    lemma_single_command(seq![83u8], st);
    lemma_single_command(seq![77u8], st);
    lemma_single_command(seq![82u8], st);
    lemma_single_command(seq![78u8], st);
}

proof fn lemma_digit_after(c: u8, dc: u8)
    requires
        65 <= c <= 90,
        48 <= dc <= 57,
    ensures
        mml_text(seq![c, dc]) == seq![c, dc],
        digits_end(seq![c, dc], 1) == 2,
        number_at(seq![c, dc], 1) == Some((dc - 48) as u32),
{
    let b = seq![c, dc];
    assert(mml_text(b) =~= b);
    assert(digits_end(b, 2) == 2);
    assert(digits_value(b, 1, 1) == 0);
}

proof fn lemma_sign_after(c: u8, sign: u8)
    requires
        sign == 43 || sign == 35 || sign == 45,
    ensures
        mml_text(seq![c, sign]) == seq![ascii_upper(c), sign],
        digits_end(seq![ascii_upper(c), sign], 2) == 2,
        dots_end(seq![ascii_upper(c), sign], 2) == 2,
        number_at(seq![ascii_upper(c), sign], 2) is None,
{
    assert(mml_text(seq![c, sign]) =~= seq![ascii_upper(c), sign]);
}

/// The settings commands with a one-digit number `d`: `O` sets the octave to `d`,
/// `L` the length to `d` (at least 1), `T` the tempo to 32 (its least), `V` the
/// volume to `d` without envelope, `S` the envelope shape to `d`, and `M` plays an
/// envelope period of `d` (at least 1).
pub proof fn law_digit_commands(st: MmlState, d: u8)
    requires
        d <= 9,
    ensures
        mml_parse(seq![79u8, (48 + d) as u8], st) == Some((Seq::<Ev>::empty(), MmlState { octave: d as i32, ..st })),
        mml_parse(seq![76u8, (48 + d) as u8], st) == Some((
            Seq::<Ev>::empty(),
            MmlState { length: if d == 0 { 1 } else { d as u32 }, ..st },
        )),
        mml_parse(seq![84u8, (48 + d) as u8], st) == Some((Seq::<Ev>::empty(), MmlState { tempo: 32, ..st })),
        mml_parse(seq![86u8, (48 + d) as u8], st) == Some((
            Seq::<Ev>::empty(),
            MmlState { volume: d, env: None, ..st },
        )),
        mml_parse(seq![83u8, (48 + d) as u8], st) == Some((Seq::<Ev>::empty(), MmlState { env: Some(d), ..st })),
        mml_parse(seq![77u8, (48 + d) as u8], st) == Some((
            seq![Ev::EnvPeriod(if d == 0 { 1 } else { d as u16 })],
            st,
        )),
{
    let dc = (48 + d) as u8;
    lemma_digit_after(79u8, dc);
    lemma_digit_after(76u8, dc);
    lemma_digit_after(84u8, dc);
    lemma_digit_after(86u8, dc);
    lemma_digit_after(83u8, dc);
    lemma_digit_after(77u8, dc);
    lemma_single_command(seq![79u8, dc], st);
    lemma_single_command(seq![76u8, dc], st);
    lemma_single_command(seq![84u8, dc], st);
    lemma_single_command(seq![86u8, dc], st);
    lemma_single_command(seq![83u8, dc], st);
    lemma_single_command(seq![77u8, dc], st);
}

/// A sharp (`+` or `#`) raises a note by a semitone and a flat (`-`) lowers it by
/// one, across octave boundaries (`B+` is the next octave's C, `C-` the previous
/// octave's B).
pub proof fn law_accidentals(c: u8, st: MmlState)
    requires
        65 <= ascii_upper(c) <= 71,
        i32::MIN + 5 <= st.octave < i32::MAX,
    ensures
        ({
            let base = 12 * (st.octave - 4) + letter_semitone(ascii_upper(c)) - 9;
            let note = |p: int| Ev::Note {
                period: tone_period(p) as u16,
                ticks: note_ticks(st.tempo as int, st.length as int, 0) as u32,
                vol: st.volume,
                env: st.env,
            };
            &&& mml_parse(seq![c, 43u8], st) == Some((seq![note(base + 1)], st))
            &&& mml_parse(seq![c, 35u8], st) == Some((seq![note(base + 1)], st))
            &&& mml_parse(seq![c, 45u8], st) == Some((seq![note(base - 1)], st))
        }),
{
    let u = ascii_upper(c);
    lemma_sign_after(c, 43u8);
    lemma_sign_after(c, 35u8);
    lemma_sign_after(c, 45u8);
    lemma_single_command(seq![u, 43u8], st);
    lemma_single_command(seq![u, 35u8], st);
    lemma_single_command(seq![u, 45u8], st);
}

/// Every note a channel with reachable settings plays has a volume and an envelope
/// shape of at most 15.
pub open spec fn note_fits_psg(e: Ev) -> bool {
    e matches Ev::Note { vol, env, .. } ==> vol <= 15 && (env matches Some(x) ==> x <= 15)
}

proof fn lemma_command_keeps_reachable(b: Seq<u8>, i: int, st: MmlState)
    requires
        0 <= i < b.len(),
        st.reachable(),
    ensures
        mml_command(b, i, st) matches Some((j, st2, e)) ==> st2.reachable() && (e matches Some(
            ev,
        ) ==> note_fits_psg(ev)),
{
}

proof fn lemma_run_keeps_reachable(b: Seq<u8>, i: int, st: MmlState)
    requires
        st.reachable(),
    ensures
        mml_run(b, i, st) matches Some((evs, fin)) ==> fin.reachable() && forall|k: int|
            0 <= k < evs.len() ==> note_fits_psg(#[trigger] evs[k]),
    decreases max_int(b.len() - i, 0),
{
    if 0 <= i < b.len() {
        lemma_command_keeps_reachable(b, i, st);
        if let Some((j, st2, e)) = mml_command(b, i, st) {
            if i < j {
                lemma_run_keeps_reachable(b, j, st2);
                if let Some((rest, fin)) = mml_run(b, j, st2) {
                    let evs = opt_seq(e) + rest;
                    assert forall|k: int| 0 <= k < evs.len() implies note_fits_psg(#[trigger] evs[k]) by {
                        if k >= opt_seq(e).len() {
                            assert(evs[k] == rest[k - opt_seq(e).len()]);
                        }
                    }
                }
            }
        }
    }
}

/// PLAY keeps a channel's settings within what it can reach from the initial ones
/// (length at least 1, tempo at least 32, volume and envelope shape at most 15), and
/// every note it plays from such settings has a volume and shape of at most 15.
pub proof fn law_play_settings_stay_in_range(s: Seq<u8>, st: MmlState)
    requires
        st.reachable(),
        mml_parse(s, st) is Some,
    ensures
        mml_parse(s, st).unwrap().1.reachable(),
        forall|k: int|
            0 <= k < mml_parse(s, st).unwrap().0.len() ==> note_fits_psg(
                #[trigger] mml_parse(s, st).unwrap().0[k],
            ),
{
    lemma_run_keeps_reachable(mml_text(s), 0, st);
}

} // verus!
