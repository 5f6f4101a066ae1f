//! The game's BASIC program, by its line numbers, as a state machine:
//! `Game::step` takes what the outside world answered (nothing, the controls, whether
//! music plays, the time) and returns what the outside world is to do next (wait,
//! write a PSG register, play music, read the controls, ...).

use vstd::prelude::*;
use vstd::string::StringSliceAdditionalSpecFns;
use crate::font::font_pattern_row;
use crate::screen::{Screen1, ScreenView, SPACE, printable, law_printable_text_prints, lemma_print_changes_only_text};
use crate::game::{
    Vars, Next, Rng, StepOutcome, race_step, main_step, road_line, road_line_of, xorshift, two53,
    using, using_from, decimal, digits, law_race_stays_in_bounds,
};

verus! {

/// The music the program plays.
#[derive(Clone, Copy, PartialEq, Eq, Debug)]
pub enum Tune {
    /// Line 70: before the start.
    Start,
    /// Line 170: the crash's explosion (noise).
    Explosion,
    /// Line 180: after a crash.
    Crashed,
    /// Line 200: all classes cleared.
    Cleared,
    /// `BEEP`.
    Beep,
}

/// Line 70: the start's fanfare, with the lower channels on envelope 0.
pub const TUNE_START: [&'static str; 3] = [
    "V14T163L8O4FV15GV14GV15GV14GV15GV14FV15GV14GV15GV14GV15GV14GA",
    "S0M8000T163L8O4CD2DCD2DDE",
    "S0M8000T163L8O3FG4G4G8FG4G4GGA",
];

/// Line 170: the explosion, a low note on channel B (with noise mixed in).
pub const TUNE_EXPLOSION: [&'static str; 3] = ["", "S0M2000O1C2", ""];

/// Line 180: after a crash.
pub const TUNE_CRASHED: [&'static str; 3] = ["T180L4O4FR8B-", "S0M5000T180L4O4CR8F", "S0T180L4O3FR8B-R1"];

/// Line 200: all classes cleared.
pub const TUNE_CLEARED: [&'static str; 3] = [
    "S0T180L8O4R8BR8G+R8BR8BA",
    "S0T180L8O3EBG+BEBG+BA",
    "S0M6000T180L8O4BBBAG+G+F+G+AR1",
];

/// `BEEP`.
pub const TUNE_BEEP: [&'static str; 3] = ["V15T255L64O6C", "", ""];

/// The PLAY strings of a tune for channels A, B and C.
pub fn tune_mml(t: Tune) -> (mml: [&'static str; 3])
    ensures
        mml == match t {
            Tune::Start => TUNE_START,
            Tune::Explosion => TUNE_EXPLOSION,
            Tune::Crashed => TUNE_CRASHED,
            Tune::Cleared => TUNE_CLEARED,
            Tune::Beep => TUNE_BEEP,
        },
{
    match t {
        Tune::Start => TUNE_START,
        Tune::Explosion => TUNE_EXPLOSION,
        Tune::Crashed => TUNE_CRASHED,
        Tune::Cleared => TUNE_CLEARED,
        Tune::Beep => TUNE_BEEP,
    }
}

/// A wait of the program, which the outside world times.
#[derive(Clone, Copy, PartialEq, Eq, Debug)]
pub enum Pause {
    /// The time the setup of lines 20 to 40 takes.
    Setup,
    /// `FOR I=0 TO n:NEXT`.
    ForLoop(i32),
    /// One pass of lines 100 to 140, longer when it placed an obstacle or the class line.
    Step { obstacle: bool, class_line: bool },
    /// `BEEP`'s length.
    Beep,
}

/// What the program asks of the outside world.
#[derive(Clone, Copy, PartialEq, Eq, Debug)]
pub enum Command {
    /// Wait, showing frames.
    Pause(Pause),
    /// `SOUND r,v`.
    Sound(usize, u8),
    /// `PLAY` of a tune.
    Play(Tune),
    /// Line 220: wait, showing frames, for the trigger.
    AwaitTrigger,
    /// Wait, showing frames, while music plays.
    AwaitSilence,
    /// Show one frame.
    Frame,
    /// Answer with the trigger and the stick (`Event::Input`).
    ReadInput,
    /// Answer with whether music plays (`Event::Playing`).
    ReadPlaying,
    /// Answer with `TIME` (`Event::Time`).
    ReadTime,
    /// `TIME=0`.
    ResetTime,
}

/// What the outside world answers.
#[derive(Clone, Copy, PartialEq, Eq, Debug)]
pub enum Event {
    /// The commands are done.
    Done,
    /// `STRIG` and `STICK`.
    Input { trigger: bool, stick: usize },
    /// `PLAY(0)`.
    Playing(bool),
    /// `TIME` in 1/60 s (at most 32767).
    Time(i32),
}

/// Where the program is.
#[derive(Clone, Copy, PartialEq, Eq, Debug)]
pub enum Phase {
    /// Before line 10.
    Boot,
    /// Line 50: the title.
    Title,
    /// Line 60: the road and GO.
    Road,
    /// Line 80: the start.
    Ready,
    /// Lines 100 to 160.
    Racing,
    /// Line 170: the explosion.
    Exploding,
    /// Line 180: after a crash.
    Crashed,
    /// Line 190: the last class line passed.
    Clearing,
    /// Line 200: all classes cleared.
    Cleared,
    /// Line 210: letter `i` of the message.
    Letter(u8),
    /// Line 210: the wait before letter `i`.
    Message(u8),
    /// Line 210: the time.
    Finish,
}

/// The game: the screen, the program's variables, the random generator, where the
/// program is, and the last time read.
pub struct Game {
    scr: Screen1,
    v: Vars,
    rng: Rng,
    phase: Phase,
    time: i32,
}

/// The game as a value.
pub struct GameView {
    pub scr: ScreenView,
    pub v: Vars,
    pub seed: u64,
    pub phase: Phase,
    pub time: i32,
}

impl View for Game {
    type V = GameView;

    closed spec fn view(&self) -> GameView {
        GameView { scr: self.scr@, v: self.v, seed: self.rng.seed, phase: self.phase, time: self.time }
    }
}

/// ASCII text that PRINT can show.
pub open spec fn ascii_printable(s: &str) -> bool {
    &&& vstd::string::is_ascii(s)
    &&& forall|k: int| 0 < k < s@.len() && s@[k - 1] == '\u{1}' ==> #[trigger] s@[k] as u8 >= 64
}

proof fn lemma_ascii_printable(s: &str)
    requires
        ascii_printable(s),
    ensures
        printable(s.spec_bytes()),
{
    broadcast use vstd::string::is_ascii_spec_bytes;

    let b = s.spec_bytes();
    assert forall|k: int| 0 < k < b.len() && b[k - 1] == 1 implies #[trigger] b[k] >= 64 by {
        assert(b[k - 1] == s@[k - 1] as u8);
        assert(s@[k - 1] == '\u{1}');
    }
}

pub open spec fn spaces(n: nat) -> Seq<u8> {
    Seq::new(n, |k: int| SPACE)
}

/// `HI SCORE [m分ss秒]` (01h 4Bh is 分, 01h 4Ch is 秒) as `PRINT USING` formats it.
pub open spec fn hi_format() -> Seq<u8> {
    "<HI%SCORE%[#\u{1}K##\u{1}L]>".spec_bytes()
}

/// `TIME [m分ss秒]`.
pub open spec fn time_format() -> Seq<u8> {
    "[TIME%#\u{1}K##\u{1}L]".spec_bytes()
}

/// Minutes and seconds of a time in 1/60 s.
pub open spec fn minutes_seconds(t: int) -> Seq<i32> {
    seq![(t / 3600) as i32, ((t / 60) % 60) as i32]
}

/// Hiding both sprites above the screen (line 230), where their colours are set.
pub open spec fn hide_sprites(scr: ScreenView) -> ScreenView {
    ScreenView { sprites: seq![(0i32, -31i32, 15u8), (0i32, -31i32, 1u8)], ..scr }
}

/// `PRINT s` and a line feed.
pub open spec fn println(scr: ScreenView, s: Seq<u8>) -> ScreenView {
    scr.print(s).unwrap().newline()
}

/// Line 220: `PUSH SPACE KEY` and the best time.
pub open spec fn prompt_scene(scr: ScreenView, hi: int) -> ScreenView {
    let s1 = println(scr.locate(8, 12), "[PUSH%SPACE%KEY]".spec_bytes());
    println(s1.locate(7, 18), using_from(hi_format(), 0, minutes_seconds(hi), 0))
}

/// Line 50: the title.
pub open spec fn title_scene(scr: ScreenView, hi: int) -> ScreenView {
    let s1 = hide_sprites(scr).cls().print(spaces(202)).unwrap();
    prompt_scene(println(s1, "[DRIVE%GAME]".spec_bytes()), hi)
}

/// `PRINT` of the same text `n` times.
pub open spec fn print_times(scr: ScreenView, s: Seq<u8>, n: nat) -> ScreenView
    decreases n,
{
    if n == 0 {
        scr
    } else {
        print_times(scr.print(s).unwrap(), s, (n - 1) as nat)
    }
}

/// Line 60: the straight road down the middle of the screen and `GO`.
pub open spec fn road_scene(scr: ScreenView) -> ScreenView {
    let s1 = print_times(scr.locate(0, 0), road_line(11), 25);
    println(s1.locate(13, 3), "<%GO%>".spec_bytes())
}

/// The class a crash happened in, as `PRINT` shows it: `[CLASS B]` for class 5
/// down to `[CLASS F]` for class 1.
pub open spec fn class_text(c: int) -> Seq<u8> {
    "[CLASS%".spec_bytes() + seq![(71 - c) as u8] + "%]".spec_bytes()
}

/// Line 180: the crash screen.
pub open spec fn crash_scene(scr: ScreenView, c: int, hi: int) -> ScreenView {
    let s1 = println(hide_sprites(scr.cls()).locate(12, 4), "[CRUSH]".spec_bytes());
    prompt_scene(println(s1.locate(11, 8), class_text(c)), hi)
}

/// Line 210: the message letters.
pub open spec fn clear_message() -> Seq<u8> {
    "<ALL%CLEAR%[CLASS%A]>".spec_bytes()
}

/// Line 210: the time it took and the prompt.
pub open spec fn finish_scene(scr: ScreenView, ti: int, hi: int) -> ScreenView {
    prompt_scene(println(scr.locate(10, 8), using_from(time_format(), 0, minutes_seconds(ti), 0)), hi)
}

/// The wait before letter `i` of the message: long before the first, shorter before
/// the words, none otherwise.
pub open spec fn letter_wait(i: int) -> i32 {
    if i == 0 {
        2000
    } else if i == 3 || i == 9 || i == 16 {
        200
    } else {
        0
    }
}

/// The car's sprite and its shadow's, and the patterns of the road's edges (`a`,
/// `b`), the road (`%`) and the obstacle cars (161, 169, ..., 249).
pub open spec fn car_sprite() -> [u8; 8] {
    [0xFF, 0x99, 0x99, 0xFF, 0xFF, 0x98, 0x98, 0x98]
}

pub open spec fn shadow_sprite() -> [u8; 8] {
    [0x42, 0x66, 0x66, 0x42, 0x42, 0xC3, 0xC3, 0xC3]
}

pub open spec fn edge_left() -> [u8; 8] {
    [0x80, 0x80, 0xC0, 0xC0, 0xC0, 0xC0, 0x80, 0x80]
}

pub open spec fn edge_right() -> [u8; 8] {
    [0x01, 0x01, 0x03, 0x03, 0x03, 0x03, 0x01, 0x01]
}

pub open spec fn obstacle_car() -> [u8; 8] {
    [0xFF, 0x99, 0x99, 0xFF, 0xFF, 0x3C, 0x3C, 0x3C]
}

pub open spec fn solid() -> [u8; 8] {
    [0xFF, 0xFF, 0xFF, 0xFF, 0xFF, 0xFF, 0xFF, 0xFF]
}

/// Line 40: the patterns after the setup.
pub open spec fn setup_patterns(p: Seq<[u8; 8]>) -> Seq<[u8; 8]> {
    Seq::new(
        256,
        |k: int|
            if k == 97 {
                edge_left()
            } else if k == 98 {
                edge_right()
            } else if 161 <= k && (k - 161) % 8 == 0 {
                obstacle_car()
            } else if k == 37 {
                solid()
            } else {
                p[k]
            },
    )
}

/// Line 40: the colours after the setup: black on white, the obstacle cars in
/// colours 2 to 13 on black, white road (32..=39), purple on grey edges (96..=103).
pub open spec fn setup_colors() -> Seq<u8> {
    Seq::new(
        32,
        |k: int|
            if 20 <= k {
                ((k - 18) * 16 + 1) as u8
            } else if k == 4 {
                240u8
            } else if k == 12 {
                222u8
            } else {
                0x1Fu8
            },
    )
}

/// Lines 10 to 40: `PLEASE WAIT`, the sprites, patterns and colours.
pub open spec fn setup_scene(scr: ScreenView) -> ScreenView {
    let s1 = ScreenView { colors: Seq::new(32, |k: int| 0x1Fu8), backdrop: 14, ..scr }.cls().print(
        spaces(203),
    ).unwrap();
    let s2 = println(s1, "PLEASE WAIT".spec_bytes());
    ScreenView {
        sprite_pat: seq![car_sprite(), shadow_sprite()],
        patterns: setup_patterns(s2.patterns),
        colors: setup_colors(),
        ..s2
    }
}

/// Line 10's variables.
pub open spec fn initial_vars() -> Vars {
    Vars { hi: 10800, c: 1, f: true, t: 0, x: 0, y: 0, w: 11, xx: 0, sp: 0 }
}

impl GameView {
    /// The program's invariant: a well-formed screen; a best time within 0..=10800
    /// (three minutes); a class within 1..=5; during the race, the race's bounds; a
    /// time read within 0..=32767; a message letter within 0..=21.
    pub open spec fn inv(self) -> bool {
        &&& self.scr.wf()
        &&& 0 <= self.v.hi <= 10800
        &&& 1 <= self.v.c <= 5
        &&& self.phase == Phase::Racing ==> self.v.racing()
        &&& 0 <= self.time <= 32767
        &&& (self.phase matches Phase::Letter(i) ==> i <= 21)
        &&& (self.phase matches Phase::Message(i) ==> 1 <= i <= 21)
    }

    /// What the program does on `ev`: the game after it and the commands for the
    /// outside world. An answer the program did not ask for leaves the game as it is
    /// and repeats the question.
    pub open spec fn step(self, ev: Event) -> (GameView, Seq<Command>) {
        match self.phase {
            Phase::Boot => (
                GameView { scr: setup_scene(self.scr), v: initial_vars(), phase: Phase::Title, ..self },
                seq![Command::Pause(Pause::Setup)],
            ),
            Phase::Title => {
                let v = Vars { t: 0, c: 1, f: true, ..self.v };
                (
                    GameView { scr: title_scene(self.scr, v.hi as int), v, phase: Phase::Road, ..self },
                    seq![Command::AwaitTrigger],
                )
            },
            Phase::Road => (
                GameView { scr: road_scene(self.scr), phase: Phase::Ready, ..self },
                seq![Command::Sound(7, 56), Command::Play(Tune::Start), Command::AwaitSilence],
            ),
            Phase::Ready => (
                GameView {
                    v: Vars { x: 128, y: 170, w: 11, xx: 0, sp: 0, t: 3000, ..self.v },
                    phase: Phase::Racing,
                    ..self
                },
                seq![
                    Command::Pause(Pause::ForLoop(999)),
                    Command::Sound(1, 2),
                    Command::Sound(8, 13),
                    Command::ResetTime,
                    Command::ReadInput,
                ],
            ),
            Phase::Racing => match ev {
                Event::Input { trigger, stick } => self.race(trigger, stick as int),
                _ => (self, seq![Command::ReadInput]),
            },
            Phase::Exploding => match ev {
                Event::Playing(true) => {
                    let s1 = xorshift(self.seed);
                    let (color, seed) = if (s1 >> 11u64) < two53() / 2 {
                        let s2 = xorshift(s1);
                        (((s2 >> 11u64) as int / 0x2000_0000_0000) as u8, s2)
                    } else {
                        (240u8, s1)
                    };
                    (
                        GameView {
                            scr: ScreenView { colors: self.scr.colors.update(4, color), ..self.scr },
                            seed,
                            ..self
                        },
                        seq![Command::Frame, Command::ReadPlaying],
                    )
                },
                Event::Playing(false) => (
                    GameView {
                        scr: ScreenView { colors: self.scr.colors.update(4, 240), ..self.scr },
                        phase: Phase::Crashed,
                        ..self
                    },
                    seq![Command::Sound(7, 56), Command::Play(Tune::Crashed), Command::Pause(Pause::ForLoop(4500))],
                ),
                _ => (self, seq![Command::ReadPlaying]),
            },
            Phase::Crashed => (
                GameView { scr: crash_scene(self.scr, self.v.c as int, self.v.hi as int), phase: Phase::Title, ..self },
                seq![Command::AwaitTrigger],
            ),
            Phase::Clearing => match ev {
                Event::Time(ti) => (
                    GameView {
                        v: Vars { hi: if self.v.hi > ti { ti } else { self.v.hi }, ..self.v },
                        time: ti,
                        phase: Phase::Cleared,
                        ..self
                    },
                    seq![Command::Sound(8, 0), Command::Play(Tune::Cleared), Command::Pause(Pause::ForLoop(4000))],
                ),
                _ => (self, seq![Command::ReadTime]),
            },
            Phase::Cleared => (
                GameView { scr: hide_sprites(self.scr).cls().locate(6, 5), phase: Phase::Letter(0), ..self },
                seq![Command::Pause(Pause::ForLoop(letter_wait(0)))],
            ),
            Phase::Letter(i) => {
                let scr = if i < 21 { self.scr.put(clear_message()[i as int]) } else { self.scr };
                (
                    GameView { scr, phase: if i < 21 { Phase::Message((i + 1) as u8) } else { Phase::Finish }, ..self },
                    seq![Command::Play(Tune::Beep), Command::Pause(Pause::Beep)],
                )
            },
            Phase::Message(i) => (
                GameView { phase: Phase::Letter(i), ..self },
                seq![Command::Pause(Pause::ForLoop(letter_wait(i as int)))],
            ),
            Phase::Finish => (
                GameView { scr: finish_scene(self.scr, self.time as int, self.v.hi as int), phase: Phase::Title, ..self },
                seq![Command::AwaitTrigger],
            ),
        }
    }

    /// Lines 100 to 190 on the controls: a race step, then what its landing leads to
    /// (line 160 pushes the car back 16 dots; line 190 on the class line: nothing more
    /// once passed, else a new road colour and the next class, or after class 5 the
    /// end of the race).
    pub open spec fn race(self, trigger: bool, stick: int) -> (GameView, Seq<Command>) {
        let (v, scr, seed, out) = race_step(self.v, self.scr, self.seed, trigger, stick);
        let head = seq![Command::Pause(Pause::Step { obstacle: out.obstacle, class_line: out.class_line })]
            + match out.engine {
            Some(e) => seq![Command::Sound(0, e)],
            None => seq![],
        };
        let g = GameView { v, scr, seed, ..self };
        match out.next {
            Next::Main => (g, head + seq![Command::ReadInput]),
            Next::Safety => (GameView { v: Vars { y: (v.y + 16) as i32, ..v }, ..g }, head + seq![Command::ReadInput]),
            Next::Crash => (
                GameView { phase: Phase::Exploding, ..g },
                head + seq![
                    Command::Sound(8, 0),
                    Command::Sound(6, 30),
                    Command::Sound(7, 40),
                    Command::Play(Tune::Explosion),
                    Command::ReadPlaying,
                ],
            ),
            Next::ClassLine => if v.f {
                (g, head + seq![Command::ReadInput])
            } else if v.c < 5 {
                let s1 = xorshift(seed);
                let color = ((s1 >> 11u64) as int / 0x2000_0000_0000) as u8;
                (
                    GameView {
                        v: Vars { c: (v.c + 1) as i32, f: true, ..v },
                        scr: ScreenView { colors: scr.colors.update(16, color), ..scr },
                        seed: s1,
                        ..g
                    },
                    head + seq![Command::ReadInput],
                )
            } else {
                (GameView { phase: Phase::Clearing, ..g }, head + seq![Command::ReadTime])
            },
        }
    }
}

proof fn lemma_digits_bytes(n: nat)
    ensures
        digits(n).len() >= 1,
        forall|k: int| 0 <= k < digits(n).len() ==> 48 <= #[trigger] digits(n)[k] <= 57,
    decreases n,
{
    if n >= 10 {
        lemma_digits_bytes(n / 10);
        let d = digits(n / 10);
        assert forall|k: int| 0 <= k < digits(n).len() implies 48 <= #[trigger] digits(n)[k] <= 57 by {
            if k < d.len() {
                assert(digits(n)[k] == d[k]);
            }
        }
    }
}

/// A field of `PRINT USING` has no graphic-character prefix, and starts below 40h.
proof fn lemma_field_bytes(n: int, w: int)
    ensures
        crate::game::using_field(decimal(n), w).len() >= 1,
        crate::game::using_field(decimal(n), w)[0] < 64,
        forall|k: int|
            0 <= k < crate::game::using_field(decimal(n), w).len() ==> #[trigger] crate::game::using_field(
                decimal(n),
                w,
            )[k] != 1,
{
    let d = decimal(n);
    if n < 0 {
        lemma_digits_bytes((-n) as nat);
        assert forall|k: int| 0 <= k < d.len() implies #[trigger] d[k] != 1 by {
            if k > 0 {
                assert(d[k] == digits((-n) as nat)[k - 1]);
            }
        }
    } else {
        lemma_digits_bytes(n as nat);
    }
    let f = crate::game::using_field(d, w);
    assert forall|k: int| 0 <= k < f.len() implies #[trigger] f[k] != 1 by {
        if d.len() > w {
            if k > 0 {
                assert(f[k] == d[k - 1]);
            }
        } else {
            if k >= w - d.len() {
                assert(f[k] == d[k - (w - d.len())]);
            }
        }
    }
    if d.len() <= w && w - d.len() == 0 {
        assert(f[0] == d[0]);
    }
}

proof fn lemma_concat_printable(a: Seq<u8>, b: Seq<u8>)
    requires
        printable(a),
        printable(b),
        a.len() > 0 && a.last() == 1 && b.len() > 0 ==> b[0] >= 64,
    ensures
        printable(a + b),
{
    let c = a + b;
    assert forall|k: int| 0 < k < c.len() && c[k - 1] == 1 implies #[trigger] c[k] >= 64 by {
        if k < a.len() {
            assert(c[k - 1] == a[k - 1] && c[k] == a[k]);
        } else if k == a.len() {
            assert(c[k - 1] == a[k - 1]);
            assert(a.last() == a[k - 1]);
            assert(c[k] == b[0]);
        } else {
            assert(c[k - 1] == b[k - 1 - a.len()] && c[k] == b[k - a.len()]);
        }
    }
}

/// `PRINT USING` of a printable format is printable.
proof fn lemma_using_printable(f: Seq<u8>, i: int, vals: Seq<i32>, k: int)
    requires
        printable(f),
        0 <= i <= f.len(),
    ensures
        printable(using_from(f, i, vals, k)),
        i < f.len() ==> using_from(f, i, vals, k).len() > 0,
        i < f.len() && f[i] != 35 ==> using_from(f, i, vals, k)[0] == f[i],
        i < f.len() && f[i] == 35 ==> using_from(f, i, vals, k)[0] < 64,
    decreases f.len() - i,
{
    if i < f.len() {
        if f[i] == 35 {
            crate::game::lemma_hashes_end(f, i);
            let j = crate::game::hashes_end(f, i);
            let fld = crate::game::using_field(decimal(crate::game::value_at(vals, k)), j - i);
            lemma_field_bytes(crate::game::value_at(vals, k), j - i);
            lemma_using_printable(f, j, vals, k + 1);
            assert(printable(fld));
            lemma_concat_printable(fld, using_from(f, j, vals, k + 1));
        } else {
            lemma_using_printable(f, i + 1, vals, k);
            if f[i] == 1 && i + 1 < f.len() {
                assert(f[(i + 1) - 1] == 1);
                assert(f[i + 1] >= 64);
            }
            lemma_concat_printable(seq![f[i]], using_from(f, i + 1, vals, k));
        }
    }
}

fn hide_sprites_of(scr: &mut Screen1)
    requires
        old(scr)@.wf(),
    ensures
        final(scr)@ =~~= hide_sprites(old(scr)@),
        final(scr)@.wf(),
{
    scr.set_sprite(0, (0, -31, 15));
    scr.set_sprite(1, (0, -31, 1));
    assert(scr@.sprites =~= hide_sprites(old(scr)@).sprites);
}

fn println_bytes(scr: &mut Screen1, s: &[u8])
    requires
        old(scr)@.wf(),
        printable(s@),
    ensures
        final(scr)@ =~~= println(old(scr)@, s@),
        final(scr)@.wf(),
{
    proof {
        law_printable_text_prints(scr@, s@);
    }
    scr.println(s);
}

fn print_bytes(scr: &mut Screen1, s: &[u8])
    requires
        old(scr)@.wf(),
        printable(s@),
    ensures
        final(scr)@ =~~= old(scr)@.print(s@).unwrap(),
        final(scr)@.wf(),
{
    proof {
        law_printable_text_prints(scr@, s@);
    }
    scr.print(s);
}

/// Minutes and seconds of a time in 1/60 s.
fn minutes_seconds_of(t: i32) -> (ms: [i32; 2])
    requires
        0 <= t,
    ensures
        ms@ == minutes_seconds(t as int),
{
    let ms = [t / 3600, (t / 60) % 60];
    assert(ms@ =~= minutes_seconds(t as int));
    ms
}

fn prompt(scr: &mut Screen1, hi: i32)
    requires
        old(scr)@.wf(),
        0 <= hi,
    ensures
        final(scr)@ =~~= prompt_scene(old(scr)@, hi as int),
        final(scr)@.wf(),
{
    scr.locate(8, 12);
    let push = "[PUSH%SPACE%KEY]";
    proof {
        reveal_strlit("[PUSH%SPACE%KEY]");
        lemma_ascii_printable(push);
    }
    println_bytes(scr, push.as_bytes());
    scr.locate(7, 18);
    let fmt = "<HI%SCORE%[#\u{1}K##\u{1}L]>";
    proof {
        reveal_strlit("<HI%SCORE%[#\u{1}K##\u{1}L]>");
        lemma_ascii_printable(fmt);
    }
    let ms = minutes_seconds_of(hi);
    let text = using(fmt.as_bytes(), &ms);
    proof {
        lemma_using_printable(fmt.spec_bytes(), 0, ms@, 0);
    }
    println_bytes(scr, text.as_slice());
}

fn title(scr: &mut Screen1, hi: i32)
    requires
        old(scr)@.wf(),
        0 <= hi,
    ensures
        final(scr)@ =~~= title_scene(old(scr)@, hi as int),
        final(scr)@.wf(),
{
    hide_sprites_of(scr);
    scr.cls();
    let blank = [SPACE; 202];
    proof {
        assert(blank@ =~= spaces(202));
    }
    print_bytes(scr, &blank);
    let name = "[DRIVE%GAME]";
    proof {
        reveal_strlit("[DRIVE%GAME]");
        lemma_ascii_printable(name);
    }
    println_bytes(scr, name.as_bytes());
    prompt(scr, hi);
}

fn road(scr: &mut Screen1)
    requires
        old(scr)@.wf(),
    ensures
        final(scr)@ =~~= road_scene(old(scr)@),
        final(scr)@.wf(),
{
    scr.locate(0, 0);
    let line = road_line_of(11);
    let ghost start = scr@;
    let mut n: usize = 0;
    while n < 25
        invariant
            n <= 25,
            printable(line@),
            line@ == road_line(11),
            scr@.wf(),
            print_times(start, line@, 25) == print_times(scr@, line@, (25 - n) as nat),
        decreases 25 - n,
    {
        print_bytes(scr, line.as_slice());
        n = n + 1;
    }
    scr.locate(13, 3);
    let go = "<%GO%>";
    proof {
        reveal_strlit("<%GO%>");
        lemma_ascii_printable(go);
    }
    println_bytes(scr, go.as_bytes());
}

fn crash(scr: &mut Screen1, c: i32, hi: i32)
    requires
        old(scr)@.wf(),
        1 <= c <= 5,
        0 <= hi,
    ensures
        final(scr)@ =~~= crash_scene(old(scr)@, c as int, hi as int),
        final(scr)@.wf(),
{
    scr.cls();
    hide_sprites_of(scr);
    scr.locate(12, 4);
    let crush = "[CRUSH]";
    proof {
        reveal_strlit("[CRUSH]");
        lemma_ascii_printable(crush);
    }
    println_bytes(scr, crush.as_bytes());
    scr.locate(11, 8);
    let head = "[CLASS%";
    let tail = "%]";
    proof {
        reveal_strlit("[CLASS%");
        reveal_strlit("%]");
        lemma_ascii_printable(head);
        lemma_ascii_printable(tail);
    }
    let letter = [(71 - c) as u8];
    let parts: [&[u8]; 3] = [head.as_bytes(), &letter, tail.as_bytes()];
    let text = crate::game::cat(&parts);
    proof {
        let f = |acc: Seq<u8>, p: &[u8]| acc + p@;
        reveal_with_fuel(Seq::fold_left, 4);
        assert(parts@.drop_last().drop_last().drop_last() =~= Seq::<&[u8]>::empty());
        assert(letter@ =~= seq![(71 - c) as u8]);
        assert(parts@.fold_left(Seq::<u8>::empty(), f) =~= head.spec_bytes() + letter@ + tail.spec_bytes());
        assert(text@ =~= class_text(c as int));
        lemma_concat_printable(head.spec_bytes(), seq![(71 - c) as u8]);
        lemma_concat_printable(head.spec_bytes() + seq![(71 - c) as u8], tail.spec_bytes());
    }
    println_bytes(scr, text.as_slice());
    prompt(scr, hi);
}

fn finish(scr: &mut Screen1, ti: i32, hi: i32)
    requires
        old(scr)@.wf(),
        0 <= ti,
        0 <= hi,
    ensures
        final(scr)@ =~~= finish_scene(old(scr)@, ti as int, hi as int),
        final(scr)@.wf(),
{
    scr.locate(10, 8);
    let fmt = "[TIME%#\u{1}K##\u{1}L]";
    proof {
        reveal_strlit("[TIME%#\u{1}K##\u{1}L]");
        lemma_ascii_printable(fmt);
    }
    let ms = minutes_seconds_of(ti);
    let text = using(fmt.as_bytes(), &ms);
    proof {
        lemma_using_printable(fmt.spec_bytes(), 0, ms@, 0);
    }
    println_bytes(scr, text.as_slice());
    prompt(scr, hi);
}

fn setup(scr: &mut Screen1)
    requires
        old(scr)@.wf(),
    ensures
        final(scr)@ =~~= setup_scene(old(scr)@),
        final(scr)@.wf(),
{
    let ghost s0 = scr@;
    let mut k: usize = 0;
    while k < 32
        invariant
            k <= 32,
            scr@.wf(),
            scr@ == (ScreenView { colors: scr@.colors, ..s0 }),
            forall|j: int| 0 <= j < k ==> #[trigger] scr@.colors[j] == 0x1F,
            forall|j: int| k <= j < 32 ==> #[trigger] scr@.colors[j] == s0.colors[j],
        decreases 32 - k,
    {
        scr.set_color(k, 0x1F);
        k = k + 1;
    }
    scr.set_backdrop(14);
    proof {
        assert(scr@ =~~= ScreenView { colors: Seq::new(32, |k: int| 0x1Fu8), backdrop: 14, ..s0 });
    }
    scr.cls();
    let blank = [SPACE; 203];
    proof {
        assert(blank@ =~= spaces(203));
    }
    print_bytes(scr, &blank);
    let wait = "PLEASE WAIT";
    proof {
        reveal_strlit("PLEASE WAIT");
        lemma_ascii_printable(wait);
    }
    println_bytes(scr, wait.as_bytes());
    let ghost s2 = scr@;
    scr.set_sprite_pattern(0, [0xFF, 0x99, 0x99, 0xFF, 0xFF, 0x98, 0x98, 0x98]);
    scr.set_sprite_pattern(1, [0x42, 0x66, 0x66, 0x42, 0x42, 0xC3, 0xC3, 0xC3]);
    scr.set_pattern(97, [0x80, 0x80, 0xC0, 0xC0, 0xC0, 0xC0, 0x80, 0x80]);
    scr.set_pattern(98, [0x01, 0x01, 0x03, 0x03, 0x03, 0x03, 0x01, 0x01]);
    scr.set_pattern(161, [0xFF, 0x99, 0x99, 0xFF, 0xFF, 0x3C, 0x3C, 0x3C]);
    scr.set_pattern(37, [0xFF, 0xFF, 0xFF, 0xFF, 0xFF, 0xFF, 0xFF, 0xFF]);
    let ghost s3 = scr@;
    let mut i: usize = 0;
    while i < 12
        invariant
            i <= 12,
            scr@.wf(),
            scr@ == (ScreenView { patterns: scr@.patterns, colors: scr@.colors, ..s3 }),
            s3.patterns[161] == obstacle_car(),
            forall|k: int|
                0 <= k < 256 ==> #[trigger] scr@.patterns[k] == if 161 <= k < 161 + 8 * i && (k - 161) % 8
                    == 0 {
                    obstacle_car()
                } else {
                    s3.patterns[k]
                },
            forall|k: int|
                0 <= k < 32 ==> #[trigger] scr@.colors[k] == if 20 <= k < 20 + i {
                    ((k - 18) * 16 + 1) as u8
                } else {
                    s3.colors[k]
                },
        decreases 12 - i,
    {
        let p = scr.pattern(161);
        scr.set_pattern(161 + i * 8, p);
        let n: u8 = i as u8 + 2;
        let color: u8 = (n << 4) | 1;
        assert((n << 4u8) | 1u8 == n * 16 + 1) by (bit_vector)
            requires n < 14u8;
        scr.set_color(20 + i, color);
        i = i + 1;
    }
    scr.set_color(4, 240);
    scr.set_color(12, 222);
    proof {
        let e = setup_scene(s0);
        let c0 = ScreenView { colors: Seq::new(32, |k: int| 0x1Fu8), backdrop: 14, ..s0 }.cls();
        lemma_print_changes_only_text(c0, spaces(203), 0);
        assert(printable(spaces(203)));
        law_printable_text_prints(c0, spaces(203));
        let c1 = c0.print(spaces(203)).unwrap();
        law_printable_text_prints(c1, "PLEASE WAIT".spec_bytes());
        lemma_print_changes_only_text(c1, "PLEASE WAIT".spec_bytes(), 0);
        assert(s2 =~~= println(c1, "PLEASE WAIT".spec_bytes()));
        assert(s2.colors == c0.colors);
        assert(s2.patterns == s0.patterns);
        assert(scr@.patterns =~= e.patterns);
        assert(scr@.colors =~= e.colors);
        assert(scr@.sprite_pat =~= e.sprite_pat);
        assert(scr@ =~~= e);
    }
}

/// The answers `step` may be given: a time from the clock is at most 32767.
pub open spec fn valid_event(ev: Event) -> bool {
    ev matches Event::Time(t) ==> 0 <= t <= 32767
}

impl GameView {
    /// The step on `ev` is defined: a race step has a road line to draw (the road's
    /// edge does not sway to 24).
    pub open spec fn defined(self, ev: Event) -> bool {
        self.phase == Phase::Racing && ev is Input ==> crate::game::sway_in_range(self.v, self.seed)
    }
}

impl Game {
    /// The game before line 10: a cleared screen with the font's patterns, and a
    /// random generator with the given seed.
    pub fn new(seed: u64) -> (g: Game)
        ensures
            g@.scr =~~= crate::screen::initial_screen(g@.scr.patterns),
            forall|c: int, y: int|
                0 <= c < 256 && 0 <= y < 8 ==> #[trigger] g@.scr.patterns[c][y] == font_pattern_row(c, y),
            g@.v == initial_vars(),
            g@.seed == seed,
            g@.phase == Phase::Boot,
            g@.time == 0,
            g@.inv(),
    {
        Game {
            scr: Screen1::new(),
            v: Vars { hi: 10800, c: 1, f: true, t: 0, x: 0, y: 0, w: 11, xx: 0, sp: 0 },
            rng: Rng { seed },
            phase: Phase::Boot,
            time: 0,
        }
    }

    /// The screen, to be shown.
    pub fn screen(&self) -> (s: &Screen1)
        ensures
            s@ == self@.scr,
    {
        &self.scr
    }

    /// Where the program is.
    pub fn phase(&self) -> (p: Phase)
        ensures
            p == self@.phase,
    {
        self.phase
    }

    /// The program's variables.
    pub fn vars(&self) -> (v: Vars)
        ensures
            v == self@.v,
    {
        self.v
    }

    /// Whether the step on `ev` is defined (see `GameView::defined`).
    pub fn defined(&self, ev: Event) -> (ok: bool)
        requires
            self@.inv(),
        ensures
            ok == self@.defined(ev),
    {
        match (self.phase, ev) {
            (Phase::Racing, Event::Input { .. }) => {
                let mut r = Rng { seed: self.rng.seed };
                let k = r.next();
                proof {
                    crate::game::lemma_sway_range(self.v.w as int, k as int);
                }
                crate::game::sway_raw_of(self.v.w, k) != 24
            },
            _ => true,
        }
    }

    /// Runs the program on the outside world's answer `ev` up to its next request.
    pub fn step(&mut self, ev: Event) -> (cmds: Vec<Command>)
        requires
            old(self)@.inv(),
            valid_event(ev),
            old(self)@.defined(ev),
        ensures
            final(self)@ =~~= old(self)@.step(ev).0,
            cmds@ == old(self)@.step(ev).1,
            final(self)@.inv(),
    {
        let ghost g0 = self@;
        let mut cmds: Vec<Command> = Vec::new();
        match self.phase {
            Phase::Boot => {
                setup(&mut self.scr);
                self.v = Vars { hi: 10800, c: 1, f: true, t: 0, x: 0, y: 0, w: 11, xx: 0, sp: 0 };
                self.phase = Phase::Title;
                cmds.push(Command::Pause(Pause::Setup));
            },
            Phase::Title => {
                self.v.t = 0;
                self.v.c = 1;
                self.v.f = true;
                title(&mut self.scr, self.v.hi);
                self.phase = Phase::Road;
                cmds.push(Command::AwaitTrigger);
            },
            Phase::Road => {
                road(&mut self.scr);
                self.phase = Phase::Ready;
                cmds.push(Command::Sound(7, 56));
                cmds.push(Command::Play(Tune::Start));
                cmds.push(Command::AwaitSilence);
            },
            Phase::Ready => {
                self.v.x = 128;
                self.v.y = 170;
                self.v.w = 11;
                self.v.xx = 0;
                self.v.sp = 0;
                self.v.t = 3000;
                self.phase = Phase::Racing;
                cmds.push(Command::Pause(Pause::ForLoop(999)));
                cmds.push(Command::Sound(1, 2));
                cmds.push(Command::Sound(8, 13));
                cmds.push(Command::ResetTime);
                cmds.push(Command::ReadInput);
            },
            Phase::Racing => {
                match ev {
                    Event::Input { trigger, stick } => {
                        cmds = self.race(trigger, stick);
                    },
                    _ => {
                        cmds.push(Command::ReadInput);
                    },
                }
            },
            Phase::Exploding => {
                match ev {
                    Event::Playing(true) => {
                        let k1 = self.rng.next();
                        let color: u8 = if k1 < 0x10_0000_0000_0000 {
                            let k2 = self.rng.next();
                            (k2 / 0x2000_0000_0000) as u8
                        } else {
                            240
                        };
                        self.scr.set_color(4, color);
                        cmds.push(Command::Frame);
                        cmds.push(Command::ReadPlaying);
                    },
                    Event::Playing(false) => {
                        self.scr.set_color(4, 240);
                        self.phase = Phase::Crashed;
                        cmds.push(Command::Sound(7, 56));
                        cmds.push(Command::Play(Tune::Crashed));
                        cmds.push(Command::Pause(Pause::ForLoop(4500)));
                    },
                    _ => {
                        cmds.push(Command::ReadPlaying);
                    },
                }
            },
            Phase::Crashed => {
                crash(&mut self.scr, self.v.c, self.v.hi);
                self.phase = Phase::Title;
                cmds.push(Command::AwaitTrigger);
            },
            Phase::Clearing => {
                match ev {
                    Event::Time(ti) => {
                        if self.v.hi > ti {
                            self.v.hi = ti;
                        }
                        self.time = ti;
                        self.phase = Phase::Cleared;
                        cmds.push(Command::Sound(8, 0));
                        cmds.push(Command::Play(Tune::Cleared));
                        cmds.push(Command::Pause(Pause::ForLoop(4000)));
                    },
                    _ => {
                        cmds.push(Command::ReadTime);
                    },
                }
            },
            Phase::Cleared => {
                hide_sprites_of(&mut self.scr);
                self.scr.cls();
                self.scr.locate(6, 5);
                self.phase = Phase::Letter(0);
                cmds.push(Command::Pause(Pause::ForLoop(2000)));
            },
            Phase::Letter(i) => {
                if i < 21 {
                    let msg = "<ALL%CLEAR%[CLASS%A]>";
                    proof {
                        reveal_strlit("<ALL%CLEAR%[CLASS%A]>");
                    }
                    let b = msg.as_bytes();
                    assert(b@.len() == 21) by {
                        broadcast use vstd::string::is_ascii_spec_bytes;

                        assert(vstd::string::is_ascii(msg));
                    }
                    self.scr.put(b[i as usize]);
                    self.phase = Phase::Message(i + 1);
                } else {
                    self.phase = Phase::Finish;
                }
                cmds.push(Command::Play(Tune::Beep));
                cmds.push(Command::Pause(Pause::Beep));
            },
            Phase::Message(i) => {
                let n: i32 = if i == 3 || i == 9 || i == 16 { 200 } else { 0 };
                self.phase = Phase::Letter(i);
                cmds.push(Command::Pause(Pause::ForLoop(n)));
            },
            Phase::Finish => {
                finish(&mut self.scr, self.time, self.v.hi);
                self.phase = Phase::Title;
                cmds.push(Command::AwaitTrigger);
            },
        }
        proof {
            let (e, ec) = g0.step(ev);
            assert(cmds@ =~= ec);
        }
        cmds
    }

    #[verifier::rlimit(30)]
    fn race(&mut self, trigger: bool, stick: usize) -> (cmds: Vec<Command>)
        requires
            old(self)@.inv(),
            old(self)@.phase == Phase::Racing,
            crate::game::sway_in_range(old(self)@.v, old(self)@.seed),
        ensures
            final(self)@ =~~= old(self)@.race(trigger, stick as int).0,
            cmds@ == old(self)@.race(trigger, stick as int).1,
            final(self)@.inv(),
    {
        let ghost g0 = self@;
        proof {
            law_race_stays_in_bounds(self.v, self.scr@, self.rng.seed, trigger, stick as int);
        }
        let out = main_step(&mut self.v, &mut self.scr, &mut self.rng, trigger, stick);
        let mut cmds: Vec<Command> = Vec::new();
        cmds.push(Command::Pause(Pause::Step { obstacle: out.obstacle, class_line: out.class_line }));
        match out.engine {
            Some(e) => {
                cmds.push(Command::Sound(0, e));
            },
            None => {},
        }
        let ghost head = cmds@;
        match out.next {
            Next::Main => {
                cmds.push(Command::ReadInput);
            },
            Next::Safety => {
                self.v.y = self.v.y + 16;
                cmds.push(Command::ReadInput);
            },
            Next::Crash => {
                self.phase = Phase::Exploding;
                cmds.push(Command::Sound(8, 0));
                cmds.push(Command::Sound(6, 30));
                cmds.push(Command::Sound(7, 40));
                cmds.push(Command::Play(Tune::Explosion));
                cmds.push(Command::ReadPlaying);
            },
            Next::ClassLine => {
                if self.v.f {
                    cmds.push(Command::ReadInput);
                } else if self.v.c < 5 {
                    let k = self.rng.next();
                    let color = (k / 0x2000_0000_0000) as u8;
                    self.scr.set_color(16, color);
                    self.v.c = self.v.c + 1;
                    self.v.f = true;
                    cmds.push(Command::ReadInput);
                } else {
                    self.phase = Phase::Clearing;
                    cmds.push(Command::ReadTime);
                }
            },
        }
        proof {
            let (e, ec) = g0.race(trigger, stick as int);
            assert(head =~= seq![Command::Pause(Pause::Step { obstacle: out.obstacle, class_line: out.class_line })]
                + match out.engine {
                Some(e) => seq![Command::Sound(0, e)],
                None => seq![],
            });
            assert(cmds@ =~= ec);
        }
        cmds
    }
}

/// The best time never gets worse: once the program has started, no step raises
/// `HI`, and the only step that changes it (the end of a race) makes it the smaller
/// of itself and the time read.
pub proof fn law_best_time_never_rises(g: GameView, ev: Event)
    requires
        g.inv(),
        valid_event(ev),
        g.phase != Phase::Boot,
    ensures
        g.step(ev).0.v.hi <= g.v.hi,
        g.phase == Phase::Clearing ==> (ev matches Event::Time(ti) ==> g.step(ev).0.v.hi == if ti < g.v.hi {
            ti
        } else {
            g.v.hi
        }),
{
}

/// The class line (line 190): on a race step that lands on it before it has been
/// passed in this class, classes 1 to 4 go on to the next class, with `F` set, a new
/// colour for the road's shoulders (colour entry 16) and the race going on, while
/// class 5 ends the race and asks for the time. A class line already passed, or any
/// other landing but a crash, leaves the class and the race going on.
#[verifier::spinoff_prover]
#[verifier::rlimit(60)]
pub proof fn law_class_line_advances(g: GameView, trigger: bool, stick: usize)
    requires
        g.inv(),
        g.phase == Phase::Racing,
        g.defined(Event::Input { trigger, stick }),
    ensures
        ({
            let (v2, scr2, seed2, out) = race_step(g.v, g.scr, g.seed, trigger, stick as int);
            let (g2, cmds) = g.step(Event::Input { trigger, stick });
            &&& v2.c == g.v.c
            &&& out.next == Next::ClassLine && !v2.f && g.v.c < 5 ==> {
                &&& g2.phase == Phase::Racing
                &&& g2.v.c == g.v.c + 1
                &&& g2.v.f
                &&& forall|k: int| 0 <= k < 32 && k != 16 ==> #[trigger] g2.scr.colors[k] == scr2.colors[k]
                &&& g2.seed == xorshift(seed2)
                &&& cmds.last() == Command::ReadInput
            }
            &&& out.next == Next::ClassLine && !v2.f && g.v.c == 5 ==> {
                &&& g2.phase == Phase::Clearing
                &&& g2.v.c == 5
                &&& cmds.last() == Command::ReadTime
            }
            &&& out.next != Next::Crash && !(out.next == Next::ClassLine && !v2.f && g.v.c == 5) ==> {
                &&& g2.phase == Phase::Racing
                &&& cmds.last() == Command::ReadInput
                &&& (g2.v.c == g.v.c || (g2.v.c == g.v.c + 1 && out.next == Next::ClassLine))
            }
            &&& out.next == Next::Crash ==> g2.phase == Phase::Exploding && cmds.last() == Command::ReadPlaying
            &&& out.next == Next::Safety ==> g2.v == (Vars { y: (v2.y + 16) as i32, ..v2 }) && g2.scr == scr2
            &&& out.next == Next::Main ==> g2.v == v2 && g2.scr == scr2 && g2.seed == seed2
            &&& cmds[0] == Command::Pause(Pause::Step { obstacle: out.obstacle, class_line: out.class_line })
        }),
{
    let ev = Event::Input { trigger, stick };
    assert(g.step(ev) == g.race(trigger, stick as int));
    crate::game::lemma_race_step_keeps_class(g.v, g.scr, g.seed, trigger, stick as int);
    law_race_stays_in_bounds(g.v, g.scr, g.seed, trigger, stick as int);
    let (v2, scr2, seed2, out) = race_step(g.v, g.scr, g.seed, trigger, stick as int);
    let head = seq![Command::Pause(Pause::Step { obstacle: out.obstacle, class_line: out.class_line })]
        + match out.engine {
        Some(e) => seq![Command::Sound(0, e)],
        None => seq![],
    };
    let tail_in = head + seq![Command::ReadInput];
    assert(tail_in.last() == Command::ReadInput);
    let tail_time = head + seq![Command::ReadTime];
    assert(tail_time.last() == Command::ReadTime);
    let tail_crash = head + seq![
        Command::Sound(8, 0),
        Command::Sound(6, 30),
        Command::Sound(7, 40),
        Command::Play(Tune::Explosion),
        Command::ReadPlaying,
    ];
    assert(tail_crash.last() == Command::ReadPlaying);
    assert(tail_in[0] == head[0] && tail_time[0] == head[0] && tail_crash[0] == head[0]);
}

} // verus!
