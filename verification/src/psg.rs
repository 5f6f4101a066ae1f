//! The PSG (AY-3-8910 as in the MSX) as registers and counters, and the PLAY
//! sequencer that drives it once every 1/60 s.
//!
//! `SOUND r,v` is a register write. `PLAY` appends the events of its MML strings
//! to the three channels' tracks; `tick` plays them on. The sample-rate parts of
//! the chip (the phase accumulators of the tone, noise and envelope generators and
//! the analogue mix) run outside this module; they call `envelope_step` and
//! `noise_step` when their phases wrap and ask `channel_output` for the level each
//! channel contributes.

use vstd::prelude::*;
use vstd::string::StringSliceAdditionalSpecFns;
use crate::mml::{Ev, MmlState, mml_parse, parse_mml, try_parse_mml, initial_mml_state};

verus! {

/// The sample rate the sound is rendered at.
pub const SAMPLE_RATE: usize = 44_100;

/// One channel's PLAY queue.
pub struct Track {
    events: Vec<Ev>,
    pos: usize,
    left: u32,
    active: bool,
}

/// A channel's PLAY queue as a value: its events, the next one to play, the 1/60 s
/// left of the current one, and whether it is playing.
#[verifier::ext_equal]
pub struct TrackView {
    pub events: Seq<Ev>,
    pub pos: int,
    pub left: u32,
    pub active: bool,
}

impl View for Track {
    type V = TrackView;

    closed spec fn view(&self) -> TrackView {
        TrackView { events: self.events@, pos: self.pos as int, left: self.left, active: self.active }
    }
}

impl Track {
    fn new() -> (t: Track)
        ensures
            t@ == idle_track(),
    {
        Track { events: Vec::new(), pos: 0, left: 0, active: false }
    }
}

pub open spec fn idle_track() -> TrackView {
    TrackView { events: seq![], pos: 0, left: 0, active: false }
}

/// The PSG's registers and the state of its envelope and noise generators and of
/// the three PLAY channels.
pub struct Psg {
    regs: [u8; 16],
    lfsr: u32,
    noise_out: bool,
    env_step: i32,
    env_holding: bool,
    env_restarted: bool,
    tracks: [Track; 3],
    mml: [MmlState; 3],
}

/// The PSG as a value.
#[verifier::ext_equal]
pub struct PsgView {
    /// The sixteen registers.
    pub regs: Seq<u8>,
    /// The 17-bit noise shift register.
    pub lfsr: u32,
    /// The noise generator's output.
    pub noise_out: bool,
    /// The envelope's step 0..=15 within its period.
    pub env_step: i32,
    /// The envelope has finished its first period and holds.
    pub env_holding: bool,
    /// Register 13 was written: the envelope restarts its period.
    pub env_restarted: bool,
    /// The three channels' PLAY queues.
    pub tracks: Seq<TrackView>,
    /// The three channels' PLAY settings.
    pub mml: Seq<MmlState>,
}

impl View for Psg {
    type V = PsgView;

    closed spec fn view(&self) -> PsgView {
        PsgView {
            regs: self.regs@,
            lfsr: self.lfsr,
            noise_out: self.noise_out,
            env_step: self.env_step,
            env_holding: self.env_holding,
            env_restarted: self.env_restarted,
            tracks: self.tracks@.map_values(|t: Track| t@),
            mml: self.mml@,
        }
    }
}

impl PsgView {
    /// The invariant of the PSG: sixteen registers, three channels, the envelope
    /// step within a period, a 17-bit noise register that never reaches zero, each
    /// queue's position within its events, and an idle channel's queue empty, at
    /// position 0, with nothing left to wait.
    pub open spec fn wf(self) -> bool {
        &&& self.regs.len() == 16
        &&& self.tracks.len() == 3
        &&& self.mml.len() == 3
        &&& 0 <= self.env_step <= 15
        &&& 1 <= self.lfsr < 0x20000
        &&& forall|ch: int| 0 <= ch < 3 ==> 0 <= #[trigger] self.tracks[ch].pos <= self.tracks[ch].events.len()
        &&& forall|ch: int|
            0 <= ch < 3 && !(#[trigger] self.tracks[ch]).active ==> self.tracks[ch].events.len() == 0
                && self.tracks[ch].pos == 0 && self.tracks[ch].left == 0
    }

    pub open spec fn set_reg(self, r: int, x: u8) -> PsgView {
        PsgView { regs: self.regs.update(r, x), ..self }
    }

    pub open spec fn set_track(self, ch: int, t: TrackView) -> PsgView {
        PsgView { tracks: self.tracks.update(ch, t), ..self }
    }

    /// `SOUND r,v`: register `r mod 16` becomes `x`; a write to register 13 (the
    /// envelope shape) restarts the envelope.
    pub open spec fn write(self, r: int, x: u8) -> PsgView {
        let v = self.set_reg(r % 16, x);
        if r == 13 {
            PsgView { env_step: 0, env_holding: false, env_restarted: true, ..v }
        } else {
            v
        }
    }

    /// Whether any channel is playing (`PLAY(0)`).
    pub open spec fn playing(self) -> bool {
        exists|ch: int| 0 <= ch < 3 && #[trigger] self.tracks[ch].active
    }

    /// Playing the channel's events from its position on until one of them sounds
    /// or rests: envelope periods go to registers 11 and 12; a rest silences the
    /// channel, a note sets its period and volume (or envelope shape); either waits
    /// its length (at least 1/60 s). With no events left the channel stops, its
    /// queue empties and its volume becomes 0.
    pub open spec fn run_events(self, ch: int) -> PsgView
        decreases self.tracks[ch].events.len() - self.tracks[ch].pos,
    {
        let t = self.tracks[ch];
        if !(0 <= ch < self.tracks.len()) || t.pos < 0 {
            self
        } else if t.pos >= t.events.len() {
            self.set_track(ch, TrackView { events: seq![], pos: 0, active: false, ..t }).set_reg(8 + ch, 0)
        } else {
            let v1 = self.set_track(ch, TrackView { pos: t.pos + 1, ..t });
            let t1 = TrackView { pos: t.pos + 1, ..t };
            match t.events[t.pos] {
                Ev::EnvPeriod(m) => v1.set_reg(11, (m % 256) as u8).set_reg(12, (m / 256) as u8).run_events(ch),
                Ev::Rest { ticks } => v1.set_reg(8 + ch, 0).set_track(ch, TrackView { left: wait_of(ticks), ..t1 }),
                Ev::Note { period, ticks, vol, env } => {
                    let v2 = v1.set_reg(2 * ch, (period % 256) as u8).set_reg(2 * ch + 1, (period / 256) as u8);
                    let v3 = match env {
                        Some(shape) => v2.set_reg(8 + ch, 16).write(13, shape),
                        None => v2.set_reg(8 + ch, vol),
                    };
                    v3.set_track(ch, TrackView { left: wait_of(ticks), ..t1 })
                },
            }
        }
    }

    /// One 1/60 s step of channel `ch`: an idle channel stays as it is; otherwise the
    /// current event's wait counts down, and when it is used up (or had not begun)
    /// the channel's next events play (`run_events`).
    pub open spec fn tick_channel(self, ch: int) -> PsgView {
        let t = self.tracks[ch];
        if !t.active {
            self
        } else if t.left > 0 {
            let v1 = self.set_track(ch, TrackView { left: (t.left - 1) as u32, ..t });
            if t.left - 1 > 0 {
                v1
            } else {
                v1.run_events(ch)
            }
        } else {
            self.run_events(ch)
        }
    }

    /// One 1/60 s step of the PLAY sequencer: channels 0, 1 and 2 in turn.
    pub open spec fn tick(self) -> PsgView {
        self.tick_channel(0).tick_channel(1).tick_channel(2)
    }

    /// `PLAY` on channel `ch` with the MML bytes `s`: an empty string leaves the
    /// channel alone; otherwise the string's events join the channel's queue, its
    /// settings become those the string leaves, and an idle channel starts.
    pub open spec fn play_channel(self, ch: int, s: Seq<u8>) -> PsgView {
        if s.len() == 0 {
            self
        } else {
            let (evs, fin) = mml_parse(s, self.mml[ch]).unwrap();
            let t = self.tracks[ch];
            let t2 = if t.active {
                TrackView { events: t.events + evs, ..t }
            } else {
                TrackView { events: t.events + evs, active: true, left: 0, ..t }
            };
            PsgView { mml: self.mml.update(ch, fin), ..self.set_track(ch, t2) }
        }
    }

    /// The MML bytes `s` can be read on channel `ch` as its settings stand.
    pub open spec fn accepts(self, ch: int, s: Seq<u8>) -> bool {
        s.len() > 0 ==> mml_parse(s, self.mml[ch]) is Some
    }

    /// One step of the envelope generator, when its phase wraps: within the first
    /// period the step advances; past step 15 a shape without "continue" or with
    /// "hold" holds at the end, and otherwise the period starts over, with
    /// "alternate" flipping the direction ("attack", bit 2 of register 13).
    pub open spec fn envelope_step(self) -> PsgView {
        if self.env_holding {
            self
        } else if self.env_step + 1 <= 15 {
            PsgView { env_step: (self.env_step + 1) as i32, ..self }
        } else {
            let shape = self.regs[13];
            if shape & 8 == 0 || shape & 1 != 0 {
                PsgView { env_holding: true, env_step: 15, ..self }
            } else if shape & 2 != 0 {
                PsgView { env_step: 0, ..self.set_reg(13, shape ^ 4) }
            } else {
                PsgView { env_step: 0, ..self }
            }
        }
    }

    /// The envelope's output level 0..=15: rising with the step on an attack shape,
    /// falling otherwise; once holding, 0 for a shape without "continue", and for a
    /// "hold" shape 15 if exactly one of "attack" and "alternate" is set, else 0.
    pub open spec fn envelope_level(self) -> int {
        let shape = self.regs[13];
        let attack = shape & 4 != 0;
        let step = self.env_step as int;
        if self.env_holding && shape & 8 == 0 {
            0
        } else if self.env_holding && shape & 1 != 0 {
            if attack != (shape & 2 != 0) {
                15
            } else {
                0
            }
        } else if attack {
            step
        } else {
            15 - step
        }
    }

    /// One step of the 17-bit noise generator (taps at bits 0 and 3), when its phase
    /// wraps; its output is the register's lowest bit.
    pub open spec fn noise_step(self) -> PsgView {
        let bit = (self.lfsr ^ (self.lfsr >> 3)) & 1;
        let lfsr = (self.lfsr >> 1) | (bit << 16);
        PsgView { lfsr, noise_out: lfsr & 1 != 0, ..self }
    }

    /// The 12-bit tone period of channel `ch` (at least 1).
    pub open spec fn tone_period(self, ch: int) -> int {
        max1((self.regs[2 * ch + 1] % 16) * 256 + self.regs[2 * ch])
    }

    /// The 5-bit noise period (at least 1).
    pub open spec fn noise_period(self) -> int {
        max1((self.regs[6] % 32) as int)
    }

    /// The 16-bit envelope period (at least 1).
    pub open spec fn envelope_period(self) -> int {
        max1(self.regs[12] * 256 + self.regs[11])
    }

    /// What channel `ch` adds to the output when its square wave is in its
    /// `square_high` half: nothing while a mixer-enabled tone (above the audible
    /// range counted as high) or noise is low; else its level, the envelope's when
    /// bit 4 of its volume register is set.
    pub open spec fn channel_output(self, ch: int, square_high: bool) -> Option<int> {
        let mixer = self.regs[7];
        let tone_on = (mixer >> (ch as u8)) & 1u8 == 0;
        let noise_on = (mixer >> ((ch + 3) as u8)) & 1u8 == 0;
        let tone = !tone_on || tone_inaudible(self.tone_period(ch)) || square_high;
        let noise = !noise_on || self.noise_out;
        let v = self.regs[8 + ch];
        if tone && noise {
            Some(if v & 16 != 0 { self.envelope_level() } else { (v % 16) as int })
        } else {
            None
        }
    }
}

pub open spec fn max1(x: int) -> int {
    if x < 1 { 1 } else { x }
}

/// How long an event waits: its length, at least 1/60 s.
pub open spec fn wait_of(ticks: u32) -> u32 {
    if ticks < 1 { 1 } else { ticks }
}

/// A tone of period `tp` lies above 20 kHz: `CLOCK / (16 · tp) > 20000`, where
/// `2 · CLOCK = 3579545`.
pub open spec fn tone_inaudible(tp: int) -> bool {
    640000 * tp < 3579545
}

/// The state the PSG starts in: all registers 0 but the mixer (register 7, 0xB8),
/// the noise register at 1, and idle channels with PLAY's initial settings.
pub open spec fn initial_psg() -> PsgView {
    PsgView {
        regs: Seq::new(16, |i: int| if i == 7 { 0xB8u8 } else { 0u8 }),
        lfsr: 1,
        noise_out: false,
        env_step: 0,
        env_holding: false,
        env_restarted: false,
        tracks: seq![idle_track(), idle_track(), idle_track()],
        mml: seq![initial_mml_state(), initial_mml_state(), initial_mml_state()],
    }
}

impl Psg {
    pub fn new() -> (p: Psg)
        ensures
            p@ =~~= initial_psg(),
            p@.wf(),
    {
        let mut regs = [0u8; 16];
        regs[7] = 0xB8;
        let p = Psg {
            regs,
            lfsr: 1,
            noise_out: false,
            env_step: 0,
            env_holding: false,
            env_restarted: false,
            tracks: [Track::new(), Track::new(), Track::new()],
            mml: [MmlState::default(), MmlState::default(), MmlState::default()],
        };
        assert(p@.regs =~= initial_psg().regs);
        p
    }

    /// Register `r` (0..=15).
    pub fn reg(&self, r: usize) -> (v: u8)
        requires
            r < 16,
        ensures
            v == self@.regs[r as int],
    {
        self.regs[r]
    }

    /// `SOUND r,v`.
    pub fn write(&mut self, r: usize, v: u8)
        requires
            old(self)@.wf(),
        ensures
            final(self)@ =~~= old(self)@.write(r as int, v),
            final(self)@.wf(),
    {
        let i = r & 15;
        assert(r & 15 == r % 16) by (bit_vector);
        self.regs[i] = v;
        if r == 13 {
            self.env_step = 0;
            self.env_holding = false;
            self.env_restarted = true;
        }
    }

    /// Whether register 13 was written since the last call, clearing the note of it
    /// (the envelope's phase accumulator restarts then).
    pub fn take_envelope_restart(&mut self) -> (restarted: bool)
        ensures
            restarted == old(self)@.env_restarted,
            final(self)@ == (PsgView { env_restarted: false, ..old(self)@ }),
    {
        let r = self.env_restarted;
        self.env_restarted = false;
        r
    }

    /// Whether the MML strings can be read on their channels as the settings stand
    /// (an octave pushed out of the `i32` range cannot).
    pub fn accepts(&self, mml: [&str; 3]) -> (ok: bool)
        ensures
            ok == forall|ch: int| 0 <= ch < 3 ==> #[trigger] self@.accepts(ch, mml@[ch].spec_bytes()),
    {
        let mut ch: usize = 0;
        while ch < 3
            invariant
                ch <= 3,
                forall|c: int| 0 <= c < ch ==> #[trigger] self@.accepts(c, mml@[c].spec_bytes()),
            decreases 3 - ch,
        {
            let s = mml[ch];
            assert(s == mml@[ch as int]);
            if s.as_bytes().len() > 0 {
                let mut st = self.mml[ch];
                assert(st == self@.mml[ch as int]);
                if try_parse_mml(s, &mut st).is_none() {
                    assert(!self@.accepts(ch as int, mml@[ch as int].spec_bytes()));
                    return false;
                }
            }
            assert(self@.accepts(ch as int, mml@[ch as int].spec_bytes()));
            ch = ch + 1;
        }
        true
    }

    /// `PLAY a$,b$,c$`: each non-empty string's events join its channel's queue.
    pub fn play(&mut self, mml: [&str; 3])
        requires
            old(self)@.wf(),
            forall|ch: int| 0 <= ch < 3 ==> #[trigger] old(self)@.accepts(ch, mml@[ch].spec_bytes()),
        ensures
            final(self)@.wf(),
            final(self)@ =~~= old(self)@.play_channel(0, mml@[0].spec_bytes()).play_channel(
                1,
                mml@[1].spec_bytes(),
            ).play_channel(2, mml@[2].spec_bytes()),
    {
        let ghost v0 = self@;
        self.play_channel(0, mml[0]);
        assert(self@.mml[1] == v0.mml[1] && self@.mml[2] == v0.mml[2]);
        assert(v0.accepts(1, mml@[1].spec_bytes()) && v0.accepts(2, mml@[2].spec_bytes()));
        self.play_channel(1, mml[1]);
        assert(self@.mml[2] == v0.mml[2]);
        self.play_channel(2, mml[2]);
    }

    fn play_channel(&mut self, ch: usize, s: &str)
        requires
            old(self)@.wf(),
            ch < 3,
            old(self)@.accepts(ch as int, s.spec_bytes()),
        ensures
            final(self)@.wf(),
            final(self)@ =~~= old(self)@.play_channel(ch as int, s.spec_bytes()),
    {
        let ghost v0 = self@;
        if s.as_bytes().len() == 0 {
            assert(self@ =~~= v0.play_channel(ch as int, s.spec_bytes()));
            return;
        }
        let mut events = parse_mml(s, &mut self.mml[ch]);
        let ghost evs = events@;
        self.tracks[ch].events.append(&mut events);
        if !self.tracks[ch].active {
            self.tracks[ch].active = true;
            self.tracks[ch].left = 0;
        }
        proof {
            let e = v0.play_channel(ch as int, s.spec_bytes());
            assert(self@.mml =~= e.mml);
            assert(self@.tracks[ch as int] =~~= e.tracks[ch as int]);
            assert(self@.tracks =~~= e.tracks);
            assert(self@ =~~= e);
        }
    }

    /// `PLAY(0)`: whether any channel is playing.
    pub fn playing(&self) -> (b: bool)
        ensures
            b == self@.playing(),
    {
        proof {
            assert(self@.tracks[0].active == self.tracks[0].active);
            assert(self@.tracks[1].active == self.tracks[1].active);
            assert(self@.tracks[2].active == self.tracks[2].active);
        }
        self.tracks[0].active || self.tracks[1].active || self.tracks[2].active
    }

    /// The PLAY sequencer's step, once every 1/60 s.
    pub fn tick(&mut self)
        requires
            old(self)@.wf(),
        ensures
            final(self)@.wf(),
            final(self)@ =~~= old(self)@.tick(),
    {
        self.tick_channel(0);
        self.tick_channel(1);
        self.tick_channel(2);
    }

    fn tick_channel(&mut self, ch: usize)
        requires
            old(self)@.wf(),
            ch < 3,
        ensures
            final(self)@.wf(),
            final(self)@ =~~= old(self)@.tick_channel(ch as int),
    {
        let ghost v0 = self@;
        if !self.tracks[ch].active {
            assert(!v0.tracks[ch as int].active);
            return;
        }
        if self.tracks[ch].left > 0 {
            self.tracks[ch].left = self.tracks[ch].left - 1;
            proof {
                let t = v0.tracks[ch as int];
                let e = v0.set_track(ch as int, TrackView { left: (t.left - 1) as u32, ..t });
                assert(self@.tracks =~~= e.tracks);
                assert(self@ =~~= e);
                assert(e.wf());
            }
            if self.tracks[ch].left > 0 {
                return;
            }
        }
        self.run_events(ch);
    }

    fn run_events(&mut self, ch: usize)
        requires
            old(self)@.wf(),
            ch < 3,
            old(self)@.tracks[ch as int].left == 0,
        ensures
            final(self)@.wf(),
            final(self)@ =~~= old(self)@.run_events(ch as int),
    {
        let ghost target = old(self)@.run_events(ch as int);
        loop
            invariant_except_break
                ch < 3,
                self@.wf(),
                self@.tracks[ch as int].left == 0,
                self@.run_events(ch as int) =~~= target,
            ensures
                ch < 3,
                self@.wf(),
                self@ =~~= target,
            decreases self.tracks[ch as int].events@.len() - self.tracks[ch as int].pos,
        {
            let ghost v0 = self@;
            if self.tracks[ch].pos >= self.tracks[ch].events.len() {
                self.tracks[ch].active = false;
                self.tracks[ch].events.clear();
                self.tracks[ch].pos = 0;
                self.regs[8 + ch] = 0;
                proof {
                    let t = v0.tracks[ch as int];
                    let expect = v0.set_track(
                        ch as int,
                        TrackView { events: seq![], pos: 0, active: false, ..t },
                    ).set_reg(8 + ch, 0);
                    assert(self@.regs =~= expect.regs);
                    assert(self@.tracks[ch as int] =~~= expect.tracks[ch as int]);
                    assert(self@.tracks =~~= expect.tracks);
                    assert(self@ =~~= expect);
                }
                break;
            }
            let ev = self.tracks[ch].events[self.tracks[ch].pos];
            self.tracks[ch].pos = self.tracks[ch].pos + 1;
            let ghost t1 = TrackView { pos: v0.tracks[ch as int].pos + 1, ..v0.tracks[ch as int] };
            let ghost v1 = v0.set_track(ch as int, t1);
            proof {
                assert(self@.tracks =~~= v1.tracks);
                assert(self@ =~~= v1);
                assert(v1.wf());
            }
            match ev {
                Ev::EnvPeriod(m) => {
                    let lo = (m & 0xFF) as u8;
                    let hi = (m >> 8) as u8;
                    assert((m & 0xFF) as u8 == m % 256 && (m >> 8) as u8 == m / 256) by (bit_vector);
                    self.regs[11] = lo;
                    self.regs[12] = hi;
                    proof {
                        let v2 = v1.set_reg(11, lo).set_reg(12, hi);
                        assert(self@.regs =~= v2.regs);
                        assert(self@ =~~= v2);
                        assert(v2.wf());
                    }
                },
                Ev::Rest { ticks } => {
                    self.regs[8 + ch] = 0;
                    self.tracks[ch].left = if ticks < 1 { 1 } else { ticks };
                    proof {
                        let v2 = v1.set_reg(8 + ch, 0).set_track(ch as int, TrackView { left: wait_of(ticks), ..t1 });
                        assert(self@.regs =~= v2.regs);
                        assert(self@.tracks =~~= v2.tracks);
                        assert(self@ =~~= v2);
                    }
                    break;
                },
                Ev::Note { period, ticks, vol, env } => {
                    let lo = (period & 0xFF) as u8;
                    let hi = (period >> 8) as u8;
                    assert((period & 0xFF) as u8 == period % 256 && (period >> 8) as u8 == period / 256)
                        by (bit_vector);
                    self.regs[ch * 2] = lo;
                    self.regs[ch * 2 + 1] = hi;
                    let ghost v2 = v1.set_reg(2 * ch, lo).set_reg(2 * ch + 1, hi);
                    proof {
                        assert(self@.regs =~= v2.regs);
                        assert(self@ =~~= v2);
                    }
                    match env {
                        Some(shape) => {
                            self.regs[8 + ch] = 16;
                            proof {
                                assert(self@.regs =~= v2.set_reg(8 + ch, 16).regs);
                                assert(self@ =~~= v2.set_reg(8 + ch, 16));
                            }
                            self.write(13, shape);
                        },
                        None => {
                            self.regs[8 + ch] = vol;
                            proof {
                                assert(self@.regs =~= v2.set_reg(8 + ch, vol).regs);
                                assert(self@ =~~= v2.set_reg(8 + ch, vol));
                            }
                        },
                    }
                    let ghost v3 = self@;
                    proof {
                        let e3 = match env {
                            Some(shape) => v2.set_reg(8 + ch, 16).write(13, shape),
                            None => v2.set_reg(8 + ch, vol),
                        };
                        assert(v3 =~~= e3);
                        assert(v3.tracks[ch as int] =~~= t1);
                    }
                    self.tracks[ch].left = if ticks < 1 { 1 } else { ticks };
                    proof {
                        let e4 = v3.set_track(ch as int, TrackView { left: wait_of(ticks), ..t1 });
                        assert(self@.tracks[ch as int] =~~= e4.tracks[ch as int]);
                        assert(self@.tracks =~~= e4.tracks);
                        assert(self@ =~~= e4);
                    }
                    break;
                },
            }
        }
    }
}

impl Psg {
    /// The envelope generator's step, when its phase wraps.
    pub fn envelope_step(&mut self)
        requires
            old(self)@.wf(),
        ensures
            final(self)@.wf(),
            final(self)@ =~~= old(self)@.envelope_step(),
    {
        let ghost v0 = self@;
        if !self.env_holding {
            self.env_step = self.env_step + 1;
            if self.env_step > 15 {
                let shape = self.regs[13];
                let cont = shape & 8 != 0;
                let hold = shape & 1 != 0;
                if !cont || hold {
                    self.env_holding = true;
                    self.env_step = 15;
                } else {
                    self.env_step = 0;
                    if shape & 2 != 0 {
                        self.regs[13] = shape ^ 4;
                        assert(self@.regs =~= v0.set_reg(13, shape ^ 4).regs);
                    }
                }
            }
        }
    }

    /// The envelope's output level.
    pub fn envelope_level(&self) -> (level: u8)
        requires
            self@.wf(),
        ensures
            level as int == self@.envelope_level(),
            level <= 15,
    {
        let shape = self.regs[13];
        let attack = shape & 4 != 0;
        let step = self.env_step as u8;
        if self.env_holding {
            let cont = shape & 8 != 0;
            if !cont {
                return 0;
            }
            let hold = shape & 1 != 0;
            let alt = shape & 2 != 0;
            if hold {
                return if attack != alt { 15 } else { 0 };
            }
        }
        if attack {
            step
        } else {
            15 - step
        }
    }

    /// The noise generator's step, when its phase wraps.
    pub fn noise_step(&mut self)
        requires
            old(self)@.wf(),
        ensures
            final(self)@.wf(),
            final(self)@ =~~= old(self)@.noise_step(),
    {
        let l = self.lfsr;
        let bit = (l ^ (l >> 3)) & 1;
        self.lfsr = (l >> 1) | (bit << 16);
        self.noise_out = self.lfsr & 1 != 0;
        proof {
            law_noise_never_stalls(old(self)@);
        }
    }

    /// Channel `ch`'s tone period.
    pub fn tone_period(&self, ch: usize) -> (tp: u32)
        requires
            self@.wf(),
            ch < 3,
        ensures
            tp as int == self@.tone_period(ch as int),
    {
        let hi = self.regs[ch * 2 + 1];
        let lo = self.regs[ch * 2];
        let tp = ((hi & 15) as u32) << 8 | lo as u32;
        assert(((hi & 15) as u32) << 8 | lo as u32 == (hi % 16) * 256 + lo) by (bit_vector);
        if tp < 1 {
            1
        } else {
            tp
        }
    }

    /// The noise period.
    pub fn noise_period(&self) -> (np: u32)
        requires
            self@.wf(),
        ensures
            np as int == self@.noise_period(),
    {
        let r = self.regs[6];
        let np = (r & 31) as u32;
        assert((r & 31) as u32 == r % 32) by (bit_vector);
        if np < 1 {
            1
        } else {
            np
        }
    }

    /// The envelope period.
    pub fn envelope_period(&self) -> (ep: u32)
        requires
            self@.wf(),
        ensures
            ep as int == self@.envelope_period(),
    {
        let hi = self.regs[12];
        let lo = self.regs[11];
        let ep = (hi as u32) << 8 | lo as u32;
        assert((hi as u32) << 8 | lo as u32 == hi * 256 + lo) by (bit_vector);
        if ep < 1 {
            1
        } else {
            ep
        }
    }

    /// What channel `ch` adds to the output while its square wave is in its
    /// `square_high` half: `Some(level)` (0..=15) or nothing.
    pub fn channel_output(&self, ch: usize, square_high: bool) -> (out: Option<u8>)
        requires
            self@.wf(),
            ch < 3,
        ensures
            match self@.channel_output(ch as int, square_high) {
                Some(l) => out == Some(l as u8) && l <= 15,
                None => out is None,
            },
    {
        let mixer = self.regs[7];
        let c = ch as u8;
        let tone_on = (mixer >> c) & 1 == 0;
        let noise_on = (mixer >> (c + 3)) & 1 == 0;
        let tp = self.tone_period(ch);
        let tone = !tone_on || tp <= 5 || square_high;
        let noise = !noise_on || self.noise_out;
        let v = self.regs[8 + ch];
        if tone && noise {
            if v & 16 != 0 {
                Some(self.envelope_level())
            } else {
                let l = v & 15;
                assert(v & 15 == v % 16) by (bit_vector);
                Some(l)
            }
        } else {
            None
        }
    }
}

/// The noise generator never stalls: its 17-bit register stays non-zero.
pub proof fn law_noise_never_stalls(v: PsgView)
    requires
        v.wf(),
    ensures
        v.noise_step().wf(),
{
    let l = v.lfsr;
    assert(1 <= l < 0x20000 ==> 1 <= ((l >> 1) | (((l ^ (l >> 3)) & 1) << 16)) < 0x20000) by (bit_vector);
}

/// The envelope's level is one of its sixteen steps.
pub proof fn law_envelope_level_in_range(v: PsgView)
    requires
        v.wf(),
    ensures
        0 <= v.envelope_level() <= 15,
        v.envelope_step().wf(),
{
}

/// `SOUND r,v` reads back: register `r mod 16` holds `x` and no other register
/// changes.
pub proof fn law_write_reads_back(v: PsgView, r: int, x: u8)
    requires
        v.wf(),
        r >= 0,
    ensures
        v.write(r, x).wf(),
        v.write(r, x).regs[r % 16] == x,
        forall|k: int| 0 <= k < 16 && k != r % 16 ==> #[trigger] v.write(r, x).regs[k] == v.regs[k],
        v.write(r, x).tracks == v.tracks,
        r == 13 ==> v.write(r, x).env_step == 0 && !v.write(r, x).env_holding && v.write(r, x).env_restarted,
        r != 13 ==> v.write(r, x).env_step == v.env_step && v.write(r, x).env_holding == v.env_holding
            && v.write(r, x).env_restarted == v.env_restarted,
{
}

/// How long an event keeps its channel busy, in 1/60 s.
pub open spec fn event_length(e: Ev) -> int {
    match e {
        Ev::Note { ticks, .. } => wait_of(ticks) as int,
        Ev::Rest { ticks } => wait_of(ticks) as int,
        Ev::EnvPeriod(_) => 0,
    }
}

/// The total length of the events from `from` on.
pub open spec fn events_length(evs: Seq<Ev>, from: int) -> int
    decreases evs.len() - from,
{
    if from < 0 || from >= evs.len() {
        0
    } else {
        event_length(evs[from]) + events_length(evs, from + 1)
    }
}

/// How many more 1/60 s a channel plays: what is left of its current event and
/// the lengths of the events still queued.
pub open spec fn remaining(t: TrackView) -> int {
    if t.active {
        t.left + events_length(t.events, t.pos)
    } else {
        0
    }
}

proof fn lemma_events_length_nonneg(evs: Seq<Ev>, from: int)
    ensures
        events_length(evs, from) >= 0,
    decreases evs.len() - from,
{
    if 0 <= from < evs.len() {
        lemma_events_length_nonneg(evs, from + 1);
    }
}

/// What `run_events` does to the PSG as a whole: the invariant holds, only channel
/// `ch`'s queue changes, and it either waits on an event with the rest of the
/// queue's length still to come, or has stopped with nothing of length left.
proof fn lemma_run_events(v: PsgView, ch: int)
    requires
        v.wf(),
        0 <= ch < 3,
        v.tracks[ch].left == 0,
        v.tracks[ch].active,
    ensures
        v.run_events(ch).wf(),
        forall|c: int| 0 <= c < 3 && c != ch ==> #[trigger] v.run_events(ch).tracks[c] == v.tracks[c],
        forall|r: int| 0 <= r < 16 && r != 2 * ch && r != 2 * ch + 1 && r != 8 + ch && r != 11 && r != 12 && r != 13
            ==> #[trigger] v.run_events(ch).regs[r] == v.regs[r],
        !v.run_events(ch).tracks[ch].active ==> v.run_events(ch).regs[8 + ch] == 0,
        ({
            let t = v.tracks[ch];
            let t2 = v.run_events(ch).tracks[ch];
            if t2.active {
                t2.left >= 1 && t2.left + events_length(t2.events, t2.pos) == events_length(t.events, t.pos)
            } else {
                events_length(t.events, t.pos) == 0
            }
        }),
    decreases v.tracks[ch].events.len() - v.tracks[ch].pos,
{
    let t = v.tracks[ch];
    if t.pos < t.events.len() {
        let t1 = TrackView { pos: t.pos + 1, ..t };
        let v1 = v.set_track(ch, t1);
        lemma_events_length_nonneg(t.events, t.pos + 1);
        assert(events_length(t.events, t.pos) == event_length(t.events[t.pos]) + events_length(
            t.events,
            t.pos + 1,
        ));
        match t.events[t.pos] {
            Ev::EnvPeriod(m) => {
                let v2 = v1.set_reg(11, (m % 256) as u8).set_reg(12, (m / 256) as u8);
                assert(v2.wf());
                assert(v2.tracks[ch] == t1);
                lemma_run_events(v2, ch);
                assert(v.run_events(ch) == v2.run_events(ch));
                let t2 = v.run_events(ch).tracks[ch];
                if t2.active {
                    assert(t2.left + events_length(t2.events, t2.pos) == events_length(t.events, t.pos));
                }
            },
            Ev::Rest { ticks } => {
                assert(v.run_events(ch).tracks[ch] == TrackView { left: wait_of(ticks), ..t1 });
            },
            Ev::Note { period, ticks, vol, env } => {
                let v2 = v1.set_reg(2 * ch, (period % 256) as u8).set_reg(2 * ch + 1, (period / 256) as u8);
                let v3 = match env {
                    Some(shape) => v2.set_reg(8 + ch, 16).write(13, shape),
                    None => v2.set_reg(8 + ch, vol),
                };
                assert(v3.tracks == v1.tracks);
                assert(v.run_events(ch) == v3.set_track(ch, TrackView { left: wait_of(ticks), ..t1 }));
                assert(v.run_events(ch).tracks[ch] == TrackView { left: wait_of(ticks), ..t1 });
            },
        }
    } else {
        assert(v.run_events(ch).tracks[ch] == TrackView { events: seq![], pos: 0, active: false, ..t });
    }
}

/// One channel's tick: the invariant holds and only that channel's queue changes;
/// a started channel (one waiting on an event) gets one 1/60 s closer to its end,
/// a newly started one keeps its length to come, and a channel that keeps playing
/// waits on an event.
proof fn lemma_tick_channel(v: PsgView, ch: int)
    requires
        v.wf(),
        0 <= ch < 3,
    ensures
        v.tick_channel(ch).wf(),
        forall|c: int| 0 <= c < 3 && c != ch ==> #[trigger] v.tick_channel(ch).tracks[c] == v.tracks[c],
        forall|r: int| 0 <= r < 16 && r != 2 * ch && r != 2 * ch + 1 && r != 8 + ch && r != 11 && r != 12 && r != 13
            ==> #[trigger] v.tick_channel(ch).regs[r] == v.regs[r],
        v.tracks[ch].active && !v.tick_channel(ch).tracks[ch].active ==> v.tick_channel(ch).regs[8 + ch] == 0,
        ({
            let t = v.tracks[ch];
            let t2 = v.tick_channel(ch).tracks[ch];
            &&& t.active && t.left >= 1 ==> remaining(t2) == remaining(t) - 1
            &&& t.active && t.left == 0 ==> remaining(t2) == remaining(t)
            &&& t2.active ==> t2.left >= 1
            &&& !t.active ==> t2 == t
        }),
{
    let t = v.tracks[ch];
    if t.active {
        if t.left > 0 {
            let v1 = v.set_track(ch, TrackView { left: (t.left - 1) as u32, ..t });
            assert(v1.wf());
            if t.left - 1 == 0 {
                lemma_run_events(v1, ch);
            }
        } else {
            lemma_run_events(v, ch);
        }
    }
}

/// The PLAY sequencer counts every channel down by its notes' and rests' lengths:
/// on each tick a started channel (one waiting on an event) is one 1/60 s closer to
/// its end and stops when that reaches zero, a channel whose PLAY just began keeps
/// its full length to come, an idle channel stays as it is, and a channel that
/// keeps playing waits on an event.
pub proof fn law_tick_counts_down(v: PsgView, ch: int)
    requires
        v.wf(),
        0 <= ch < 3,
    ensures
        v.tick().wf(),
        ({
            let t = v.tracks[ch];
            let t2 = v.tick().tracks[ch];
            &&& t.active && t.left >= 1 ==> remaining(t2) == remaining(t) - 1
            &&& t.active && t.left == 0 ==> remaining(t2) == remaining(t)
            &&& t2.active ==> t2.left >= 1
            &&& !t.active ==> t2 == t
        }),
{
    let v0 = v.tick_channel(0);
    let v1 = v0.tick_channel(1);
    lemma_tick_channel(v, 0);
    lemma_tick_channel(v0, 1);
    lemma_tick_channel(v1, 2);
}

impl PsgView {
    /// `n` steps of the PLAY sequencer.
    pub open spec fn ticks(self, n: nat) -> PsgView
        decreases n,
    {
        if n == 0 {
            self
        } else {
            self.tick().ticks((n - 1) as nat)
        }
    }
}

/// A whole tick: the invariant holds, and a channel that stops on it has its
/// volume register at 0.
proof fn lemma_tick_stops(v: PsgView, ch: int)
    requires
        v.wf(),
        0 <= ch < 3,
    ensures
        v.tick().wf(),
        v.tracks[ch].active && !v.tick().tracks[ch].active ==> v.tick().regs[8 + ch] == 0,
{
    let v0 = v.tick_channel(0);
    let v1 = v0.tick_channel(1);
    lemma_tick_channel(v, 0);
    lemma_tick_channel(v0, 1);
    lemma_tick_channel(v1, 2);
    assert(v.tick() == v1.tick_channel(2));
}

proof fn lemma_remaining_nonneg(t: TrackView)
    ensures
        remaining(t) >= 0,
        t.active ==> remaining(t) >= t.left,
{
    lemma_events_length_nonneg(t.events, t.pos);
}

/// A started channel with `r` to come keeps playing for `n < r` more ticks, with
/// `r - n` to come.
proof fn lemma_counts_down(v: PsgView, ch: int, n: nat)
    requires
        v.wf(),
        0 <= ch < 3,
        v.tracks[ch].active,
        v.tracks[ch].left >= 1,
        n < remaining(v.tracks[ch]),
    ensures
        v.ticks(n).wf(),
        v.ticks(n).tracks[ch].active,
        v.ticks(n).tracks[ch].left >= 1,
        remaining(v.ticks(n).tracks[ch]) == remaining(v.tracks[ch]) - n,
    decreases n,
{
    if n > 0 {
        law_tick_counts_down(v, ch);
        let w = v.tick();
        lemma_remaining_nonneg(w.tracks[ch]);
        assert(w.tracks[ch].active);
        lemma_counts_down(w, ch, (n - 1) as nat);
        assert(v.ticks(n) == w.ticks((n - 1) as nat));
    }
}

/// PLAY lasts exactly the length of its notes and rests: on a channel that was
/// idle, after PLAY of `s` the channel plays on ticks 1 to `d`, `d` being the
/// total length in 1/60 s of the events read (each note and rest at least 1/60 s),
/// and tick `d + 1` stops it with its queue empty and its volume at 0.
pub proof fn law_play_lasts_its_length(v: PsgView, ch: int, s: Seq<u8>)
    requires
        v.wf(),
        0 <= ch < 3,
        !v.tracks[ch].active,
        s.len() > 0,
        v.accepts(ch, s),
    ensures
        ({
            let w = v.play_channel(ch, s);
            let d = events_length(mml_parse(s, v.mml[ch]).unwrap().0, 0);
            &&& forall|n: nat| 1 <= n <= d ==> (#[trigger] w.ticks(n)).tracks[ch].active
            &&& !w.ticks((d + 1) as nat).tracks[ch].active
            &&& w.ticks((d + 1) as nat).tracks[ch].events.len() == 0
            &&& w.ticks((d + 1) as nat).tracks[ch].pos == 0
            &&& w.ticks((d + 1) as nat).regs[8 + ch] == 0
        }),
{
    let w = v.play_channel(ch, s);
    let evs = mml_parse(s, v.mml[ch]).unwrap().0;
    let d = events_length(evs, 0);
    assert(v.tracks[ch].events + evs =~= evs);
    assert(w.tracks[ch].events == evs);
    assert(w.wf());
    lemma_events_length_nonneg(evs, 0);
    // the first tick starts the channel and keeps its whole length to come
    law_tick_counts_down(w, ch);
    let w1 = w.tick();
    assert(w.ticks(1) == w1) by {
        assert(w1.ticks(0) == w1);
    }
    lemma_remaining_nonneg(w1.tracks[ch]);
    if d == 0 {
        lemma_tick_stops(w, ch);
    } else {
        assert(w1.tracks[ch].active);
        assert forall|n: nat| 1 <= n <= d implies (#[trigger] w.ticks(n)).tracks[ch].active by {
            lemma_counts_down(w1, ch, (n - 1) as nat);
            assert(w.ticks(n) == w1.ticks((n - 1) as nat));
        }
        lemma_counts_down(w1, ch, (d - 1) as nat);
        let wl = w1.ticks((d - 1) as nat);
        assert(w.ticks(d as nat) == wl);
        law_tick_counts_down(wl, ch);
        lemma_tick_stops(wl, ch);
        lemma_remaining_nonneg(wl.tick().tracks[ch]);
        assert(w.ticks((d + 1) as nat) == wl.tick()) by {
            assert(wl.tick().ticks(0) == wl.tick());
            lemma_ticks_after(w, d as nat);
        }
    }
}

/// `n + 1` ticks are `n` ticks and one more.
proof fn lemma_ticks_after(v: PsgView, n: nat)
    ensures
        v.ticks(n + 1) == v.ticks(n).tick(),
    decreases n,
{
    if n > 0 {
        lemma_ticks_after(v.tick(), (n - 1) as nat);
        assert(v.ticks(n) == v.tick().ticks((n - 1) as nat));
        assert(v.ticks(n + 1) == v.tick().ticks(n));
    } else {
        assert(v.tick().ticks(0) == v.tick());
        assert(v.ticks(1) == v.tick().ticks(0));
    }
}

/// The envelope as `run_events` leaves it: as it was, or restarted.
proof fn lemma_run_events_env(v: PsgView, ch: int)
    requires
        v.wf(),
        0 <= ch < 3,
        v.tracks[ch].left == 0,
        v.tracks[ch].active,
    ensures
        ({
            let w = v.run_events(ch);
            ||| (w.env_step == v.env_step && w.env_holding == v.env_holding && w.env_restarted
                == v.env_restarted)
            ||| (w.env_step == 0 && !w.env_holding && w.env_restarted)
        }),
    decreases v.tracks[ch].events.len() - v.tracks[ch].pos,
{
    let t = v.tracks[ch];
    if t.pos < t.events.len() {
        let t1 = TrackView { pos: t.pos + 1, ..t };
        let v1 = v.set_track(ch, t1);
        match t.events[t.pos] {
            Ev::EnvPeriod(m) => {
                let v2 = v1.set_reg(11, (m % 256) as u8).set_reg(12, (m / 256) as u8);
                assert(v2.wf());
                assert(v2.tracks[ch] == t1);
                lemma_run_events_env(v2, ch);
            },
            _ => {},
        }
    }
}

/// The envelope as a channel's tick leaves it: as it was, or restarted.
proof fn lemma_tick_channel_env(v: PsgView, ch: int)
    requires
        v.wf(),
        0 <= ch < 3,
    ensures
        ({
            let w = v.tick_channel(ch);
            ||| (w.env_step == v.env_step && w.env_holding == v.env_holding && w.env_restarted
                == v.env_restarted)
            ||| (w.env_step == 0 && !w.env_holding && w.env_restarted)
        }),
{
    let t = v.tracks[ch];
    if t.active {
        if t.left > 0 {
            let v1 = v.set_track(ch, TrackView { left: (t.left - 1) as u32, ..t });
            assert(v1.wf());
            if t.left - 1 == 0 {
                lemma_run_events_env(v1, ch);
            }
        } else {
            lemma_run_events_env(v, ch);
        }
    }
}

/// The tick of a channel whose wait runs out on a note: the note's period goes to
/// the channel's tone registers; a note with an envelope shape sets the channel's
/// volume register to 16 (envelope), the shape to register 13, and restarts the
/// envelope; a note without one sets the channel's volume; the channel waits the
/// note's length.
pub proof fn law_channel_starts_note(v: PsgView, ch: int)
    requires
        v.wf(),
        0 <= ch < 3,
        v.tracks[ch].active,
        v.tracks[ch].left <= 1,
        v.tracks[ch].pos < v.tracks[ch].events.len(),
        v.tracks[ch].events[v.tracks[ch].pos] is Note,
    ensures
        ({
            let w = v.tick_channel(ch);
            let e = v.tracks[ch].events[v.tracks[ch].pos];
            &&& w.regs[2 * ch] == (e->period % 256) as u8
            &&& w.regs[2 * ch + 1] == (e->period / 256) as u8
            &&& e->env is Some ==> {
                &&& w.regs[8 + ch] == 16
                &&& w.regs[13] == e->env->0
                &&& w.env_step == 0
                &&& !w.env_holding
                &&& w.env_restarted
            }
            &&& e->env is None ==> w.regs[8 + ch] == e->vol
            &&& w.tracks[ch].active
            &&& w.tracks[ch].left == wait_of(e->Note_ticks)
            &&& w.tracks[ch].pos == v.tracks[ch].pos + 1
        }),
{
    let t = v.tracks[ch];
    if t.left > 0 {
        let v1 = v.set_track(ch, TrackView { left: (t.left - 1) as u32, ..t });
        assert(v1.tracks[ch].events[v1.tracks[ch].pos] == t.events[t.pos]);
    }
}

/// A channel's tick when its wait runs out on a rest: the channel falls silent
/// (volume register 0) and waits the rest's length (at least 1/60 s).
pub proof fn law_channel_starts_rest(v: PsgView, ch: int)
    requires
        v.wf(),
        0 <= ch < 3,
        v.tracks[ch].active,
        v.tracks[ch].left <= 1,
        v.tracks[ch].pos < v.tracks[ch].events.len(),
        v.tracks[ch].events[v.tracks[ch].pos] is Rest,
    ensures
        ({
            let w = v.tick_channel(ch);
            let e = v.tracks[ch].events[v.tracks[ch].pos];
            &&& w.regs[8 + ch] == 0
            &&& w.tracks[ch].active
            &&& w.tracks[ch].left == if e->Rest_ticks < 1 { 1 } else { e->Rest_ticks }
            &&& w.tracks[ch].pos == v.tracks[ch].pos + 1
            &&& forall|r: int| 0 <= r < 16 && r != 8 + ch ==> #[trigger] w.regs[r] == v.regs[r]
            &&& w.env_step == v.env_step && w.env_holding == v.env_holding
        }),
{
    let t = v.tracks[ch];
    if t.left > 0 {
        let v1 = v.set_track(ch, TrackView { left: (t.left - 1) as u32, ..t });
        assert(v1.tracks[ch].events[v1.tracks[ch].pos] == t.events[t.pos]);
    }
}

/// An envelope period event sets registers 11 (low byte) and 12 (high byte) and the
/// channel goes straight on to its next event.
pub proof fn law_channel_sets_envelope_period(v: PsgView, ch: int)
    requires
        v.wf(),
        0 <= ch < 3,
        v.tracks[ch].active,
        v.tracks[ch].left == 0,
        v.tracks[ch].pos + 1 < v.tracks[ch].events.len(),
        v.tracks[ch].events[v.tracks[ch].pos] is EnvPeriod,
        v.tracks[ch].events[v.tracks[ch].pos + 1] is Rest,
    ensures
        ({
            let w = v.tick_channel(ch);
            let m = v.tracks[ch].events[v.tracks[ch].pos]->EnvPeriod_0;
            &&& w.regs[11] == m % 256
            &&& w.regs[12] == m / 256
            &&& w.envelope_period() == if m == 0 { 1 } else { m as int }
            &&& w.tracks[ch].pos == v.tracks[ch].pos + 2
            &&& w.regs[8 + ch] == 0
        }),
{
    let t = v.tracks[ch];
    let m = t.events[t.pos]->EnvPeriod_0;
    let t1 = TrackView { pos: t.pos + 1, ..t };
    let v2 = v.set_track(ch, t1).set_reg(11, (m % 256) as u8).set_reg(12, (m / 256) as u8);
    assert(v.tick_channel(ch) == v.run_events(ch));
    assert(v.run_events(ch) == v2.run_events(ch));
    assert(v2.tracks[ch] == t1);
    let w = v.tick_channel(ch);
    assert(w.regs[11] == m % 256 && w.regs[12] == m / 256);
    assert((m / 256) * 256 + m % 256 == m) by (nonlinear_arith);
}

/// What a channel adds to the output, by the mixer (register 7: bit `ch` turns the
/// channel's tone off, bit `ch + 3` its noise) and its volume register (bit 4 takes
/// the envelope's level, else the low four bits): with both off it always sounds;
/// an audible tone (period above 5) in its low half silences it; so does the noise
/// while its output is low; otherwise it sounds at its level.
pub proof fn law_channel_mix(v: PsgView, ch: int, square_high: bool)
    requires
        v.wf(),
        0 <= ch < 3,
    ensures
        ({
            let mixer = v.regs[7];
            let tb: u8 = if ch == 0 { 1 } else if ch == 1 { 2 } else { 4 };
            let nb: u8 = if ch == 0 { 8 } else if ch == 1 { 16 } else { 32 };
            let vol = v.regs[8 + ch];
            let level: int = if vol & 16 == 16 { v.envelope_level() } else { (vol & 15) as int };
            let tone_blocks = mixer & tb == 0 && v.tone_period(ch) > 5 && !square_high;
            let noise_blocks = mixer & nb == 0 && !v.noise_out;
            &&& tone_blocks || noise_blocks ==> v.channel_output(ch, square_high) is None
            &&& !tone_blocks && !noise_blocks ==> v.channel_output(ch, square_high) == Some(level)
            &&& mixer & tb == tb && mixer & nb == nb ==> v.channel_output(ch, square_high) == Some(level)
        }),
{
    let mixer = v.regs[7];
    let vol = v.regs[8 + ch];
    assert(vol & 16 == 16 || vol & 16 == 0) by (bit_vector);
    assert(vol & 15 == vol % 16) by (bit_vector);
    assert(((mixer >> 0u8) & 1u8 == 0) == (mixer & 1 == 0)) by (bit_vector);
    assert(((mixer >> 1u8) & 1u8 == 0) == (mixer & 2 == 0)) by (bit_vector);
    assert(((mixer >> 2u8) & 1u8 == 0) == (mixer & 4 == 0)) by (bit_vector);
    assert(((mixer >> 3u8) & 1u8 == 0) == (mixer & 8 == 0)) by (bit_vector);
    assert(((mixer >> 4u8) & 1u8 == 0) == (mixer & 16 == 0)) by (bit_vector);
    assert(((mixer >> 5u8) & 1u8 == 0) == (mixer & 32 == 0)) by (bit_vector);
    assert(mixer & 1 == 0 || mixer & 1 == 1) by (bit_vector);
    assert(mixer & 2 == 0 || mixer & 2 == 2) by (bit_vector);
    assert(mixer & 4 == 0 || mixer & 4 == 4) by (bit_vector);
    assert(mixer & 8 == 0 || mixer & 8 == 8) by (bit_vector);
    assert(mixer & 16 == 0 || mixer & 16 == 16) by (bit_vector);
    assert(mixer & 32 == 0 || mixer & 32 == 32) by (bit_vector);
    assert(tone_inaudible(v.tone_period(ch)) <==> v.tone_period(ch) <= 5);
}

/// The envelope's level: within a period it rises with the step on an attack shape
/// (bit 2) and falls from 15 otherwise; once held, a shape without continue (bit 3)
/// stays at 0, and a held shape (bit 0) stays at 15 when exactly one of attack and
/// alternate (bit 1) is set, else at 0.
pub proof fn law_envelope_level(v: PsgView)
    requires
        v.wf(),
    ensures
        ({
            let shape = v.regs[13];
            let attack = shape & 4 == 4;
            &&& !v.env_holding ==> v.envelope_level() == if attack { v.env_step as int } else { 15 - v.env_step }
            &&& v.env_holding && shape & 8 == 0 ==> v.envelope_level() == 0
            &&& v.env_holding && shape & 8 == 8 && shape & 1 == 1 ==> v.envelope_level() == if attack != (shape
                & 2 == 2) {
                15int
            } else {
                0int
            }
        }),
{
    let shape = v.regs[13];
    assert(shape & 4 == 4 || shape & 4 == 0) by (bit_vector);
    assert(shape & 2 == 2 || shape & 2 == 0) by (bit_vector);
    assert(shape & 1 == 1 || shape & 1 == 0) by (bit_vector);
    assert(shape & 8 == 8 || shape & 8 == 0) by (bit_vector);
}

/// A note played with an envelope shape (`S`) restarts the envelope: after the tick
/// on which the note starts, the envelope is at the start of its period (step 0,
/// not holding, its phase to restart) and the channel is on the envelope, whatever
/// the envelope did before. (A later channel's note may choose another shape.)
pub proof fn law_envelope_note_restarts(v: PsgView, ch: int)
    requires
        v.wf(),
        0 <= ch < 3,
        v.tracks[ch].active,
        v.tracks[ch].left <= 1,
        v.tracks[ch].pos < v.tracks[ch].events.len(),
        v.tracks[ch].events[v.tracks[ch].pos] matches Ev::Note { env: Some(_), .. },
    ensures
        v.tick().env_step == 0,
        !v.tick().env_holding,
        v.tick().env_restarted,
        v.tick().regs[8 + ch] == 16,
        v.tick().tracks[ch].active,
{
    let v0 = v.tick_channel(0);
    let v1 = v0.tick_channel(1);
    let v2 = v1.tick_channel(2);
    lemma_tick_channel(v, 0);
    lemma_tick_channel(v0, 1);
    lemma_tick_channel(v1, 2);
    assert(v.tick() == v2);
    if ch == 0 {
        law_channel_starts_note(v, 0);
        lemma_tick_channel_env(v0, 1);
        lemma_tick_channel_env(v1, 2);
    } else if ch == 1 {
        law_channel_starts_note(v0, 1);
        lemma_tick_channel_env(v1, 2);
    } else {
        law_channel_starts_note(v1, 2);
    }
}

/// The envelope's course through register 13's shape (bit 3 continue, bit 2
/// attack, bit 1 alternate, bit 0 hold): within a period the step counts up by one;
/// after step 15 a shape without continue, or with hold, holds at step 15, while a
/// continuing shape without hold starts a new period at step 0 (with attack flipped
/// when it alternates) and so never holds; a holding envelope stays as it is.
pub proof fn law_envelope_course(v: PsgView)
    requires
        v.wf(),
    ensures
        ({
            let w = v.envelope_step();
            let shape = v.regs[13];
            &&& v.env_holding ==> w == v
            &&& !v.env_holding && v.env_step < 15 ==> w.env_step == v.env_step + 1 && !w.env_holding && w.regs
                == v.regs
            &&& !v.env_holding && v.env_step == 15 && (shape & 8 == 0 || shape & 1 == 1) ==> w.env_holding
                && w.env_step == 15 && w.regs == v.regs
            &&& !v.env_holding && v.env_step == 15 && shape & 8 == 8 && shape & 1 == 0 ==> {
                &&& !w.env_holding
                &&& w.env_step == 0
                &&& w.regs[13] == if shape & 2 == 2 { shape ^ 4 } else { shape }
                &&& forall|r: int| 0 <= r < 16 && r != 13 ==> #[trigger] w.regs[r] == v.regs[r]
            }
            &&& shape & 8 == 8 && shape & 1 == 0 && !v.env_holding ==> !w.env_holding
            &&& w.wf()
            &&& w.tracks == v.tracks
        }),
{
    let shape = v.regs[13];
    assert(shape & 1 == 0 || shape & 1 == 1) by (bit_vector);
    assert(shape & 8 == 0 || shape & 8 == 8) by (bit_vector);
    assert(shape & 2 == 0 || shape & 2 == 2) by (bit_vector);
}

impl PsgView {
    /// `n` steps of the envelope generator.
    pub open spec fn envelope_steps(self, n: nat) -> PsgView
        decreases n,
    {
        if n == 0 {
            self
        } else {
            self.envelope_step().envelope_steps((n - 1) as nat)
        }
    }
}

/// A repeating sawtooth (continue without hold or alternate, shapes 8 and 12)
/// repeats: `n` steps on, the envelope is at step `(step + n) mod 16`, not holding,
/// with the same registers, so its level repeats every 16 steps.
pub proof fn law_sawtooth_repeats(v: PsgView, n: nat)
    requires
        v.wf(),
        !v.env_holding,
        v.regs[13] & 8 == 8,
        v.regs[13] & 2 == 0,
        v.regs[13] & 1 == 0,
    ensures
        v.envelope_steps(n).env_step == (v.env_step + n) % 16,
        !v.envelope_steps(n).env_holding,
        v.envelope_steps(n).regs == v.regs,
        n % 16 == 0 ==> v.envelope_steps(n).envelope_level() == v.envelope_level(),
    decreases n,
{
    if n > 0 {
        law_envelope_course(v);
        let w = v.envelope_step();
        assert(w.regs =~= v.regs) by {
            if v.env_step == 15 {
                assert(forall|r: int| 0 <= r < 16 && r != 13 ==> #[trigger] w.regs[r] == v.regs[r]);
            }
        }
        law_sawtooth_repeats(w, (n - 1) as nat);
        assert(v.envelope_steps(n) == w.envelope_steps((n - 1) as nat));
    }
}

/// PLAY's settings carry over from one PLAY to the next on a channel: two PLAYs in
/// a row queue the first string's events and then the second's, the second read
/// with the settings (octave, length, tempo, volume, envelope) the first left.
pub proof fn law_play_settings_carry_over(v: PsgView, ch: int, s1: Seq<u8>, s2: Seq<u8>)
    requires
        v.wf(),
        0 <= ch < 3,
        s1.len() > 0,
        s2.len() > 0,
        v.accepts(ch, s1),
        v.play_channel(ch, s1).accepts(ch, s2),
    ensures
        ({
            let (e1, f1) = mml_parse(s1, v.mml[ch]).unwrap();
            let (e2, f2) = mml_parse(s2, f1).unwrap();
            let w = v.play_channel(ch, s1).play_channel(ch, s2);
            &&& w.mml[ch] == f2
            &&& w.tracks[ch].events == v.tracks[ch].events + e1 + e2
            &&& w.tracks[ch].pos == v.tracks[ch].pos
            &&& w.tracks[ch].active
        }),
{
}

/// `PLAY` with a non-empty string makes `PLAY(0)` true.
pub proof fn law_play_starts(v: PsgView, ch: int, s: Seq<u8>)
    requires
        v.wf(),
        0 <= ch < 3,
        s.len() > 0,
        v.accepts(ch, s),
    ensures
        v.play_channel(ch, s).playing(),
{
    assert(v.play_channel(ch, s).tracks[ch].active);
}

} // verus!
