use drive_game2::psg::Psg;

const START_A: &str = "V14T163L8O4FV15GV14GV15GV14GV15GV14FV15GV14GV15GV14GV15GV14GA";
const START_B: &str = "S0M8000T163L8O4CD2DCD2DDE";
const START_C: &str = "S0M8000T163L8O3FG4G4G8FG4G4GGA";

#[test]
fn start_music_length_and_sound() {
    let mut p = Psg::new();
    p.write(7, 56);
    assert!(p.accepts([START_A, START_B, START_C]));
    p.play([START_A, START_B, START_C]);
    // The sequencer runs 60 times a second; count its steps until the music ends,
    // and listen for a channel that sounds while it plays.
    let mut n = 0usize;
    let mut heard = false;
    while p.playing() && n < 60 * 10 {
        p.tick();
        n += 1;
        for ch in 0..3 {
            if let Some(level) = p.channel_output(ch, true) {
                if level > 0 {
                    heard = true;
                }
            }
        }
    }
    let sec = n as f64 / 60.0;
    // 14 eighth notes at 60/163/2 s each, about 2.58 s (in steps of 1/60 s)
    assert!((2.4..2.8).contains(&sec), "{sec}");
    assert!(heard);
    assert_eq!(n, 155);
}

#[test]
fn engine_tone() {
    let mut p = Psg::new();
    p.write(7, 56);
    p.write(1, 2);
    p.write(0, 100);
    p.write(8, 13);
    // Tone A enabled with period 2·256 + 100: the channel sounds at volume 13 in
    // the high half of its square wave and is silent in the low half.
    assert_eq!(p.tone_period(0), 612);
    assert_eq!(p.channel_output(0, true), Some(13));
    assert_eq!(p.channel_output(0, false), None);
    // 4410 samples at 44100 Hz of a square wave of 1789772.5 / (16·612) Hz
    let freq = 1_789_772.5 / (16.0 * 612.0);
    let mut phase = 0.0f64;
    let mut high = 0usize;
    for _ in 0..4410 {
        phase = (phase + freq / 44_100.0).fract();
        if phase < 0.5 && p.channel_output(0, true).is_some() {
            high += 1;
        }
    }
    assert!(high > 1000);
}

#[test]
fn new_psg_registers() {
    let p = Psg::new();
    assert_eq!(p.reg(7), 0xB8);
    for r in 0..16 {
        if r != 7 {
            assert_eq!(p.reg(r), 0);
        }
    }
    assert!(!p.playing());
    assert_eq!(p.tone_period(0), 1);
    assert_eq!(p.noise_period(), 1);
    assert_eq!(p.envelope_period(), 1);
}

#[test]
fn write_reads_back() {
    let mut p = Psg::new();
    p.write(3, 0x0F);
    assert_eq!(p.reg(3), 0x0F);
    // register numbers wrap at 16
    p.write(16 + 6, 31);
    assert_eq!(p.reg(6), 31);
    assert_eq!(p.reg(3), 0x0F);
    assert_eq!(p.noise_period(), 31);
}

#[test]
fn envelope_shape_write_restarts() {
    let mut p = Psg::new();
    let mut q = Psg::new();
    assert!(!q.take_envelope_restart());
    p.write(13, 0);
    assert!(p.take_envelope_restart());
    assert!(!p.take_envelope_restart());
    // shape 0 (\___): falls from 15 to 0 and holds at 0
    assert_eq!(p.envelope_level(), 15);
    p.envelope_step();
    assert_eq!(p.envelope_level(), 14);
    for _ in 0..20 {
        p.envelope_step();
    }
    assert_eq!(p.envelope_level(), 0);
    q.write(8, 5);
    assert_eq!(q.reg(8), 5);
}

#[test]
fn envelope_alternates() {
    let mut p = Psg::new();
    // shape 14 (/\/\): continue, attack, alternate
    p.write(13, 14);
    assert_eq!(p.envelope_level(), 0);
    for _ in 0..15 {
        p.envelope_step();
    }
    assert_eq!(p.envelope_level(), 15);
    p.envelope_step();
    assert_eq!(p.reg(13), 10);
    assert_eq!(p.envelope_level(), 15);
    p.envelope_step();
    assert_eq!(p.envelope_level(), 14);
}

#[test]
fn envelope_hold_shapes() {
    // shape 13 (/‾‾‾): attack, continue, hold: rises and holds at 15
    let mut p = Psg::new();
    p.write(13, 13);
    for _ in 0..40 {
        p.envelope_step();
    }
    assert_eq!(p.envelope_level(), 15);
    // shape 11 (\‾‾‾): continue, alternate, hold: falls, then holds at 15
    let mut q = Psg::new();
    q.write(13, 11);
    for _ in 0..40 {
        q.envelope_step();
    }
    assert_eq!(q.envelope_level(), 15);
    // shape 4 (/___): rises, then drops to 0
    let mut r = Psg::new();
    r.write(13, 4);
    for _ in 0..40 {
        r.envelope_step();
    }
    assert_eq!(r.envelope_level(), 0);
}

#[test]
fn noise_register_steps() {
    let mut p = Psg::new();
    p.write(7, 0b110111);
    p.write(8, 9);
    // from 1: the feedback bit 1 enters at bit 16, the output is bit 0
    p.noise_step();
    assert_eq!(p.channel_output(0, true), None);
    for _ in 0..16 {
        p.noise_step();
    }
    // after 17 steps bit 16 has reached bit 0
    assert_eq!(p.channel_output(0, true), Some(9));
    let mut seen_high = false;
    for _ in 0..1000 {
        p.noise_step();
        if p.channel_output(0, false).is_some() {
            seen_high = true;
        }
    }
    assert!(seen_high);
}

#[test]
fn play_rest_and_envelope_period() {
    let mut p = Psg::new();
    p.play(["", "M8000R8", ""]);
    assert!(p.playing());
    p.tick();
    // M sets the envelope period, R8 at T120 waits 15/60 s with channel B silent
    assert_eq!(p.envelope_period(), 8000);
    assert_eq!(p.reg(9), 0);
    for _ in 0..15 {
        assert!(p.playing());
        p.tick();
    }
    assert!(!p.playing());
}

#[test]
fn play_note_sets_registers() {
    let mut p = Psg::new();
    // a string of settings only starts the channel, which stops on the next step
    p.play(["O4V12", "", ""]);
    assert!(p.playing());
    p.tick();
    assert!(!p.playing());
    p.play(["C", "", ""]);
    p.tick();
    // O4C: period 428, volume 12 (the settings carry over between PLAYs)
    assert_eq!(p.tone_period(0), 428);
    assert_eq!(p.reg(8), 12);
    p.play(["", "", "S8C"]);
    p.tick();
    assert_eq!(p.reg(10), 16);
    assert_eq!(p.reg(13), 8);
}

#[test]
fn play_refuses_octave_overflow() {
    let p = Psg::new();
    assert!(!p.accepts(["O2147483647>", "", ""]));
    assert!(p.accepts(["O2147483647", "", ""]));
    assert!(p.accepts(["", "", ""]));
}

#[test]
fn tone_above_hearing_counts_as_high() {
    let mut p = Psg::new();
    p.write(7, 0b111110);
    p.write(8, 7);
    p.write(0, 5);
    assert_eq!(p.channel_output(0, false), Some(7));
    p.write(0, 6);
    assert_eq!(p.channel_output(0, false), None);
    assert_eq!(p.channel_output(0, true), Some(7));
}

#[test]
fn play_settings_carry_over() {
    let mut p = Psg::new();
    p.play(["T60L8", "", ""]);
    p.play(["O5C", "", ""]);
    p.tick();
    // the second PLAY reads C with T60 L8 from the first: 14400 / (60 · 8) = 30
    // steps, an octave above O4C
    assert_eq!(p.tone_period(0), 214);
    for _ in 0..30 {
        assert!(p.playing());
        p.tick();
    }
    assert!(!p.playing());
}

#[test]
fn play_lasts_its_length() {
    // C4 at T120 is 30 steps; M adds no length
    let mut p = Psg::new();
    p.play(["C4M100", "", ""]);
    for _ in 0..30 {
        p.tick();
        assert!(p.playing());
    }
    assert_eq!(p.reg(8), 8);
    p.tick();
    assert!(!p.playing());
    assert_eq!(p.reg(8), 0);
    assert_eq!(p.envelope_period(), 100);
}
