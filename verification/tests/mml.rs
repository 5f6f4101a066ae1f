use drive_game2::mml::{parse_mml, try_parse_mml, Ev, MmlState};
use drive_game2::pitch::{period_of, ticks_of};

fn note(period: u16, ticks: u32, vol: u8, env: Option<u8>) -> Ev {
    Ev::Note { period, ticks, vol, env }
}

#[test]
fn period_of_a440() {
    assert_eq!(period_of(4, 9), 254);
    assert_eq!(period_of(4, 0), 428);
    assert_eq!(period_of(5, 0), 214);
    assert_eq!(period_of(3, 5), 641);
    assert_eq!(period_of(6, 0), 107);
    assert_eq!(period_of(1, 0), 3420);
    assert_eq!(period_of(8, 11), 14);
    // below the register's range the period is held at 4095
    assert_eq!(period_of(0, 0), 4095);
    assert_eq!(period_of(-100, 0), 4095);
    // far above it, at 1
    assert_eq!(period_of(100, 0), 1);
}

#[test]
fn ticks_of_lengths() {
    assert_eq!(ticks_of(120, 4, 0), 30);
    assert_eq!(ticks_of(163, 8, 0), 11);
    assert_eq!(ticks_of(120, 4, 1), 45);
    assert_eq!(ticks_of(120, 8, 1), 22);
    assert_eq!(ticks_of(120, 4, 2), 52);
    assert_eq!(ticks_of(255, 64, 0), 0);
    assert_eq!(ticks_of(180, 4, 0), 20);
    assert_eq!(ticks_of(120, 1, 0), 120);
    assert_eq!(ticks_of(0, 4, 0), u32::MAX);
}

#[test]
fn parse_default_note() {
    let mut st = MmlState::default();
    assert_eq!(parse_mml("C", &mut st), vec![note(428, 30, 8, None)]);
    assert_eq!(st, MmlState::default());
}

#[test]
fn parse_n36_is_o4c() {
    let mut a = MmlState::default();
    let mut b = MmlState::default();
    assert_eq!(parse_mml("N36", &mut a), parse_mml("O4C", &mut b));
    let mut c = MmlState::default();
    assert_eq!(parse_mml("N0", &mut c), vec![Ev::Rest { ticks: 30 }]);
    assert_eq!(parse_mml("N45", &mut c), vec![note(254, 30, 8, None)]);
}

#[test]
fn parse_lower_case_and_accidentals() {
    let mut a = MmlState::default();
    let mut b = MmlState::default();
    assert_eq!(parse_mml("c d e", &mut a), parse_mml("CDE", &mut b));
    let mut st = MmlState::default();
    let evs = parse_mml("B-C-B+A#", &mut st);
    assert_eq!(
        evs,
        vec![
            note(period_of(4, 10), 30, 8, None),
            note(period_of(3, 11), 30, 8, None),
            note(period_of(5, 0), 30, 8, None),
            note(period_of(4, 10), 30, 8, None),
        ]
    );
    assert_eq!(st.octave, 4);
}

#[test]
fn parse_settings_carry_over() {
    let mut st = MmlState::default();
    let evs = parse_mml("T163L8O3V15S0M8000R8.>G", &mut st);
    assert_eq!(
        evs,
        vec![
            Ev::EnvPeriod(8000),
            Ev::Rest { ticks: ticks_of(163, 8, 1) },
            note(period_of(4, 7), 11, 15, Some(0)),
        ]
    );
    assert_eq!(st, MmlState { octave: 4, length: 8, tempo: 163, volume: 15, env: Some(0) });
    // V clears the envelope; limits of T, L, V, S and M
    let evs = parse_mml("V20T10L0S99M0C", &mut st);
    assert_eq!(evs, vec![Ev::EnvPeriod(1), note(period_of(4, 0), ticks_of(32, 1, 0), 15, Some(15))]);
    assert_eq!(st, MmlState { octave: 4, length: 1, tempo: 32, volume: 15, env: Some(15) });
    let evs = parse_mml("V", &mut st);
    assert!(evs.is_empty());
    assert_eq!(st.volume, 8);
    assert_eq!(st.env, None);
}

#[test]
fn parse_defaults_without_numbers() {
    let mut st = MmlState { octave: 2, length: 16, tempo: 200, volume: 3, env: None };
    let evs = parse_mml("OLTRSM", &mut st);
    assert_eq!(evs, vec![Ev::Rest { ticks: ticks_of(120, 4, 0) }, Ev::EnvPeriod(255)]);
    assert_eq!(st, MmlState { octave: 4, length: 4, tempo: 120, volume: 3, env: Some(1) });
    // a number too large for u32 counts as none
    let mut st = MmlState::default();
    assert_eq!(parse_mml("O99999999999C", &mut st), vec![note(428, 30, 8, None)]);
    // other characters are skipped
    let mut st = MmlState::default();
    assert_eq!(parse_mml("X C!", &mut st), vec![note(428, 30, 8, None)]);
}

#[test]
fn parse_refuses_octave_overflow() {
    let mut st = MmlState::default();
    assert!(try_parse_mml("O2147483647>", &mut st).is_none());
    assert_eq!(st, MmlState::default());
    let mut st = MmlState::default();
    assert_eq!(try_parse_mml("O2147483647", &mut st), Some(vec![]));
    assert_eq!(st.octave, i32::MAX);
    let mut st = MmlState::default();
    assert_eq!(try_parse_mml("C", &mut st), Some(vec![note(428, 30, 8, None)]));
}

#[test]
fn parse_concatenation_reads_in_turn() {
    let mut whole = MmlState::default();
    let mut parts = MmlState::default();
    let all = parse_mml("T60L8O5CV3r", &mut whole);
    let mut evs = parse_mml("T60L8O5C", &mut parts);
    evs.extend(parse_mml("V3r", &mut parts));
    assert_eq!(all, evs);
    assert_eq!(whole, parts);
    // R without a number is a quarter rest: 14400 / (60 · 4)
    assert_eq!(all, vec![note(period_of(5, 0), 30, 8, None), Ev::Rest { ticks: 60 }]);
}

#[test]
fn note_lengths_are_monotone() {
    // a faster tempo or shorter value never lengthens a note, a dot never shortens it
    assert!(ticks_of(150, 4, 0) <= ticks_of(120, 4, 0));
    assert!(ticks_of(120, 8, 0) <= ticks_of(120, 4, 0));
    assert!(ticks_of(120, 4, 0) <= ticks_of(120, 4, 1));
    assert!(ticks_of(255, 64, 0) <= ticks_of(32, 1, 3));
}
