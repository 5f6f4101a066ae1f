use drive_game2::game::auto_stick;
use drive_game2::program::{tune_mml, Command, Event, Game, Pause, Phase, Tune};
use drive_game2::psg::Psg;
use drive_game2::screen::Screen1;

fn text_at(s: &Screen1, pos: usize, n: usize) -> Vec<u8> {
    (pos..pos + n).map(|p| s.char_at(p)).collect()
}

#[test]
fn boot_and_title() {
    let mut g = Game::new(1);
    assert_eq!(g.phase(), Phase::Boot);
    let cmds = g.step(Event::Done);
    assert_eq!(cmds, vec![Command::Pause(Pause::Setup)]);
    assert_eq!(g.phase(), Phase::Title);
    // PLEASE WAIT after 203 spaces
    assert_eq!(text_at(g.screen(), 203, 11), b"PLEASE WAIT".to_vec());
    assert_eq!(g.screen().color(4), 240);
    assert_eq!(g.screen().color(12), 222);
    assert_eq!(g.screen().color(20), 0x21);
    assert_eq!(g.screen().color(31), 0xD1);
    assert_eq!(g.screen().pattern(169), [0xFF, 0x99, 0x99, 0xFF, 0xFF, 0x3C, 0x3C, 0x3C]);
    let cmds = g.step(Event::Done);
    assert_eq!(cmds, vec![Command::AwaitTrigger]);
    assert_eq!(g.phase(), Phase::Road);
    let s = g.screen();
    assert_eq!(text_at(s, 202, 12), b"[DRIVE%GAME]".to_vec());
    assert_eq!(text_at(s, 12 * 32 + 8, 16), b"[PUSH%SPACE%KEY]".to_vec());
    // the best time starts at 3 minutes
    assert_eq!(text_at(s, 18 * 32 + 7, 18), b"<HI%SCORE%[3\x0B 0\x0C]>".to_vec());
    assert_eq!(s.sprite(0), (0, -31, 15));
    assert_eq!(s.sprite(1), (0, -31, 1));
}

#[test]
fn road_ready_and_race() {
    let mut g = Game::new(1);
    g.step(Event::Done);
    g.step(Event::Done);
    let cmds = g.step(Event::Done);
    assert_eq!(cmds, vec![Command::Sound(7, 56), Command::Play(Tune::Start), Command::AwaitSilence]);
    assert_eq!(text_at(g.screen(), 3 * 32 + 13, 6), b"<%GO%>".to_vec());
    assert_eq!(g.phase(), Phase::Ready);
    let cmds = g.step(Event::Done);
    assert_eq!(
        cmds,
        vec![
            Command::Pause(Pause::ForLoop(999)),
            Command::Sound(1, 2),
            Command::Sound(8, 13),
            Command::ResetTime,
            Command::ReadInput,
        ]
    );
    assert_eq!(g.phase(), Phase::Racing);
    let v = g.vars();
    assert_eq!((v.x, v.y, v.t, v.sp, v.xx), (128, 170, 3000, 0, 0));
    // an answer that was not asked for repeats the question
    let cmds = g.step(Event::Time(5));
    assert_eq!(cmds, vec![Command::ReadInput]);
    let cmds = g.step(Event::Input { trigger: false, stick: 0 });
    assert_eq!(cmds.len(), 3);
    assert!(matches!(cmds[0], Command::Pause(Pause::Step { class_line: false, .. })));
    assert_eq!(cmds[1], Command::Sound(0, 170));
    assert_eq!(cmds[2], Command::ReadInput);
    assert_eq!(g.vars().t, 3001);
}

/// Answers the game's last request as a player who holds the trigger and follows
/// the automatic driver.
fn answer(g: &Game, cmds: &[Command], clock: i32) -> Event {
    match cmds.last() {
        Some(Command::ReadInput) => Event::Input { trigger: true, stick: auto_stick(g.screen()) },
        Some(Command::ReadPlaying) => Event::Playing(false),
        Some(Command::ReadTime) => Event::Time(clock),
        _ => Event::Done,
    }
}

#[test]
fn best_time_never_rises_over_games() {
    for seed in [1u64, 2, 3, 77, 1234567] {
        let mut g = Game::new(seed);
        let mut ev = Event::Done;
        let mut hi = 10800;
        let mut finished = 0;
        let mut cleared = 0;
        let mut clock = 2000;
        for _ in 0..20000 {
            let before = g.phase();
            let cmds = g.step(ev);
            assert!(g.vars().hi <= hi);
            if before == Phase::Clearing {
                assert_eq!(g.vars().hi, hi.min(clock));
                clock -= 100;
                cleared += 1;
            }
            hi = g.vars().hi;
            if g.phase() == Phase::Title && before != Phase::Boot {
                finished += 1;
            }
            ev = answer(&g, &cmds, clock);
        }
        assert!(finished > 0);
        let _ = cleared;
    }
}

#[test]
fn crash_shows_the_class() {
    let mut g = Game::new(5);
    let mut ev = Event::Done;
    let mut blinks = 0;
    for _ in 0..20000 {
        let before = g.phase();
        let cmds = g.step(ev);
        if before == Phase::Racing && g.phase() == Phase::Exploding {
            // line 170: engine off, noise on, the explosion
            let n = cmds.len();
            assert_eq!(
                cmds[n - 5..].to_vec(),
                vec![
                    Command::Sound(8, 0),
                    Command::Sound(6, 30),
                    Command::Sound(7, 40),
                    Command::Play(Tune::Explosion),
                    Command::ReadPlaying,
                ]
            );
        }
        if before == Phase::Exploding && g.phase() == Phase::Exploding {
            assert_eq!(cmds, vec![Command::Frame, Command::ReadPlaying]);
            blinks += 1;
        }
        if before == Phase::Exploding && g.phase() == Phase::Crashed {
            // the road's colour is back once the explosion is over
            assert_eq!(g.screen().color(4), 240);
            assert_eq!(cmds, vec![Command::Sound(7, 56), Command::Play(Tune::Crashed), Command::Pause(Pause::ForLoop(4500))]);
        }
        if before == Phase::Crashed {
            let c = g.vars().c as u8;
            assert_eq!(text_at(g.screen(), 4 * 32 + 12, 7), b"[CRUSH]".to_vec());
            let mut want = b"[CLASS%".to_vec();
            want.push(71 - c);
            want.extend_from_slice(b"%]");
            assert_eq!(text_at(g.screen(), 8 * 32 + 11, 10), want);
            assert_eq!(cmds, vec![Command::AwaitTrigger]);
            assert_eq!(blinks, 10);
            return;
        }
        ev = match cmds.last() {
            // no trigger, steering left: the car leaves the road and crashes
            Some(Command::ReadInput) => Event::Input { trigger: false, stick: 7 },
            // the explosion sounds for ten frames
            Some(Command::ReadPlaying) => Event::Playing(blinks < 10),
            Some(Command::ReadTime) => Event::Time(100),
            _ => Event::Done,
        };
    }
    panic!("no crash");
}

#[test]
fn tunes_play() {
    for t in [Tune::Start, Tune::Explosion, Tune::Crashed, Tune::Cleared, Tune::Beep] {
        let mut p = Psg::new();
        let mml = tune_mml(t);
        assert!(p.accepts(mml));
        p.play(mml);
        assert!(p.playing());
    }
    assert_eq!(tune_mml(Tune::Beep), ["V15T255L64O6C", "", ""]);
}

fn is_obstacle(c: u8) -> bool {
    c >= 161 && (c - 161) % 8 == 0
}

/// A careful player: keeps the car high on the screen, and steers to the road
/// cell with the longest way clear of obstacle cars ahead (among those it can
/// reach without crossing one), the one nearest the middle of the road.
fn careful(g: &Game) -> Event {
    let s = g.screen();
    let (x, y, _) = s.sprite(0);
    let xx = g.vars().xx;
    let row = (y / 8).clamp(1, 23) as usize;
    let car_col = (x + 4) / 8;
    let on_road = |r: usize, col: i32| {
        (0..32).contains(&col) && {
            let c = s.char_at(r * 32 + col as usize);
            c == b'%' || c == b'a' || c == b'b' || c.is_ascii_uppercase()
        }
    };
    let clear = |col: i32| {
        let mut n = 0;
        let mut r = row - 1;
        while on_road(r, col) && !is_obstacle(s.char_at(r * 32 + col as usize)) {
            n += 1;
            if r == 0 || n >= 8 {
                break;
            }
            r -= 1;
        }
        n
    };
    let left = (0..32).position(|c| s.char_at((row - 1) * 32 + c) == b'a').unwrap_or(12) as i32;
    let mut target = car_col;
    let mut best = (-1, i32::MIN);
    for col in 0..32 {
        let step = if col > car_col { 1 } else { -1 };
        let mut path = clear(col);
        let mut c = car_col + step;
        while col != car_col && c != col + step {
            path = path.min(clear(c));
            c += step;
        }
        let score = (path, -(2 * col - (2 * left + 7)).abs());
        if score > best {
            best = score;
            target = col;
        }
    }
    let want = ((target * 8 - x) / 2).clamp(-4, 4);
    let stick = if xx < want { 3 } else if xx > want { 7 } else { 0 };
    Event::Input { trigger: y > 40, stick }
}

#[test]
fn clearing_all_classes_keeps_the_better_time() {
    let mut cleared = 0;
    for seed in [1u64, 2, 3, 4] {
        let mut g = Game::new(seed);
        let mut ev = Event::Done;
        for _ in 0..100000 {
            let before = g.phase();
            let hi = g.vars().hi;
            let cmds = g.step(ev);
            if before == Phase::Clearing {
                // the race took 1000/60 s, better than the 3 minutes to beat
                assert_eq!(g.vars().hi, 1000);
                assert!(hi > 1000);
                assert_eq!(cmds, vec![Command::Sound(8, 0), Command::Play(Tune::Cleared), Command::Pause(Pause::ForLoop(4000))]);
                cleared += 1;
                // the message letter by letter with a beep each, then the time
                let mut beeps = 0;
                while g.phase() != Phase::Title {
                    let cmds = g.step(Event::Done);
                    if cmds.contains(&Command::Play(Tune::Beep)) {
                        beeps += 1;
                    }
                }
                assert_eq!(beeps, 22);
                let s = g.screen();
                assert_eq!(text_at(s, 5 * 32 + 6, 21), b"<ALL%CLEAR%[CLASS%A]>".to_vec());
                assert_eq!(text_at(s, 8 * 32 + 10, 12), b"[TIME%0\x0B16\x0C]".to_vec());
                assert_eq!(text_at(s, 18 * 32 + 7, 18), b"<HI%SCORE%[0\x0B16\x0C]>".to_vec());
                break;
            }
            assert!(g.vars().hi <= hi);
            ev = match cmds.last() {
                Some(Command::ReadInput) => careful(&g),
                Some(Command::ReadPlaying) => Event::Playing(false),
                Some(Command::ReadTime) => Event::Time(1000),
                _ => Event::Done,
            };
        }
    }
    assert!(cleared > 0);
}
