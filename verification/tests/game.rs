use drive_game2::game::{
    auto_stick, cat, decimal_of, hit_kind_of, main_step, road_line_of, s_tab, stick_direction, using, Next, Rng,
    Vars, DIAMOND,
};
use drive_game2::screen::{Screen1, ESC};

#[test]
fn stick_table() {
    assert_eq!(s_tab(3), 1);
    assert_eq!(s_tab(7), -1);
    for s in [0, 1, 2, 4, 5, 6, 8] {
        assert_eq!(s_tab(s), 0);
    }
}

#[test]
fn stick_from_keys() {
    assert_eq!(stick_direction(true, false, false, false), 1);
    assert_eq!(stick_direction(true, true, false, false), 2);
    assert_eq!(stick_direction(false, true, false, false), 3);
    assert_eq!(stick_direction(false, true, true, false), 4);
    assert_eq!(stick_direction(false, false, true, false), 5);
    assert_eq!(stick_direction(false, false, true, true), 6);
    assert_eq!(stick_direction(false, false, false, true), 7);
    assert_eq!(stick_direction(true, false, false, true), 8);
    assert_eq!(stick_direction(false, false, false, false), 0);
    assert_eq!(stick_direction(true, false, true, false), 0);
    assert_eq!(stick_direction(true, true, true, true), 0);
}

#[test]
fn hit_kinds() {
    assert_eq!(hit_kind_of(b' '), 3);
    assert_eq!(hit_kind_of(131), 2);
    assert_eq!(hit_kind_of(133), 2);
    assert_eq!(hit_kind_of(161), 3);
    assert_eq!(hit_kind_of(249), 3);
    assert_eq!(hit_kind_of(162), 0);
    assert_eq!(hit_kind_of(b'A'), 4);
    assert_eq!(hit_kind_of(b'Z'), 4);
    assert_eq!(hit_kind_of(b'%'), 1);
    assert_eq!(hit_kind_of(b'a'), 1);
    assert_eq!(hit_kind_of(b'b'), 1);
    assert_eq!(hit_kind_of(b'd'), 0);
    assert_eq!(hit_kind_of(0), 0);
}

#[test]
fn road_line_text() {
    let l = road_line_of(11);
    let mut want = vec![ESC, b'L'];
    want.extend(std::iter::repeat_n(DIAMOND, 12));
    want.extend_from_slice(b"a%%%%%%b");
    want.extend(std::iter::repeat_n(DIAMOND, 12));
    assert_eq!(l, want);
    assert_eq!(road_line_of(0)[2], DIAMOND);
    assert_eq!(road_line_of(0)[3], b'a');
    assert_eq!(road_line_of(22).len(), 34);
    assert_eq!(road_line_of(22)[25], b'a');
}

#[test]
fn decimal_text() {
    assert_eq!(decimal_of(0), b"0".to_vec());
    assert_eq!(decimal_of(3), b"3".to_vec());
    assert_eq!(decimal_of(-42), b"-42".to_vec());
    assert_eq!(decimal_of(i32::MIN), b"-2147483648".to_vec());
    assert_eq!(decimal_of(32767), b"32767".to_vec());
}

#[test]
fn print_using_fields() {
    let fmt = b"[TIME%#\x01K##\x01L]";
    assert_eq!(using(fmt, &[1, 5]), b"[TIME%1\x01K 5\x01L]".to_vec());
    assert_eq!(using(fmt, &[2, 41]), b"[TIME%2\x01K41\x01L]".to_vec());
    // a number too wide for its field gets a % in front
    assert_eq!(using(b"##", &[123]), b"%123".to_vec());
    assert_eq!(using(b"###", &[-5]), b" -5".to_vec());
    // missing values count as 0
    assert_eq!(using(b"#,#", &[7]), b"7,0".to_vec());
    assert_eq!(using(b"NO FIELDS", &[1]), b"NO FIELDS".to_vec());
}

#[test]
fn cat_joins() {
    let parts: [&[u8]; 3] = [b"[CLASS%", &[b'F'], b"%]"];
    assert_eq!(cat(&parts), b"[CLASS%F%]".to_vec());
    assert_eq!(cat(&[]), Vec::<u8>::new());
}

#[test]
fn rng_xorshift() {
    let mut r = Rng { seed: 1 };
    let k = r.next();
    let mut s: u64 = 1;
    s ^= s << 13;
    s ^= s >> 7;
    s ^= s << 17;
    assert_eq!(r.seed, s);
    assert_eq!(k, s >> 11);
    assert!(k < 1u64 << 53);
}

fn road_screen() -> Screen1 {
    let mut scr = Screen1::new();
    scr.locate(0, 0);
    let line = road_line_of(11);
    for _ in 0..25 {
        scr.print(&line);
    }
    scr
}

fn race_vars() -> Vars {
    Vars { hi: 10800, c: 1, f: true, t: 3000, x: 128, y: 170, w: 11, xx: 0, sp: 0 }
}

#[test]
fn race_step_on_the_road() {
    let mut scr = road_screen();
    let mut v = race_vars();
    let mut rng = Rng { seed: 12345 };
    let out = main_step(&mut v, &mut scr, &mut rng, false, 0);
    // no trigger: SP 0 -> 1, and Y = 170 + 1 - 1
    assert_eq!(v.sp, 1);
    assert_eq!(v.y, 170);
    assert_eq!(v.x, 128);
    assert_eq!(v.t, 3001);
    assert_eq!(out.next, Next::Main);
    assert_eq!(out.engine, Some(170));
    assert!(!out.class_line);
    assert_eq!(scr.sprite(0), (128, 170, 15));
    assert_eq!(scr.sprite(1), (128, 170, 1));
    assert!((10..=12).contains(&v.w));
}

#[test]
fn race_step_steers_and_speeds_up() {
    let mut scr = road_screen();
    let mut v = race_vars();
    v.sp = 3;
    v.xx = 4;
    let mut rng = Rng { seed: 99 };
    let out = main_step(&mut v, &mut scr, &mut rng, true, 3);
    // trigger: SP 3 -> 2; stick right at the limit keeps XX at 4
    assert_eq!(v.sp, 2);
    assert_eq!(v.xx, 4);
    assert_eq!(v.x, 132);
    assert_eq!(v.y, 171);
    assert_eq!(out.engine, Some(171));
    let _ = out;
}

#[test]
fn race_step_off_the_road() {
    let mut scr = road_screen();
    let mut v = race_vars();
    v.x = 20;
    let mut rng = Rng { seed: 7 };
    let out = main_step(&mut v, &mut scr, &mut rng, false, 0);
    // the shoulder's diamonds are the safety zone
    assert_eq!(out.next, Next::Safety);
}

#[test]
fn race_step_crash_at_bottom() {
    let mut scr = road_screen();
    let mut v = race_vars();
    v.y = 189;
    v.sp = 5;
    let mut rng = Rng { seed: 7 };
    let out = main_step(&mut v, &mut scr, &mut rng, false, 0);
    assert_eq!(v.y, 194);
    assert_eq!(out.next, Next::Crash);
    assert_eq!(out.engine, None);
}

#[test]
fn race_step_class_line() {
    let mut scr = road_screen();
    let mut v = race_vars();
    v.t = 9990;
    v.y = 20;
    let mut rng = Rng { seed: 5 };
    let out = main_step(&mut v, &mut scr, &mut rng, false, 0);
    assert!(out.class_line);
    assert!(!out.obstacle);
    assert_eq!(v.t, 0);
    assert!(!v.f);
    // the class line is 64 copies of E (class 1) at the top
    for pos in 0..64 {
        assert_eq!(scr.char_at(pos), b'E');
    }
}

#[test]
fn auto_driver_heads_for_the_middle() {
    let mut scr = road_screen();
    // the road's left edge is at column 12: the middle is at (12 + 4) * 8 - 4 = 124
    scr.set_sprite(0, (124, 100, 15));
    assert_eq!(auto_stick(&scr), 0);
    scr.set_sprite(0, (119, 100, 15));
    assert_eq!(auto_stick(&scr), 3);
    scr.set_sprite(0, (129, 100, 15));
    assert_eq!(auto_stick(&scr), 7);
    // no edge in the row: column 12 is assumed
    let mut empty = Screen1::new();
    empty.set_sprite(0, (200, 100, 15));
    assert_eq!(auto_stick(&empty), 7);
    empty.set_sprite(0, (124, -40, 15));
    assert_eq!(auto_stick(&empty), 0);
}

#[test]
fn road_sways_as_f64_rounds() {
    // this seed's next RND(1) is (2^53 - 1) / 2^53: 20 + 3·RND(1) - 1 rounds in
    // f64 to 22.0, so the edge moves by two
    let seed = 0x1e09_0c4f_6c67_2448;
    let mut scr = road_screen();
    let mut v = race_vars();
    v.w = 20;
    let mut rng = Rng { seed };
    main_step(&mut v, &mut scr, &mut rng, false, 0);
    assert_eq!(v.w, 22);
    assert_eq!(scr.char_at(23), b'a');
    // from 21 it reaches 23, held at 22
    let mut scr = road_screen();
    let mut v = race_vars();
    v.w = 21;
    let mut rng = Rng { seed };
    main_step(&mut v, &mut scr, &mut rng, false, 0);
    assert_eq!(v.w, 22);
    // an ordinary value sways by at most one
    let mut scr = road_screen();
    let mut v = race_vars();
    let mut rng = Rng { seed: 42 };
    main_step(&mut v, &mut scr, &mut rng, false, 0);
    assert!((10..=12).contains(&v.w));
}
