use anim_engine::anims::Animation;
use anim_engine::fixed::Fp;

fn fpval(f: Fp) -> f64 {
    f.num as f64 / f.den as f64
}

fn clip(num_frames: i32, speed: i32, looped: bool) -> Animation {
    Animation {
        id: 1,
        num_frames,
        speed,
        count: 0,
        curr_frame: 1,
        looped,
        frame: Vec::new(),
    }
}

#[test]
fn looped_full_cycle_returns_to_start() {
    let mut a = clip(3, 2, true);
    for _ in 0..(2 * 3) {
        a.do_animation();
    }
    assert_eq!(a.curr_frame, 1);
    assert_eq!(a.count, 0);
}

#[test]
fn looped_cycle_visits_each_frame() {
    let mut a = clip(3, 2, true);
    let mut seen = Vec::new();
    for _ in 0..6 {
        a.do_animation();
        seen.push((a.count, a.curr_frame));
    }
    assert_eq!(seen, vec![(1, 1), (0, 2), (1, 2), (0, 3), (1, 3), (0, 1)]);
}

#[test]
fn unlooped_clip_holds_last_frame() {
    let mut a = clip(3, 2, false);
    for _ in 0..100 {
        a.do_animation();
    }
    assert_eq!(a.curr_frame, 3);
    for _ in 0..10 {
        a.do_animation();
        assert_eq!(a.curr_frame, 3);
    }
}

#[test]
fn frame_only_changes_when_counter_wraps() {
    let mut a = clip(5, 3, true);
    a.do_animation();
    assert_eq!((a.count, a.curr_frame), (1, 1));
    a.do_animation();
    assert_eq!((a.count, a.curr_frame), (2, 1));
    assert!(a.count < a.speed);
    a.do_animation();
    assert_eq!((a.count, a.curr_frame), (0, 2));
}

#[test]
fn out_of_range_bone_indices_are_skipped() {
    let data = b"0\n1.5\n0\n2.5\nNEXTFRAME\n21\n1.0\n0\n1.0\n1\n1.1\n0\n1.0\nENDFILE\n".to_vec();
    let a = Animation::load_from_bytes(&data, 7, 1, false);
    // the parse continued past both bad records and loaded the good one
    assert_eq!(a.num_frames, 1);
    for b in 0..=20 {
        assert_eq!(fpval(a.frame[0].pos[b].x), 0.0);
        assert_eq!(fpval(a.frame[0].pos[b].y), 0.0);
    }
    for b in 0..=20 {
        if b == 1 {
            continue;
        }
        assert_eq!(fpval(a.frame[1].pos[b].x), 0.0);
    }
    assert_eq!(fpval(a.frame[1].pos[1].x), -3.0);
    assert_eq!(fpval(a.frame[1].pos[1].y), -3.0);
}

#[test]
fn frame_count_caps_at_forty() {
    let mut text = String::new();
    for _ in 0..45 {
        text.push_str("NEXTFRAME\n");
    }
    text.push_str("ENDFILE\n");
    let a = Animation::load_from_bytes(&text.into_bytes(), 1, 1, true);
    assert_eq!(a.num_frames, 40);
}

#[test]
fn sample_file_loads_expected_pose() {
    let data = b"NEXTFRAME\n1\n1.1\n0\n2.0\nNEXTFRAME\nENDFILE\n".to_vec();
    let a = Animation::load_from_bytes(&data, 3, 1, true);
    // two NEXTFRAME sentinels were encountered
    assert_eq!(a.num_frames, 2);
    assert_eq!(a.curr_frame, 1);
    assert_eq!(a.count, 0);
    assert_eq!(a.id, 3);
    assert_eq!(fpval(a.frame[1].pos[1].x), -3.0);
    assert_eq!(fpval(a.frame[1].pos[1].y), -6.0);
}

#[test]
fn empty_input_yields_empty_clip() {
    let data: Vec<u8> = Vec::new();
    let a = Animation::load_from_bytes(&data, 0, 1, false);
    assert_eq!(a.num_frames, 0);
    assert_eq!(a.curr_frame, 1);
    assert_eq!(a.count, 0);
}

#[test]
fn endfile_stops_the_parse() {
    let data = b"NEXTFRAME\nENDFILE\nNEXTFRAME\nNEXTFRAME\n".to_vec();
    let a = Animation::load_from_bytes(&data, 0, 1, false);
    assert_eq!(a.num_frames, 1);
}

#[test]
fn malformed_numbers_default_to_zero() {
    let data = b"NEXTFRAME\n1\nabc\n0\n1e3\nENDFILE\n".to_vec();
    let a = Animation::load_from_bytes(&data, 0, 1, false);
    assert_eq!(a.num_frames, 1);
    assert_eq!(fpval(a.frame[1].pos[1].x), 0.0);
    assert_eq!(fpval(a.frame[1].pos[1].y), 0.0);
}

#[test]
fn whitespace_around_tokens_is_trimmed() {
    let data = b"  NEXTFRAME  \r\n 1 \n -1.1 \n0\n 2.5 \nENDFILE\n".to_vec();
    let a = Animation::load_from_bytes(&data, 0, 2, true);
    assert_eq!(a.num_frames, 1);
    assert_eq!(fpval(a.frame[1].pos[1].x), 3.0);
    assert_eq!(fpval(a.frame[1].pos[1].y), -7.5);
}

#[test]
fn loader_counts_sentinels_after_bad_records() {
    // a record before the first sentinel lands in the reserved frame 0
    let data = b"1\n4.4\n0\n1.0\nNEXTFRAME\nENDFILE\n".to_vec();
    let a = Animation::load_from_bytes(&data, 0, 1, false);
    assert_eq!(a.num_frames, 1);
    assert_eq!(fpval(a.frame[0].pos[1].x), -12.0);
    assert_eq!(fpval(a.frame[1].pos[1].x), 0.0);
}
