use underkb::cutout::punch_flat_background;
use underkb::format::OutFormat;
use underkb::palette::palette;
use underkb::picture::Picture;
use underkb::rate::RateLimiter;
use underkb::shrink::{ScaleKind, ShrinkPhase, ShrinkStep, Shrinker};
use underkb::stage::Stage;

#[test]
fn quality_drops_before_scaling() {
    let mut sh = Shrinker::new(50 * 1024, OutFormat::Jpeg);
    assert_eq!(sh.step(200 * 1024, 640, 480, false), ShrinkStep::Reencode { quality: 78 });
    let mut q = 78;
    while q > 40 {
        let next = sh.step(200 * 1024, 640, 480, false);
        q -= 8;
        assert_eq!(next, ShrinkStep::Reencode { quality: q });
    }
    assert_eq!(q, 38);
    assert_eq!(sh.step(200 * 1024, 640, 480, false), ShrinkStep::Rescale { kind: ScaleKind::Gentle });
}

#[test]
fn fitting_encode_finishes() {
    let mut sh = Shrinker::new(50 * 1024, OutFormat::Png);
    assert_eq!(sh.step(10, 640, 480, false), ShrinkStep::Finish { over_budget: false });
    assert_eq!(sh.phase, ShrinkPhase::Done);
}

#[test]
fn deadline_stops_over_budget() {
    let mut sh = Shrinker::new(50 * 1024, OutFormat::Webp);
    assert_eq!(sh.step(200 * 1024, 640, 480, true), ShrinkStep::Finish { over_budget: true });
}

#[test]
fn rescale_only_shrinks() {
    let mut sh = Shrinker::new(8 * 1024, OutFormat::Png);
    assert_eq!(sh.step(100 * 1024, 640, 480, false), ShrinkStep::Rescale { kind: ScaleKind::Gentle });
    // No side shrinks: the first phase ends and the hard rescale is asked for.
    assert_eq!(sh.rescale(640, 480, 640, 480, false), ShrinkStep::Rescale { kind: ScaleKind::Hard });
    assert_eq!(sh.rescale(320, 240, 640, 480, false), ShrinkStep::Resize { width: 320, height: 240, quality: 86 });
    assert_eq!(sh.encodes, 1);
}

#[test]
fn rounds_are_bounded() {
    let mut sh = Shrinker::new(8 * 1024, OutFormat::Png);
    let (mut w, mut h) = (4000u32, 3000u32);
    let mut steps = 0;
    loop {
        steps += 1;
        assert!(steps < 200);
        match sh.step(1 << 20, w, h, false) {
            ShrinkStep::Finish { over_budget } => {
                assert!(over_budget);
                break;
            }
            ShrinkStep::Rescale { .. } => match sh.rescale(w - 1, h - 1, w, h, false) {
                ShrinkStep::Resize { width, height, .. } => {
                    w = width;
                    h = height;
                }
                ShrinkStep::Rescale { .. } => {
                    if let ShrinkStep::Resize { width, height, .. } = sh.rescale(w - 1, h - 1, w, h, false) {
                        w = width;
                        h = height;
                    }
                }
                _ => break,
            },
            _ => {}
        }
    }
    assert!(sh.encodes <= 58);
}

#[test]
fn cut_keeps_colours_and_never_raises_alpha() {
    let mut rgba = Vec::new();
    for y in 0..5u32 {
        for x in 0..5u32 {
            if x == 2 && y == 2 {
                rgba.extend_from_slice(&[10, 20, 200, 90]);
            } else {
                rgba.extend_from_slice(&[250, 250, 250, 255]);
            }
        }
    }
    let src = Picture::from_rgba(5, 5, rgba.clone(), true).unwrap();
    let out = punch_flat_background(&src, 24);
    for p in 0..25 {
        for c in 0..3 {
            assert_eq!(out.rgba[4 * p + c], rgba[4 * p + c]);
        }
        assert!(out.rgba[4 * p + 3] <= rgba[4 * p + 3]);
    }
    assert_eq!(out.rgba[3], 0);
    assert_eq!(out.rgba[4 * 12 + 3], 90);
}

#[test]
fn minted_ids_differ() {
    let mut st = Stage::new();
    let a = st.put(vec![1], "image/png", "a.png", 0).unwrap();
    let b = st.put(vec![2], "image/png", "b.png", 0).unwrap();
    assert_ne!(a, b);
    assert_eq!(a.len(), 34);
    assert_eq!(st.len(), 2);
}

#[test]
fn palette_colours_are_spread() {
    let mut rgba = Vec::new();
    for i in 0..(64 * 64u32) {
        let v = (i % 256) as u8;
        rgba.extend_from_slice(&[v, v.wrapping_mul(3), 255 - v, 255]);
    }
    let pic = Picture::from_rgba(64, 64, rgba, true).unwrap();
    let (colors, sampled) = underkb::palette::palette(&pic, 12);
    assert!(colors.len() <= 12);
    assert!(sampled > 0);
    for i in 0..colors.len() {
        for j in (i + 1)..colors.len() {
            let d = |a: u8, b: u8| (a as i32 - b as i32) * (a as i32 - b as i32);
            let dist = d(colors[i].r, colors[j].r) + d(colors[i].g, colors[j].g) + d(colors[i].b, colors[j].b);
            assert!(dist >= 1800);
        }
    }
}

#[test]
fn raising_tolerance_never_adds_opacity() {
    let mut rgba = Vec::new();
    for y in 0..6u32 {
        for x in 0..6u32 {
            let v = 255 - (x * 9 + y * 5) as u8;
            rgba.extend_from_slice(&[v, v, v, 255]);
        }
    }
    let src = Picture::from_rgba(6, 6, rgba, true).unwrap();
    let low = punch_flat_background(&src, 10);
    let high = punch_flat_background(&src, 60);
    let mut lower_somewhere = false;
    for p in 0..36 {
        assert!(high.rgba[4 * p + 3] <= low.rgba[4 * p + 3]);
        if high.rgba[4 * p + 3] < low.rgba[4 * p + 3] {
            lower_somewhere = true;
        }
    }
    assert!(lower_somewhere);
}

#[test]
fn refused_calls_are_not_counted() {
    let mut rl = RateLimiter::new();
    for t in 0..12u64 {
        assert!(rl.allow("9.9.9.9", t));
    }
    assert!(!rl.allow("9.9.9.9", 100));
    assert!(!rl.allow("9.9.9.9", 59_999));
    assert!(rl.allow("9.9.9.9", 60_000));
    assert!(!rl.allow("9.9.9.9", 60_000));
    assert!(rl.allow("9.9.9.9", 60_001));
}

#[test]
fn sixty_four_newer_files_evict_the_first() {
    let mut st = Stage::new();
    let first = st.put(vec![7], "image/png", "a.png", 0).unwrap();
    for t in 1..64u64 {
        st.put(vec![1], "image/png", "b.png", t).unwrap();
    }
    assert!(st.get(&first, 63).is_some());
    st.put(vec![1], "image/png", "b.png", 64).unwrap();
    assert!(st.get(&first, 64).is_none());
}

#[test]
fn palette_for_no_colours_still_keeps_one() {
    let mut rgba = Vec::new();
    for _ in 0..4 {
        rgba.extend_from_slice(&[200, 10, 10, 255]);
    }
    let src = Picture::from_rgba(2, 2, rgba, false).unwrap();
    let (colors, sampled) = palette(&src, 0);
    assert_eq!(colors.len(), 1);
    assert_eq!(colors[0].hex, "#D01010");
    assert_eq!(sampled, 4);
}
