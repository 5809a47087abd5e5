use underkb::format::{clamp_target, FitMode, OutFormat, MIN_TARGET_BYTES};
use underkb::naming::stem_filename;

#[test]
fn clamps_target() {
    assert_eq!(clamp_target(1), MIN_TARGET_BYTES);
    assert_eq!(clamp_target(200), 200 * 1024);
}

#[test]
fn filename_stem_safe() {
    assert_eq!(stem_filename("../../weird photo!.PNG"), "weird-photo-");
}

#[test]
fn formats_parse_with_their_defaults() {
    assert_eq!(OutFormat::parse(" PNG "), OutFormat::Png);
    assert_eq!(OutFormat::parse("gif"), OutFormat::Jpeg);
    assert_eq!(OutFormat::parse_prefer_webp("jpeg"), OutFormat::Jpeg);
    assert_eq!(OutFormat::parse_prefer_webp(""), OutFormat::Webp);
    assert_eq!(OutFormat::parse_prefer_png("WebP"), OutFormat::Webp);
    assert_eq!(OutFormat::parse_prefer_png("bmp"), OutFormat::Png);
    assert_eq!(FitMode::parse("cover"), FitMode::Fill);
    assert_eq!(FitMode::parse("EXACT"), FitMode::Stretch);
    assert_eq!(FitMode::parse("x"), FitMode::Fit);
    for f in [OutFormat::Jpeg, OutFormat::Webp, OutFormat::Png] {
        assert_eq!(OutFormat::parse(f.ext()), f);
        assert_eq!(OutFormat::parse_prefer_webp(f.ext()), f);
        assert_eq!(OutFormat::parse_prefer_png(f.ext()), f);
    }
    assert_eq!(OutFormat::Webp.mime(), "image/webp");
    assert!(!OutFormat::Png.lossy());
}

#[test]
fn clamps_quality_and_large_budget() {
    assert_eq!(underkb::format::clamp_quality(5), 20);
    assert_eq!(underkb::format::clamp_quality(101), 100);
    assert_eq!(underkb::format::clamp_quality(77), 77);
    assert_eq!(clamp_target(u32::MAX), 5 * 1024 * 1024);
}

#[test]
fn stem_edge_cases() {
    assert_eq!(stem_filename(""), "image");
    assert_eq!(stem_filename("dir/"), "image");
    assert_eq!(stem_filename("a/b\\c.d.e"), "c-d");
    assert_eq!(stem_filename("ñandú.png"), "-and-");
}

#[test]
fn stem_of_a_stem_is_itself() {
    for name in ["dir/my photo.final.JPG", "a\\b\\..jpg", "", "ünïcode name.png", "x.y.z"] {
        let once = stem_filename(name);
        assert_eq!(stem_filename(&once), once);
    }
}
