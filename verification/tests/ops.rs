use image::{Rgb, RgbImage, RgbaImage};
use underkb::codec::{encode, encode_png};
use underkb::format::{FitMode, OutFormat};
use underkb::ops::{convert, extract_colors, remove_background, resize};
use underkb::picture::Picture;

fn jpeg_block() -> Vec<u8> {
    let mut img = RgbImage::new(120, 80);
    for (x, y, p) in img.enumerate_pixels_mut() {
        *p = Rgb([(x % 200) as u8, 40, (y % 200) as u8]);
    }
    let rgba = image::DynamicImage::ImageRgb8(img).to_rgba8().into_raw();
    let pic = Picture::from_rgba(120, 80, rgba, false).unwrap();
    encode(&pic, OutFormat::Jpeg, 90, &None).unwrap()
}

fn framed_png() -> Vec<u8> {
    let mut img = RgbaImage::new(40, 40);
    for p in img.pixels_mut() {
        *p = image::Rgba([255, 255, 255, 255]);
    }
    for y in 10..30 {
        for x in 10..30 {
            img.put_pixel(x, y, image::Rgba([20, 80, 200, 255]));
        }
    }
    let pic = Picture::from_rgba(40, 40, img.into_raw(), true).unwrap();
    encode(&pic, OutFormat::Png, 90, &None).unwrap()
}

#[test]
fn convert_to_webp() {
    let out = convert(&jpeg_block(), OutFormat::Webp, 80).unwrap();
    assert_eq!(&out.bytes[..4], b"RIFF");
    assert_eq!(out.format, OutFormat::Webp);
}

#[test]
fn resize_width_keeps_aspect() {
    let out = resize(&jpeg_block(), Some(60), None, FitMode::Fit, OutFormat::Jpeg, 80).unwrap();
    assert_eq!(out.width, 60);
    assert_eq!(out.height, 40);
}

#[test]
fn remove_white_border() {
    let out = remove_background(&framed_png(), 24, OutFormat::Png).unwrap();
    let decoded = image::load_from_memory(&out.bytes).unwrap().to_rgba8();
    assert!(decoded.get_pixel(0, 0).0[3] < 40);
    assert!(decoded.get_pixel(20, 20).0[3] > 200);
}

#[test]
fn remove_bg_webp_keeps_alpha() {
    let out = remove_background(&framed_png(), 24, OutFormat::Webp).unwrap();
    assert_eq!(&out.bytes[..4], b"RIFF");
    let decoded = image::load_from_memory(&out.bytes).unwrap().to_rgba8();
    assert!(decoded.get_pixel(0, 0).0[3] < 40);
    assert!(decoded.get_pixel(20, 20).0[3] > 200);
}

#[test]
fn convert_png_alpha_to_lossy_webp() {
    let mut img = RgbaImage::new(24, 24);
    for p in img.pixels_mut() {
        *p = image::Rgba([0, 0, 0, 0]);
    }
    let pic = Picture::from_rgba(24, 24, img.into_raw(), true).unwrap();
    let src = encode(&pic, OutFormat::Png, 90, &None).unwrap();
    let out = convert(&src, OutFormat::Webp, 80).unwrap();
    let decoded = image::load_from_memory(&out.bytes).unwrap().to_rgba8();
    assert!(decoded.get_pixel(0, 0).0[3] < 40);
}

#[test]
fn palette_has_colors() {
    let c = extract_colors(&jpeg_block(), 5).unwrap();
    assert_eq!((c.width, c.height), (120, 80));
    assert!(!c.colors.is_empty());
    assert!(c.colors[0].hex.starts_with('#'));
}

#[test]
fn remove_background_of_jpeg_is_png() {
    let out = remove_background(&framed_png(), 24, OutFormat::Jpeg).unwrap();
    assert_eq!(out.format, OutFormat::Png);
    assert_eq!(&out.bytes[1..4], b"PNG");
}

#[test]
fn resize_both_sides_fill_is_exact() {
    let out = resize(&jpeg_block(), Some(50), Some(50), FitMode::Fill, OutFormat::Png, 80).unwrap();
    assert_eq!((out.width, out.height), (50, 50));
    assert_eq!((out.original_width, out.original_height), (120, 80));
}

#[test]
fn resize_height_only_scales_width() {
    let out = resize(&jpeg_block(), None, Some(40), FitMode::Fit, OutFormat::Png, 80).unwrap();
    assert_eq!((out.width, out.height), (60, 40));
}

#[test]
fn resize_without_sizes_keeps_the_picture() {
    let out = resize(&jpeg_block(), None, None, FitMode::Fit, OutFormat::Png, 80).unwrap();
    assert_eq!((out.width, out.height), (120, 80));
}

#[test]
fn stretch_gives_the_exact_size() {
    let out = resize(&jpeg_block(), Some(30), Some(70), FitMode::Stretch, OutFormat::Png, 80).unwrap();
    assert_eq!((out.width, out.height), (30, 70));
}

#[test]
fn palette_size_is_clamped() {
    let c = extract_colors(&jpeg_block(), 100).unwrap();
    assert!(c.colors.len() <= 12);
    let total: u64 = c.colors.iter().map(|s| s.count).sum();
    assert!(total <= c.sampled);
}

#[test]
fn palette_hex_matches_channels() {
    let c = extract_colors(&framed_png(), 3).unwrap();
    for s in &c.colors {
        assert_eq!(s.hex, format!("#{:02X}{:02X}{:02X}", s.r, s.g, s.b));
    }
    assert_eq!(c.colors[0].hex, "#F0F0F0");
}

#[test]
fn convert_quality_98_webp_is_lossless() {
    let out = convert(&jpeg_block(), OutFormat::Webp, 98).unwrap();
    assert_eq!(&out.bytes[12..16], b"VP8L");
}

#[test]
fn convert_refuses_empty() {
    assert_eq!(convert(b"", OutFormat::Png, 80).unwrap_err(), "Empty file.");
}

#[test]
fn encode_png_roundtrips_pixels() {
    let pic = Picture::from_rgba(1, 1, vec![1, 2, 3, 4], true).unwrap();
    let png = encode_png(&pic).unwrap();
    let back = image::load_from_memory(&png).unwrap().to_rgba8();
    assert_eq!(back.get_pixel(0, 0).0, [1, 2, 3, 4]);
}

#[test]
fn fit_rounds_the_other_side() {
    let out = resize(&jpeg_block(), Some(100), Some(100), FitMode::Fit, OutFormat::Png, 80).unwrap();
    assert_eq!((out.width, out.height), (100, 67));
}
