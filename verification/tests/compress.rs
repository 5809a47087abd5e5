use image::{Rgb, RgbImage, Rgba, RgbaImage};
use underkb::codec::{encode, encode_jpeg, encode_png};
use underkb::format::OutFormat;
use underkb::picture::Picture;
use underkb::shrink::{compress_with, CompressResult, ScaleKind};

/// The size a rescale proposes: `sqrt(target / len)` clamped, per side
/// rounded and kept above a minimum.
fn scale(w: u32, h: u32, target: usize, len: usize, kind: ScaleKind) -> (u32, u32) {
    let (lo, hi, min_side) = match kind {
        ScaleKind::Gentle => (0.45f32, 0.88f32, 64.0f32),
        ScaleKind::Hard => (0.2f32, 0.7f32, 32.0f32),
    };
    let ratio = (target as f32 / len.max(1) as f32).sqrt().clamp(lo, hi);
    let nw = ((w as f32) * ratio).round().max(min_side) as u32;
    let nh = ((h as f32) * ratio).round().max(min_side) as u32;
    (nw, nh)
}

fn compress(input: &[u8], target: usize, format: OutFormat) -> Result<CompressResult, String> {
    compress_with(input, target, format, &None, &scale)
}

fn rgb_picture(img: RgbImage) -> Picture {
    let (w, h) = img.dimensions();
    let rgba = image::DynamicImage::ImageRgb8(img).to_rgba8().into_raw();
    Picture::from_rgba(w, h, rgba, false).expect("picture")
}

fn rgba_picture(img: RgbaImage) -> Picture {
    let (w, h) = img.dimensions();
    Picture::from_rgba(w, h, img.into_raw(), true).expect("picture")
}

fn sample_jpeg() -> Vec<u8> {
    let mut img = RgbImage::new(640, 480);
    for (x, y, p) in img.enumerate_pixels_mut() {
        *p = Rgb([(x % 255) as u8, (y % 255) as u8, ((x + y) % 255) as u8]);
    }
    encode_jpeg(&rgb_picture(img), 92).expect("jpeg")
}

#[test]
fn jpeg_fits_budget() {
    let src = sample_jpeg();
    let out = compress(&src, 40 * 1024, OutFormat::Jpeg).expect("compress");
    assert!(out.bytes.len() <= 40 * 1024, "got {} bytes", out.bytes.len());
    assert!(out.bytes.len() > 800);
    assert!(!out.over_budget);
}

#[test]
fn already_small_jpeg_is_reencoded() {
    let src = sample_jpeg();
    let tiny = compress(&src, 8 * 1024, OutFormat::Jpeg).unwrap();
    let again = compress(&tiny.bytes, 5 * 1024 * 1024, OutFormat::Jpeg).unwrap();
    assert!(!again.over_budget);
    assert!(!again.bytes.is_empty());
}

#[test]
fn webp_encodes() {
    let src = sample_jpeg();
    let out = compress(&src, 80 * 1024, OutFormat::Webp).expect("webp");
    assert!(!out.bytes.is_empty());
    assert_eq!(&out.bytes[..4], b"RIFF");
    assert!(
        out.bytes.len() <= 80 * 1024,
        "lossy webp should hit the budget, got {}",
        out.bytes.len()
    );
    assert!(!out.over_budget);
}

#[test]
fn noisy_jpeg_hits_50kb() {
    let mut img = RgbImage::new(800, 600);
    for (x, y, p) in img.enumerate_pixels_mut() {
        let n = x.wrapping_mul(1_103_515_245).wrapping_add(y.wrapping_mul(12_345)) % 251;
        *p = Rgb([n as u8, (n as u8).wrapping_add(41), (n as u8).wrapping_add(97)]);
    }
    let src = encode_jpeg(&rgb_picture(img), 92).expect("jpeg");
    let out = compress(&src, 50 * 1024, OutFormat::Jpeg).expect("compress");
    assert!(out.bytes.len() <= 50 * 1024, "got {} bytes", out.bytes.len());
    assert!(!out.over_budget);
}

#[test]
fn transparent_png_becomes_white_on_jpeg() {
    let mut img = RgbaImage::new(48, 48);
    for p in img.pixels_mut() {
        *p = Rgba([0, 0, 0, 0]);
    }
    let src = encode_png(&rgba_picture(img)).expect("png");
    let out = compress(&src, 50 * 1024, OutFormat::Jpeg).expect("compress");
    let decoded = image::load_from_memory(&out.bytes).unwrap().to_rgb8();
    assert_eq!(decoded.get_pixel(0, 0), &Rgb([255, 255, 255]));
}

#[test]
fn transparent_png_keeps_alpha_on_webp() {
    let mut img = RgbaImage::new(48, 48);
    for p in img.pixels_mut() {
        *p = Rgba([0, 0, 0, 0]);
    }
    let src = encode_png(&rgba_picture(img)).expect("png");
    let out = compress(&src, 50 * 1024, OutFormat::Webp).expect("webp");
    let decoded = image::load_from_memory(&out.bytes).unwrap().to_rgba8();
    assert_eq!(decoded.get_pixel(0, 0).0[3], 0);
}

#[test]
fn rejects_heic_magic() {
    let mut b = vec![0u8; 24];
    b[4..8].copy_from_slice(b"ftyp");
    b[8..12].copy_from_slice(b"heic");
    let err = compress(&b, 20_000, OutFormat::Jpeg).unwrap_err();
    assert!(err.contains("HEIC"), "{err}");
}

#[test]
fn rejects_svg() {
    let err = compress(b"<svg xmlns='http://www.w3.org/2000/svg'></svg>", 20_000, OutFormat::Jpeg)
        .unwrap_err();
    assert!(err.contains("SVG"), "{err}");
}

#[test]
fn rejects_garbage() {
    assert!(compress(b"not-an-image", 20_000, OutFormat::Jpeg).is_err());
}

#[test]
fn expired_deadline_fails_encode() {
    let img = rgb_picture(RgbImage::new(8, 8));
    let err = encode(&img, OutFormat::Jpeg, 80, &Some(std::time::Instant::now())).unwrap_err();
    assert_eq!(err, "That image took too long. Try a smaller file.");
}

#[test]
fn small_budget_is_held_to_the_minimum() {
    let src = sample_jpeg();
    let out = compress(&src, 1, OutFormat::Jpeg).expect("compress");
    assert_eq!(out.over_budget, out.bytes.len() > 8 * 1024);
    assert_eq!(out.original_width, 640);
    assert_eq!(out.original_height, 480);
    assert_eq!(out.original_bytes, src.len());
    assert_eq!(out.format, OutFormat::Jpeg);
}

#[test]
fn fitting_first_encode_keeps_the_size() {
    let src = sample_jpeg();
    let out = compress(&src, 5 * 1024 * 1024, OutFormat::Png).expect("png");
    assert_eq!((out.width, out.height), (640, 480));
    assert!(!out.over_budget);
    assert_eq!(&out.bytes[1..4], b"PNG");
}

#[test]
fn empty_upload_is_refused() {
    assert_eq!(compress(b"", 20_000, OutFormat::Jpeg).unwrap_err(), "Empty file.");
}

#[test]
fn avif_is_refused() {
    let mut b = vec![0u8; 16];
    b[4..8].copy_from_slice(b"ftyp");
    b[8..12].copy_from_slice(b"avif");
    let err = compress(&b, 20_000, OutFormat::Jpeg).unwrap_err();
    assert_eq!(err, "AVIF is not supported yet. Use JPG, PNG, WebP, or GIF.");
}

#[test]
fn garbage_gets_the_generic_message() {
    let err = compress(b"not-an-image", 20_000, OutFormat::Jpeg).unwrap_err();
    assert_eq!(err, "Could not read that image. Use JPG, PNG, WebP, or GIF.");
}

#[test]
fn flatten_makes_transparent_white() {
    let pic = Picture::from_rgba(2, 1, vec![10, 20, 30, 0, 10, 20, 30, 255], true).unwrap();
    assert_eq!(underkb::codec::flatten_white(&pic), vec![255, 255, 255, 10, 20, 30]);
}

#[test]
fn flatten_blends_half_alpha() {
    let pic = Picture::from_rgba(1, 1, vec![0, 100, 255, 128], true).unwrap();
    // (c * 128 + 255 * 127) / 255
    assert_eq!(underkb::codec::flatten_white(&pic), vec![127, 177, 255]);
}
