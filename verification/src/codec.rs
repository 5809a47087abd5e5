//! Decoding, encoding and resampling through the `image` and `webp` crates,
//! and the pixel work done here around those calls.

use image::metadata::Orientation;
use image::{DynamicImage, ImageDecoder, ImageEncoder, ImageError, ImageReader, Limits};
use std::io::Cursor;
use vstd::prelude::*;

use crate::format::{OutFormat, MAX_DECODE_ALLOC, MAX_EDGE, MAX_PIXELS};
use crate::picture::{Picture, PictureModel};
use crate::sniff::text_of;
use crate::text::contains_seq;

verus! {

#[verifier::external_type_specification]
#[verifier::external_body]
pub struct ExInstant(std::time::Instant);

/// Result of `ImageReader::into_decoder(..).dimensions()` for these bytes and
/// limits: the header size, or the decoder's error message (`None` when no
/// format was recognised or the bytes could not be read).
pub uninterp spec fn header_of(input: Seq<u8>, max_edge: u32, max_alloc: u64) -> Result<
    (u32, u32),
    Option<Seq<char>>,
>;

/// Result of decoding these bytes with the same limits, applying the EXIF
/// orientation, as RGBA8.
pub uninterp spec fn decoded_of(input: Seq<u8>, max_edge: u32, max_alloc: u64) -> Result<
    PictureModel,
    Option<Seq<char>>,
>;

/// Baseline JPEG of RGB8 data at a quality (`JpegEncoder::new_with_quality`).
pub uninterp spec fn jpeg_of(rgb: Seq<u8>, w: u32, h: u32, quality: u8) -> Result<
    Seq<u8>,
    Seq<char>,
>;

/// PNG of RGBA8 data, default compression, adaptive filter (`PngEncoder`).
pub uninterp spec fn png_of(rgba: Seq<u8>, w: u32, h: u32) -> Result<Seq<u8>, Seq<char>>;

/// Lossless WebP of RGBA8 (`alpha`) or RGB8 data (`WebPEncoder::new_lossless`).
pub uninterp spec fn webp_lossless_of(data: Seq<u8>, w: u32, h: u32, alpha: bool) -> Result<
    Seq<u8>,
    Seq<char>,
>;

/// Lossy WebP of RGBA8 data through libwebp (`webp::Encoder::encode_simple`),
/// or the name of libwebp's error code when it refuses.
pub uninterp spec fn webp_lossy_of(rgba: Seq<u8>, w: u32, h: u32, quality: u8) -> Result<
    Seq<u8>,
    Seq<char>,
>;

/// Triangle-filtered resample to exactly `w` x `h` (`imageops::resize`).
pub uninterp spec fn resized_exact(p: PictureModel, w: u32, h: u32) -> PictureModel;

/// Triangle-filtered resample keeping the aspect ratio, as large as fits in
/// `w` x `h` (`DynamicImage::resize`).
pub uninterp spec fn resized_fit(p: PictureModel, w: u32, h: u32) -> PictureModel;

/// Resample to cover `w` x `h`, then crop the centre (`DynamicImage::resize_to_fill`).
pub uninterp spec fn resized_fill(p: PictureModel, w: u32, h: u32) -> PictureModel;

pub open spec fn bytes_result(r: Result<Vec<u8>, String>) -> Result<Seq<u8>, Seq<char>> {
    match r {
        Ok(v) => Ok(v@),
        Err(e) => Err(e@),
    }
}

pub open spec fn failure_view(e: Option<String>) -> Option<Seq<char>> {
    match e {
        Some(m) => Some(m@),
        None => None,
    }
}

/// Reads the size from the image header, with the decoder limits applied.
/// Every decoder of the `image` crate checks the size against the limits
/// when they are set, so a size it returns is within `max_edge`.
#[verifier::external_body]
fn read_header(input: &[u8], max_edge: u32, max_alloc: u64) -> (r: Result<(u32, u32), Option<String>>)
    ensures
        match r {
            Ok(d) => header_of(input@, max_edge, max_alloc) == Ok::<(u32, u32), Option<Seq<char>>>(d),
            Err(e) => header_of(input@, max_edge, max_alloc) == Err::<(u32, u32), Option<Seq<char>>>(
                failure_view(e),
            ),
        },
        r matches Ok(d) ==> d.0 <= max_edge && d.1 <= max_edge,
{
    let Ok(mut reader) = ImageReader::new(Cursor::new(input)).with_guessed_format() else {
        return Err(None);
    };
    if reader.format().is_none() {
        return Err(None);
    }
    let mut limits = Limits::default();
    limits.max_image_width = Some(max_edge);
    limits.max_image_height = Some(max_edge);
    limits.max_alloc = Some(max_alloc);
    reader.limits(limits);
    reader.into_decoder().map(|d| d.dimensions()).map_err(|e| Some(e.to_string()))
}

/// Decodes the image with the decoder limits, applies its EXIF orientation,
/// and returns it as RGBA8 together with whether its colour type has alpha.
/// When this succeeds, reading the header with the same limits succeeds, and
/// the picture has the header size, turned a quarter when the orientation
/// says so.
#[verifier::external_body]
fn decode_image(input: &[u8], max_edge: u32, max_alloc: u64) -> (r: Result<Picture, Option<String>>)
    ensures
        match r {
            Ok(p) => p.wf() && decoded_of(input@, max_edge, max_alloc) == Ok::<
                PictureModel,
                Option<Seq<char>>,
            >(p@),
            Err(e) => decoded_of(input@, max_edge, max_alloc) == Err::<
                PictureModel,
                Option<Seq<char>>,
            >(failure_view(e)),
        },
        r matches Ok(p) ==> header_of(input@, max_edge, max_alloc) matches Ok(d) && ((p.width
            == d.0 && p.height == d.1) || (p.width == d.1 && p.height == d.0)),
{
    let fail = |e: ImageError| Some(e.to_string());
    let mut reader = ImageReader::new(Cursor::new(input)).with_guessed_format().map_err(|_| None)?;
    let mut limits = Limits::default();
    limits.max_image_width = Some(max_edge);
    limits.max_image_height = Some(max_edge);
    limits.max_alloc = Some(max_alloc);
    reader.limits(limits);
    let mut decoder = reader.into_decoder().map_err(fail)?;
    let orientation = decoder.orientation().unwrap_or(Orientation::NoTransforms);
    let mut img = DynamicImage::from_decoder(decoder).map_err(fail)?;
    img.apply_orientation(orientation);
    let alpha = img.color().has_alpha();
    let rgba = img.into_rgba8();
    let (width, height) = rgba.dimensions();
    Ok(Picture { width, height, rgba: rgba.into_raw(), alpha })
}

/// JPEG of RGB8 data (`JpegEncoder::new_with_quality`, then `encode`).
#[verifier::external_body]
fn jpeg_bytes(rgb: &Vec<u8>, w: u32, h: u32, quality: u8) -> (r: Result<Vec<u8>, String>)
    requires
        rgb@.len() == w * h * 3,
    ensures
        bytes_result(r) == jpeg_of(rgb@, w, h, quality),
{
    let mut out = Vec::new();
    let mut enc = image::codecs::jpeg::JpegEncoder::new_with_quality(&mut out, quality);
    match enc.encode(rgb, w, h, image::ExtendedColorType::Rgb8) {
        Ok(()) => Ok(out),
        Err(e) => Err(e.to_string()),
    }
}

/// PNG of RGBA8 data (`PngEncoder::new_with_quality(.., Default, Adaptive)`, `write_image`).
#[verifier::external_body]
fn png_bytes(rgba: &Vec<u8>, w: u32, h: u32) -> (r: Result<Vec<u8>, String>)
    requires
        rgba@.len() == w * h * 4,
    ensures
        bytes_result(r) == png_of(rgba@, w, h),
{
    let mut out = Vec::new();
    let enc = image::codecs::png::PngEncoder::new_with_quality(
        &mut out,
        image::codecs::png::CompressionType::Default,
        image::codecs::png::FilterType::Adaptive,
    );
    match enc.write_image(rgba, w, h, image::ExtendedColorType::Rgba8) {
        Ok(()) => Ok(out),
        Err(e) => Err(e.to_string()),
    }
}

/// Lossless WebP of RGBA8 or RGB8 data (`WebPEncoder::new_lossless`, `encode`).
#[verifier::external_body]
fn webp_lossless_bytes(data: &Vec<u8>, w: u32, h: u32, alpha: bool) -> (r: Result<Vec<u8>, String>)
    requires
        data@.len() == w * h * (if alpha {
            4int
        } else {
            3int
        }),
    ensures
        bytes_result(r) == webp_lossless_of(data@, w, h, alpha),
{
    let color = if alpha { image::ExtendedColorType::Rgba8 } else { image::ExtendedColorType::Rgb8 };
    let mut out = Vec::new();
    match image::codecs::webp::WebPEncoder::new_lossless(&mut out).encode(data, w, h, color) {
        Ok(()) => Ok(out),
        Err(e) => Err(e.to_string()),
    }
}

/// Lossy WebP of RGBA8 data through libwebp (`Encoder::from_rgba`, then
/// `encode_simple` without lossless at the given quality). libwebp may
/// refuse a picture (its first partition is capped at 512 KB, among other
/// limits); its error code then comes back as text instead of a panic.
/// Which pictures it refuses is left unsaid: only that the result, bytes or
/// error, is a function of the arguments.
#[verifier::external_body]
fn webp_lossy_bytes(rgba: &Vec<u8>, w: u32, h: u32, quality: u8) -> (r: Result<Vec<u8>, String>)
    requires
        rgba@.len() == w * h * 4,
        1 <= w <= 16383,
        1 <= h <= 16383,
        1 <= quality <= 100,
    ensures
        bytes_result(r) == webp_lossy_of(rgba@, w, h, quality),
{
    match webp::Encoder::from_rgba(rgba, w, h).encode_simple(false, quality.into()) {
        Ok(m) => Ok(m.to_vec()),
        Err(e) => Err(format!("{:?}", e)),
    }
}

/// Triangle-filtered resample to exactly `w` x `h` (`imageops::resize`).
#[verifier::external_body]
pub(crate) fn resize_exact(p: &Picture, w: u32, h: u32) -> (out: Picture)
    requires
        p.wf(),
        p.width >= 1,
        p.height >= 1,
        w >= 1,
        h >= 1,
        w * h * 4 <= isize::MAX,
    ensures
        out.wf(),
        out@ == resized_exact(p@, w, h),
        out.width == w && out.height == h && out.alpha == p.alpha,
{
    let buf = image::RgbaImage::from_raw(p.width, p.height, p.rgba.clone()).unwrap();
    let out = image::imageops::resize(&buf, w, h, image::imageops::FilterType::Triangle);
    Picture { width: out.width(), height: out.height(), rgba: out.into_raw(), alpha: p.alpha }
}

/// `v` is `num / den` rounded to the nearest integer (either neighbour
/// when it is exactly half-way), but at least 1.
pub open spec fn rounded_ratio(num: int, den: int, v: u32) -> bool {
    &&& v >= 1
    &&& (-den <= 2 * v * den - 2 * num <= den || (v == 1 && 2 * num <= den))
}

/// The size that `DynamicImage::resize` gives a `pw` x `ph` picture asked
/// to fit `w` x `h`: the side with the smaller ratio takes its target, the
/// other follows the aspect ratio, rounded.
pub open spec fn fit_dims(pw: u32, ph: u32, w: u32, h: u32, ow: u32, oh: u32) -> bool {
    if w * ph <= h * pw {
        ow == w && rounded_ratio(ph * w, pw as int, oh)
    } else {
        oh == h && rounded_ratio(pw * h, ph as int, ow)
    }
}

/// Triangle-filtered resample that keeps the aspect ratio and fits inside
/// `w` x `h` (`DynamicImage::resize`, whose size comes from
/// `resize_dimensions` without fill); each side is at least one pixel, and
/// when a requested side is no larger than the picture's, the scale is at
/// most 1, so neither side grows. `resize_dimensions` works in `f64`: it
/// takes the smaller of `w / pw` and `h / ph` and rounds each side times
/// that ratio. With every side at most 4096 the two ratios compare as the
/// exact fractions do, the limiting side comes out exactly, and the other
/// is within 2^-28 of its exact value, while a fraction that is not a half
/// is at least 2^-13 from the half: so it rounds as the exact value does,
/// and only an exact half may go either way.
#[verifier::external_body]
pub(crate) fn resize_fit(p: &Picture, w: u32, h: u32) -> (out: Picture)
    requires
        p.wf(),
        1 <= p.width <= 4096,
        1 <= p.height <= 4096,
        1 <= w <= 4096,
        1 <= h <= 4096,
    ensures
        out.wf(),
        out@ == resized_fit(p@, w, h),
        fit_dims(p.width, p.height, w, h, out.width, out.height),
        1 <= out.width <= w && 1 <= out.height <= h && out.alpha == p.alpha,
        w <= p.width || h <= p.height ==> out.width <= p.width && out.height <= p.height,
{
    let buf = image::RgbaImage::from_raw(p.width, p.height, p.rgba.clone()).unwrap();
    let img = DynamicImage::ImageRgba8(buf);
    let out = img.resize(w, h, image::imageops::FilterType::Triangle).into_rgba8();
    Picture { width: out.width(), height: out.height(), rgba: out.into_raw(), alpha: p.alpha }
}

/// Resample to cover `w` x `h` keeping the aspect ratio, then crop the
/// centre to `w` x `h` (`DynamicImage::resize_to_fill`).
#[verifier::external_body]
pub(crate) fn resize_fill(p: &Picture, w: u32, h: u32) -> (out: Picture)
    requires
        p.wf(),
        p.width >= 1,
        p.height >= 1,
        w >= 1,
        h >= 1,
        w * h * 4 <= isize::MAX,
    ensures
        out.wf(),
        out@ == resized_fill(p@, w, h),
        out.width == w && out.height == h && out.alpha == p.alpha,
{
    let buf = image::RgbaImage::from_raw(p.width, p.height, p.rgba.clone()).unwrap();
    let img = DynamicImage::ImageRgba8(buf);
    let out = img.resize_to_fill(w, h, image::imageops::FilterType::Triangle).into_rgba8();
    Picture { width: out.width(), height: out.height(), rgba: out.into_raw(), alpha: p.alpha }
}

/// Whether `Instant::now()` has reached `until`. Depends on the clock.
#[verifier::external_body]
fn instant_reached(until: &std::time::Instant) -> bool {
    std::time::Instant::now() >= *until
}

pub open spec fn timeout_message() -> Seq<char> {
    "That image took too long. Try a smaller file."@
}

/// Whether the CPU deadline, if any, has passed.
pub fn cpu_deadline_hit(deadline: &Option<std::time::Instant>) -> (hit: bool)
    ensures
        deadline is None ==> !hit,
{
    match deadline {
        Some(until) => instant_reached(until),
        None => false,
    }
}

/// Fails with the timeout message once the CPU deadline has passed.
pub fn check_cpu_deadline(deadline: &Option<std::time::Instant>) -> (r: Result<(), String>)
    ensures
        r matches Err(e) ==> e@ == timeout_message(),
        deadline is None ==> r is Ok,
{
    if cpu_deadline_hit(deadline) {
        Err(text_of("That image took too long. Try a smaller file."))
    } else {
        Ok(())
    }
}

/// One channel of a pixel composited onto white: `(c * a + 255 * (255 - a)) / 255`.
pub open spec fn on_white(c: u8, a: u8) -> u8 {
    if a == 255 {
        c
    } else if a == 0 {
        255
    } else {
        ((c * a + 255 * (255 - a)) / 255) as u8
    }
}

/// The picture composited onto white, as RGB8.
pub open spec fn flattened(p: PictureModel) -> Seq<u8> {
    Seq::new(
        (p.width * p.height * 3) as nat,
        |j: int| on_white(p.rgba[4 * (j / 3) + j % 3], p.rgba[4 * (j / 3) + 3]),
    )
}

/// The picture without its alpha bytes, as RGB8.
pub open spec fn without_alpha(p: PictureModel) -> Seq<u8> {
    Seq::new((p.width * p.height * 3) as nat, |j: int| p.rgba[4 * (j / 3) + j % 3])
}

proof fn lemma_div3(p: int, k: int)
    requires
        0 <= p,
        0 <= k < 3,
    ensures
        (3 * p + k) / 3 == p,
        (3 * p + k) % 3 == k,
{
    assert((3 * p + k) / 3 == p && (3 * p + k) % 3 == k) by (nonlinear_arith)
        requires
            0 <= p,
            0 <= k < 3,
    ;
}

/// Composites onto white so transparent pixels do not turn black in a JPEG.
pub fn flatten_white(p: &Picture) -> (rgb: Vec<u8>)
    requires
        p.wf(),
    ensures
        rgb@ == flattened(p@),
{
    let len = p.rgba.len();
    let n = len / 4;
    assert(n == p.width * p.height);
    let mut out: Vec<u8> = Vec::new();
    let mut i: usize = 0;
    while i < n
        invariant
            p.wf(),
            len == p.rgba@.len(),
            len == 4 * n,
            n == p.width * p.height,
            i <= n,
            out@ =~= flattened(p@).take(3 * i),
        decreases n - i,
    {
        let a = p.rgba[4 * i + 3];
        let mut k: usize = 0;
        while k < 3
            invariant
                p.wf(),
                len == p.rgba@.len(),
                len == 4 * n,
                n == p.width * p.height,
                i < n,
                k <= 3,
                a == p.rgba@[4 * i + 3],
                out@ =~= flattened(p@).take(3 * i + k),
            decreases 3 - k,
        {
            let c = p.rgba[4 * i + k];
            let v: u8 = if a == 255 {
                c
            } else if a == 0 {
                255
            } else {
                let a16 = a as u16;
                let inv = 255 - a16;
                assert((c as u16) * a16 + 255 * inv <= 65025) by (nonlinear_arith)
                    requires
                        a16 <= 255,
                        inv == 255 - a16,
                        c <= 255,
                ;
                assert(((c as u16) * a16 + 255 * inv) / 255 <= 255) by (nonlinear_arith)
                    requires
                        (c as u16) * a16 + 255 * inv <= 65025,
                ;
                (((c as u16) * a16 + 255 * inv) / 255) as u8
            };
            proof {
                lemma_div3(i as int, k as int);
            }
            out.push(v);
            k = k + 1;
        }
        i = i + 1;
    }
    assert(flattened(p@).take(3 * n as int) =~= flattened(p@));
    out
}

/// The RGB bytes of a picture (alpha dropped).
pub fn rgb_bytes(p: &Picture) -> (rgb: Vec<u8>)
    requires
        p.wf(),
    ensures
        rgb@ == without_alpha(p@),
{
    let len = p.rgba.len();
    let n = len / 4;
    let mut out: Vec<u8> = Vec::new();
    let mut i: usize = 0;
    while i < n
        invariant
            p.wf(),
            len == p.rgba@.len(),
            len == 4 * n,
            n == p.width * p.height,
            i <= n,
            out@ =~= without_alpha(p@).take(3 * i),
        decreases n - i,
    {
        let mut k: usize = 0;
        while k < 3
            invariant
                p.wf(),
                len == p.rgba@.len(),
                len == 4 * n,
                n == p.width * p.height,
                i < n,
                k <= 3,
                out@ =~= without_alpha(p@).take(3 * i + k),
            decreases 3 - k,
        {
            proof {
                lemma_div3(i as int, k as int);
            }
            out.push(p.rgba[4 * i + k]);
            k = k + 1;
        }
        i = i + 1;
    }
    assert(without_alpha(p@).take(3 * n as int) =~= without_alpha(p@));
    out
}

pub open spec fn clamp_webp_quality(q: u8) -> u8 {
    if q < 1 {
        1
    } else if q > 100 {
        100
    } else {
        q
    }
}

/// `RIFF`
pub open spec fn riff() -> Seq<u8> {
    seq![0x52u8, 0x49, 0x46, 0x46]
}

pub open spec fn jpeg_spec(p: PictureModel, quality: u8) -> Result<Seq<u8>, Seq<char>> {
    jpeg_of(flattened(p), p.width, p.height, quality)
}

pub open spec fn webp_lossless_spec(p: PictureModel) -> Result<Seq<u8>, Seq<char>> {
    if p.alpha {
        webp_lossless_of(p.rgba, p.width, p.height, true)
    } else {
        webp_lossless_of(without_alpha(p), p.width, p.height, false)
    }
}

/// Lossy WebP, falling back to lossless when libwebp's output is not a RIFF
/// file; libwebp's refusal is the error.
pub open spec fn webp_lossy_spec(p: PictureModel, quality: u8) -> Result<Seq<u8>, Seq<char>> {
    match webp_lossy_of(p.rgba, p.width, p.height, clamp_webp_quality(quality)) {
        Err(e) => Err(e),
        Ok(out) => if out.len() < 12 || out.take(4) != riff() {
            webp_lossless_spec(p)
        } else {
            Ok(out)
        },
    }
}

/// Lossy WebP asks libwebp for the requested quality itself when it is in
/// 1..=100: libwebp's refusal is the error, and its RIFF output is the
/// result. A quality of 0 is treated as 1, and one above 100 as 100.
pub proof fn lemma_webp_quality_passed(p: PictureModel, q: u8)
    ensures
        1 <= q <= 100 ==> (webp_lossy_of(p.rgba, p.width, p.height, q) matches Err(e) ==> webp_lossy_spec(p, q)
            == Err::<Seq<u8>, Seq<char>>(e)),
        1 <= q <= 100 ==> (webp_lossy_of(p.rgba, p.width, p.height, q) matches Ok(out) ==> (out.len()
            >= 12 && out.take(4) == riff() ==> webp_lossy_spec(p, q) == Ok::<Seq<u8>, Seq<char>>(out))),
        webp_lossy_spec(p, 0) == webp_lossy_spec(p, 1),
        q >= 100 ==> webp_lossy_spec(p, q) == webp_lossy_spec(p, 100),
{
}

/// WebP at a quality: lossless from 98 up, lossy below.
pub open spec fn webp_quality_spec(p: PictureModel, quality: u8) -> Result<Seq<u8>, Seq<char>> {
    if quality >= 98 {
        webp_lossless_spec(p)
    } else {
        webp_lossy_spec(p, quality)
    }
}

/// The bytes of a picture encoded in a format; WebP is lossless.
pub open spec fn encoded(p: PictureModel, format: OutFormat, quality: u8) -> Result<
    Seq<u8>,
    Seq<char>,
> {
    match format {
        OutFormat::Jpeg => jpeg_spec(p, quality),
        OutFormat::Png => png_of(p.rgba, p.width, p.height),
        OutFormat::Webp => webp_lossless_spec(p),
    }
}

/// The bytes of a picture encoded in a format; WebP honours the quality.
pub open spec fn encoded_with_quality(p: PictureModel, format: OutFormat, quality: u8) -> Result<
    Seq<u8>,
    Seq<char>,
> {
    match format {
        OutFormat::Jpeg => jpeg_spec(p, quality),
        OutFormat::Png => png_of(p.rgba, p.width, p.height),
        OutFormat::Webp => webp_quality_spec(p, quality),
    }
}

/// Whether a lossy WebP encode of this picture is within libwebp's size range.
pub open spec fn webp_size_ok(p: PictureModel) -> bool {
    1 <= p.width <= 16383 && 1 <= p.height <= 16383
}

pub fn encode_jpeg(p: &Picture, quality: u8) -> (r: Result<Vec<u8>, String>)
    requires
        p.wf(),
    ensures
        bytes_result(r) == jpeg_spec(p@, quality),
{
    let rgb = flatten_white(p);
    jpeg_bytes(&rgb, p.width, p.height, quality)
}

pub fn encode_png(p: &Picture) -> (r: Result<Vec<u8>, String>)
    requires
        p.wf(),
    ensures
        bytes_result(r) == png_of(p@.rgba, p.width, p.height),
{
    png_bytes(&p.rgba, p.width, p.height)
}

/// Lossless WebP: RGBA when the picture has alpha, RGB otherwise.
pub fn encode_webp_lossless(p: &Picture) -> (r: Result<Vec<u8>, String>)
    requires
        p.wf(),
    ensures
        bytes_result(r) == webp_lossless_spec(p@),
{
    if p.alpha {
        webp_lossless_bytes(&p.rgba, p.width, p.height, true)
    } else {
        let rgb = rgb_bytes(p);
        webp_lossless_bytes(&rgb, p.width, p.height, false)
    }
}

/// Lossy WebP through libwebp, or lossless if its output is not a RIFF file.
pub fn encode_webp_lossy(p: &Picture, quality: u8) -> (r: Result<Vec<u8>, String>)
    requires
        p.wf(),
        webp_size_ok(p@),
    ensures
        bytes_result(r) == webp_lossy_spec(p@, quality),
{
    let q = if quality < 1 {
        1
    } else if quality > 100 {
        100
    } else {
        quality
    };
    let out = webp_lossy_bytes(&p.rgba, p.width, p.height, q)?;
    if out.len() < 12 || !(out[0] == 0x52 && out[1] == 0x49 && out[2] == 0x46 && out[3] == 0x46) {
        proof {
            if out@.len() >= 12 {
                assert(out@.take(4)[0] == out@[0]);
                assert(out@.take(4)[1] == out@[1]);
                assert(out@.take(4)[2] == out@[2]);
                assert(out@.take(4)[3] == out@[3]);
            }
        }
        return encode_webp_lossless(p);
    }
    assert(out@.take(4) =~= riff());
    Ok(out)
}

pub fn encode_webp_quality(p: &Picture, quality: u8) -> (r: Result<Vec<u8>, String>)
    requires
        p.wf(),
        quality < 98 ==> webp_size_ok(p@),
    ensures
        bytes_result(r) == webp_quality_spec(p@, quality),
{
    if quality >= 98 {
        encode_webp_lossless(p)
    } else {
        encode_webp_lossy(p, quality)
    }
}

/// Encodes a picture; WebP is lossless. Fails with the timeout message once
/// the CPU deadline has passed.
pub fn encode(p: &Picture, format: OutFormat, quality: u8, deadline: &Option<std::time::Instant>) -> (r:
    Result<Vec<u8>, String>)
    requires
        p.wf(),
    ensures
        r matches Err(e) && e@ == timeout_message() || bytes_result(r) == encoded(p@, format, quality),
        deadline is None ==> bytes_result(r) == encoded(p@, format, quality),
{
    check_cpu_deadline(deadline)?;
    match format {
        OutFormat::Jpeg => encode_jpeg(p, quality),
        OutFormat::Png => encode_png(p),
        OutFormat::Webp => encode_webp_lossless(p),
    }
}

/// Encodes a picture; WebP is lossy below quality 98. Fails with the timeout
/// message once the CPU deadline has passed.
pub fn encode_with_quality(
    p: &Picture,
    format: OutFormat,
    quality: u8,
    deadline: &Option<std::time::Instant>,
) -> (r: Result<Vec<u8>, String>)
    requires
        p.wf(),
        format == OutFormat::Webp && quality < 98 ==> webp_size_ok(p@),
    ensures
        r matches Err(e) && e@ == timeout_message() || bytes_result(r) == encoded_with_quality(
            p@,
            format,
            quality,
        ),
        deadline is None ==> bytes_result(r) == encoded_with_quality(p@, format, quality),
{
    check_cpu_deadline(deadline)?;
    match format {
        OutFormat::Jpeg => encode_jpeg(p, quality),
        OutFormat::Png => encode_png(p),
        OutFormat::Webp => encode_webp_quality(p, quality),
    }
}

pub open spec fn decode_message() -> Seq<char> {
    "Could not read that image. Use JPG, PNG, WebP, or GIF."@
}

pub open spec fn too_many_pixels_message() -> Seq<char> {
    "That photo has too many pixels. The web page resizes it in the browser first, or export a smaller JPG."@
}

pub open spec fn no_pixels_message() -> Seq<char> {
    "That image has no pixels."@
}

/// The message for a decoder failure: too many pixels when the decoder's
/// message mentions a limit (any case), else the generic one.
pub open spec fn failure_message(e: Option<Seq<char>>) -> Seq<char> {
    match e {
        Some(m) => if contains_seq(crate::text::lower_seq(m), "limit"@) {
            too_many_pixels_message()
        } else {
            decode_message()
        },
        None => decode_message(),
    }
}

fn decode_failure(e: Option<String>) -> (m: String)
    ensures
        m@ == failure_message(failure_view(e)),
{
    match e {
        Some(msg) => {
            let v = crate::text::chars_of(msg.as_str());
            let mut low: Vec<char> = Vec::new();
            let mut i: usize = 0;
            while i < v.len()
                invariant
                    i <= v@.len(),
                    low@ =~= crate::text::lower_seq(v@.take(i as int)),
                decreases v@.len() - i,
            {
                low.push(crate::text::lower_char(v[i]));
                i = i + 1;
            }
            assert(v@.take(v@.len() as int) =~= v@);
            if crate::text::chars_contain(&low, "limit") {
                text_of(
                    "That photo has too many pixels. The web page resizes it in the browser first, or export a smaller JPG.",
                )
            } else {
                text_of("Could not read that image. Use JPG, PNG, WebP, or GIF.")
            }
        },
        None => text_of("Could not read that image. Use JPG, PNG, WebP, or GIF."),
    }
}

/// What loading an upload gives: the decoder's failure message, a refusal
/// for an empty or oversized header, or the decoded, oriented picture.
pub open spec fn load_spec(input: Seq<u8>) -> Result<PictureModel, Seq<char>> {
    match header_of(input, MAX_EDGE, MAX_DECODE_ALLOC) {
        Err(e) => Err(failure_message(e)),
        Ok(d) => if d.0 == 0 || d.1 == 0 {
            Err(no_pixels_message())
        } else if d.0 * d.1 > MAX_PIXELS {
            Err(too_many_pixels_message())
        } else {
            match decoded_of(input, MAX_EDGE, MAX_DECODE_ALLOC) {
                Err(e) => Err(failure_message(e)),
                Ok(p) => Ok(p),
            }
        },
    }
}

/// Decodes an upload and applies its EXIF orientation, refusing images
/// with no pixels or over `MAX_PIXELS` before decoding their pixels.
pub fn load_oriented(input: &[u8]) -> (r: Result<Picture, String>)
    ensures
        match r {
            Ok(p) => load_spec(input@) == Ok::<PictureModel, Seq<char>>(p@),
            Err(e) => load_spec(input@) == Err::<PictureModel, Seq<char>>(e@),
        },
        r matches Ok(p) ==> {
            &&& p.wf()
            &&& 1 <= p.width <= MAX_EDGE
            &&& 1 <= p.height <= MAX_EDGE
            &&& p.width * p.height <= MAX_PIXELS
        },
{
    let (w, h) = match read_header(input, MAX_EDGE, MAX_DECODE_ALLOC) {
        Ok(d) => d,
        Err(e) => return Err(decode_failure(e)),
    };
    if w == 0 || h == 0 {
        return Err(text_of("That image has no pixels."));
    }
    assert(w * h <= 4096 * 4096) by (nonlinear_arith)
        requires
            w <= 4096,
            h <= 4096,
    ;
    if (w as u64) * (h as u64) > MAX_PIXELS {
        return Err(
            text_of(
                "That photo has too many pixels. The web page resizes it in the browser first, or export a smaller JPG.",
            ),
        );
    }
    match decode_image(input, MAX_EDGE, MAX_DECODE_ALLOC) {
        Ok(p) => {
            assert(p.width * p.height == w * h) by (nonlinear_arith)
                requires
                    (p.width == w && p.height == h) || (p.width == h && p.height == w),
            ;
            Ok(p)
        },
        Err(e) => Err(decode_failure(e)),
    }
}

/// On JPEG, a fully transparent pixel becomes white and an opaque one keeps
/// its colour.
pub proof fn lemma_on_white(c: u8, a: u8)
    ensures
        a == 0 ==> on_white(c, a) == 255,
        a == 255 ==> on_white(c, a) == c,
{
}

} // verus!
