//! The image jobs besides compression: convert, resize, remove a flat
//! background, extract a palette.

use vstd::prelude::*;

use crate::codec::{
    check_cpu_deadline, encode_with_quality, encoded_with_quality, fit_dims, load_oriented, load_spec,
    resize_exact, resize_fill, resize_fit, resized_exact, resized_fill, resized_fit,
    timeout_message, webp_size_ok,
};
use crate::cutout::{cut_alpha, cut_of, punch_flat_background};
use crate::format::{clamp_int, FitMode, OutFormat, MAX_EDGE, MAX_PIXELS, MAX_UPLOAD_BYTES};
use crate::palette::{is_palette, palette, sample_step, PaletteColor};
use crate::picture::{Picture, PictureModel};
use crate::sniff::{reject_unsupported, text_of, unsupported_reason};

verus! {

/// An encoded result with its size and the size of the upload.
#[derive(Debug, Clone)]
pub struct ImageOut {
    pub bytes: Vec<u8>,
    pub width: u32,
    pub height: u32,
    pub format: OutFormat,
    pub original_bytes: usize,
    pub original_width: u32,
    pub original_height: u32,
}

/// A palette and the upload's size.
#[derive(Debug, Clone)]
pub struct Colors {
    pub colors: Vec<PaletteColor>,
    pub sampled: u64,
    pub width: u32,
    pub height: u32,
}

pub open spec fn empty_message() -> Seq<char> {
    "Empty file."@
}

pub open spec fn too_big_message() -> Seq<char> {
    "File is over 50 MB. Pick a smaller image."@
}

/// What decoding an upload for a job gives (without a deadline).
pub open spec fn decode_spec(input: Seq<u8>) -> Result<PictureModel, Seq<char>> {
    if input.len() == 0 {
        Err(empty_message())
    } else if input.len() > MAX_UPLOAD_BYTES {
        Err(too_big_message())
    } else if unsupported_reason(input) is Some {
        Err(unsupported_reason(input).unwrap())
    } else {
        load_spec(input)
    }
}

/// A picture as every job sees it after decoding.
pub open spec fn within_caps(p: PictureModel) -> bool {
    &&& p.wf()
    &&& 1 <= p.width <= MAX_EDGE
    &&& 1 <= p.height <= MAX_EDGE
    &&& p.width * p.height <= MAX_PIXELS
}

/// Decodes an upload for a job: refuses empty, oversized and unsupported
/// uploads, decodes with orientation, and checks the CPU deadline. Also
/// returns the decoded size.
pub fn decode_capped(input: &[u8], deadline: &Option<std::time::Instant>) -> (r: Result<
    (Picture, u32, u32),
    String,
>)
    ensures
        r matches Ok(t) ==> {
            &&& decode_spec(input@) == Ok::<PictureModel, Seq<char>>(t.0@)
            &&& t.1 == t.0.width && t.2 == t.0.height
            &&& within_caps(t.0@)
        },
        r matches Err(e) ==> (deadline is Some && e@ == timeout_message()) || decode_spec(input@)
            == Err::<PictureModel, Seq<char>>(e@),
        r is Err && decode_spec(input@) is Ok ==> deadline is Some,
{
    if input.len() == 0 {
        return Err(text_of("Empty file."));
    }
    if input.len() > MAX_UPLOAD_BYTES {
        return Err(text_of("File is over 50 MB. Pick a smaller image."));
    }
    reject_unsupported(input)?;
    let img = load_oriented(input)?;
    let ow = img.width;
    let oh = img.height;
    if ow == 0 || oh == 0 {
        return Err(text_of("That image has no pixels."));
    }
    check_cpu_deadline(deadline)?;
    Ok((img, ow, oh))
}

/// The `ImageOut` for an encoded picture.
pub open spec fn out_of(
    bytes: Seq<u8>,
    p: PictureModel,
    format: OutFormat,
    original_bytes: int,
    original_width: u32,
    original_height: u32,
    r: ImageOut,
) -> bool {
    &&& r.bytes@ == bytes
    &&& r.width == p.width
    &&& r.height == p.height
    &&& r.format == format
    &&& r.original_bytes == original_bytes
    &&& r.original_width == original_width
    &&& r.original_height == original_height
}

/// What a job returns for its result picture: the encoding (or its error).
pub open spec fn finished(
    p: PictureModel,
    format: OutFormat,
    quality: u8,
    input_len: int,
    ow: u32,
    oh: u32,
    r: Result<ImageOut, String>,
    timed: bool,
) -> bool {
    match r {
        Ok(o) => encoded_with_quality(p, format, quality) == Ok::<Seq<u8>, Seq<char>>(o.bytes@)
            && out_of(o.bytes@, p, format, input_len, ow, oh, o),
        Err(e) => (timed && e@ == timeout_message()) || encoded_with_quality(p, format, quality) == Err::<
            Seq<u8>,
            Seq<char>,
        >(e@),
    }
}

fn finish(
    img: &Picture,
    format: OutFormat,
    quality: u8,
    original_bytes: usize,
    original_width: u32,
    original_height: u32,
    deadline: &Option<std::time::Instant>,
) -> (r: Result<ImageOut, String>)
    requires
        img.wf(),
        format == OutFormat::Webp && quality < 98 ==> webp_size_ok(img@),
    ensures
        finished(
            img@,
            format,
            quality,
            original_bytes as int,
            original_width,
            original_height,
            r,
            deadline is Some,
        ),
{
    let bytes = encode_with_quality(img, format, quality, deadline)?;
    Ok(
        ImageOut {
            bytes,
            width: img.width,
            height: img.height,
            format,
            original_bytes,
            original_width,
            original_height,
        },
    )
}

/// What a job over a decoded picture returns: the decode error, or the
/// result picture `f(p)` finished in `format` at `quality`.
pub open spec fn job_result(
    input: Seq<u8>,
    result_of: spec_fn(PictureModel) -> PictureModel,
    format: OutFormat,
    quality: u8,
    r: Result<ImageOut, String>,
    timed: bool,
) -> bool {
    match decode_spec(input) {
        Err(e) => r matches Err(m) && (m@ == e || (timed && m@ == timeout_message())),
        Ok(p) => finished(
            result_of(p),
            format,
            quality,
            input.len() as int,
            p.width,
            p.height,
            r,
            timed,
        ),
    }
}

/// Re-encodes an upload in another format at a quality (WebP is lossless
/// from 98 up).
pub fn convert(input: &[u8], format: OutFormat, quality: u8) -> (r: Result<ImageOut, String>)
    ensures
        job_result(input@, |p: PictureModel| p, format, quality, r, false),
{
    convert_within(input, format, quality, &None)
}

/// `convert` that fails with the timeout message once the deadline passes.
pub fn convert_within(
    input: &[u8],
    format: OutFormat,
    quality: u8,
    deadline: &Option<std::time::Instant>,
) -> (r: Result<ImageOut, String>)
    ensures
        job_result(input@, |p: PictureModel| p, format, quality, r, deadline is Some),
{
    let (img, ow, oh) = decode_capped(input, deadline)?;
    finish(&img, format, quality, input.len(), ow, oh, deadline)
}

/// A requested side: a positive value, at most 4096; 0 when not given.
pub open spec fn side_of(v: Option<u32>) -> u32 {
    match v {
        Some(x) => if x == 0 {
            0
        } else if x > 4096 {
            4096
        } else {
            x
        },
        None => 0,
    }
}

pub open spec fn min_u32(a: int, b: int) -> u32 {
    (if a < b {
        a
    } else {
        b
    }) as u32
}

/// The other side when only one is given: scaled by the aspect ratio
/// (rounded down, at least 1).
pub open spec fn scaled_side(other_now: u32, given: u32, given_now: u32) -> int {
    let q = (other_now * given) / (if given_now >= 1 {
        given_now as int
    } else {
        1
    });
    if q >= 1 {
        q
    } else {
        1
    }
}

/// The resized picture for a request.
pub open spec fn resized_spec(p: PictureModel, width: Option<u32>, height: Option<u32>, mode: FitMode) -> PictureModel {
    let tw = side_of(width);
    let th = side_of(height);
    if tw == 0 && th == 0 {
        p
    } else if tw == 0 {
        resized_fit(p, min_u32(scaled_side(p.width, th, p.height), 4096), th)
    } else if th == 0 {
        resized_fit(p, tw, min_u32(scaled_side(p.height, tw, p.width), 4096))
    } else {
        match mode {
            FitMode::Fit => resized_fit(p, tw, th),
            FitMode::Fill => resized_fill(p, tw, th),
            FitMode::Stretch => {
                let e = resized_exact(p, tw, th);
                PictureModel { alpha: true, ..e }
            },
        }
    }
}

/// The size a resize gives: the picture's own without a target; with one
/// side given, a fit into that side and the other side scaled by the aspect
/// ratio; with both, exactly the target when filling or stretching
/// and within it, in the same way, when fitting. No side is over 4096.
pub open spec fn resize_size_ok(
    p: PictureModel,
    width: Option<u32>,
    height: Option<u32>,
    mode: FitMode,
    w: u32,
    h: u32,
) -> bool {
    let tw = side_of(width);
    let th = side_of(height);
    &&& 1 <= w <= 4096 && 1 <= h <= 4096
    &&& (tw == 0 && th == 0) ==> w == p.width && h == p.height
    &&& (tw == 0 && th != 0) ==> h <= th && fit_dims(
        p.width,
        p.height,
        min_u32(scaled_side(p.width, th, p.height), 4096),
        th,
        w,
        h,
    )
    &&& (tw != 0 && th == 0) ==> w <= tw && fit_dims(
        p.width,
        p.height,
        tw,
        min_u32(scaled_side(p.height, tw, p.width), 4096),
        w,
        h,
    )
    &&& (tw != 0 && th != 0) ==> match mode {
        FitMode::Fit => w <= tw && h <= th && fit_dims(p.width, p.height, tw, th, w, h),
        _ => w == tw && h == th,
    }
}

/// With both sides given, filling covers the target keeping the aspect
/// ratio and crops the centre (`resize_to_fill`), stretching resamples the
/// whole picture to exactly the target (`imageops::resize`, with alpha), and
/// fitting keeps the aspect ratio inside it (`resize`).
pub proof fn lemma_resize_modes(p: PictureModel, width: u32, height: u32)
    requires
        1 <= width <= 4096,
        1 <= height <= 4096,
    ensures
        resized_spec(p, Some(width), Some(height), FitMode::Fill) == resized_fill(p, width, height),
        resized_spec(p, Some(width), Some(height), FitMode::Stretch) == (PictureModel {
            alpha: true,
            ..resized_exact(p, width, height)
        }),
        resized_spec(p, Some(width), Some(height), FitMode::Fit) == resized_fit(p, width, height),
{
}

fn side(v: Option<u32>) -> (s: u32)
    ensures
        s == side_of(v),
{
    match v {
        Some(x) => if x == 0 {
            0
        } else if x > 4096 {
            4096
        } else {
            x
        },
        None => 0,
    }
}

fn resize_picture(img: Picture, width: Option<u32>, height: Option<u32>, mode: FitMode) -> (out: Picture)
    requires
        within_caps(img@),
    ensures
        out@ == resized_spec(img@, width, height, mode),
        out.wf(),
        webp_size_ok(out@),
        out.width <= 4096 && out.height <= 4096,
        resize_size_ok(img@, width, height, mode, out.width, out.height),
{
    let cw = img.width;
    let ch = img.height;
    let tw = side(width);
    let th = side(height);
    assert(tw as int * th as int * 4 <= 4096 * 4096 * 4) by (nonlinear_arith)
        requires
            tw <= 4096,
            th <= 4096,
    ;
    if tw == 0 && th == 0 {
        img
    } else if tw == 0 {
        assert(cw as int * th as int <= 4096 * 4096) by (nonlinear_arith)
            requires
                cw <= 4096,
                th <= 4096,
        ;
        let q = (cw as u64 * th as u64) / (ch as u64);
        let nw64 = if q >= 1 {
            q
        } else {
            1
        };
        let nw = if nw64 < 4096 {
            nw64 as u32
        } else {
            4096
        };
        assert(nw as int * th as int * 4 <= 4096 * 4096 * 4) by (nonlinear_arith)
            requires
                nw <= 4096,
                th <= 4096,
        ;
        resize_fit(&img, nw, th)
    } else if th == 0 {
        assert(ch as int * tw as int <= 4096 * 4096) by (nonlinear_arith)
            requires
                ch <= 4096,
                tw <= 4096,
        ;
        let q = (ch as u64 * tw as u64) / (cw as u64);
        let nh64 = if q >= 1 {
            q
        } else {
            1
        };
        let nh = if nh64 < 4096 {
            nh64 as u32
        } else {
            4096
        };
        assert(tw as int * nh as int * 4 <= 4096 * 4096 * 4) by (nonlinear_arith)
            requires
                tw <= 4096,
                nh <= 4096,
        ;
        resize_fit(&img, tw, nh)
    } else {
        match mode {
            FitMode::Fit => resize_fit(&img, tw, th),
            FitMode::Fill => resize_fill(&img, tw, th),
            FitMode::Stretch => {
                let e = resize_exact(&img, tw, th);
                Picture { width: e.width, height: e.height, rgba: e.rgba, alpha: true }
            },
        }
    }
}

/// Resizes an upload: one side keeps the aspect ratio; with both, the mode
/// decides (fit inside, fill and crop, or stretch). Sides are capped at 4096.
pub fn resize(
    input: &[u8],
    width: Option<u32>,
    height: Option<u32>,
    mode: FitMode,
    format: OutFormat,
    quality: u8,
) -> (r: Result<ImageOut, String>)
    ensures
        job_result(
            input@,
            |p: PictureModel| resized_spec(p, width, height, mode),
            format,
            quality,
            r,
            false,
        ),
        r matches Ok(o) ==> decode_spec(input@) matches Ok(p) && resize_size_ok(
            p,
            width,
            height,
            mode,
            o.width,
            o.height,
        ),
{
    resize_within(input, width, height, mode, format, quality, &None)
}

/// `resize` that fails with the timeout message once the deadline passes.
pub fn resize_within(
    input: &[u8],
    width: Option<u32>,
    height: Option<u32>,
    mode: FitMode,
    format: OutFormat,
    quality: u8,
    deadline: &Option<std::time::Instant>,
) -> (r: Result<ImageOut, String>)
    ensures
        job_result(
            input@,
            |p: PictureModel| resized_spec(p, width, height, mode),
            format,
            quality,
            r,
            deadline is Some,
        ),
        r matches Ok(o) ==> decode_spec(input@) matches Ok(p) && resize_size_ok(
            p,
            width,
            height,
            mode,
            o.width,
            o.height,
        ),
{
    let (img, ow, oh) = decode_capped(input, deadline)?;
    let resized = resize_picture(img, width, height, mode);
    finish(&resized, format, quality, input.len(), ow, oh, deadline)
}

/// The picture after its flat background is cut (always with alpha).
pub open spec fn cutout_spec(p: PictureModel, tolerance: u8) -> PictureModel {
    let n = p.width * p.height;
    PictureModel {
        width: p.width,
        height: p.height,
        rgba: Seq::new(
            p.rgba.len(),
            |i: int|
                if i % 4 == 3 {
                    cut_alpha(cut_of(p, tolerance), i / 4)
                } else {
                    p.rgba[i]
                },
        ),
        alpha: true,
    }
}

/// The output format of a cut: PNG instead of JPEG, which has no alpha.
pub open spec fn cut_format(format: OutFormat) -> OutFormat {
    match format {
        OutFormat::Jpeg => OutFormat::Png,
        other => other,
    }
}

/// Removes a flat background: a transparent PNG (or WebP; JPEG becomes PNG).
pub fn remove_background(input: &[u8], tolerance: u8, format: OutFormat) -> (r: Result<ImageOut, String>)
    ensures
        job_result(
            input@,
            |p: PictureModel| cutout_spec(p, tolerance),
            cut_format(format),
            100,
            r,
            false,
        ),
{
    remove_background_within(input, tolerance, format, &None)
}

/// `remove_background` that fails with the timeout message once the deadline passes.
pub fn remove_background_within(
    input: &[u8],
    tolerance: u8,
    format: OutFormat,
    deadline: &Option<std::time::Instant>,
) -> (r: Result<ImageOut, String>)
    ensures
        job_result(
            input@,
            |p: PictureModel| cutout_spec(p, tolerance),
            cut_format(format),
            100,
            r,
            deadline is Some,
        ),
{
    let (img, ow, oh) = decode_capped(input, deadline)?;
    let cut = punch_flat_background(&img, tolerance);
    let out = Picture { width: cut.width, height: cut.height, rgba: cut.rgba, alpha: true };
    proof {
        let n = img.width * img.height;
        assert forall|i: int| 0 <= i < out.rgba@.len() implies out.rgba@[i] == cutout_spec(
            img@,
            tolerance,
        ).rgba[i] by {
            let p = i / 4;
            let c = i % 4;
            assert(i == 4 * p + c && 0 <= c < 4 && 0 <= p < n) by (nonlinear_arith)
                requires
                    0 <= i < 4 * n,
                    p == i / 4,
                    c == i % 4,
            ;
            if c == 3 {
                assert(out.rgba@[4 * p + 3] == cut_alpha(cut_of(img@, tolerance), p));
            } else {
                assert(out.rgba@[4 * p + c] == img.rgba@[4 * p + c]);
            }
        }
        assert(out.rgba@ =~= cutout_spec(img@, tolerance).rgba);
    }
    let fmt = match format {
        OutFormat::Jpeg => OutFormat::Png,
        other => other,
    };
    finish(&out, fmt, 100, input.len(), ow, oh, deadline)
}

/// The palette size asked for, kept between 3 and 12.
pub open spec fn palette_size(count: usize) -> int {
    clamp_int(count as int, 3, 12)
}

/// Extracts up to `count` (kept in 3..=12) colours with their sampled counts.
pub fn extract_colors(input: &[u8], count: usize) -> (r: Result<Colors, String>)
    ensures
        match decode_spec(input@) {
            Err(e) => r matches Err(m) && m@ == e,
            Ok(p) => r matches Ok(c) && c.width == p.width && c.height == p.height && is_palette(
                p.rgba,
                p.width as int,
                p.height as int,
                palette_size(count),
                c.colors@,
                c.sampled as int,
            ),
        },
{
    extract_colors_within(input, count, &None)
}

/// `extract_colors` that fails with the timeout message once the deadline passes.
pub fn extract_colors_within(input: &[u8], count: usize, deadline: &Option<std::time::Instant>) -> (r:
    Result<Colors, String>)
    ensures
        match decode_spec(input@) {
            Err(e) => r matches Err(m) && (m@ == e || (deadline is Some && m@ == timeout_message())),
            Ok(p) => (r matches Err(m) && deadline is Some && m@ == timeout_message()) || (
            r matches Ok(c) && c.width == p.width && c.height == p.height && is_palette(
                p.rgba,
                p.width as int,
                p.height as int,
                palette_size(count),
                c.colors@,
                c.sampled as int,
            )),
        },
        deadline is None ==> (r is Ok <==> decode_spec(input@) is Ok),
{
    let (img, ow, oh) = decode_capped(input, deadline)?;
    let n: usize = if count < 3 {
        3
    } else if count > 12 {
        12
    } else {
        count
    };
    proof {
        let t = img.width * img.height;
        assert(sample_step(t) != 0) by {
            assert(t <= MAX_PIXELS);
            assert(t / 80000 <= 150) by (nonlinear_arith)
                requires
                    0 <= t <= 12_000_000,
            ;
        }
    }
    let (colors, sampled) = palette(&img, n);
    Ok(Colors { colors, sampled, width: ow, height: oh })
}

} // verus!
