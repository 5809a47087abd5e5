//! Output formats, resize modes, and the clamps applied to form values.

use vstd::prelude::*;

use crate::text::{chars_eq, fold_field, folded};

verus! {

/// Largest upload accepted by the image jobs.
pub const MAX_UPLOAD_BYTES: usize = 50 * 1024 * 1024;

/// Smallest byte budget a compress job may ask for.
pub const MIN_TARGET_BYTES: usize = 8 * 1024;

/// Largest byte budget a compress job may ask for.
pub const MAX_TARGET_BYTES: usize = 5 * 1024 * 1024;

/// Longest edge (and the width/height limit) accepted when decoding.
pub const MAX_EDGE: u32 = 4096;

/// Most pixels accepted when decoding.
pub const MAX_PIXELS: u64 = 12_000_000;

/// Allocation limit handed to the decoder.
pub const MAX_DECODE_ALLOC: u64 = 64 * 1024 * 1024;

#[derive(Clone, Copy, Debug, PartialEq, Eq, Structural)]
pub enum OutFormat {
    Jpeg,
    Webp,
    Png,
}

#[derive(Clone, Copy, Debug, PartialEq, Eq, Structural)]
pub enum FitMode {
    Fit,
    Fill,
    Stretch,
}

/// The format named by a folded field; anything else is JPEG.
pub open spec fn format_of(f: Seq<char>) -> OutFormat {
    if f == "webp"@ {
        OutFormat::Webp
    } else if f == "png"@ {
        OutFormat::Png
    } else {
        OutFormat::Jpeg
    }
}

/// Like `format_of`, but the fallback is WebP.
pub open spec fn format_of_prefer_webp(f: Seq<char>) -> OutFormat {
    if f == "jpeg"@ || f == "jpg"@ {
        OutFormat::Jpeg
    } else if f == "png"@ {
        OutFormat::Png
    } else {
        OutFormat::Webp
    }
}

/// Like `format_of`, but the fallback is PNG.
pub open spec fn format_of_prefer_png(f: Seq<char>) -> OutFormat {
    if f == "jpeg"@ || f == "jpg"@ {
        OutFormat::Jpeg
    } else if f == "webp"@ {
        OutFormat::Webp
    } else {
        OutFormat::Png
    }
}

pub open spec fn fit_mode_of(f: Seq<char>) -> FitMode {
    if f == "fill"@ || f == "cover"@ || f == "crop"@ {
        FitMode::Fill
    } else if f == "stretch"@ || f == "exact"@ {
        FitMode::Stretch
    } else {
        FitMode::Fit
    }
}

pub open spec fn mime_of(f: OutFormat) -> Seq<char> {
    match f {
        OutFormat::Jpeg => "image/jpeg"@,
        OutFormat::Webp => "image/webp"@,
        OutFormat::Png => "image/png"@,
    }
}

pub open spec fn ext_of(f: OutFormat) -> Seq<char> {
    match f {
        OutFormat::Jpeg => "jpg"@,
        OutFormat::Webp => "webp"@,
        OutFormat::Png => "png"@,
    }
}

pub open spec fn is_lossy(f: OutFormat) -> bool {
    f == OutFormat::Jpeg || f == OutFormat::Webp
}

pub open spec fn clamp_int(v: int, lo: int, hi: int) -> int {
    if v < lo {
        lo
    } else if v > hi {
        hi
    } else {
        v
    }
}

impl OutFormat {
    /// Reads a `format` field: `webp` and `png` (any case, trimmed), else JPEG.
    pub fn parse(raw: &str) -> (r: Self)
        ensures
            r == format_of(folded(raw@)),
    {
        let f = fold_field(raw);
        if chars_eq(&f, "webp") {
            OutFormat::Webp
        } else if chars_eq(&f, "png") {
            OutFormat::Png
        } else {
            OutFormat::Jpeg
        }
    }

    /// Reads a `format` field for conversion: `jpeg`/`jpg`, `png`, else WebP.
    pub fn parse_prefer_webp(raw: &str) -> (r: Self)
        ensures
            r == format_of_prefer_webp(folded(raw@)),
    {
        let f = fold_field(raw);
        if chars_eq(&f, "jpeg") || chars_eq(&f, "jpg") {
            OutFormat::Jpeg
        } else if chars_eq(&f, "png") {
            OutFormat::Png
        } else {
            OutFormat::Webp
        }
    }

    /// Reads a `format` field for background removal: `jpeg`/`jpg`, `webp`, else PNG.
    pub fn parse_prefer_png(raw: &str) -> (r: Self)
        ensures
            r == format_of_prefer_png(folded(raw@)),
    {
        let f = fold_field(raw);
        if chars_eq(&f, "jpeg") || chars_eq(&f, "jpg") {
            OutFormat::Jpeg
        } else if chars_eq(&f, "webp") {
            OutFormat::Webp
        } else {
            OutFormat::Png
        }
    }

    pub fn mime(self) -> (r: &'static str)
        ensures
            r@ == mime_of(self),
    {
        match self {
            OutFormat::Jpeg => "image/jpeg",
            OutFormat::Webp => "image/webp",
            OutFormat::Png => "image/png",
        }
    }

    pub fn ext(self) -> (r: &'static str)
        ensures
            r@ == ext_of(self),
    {
        match self {
            OutFormat::Jpeg => "jpg",
            OutFormat::Webp => "webp",
            OutFormat::Png => "png",
        }
    }

    /// JPEG and WebP trade quality for size; PNG does not.
    pub fn lossy(self) -> (r: bool)
        ensures
            r == is_lossy(self),
    {
        match self {
            OutFormat::Jpeg => true,
            OutFormat::Webp => true,
            OutFormat::Png => false,
        }
    }
}

impl FitMode {
    /// Reads a `mode` field: `fill`/`cover`/`crop`, `stretch`/`exact`, else fit.
    pub fn parse(raw: &str) -> (r: Self)
        ensures
            r == fit_mode_of(folded(raw@)),
    {
        let f = fold_field(raw);
        if chars_eq(&f, "fill") || chars_eq(&f, "cover") || chars_eq(&f, "crop") {
            FitMode::Fill
        } else if chars_eq(&f, "stretch") || chars_eq(&f, "exact") {
            FitMode::Stretch
        } else {
            FitMode::Fit
        }
    }
}

/// A kilobyte budget as bytes, kept between `MIN_TARGET_BYTES` and `MAX_TARGET_BYTES`.
pub fn clamp_target(kb: u32) -> (r: usize)
    ensures
        r == clamp_int(kb * 1024, MIN_TARGET_BYTES as int, MAX_TARGET_BYTES as int),
        MIN_TARGET_BYTES <= r <= MAX_TARGET_BYTES,
{
    let bytes: u64 = (kb as u64) * 1024;
    if bytes < MIN_TARGET_BYTES as u64 {
        MIN_TARGET_BYTES
    } else if bytes > MAX_TARGET_BYTES as u64 {
        MAX_TARGET_BYTES
    } else {
        bytes as usize
    }
}

/// A quality field kept between 20 and 100.
pub fn clamp_quality(q: u32) -> (r: u8)
    ensures
        r == clamp_int(q as int, 20, 100),
{
    if q < 20 {
        20
    } else if q > 100 {
        100
    } else {
        q as u8
    }
}

/// A byte budget kept between `MIN_TARGET_BYTES` and `MAX_TARGET_BYTES`.
pub fn clamp_target_bytes(target: usize) -> (r: usize)
    ensures
        r == clamp_int(target as int, MIN_TARGET_BYTES as int, MAX_TARGET_BYTES as int),
{
    if target < MIN_TARGET_BYTES {
        MIN_TARGET_BYTES
    } else if target > MAX_TARGET_BYTES {
        MAX_TARGET_BYTES
    } else {
        target
    }
}

/// Reading a format's own extension back gives the format, whichever
/// default the reading falls back to.
pub proof fn lemma_parse_ext(f: OutFormat)
    ensures
        format_of(folded(ext_of(f))) == f,
        format_of_prefer_webp(folded(ext_of(f))) == f,
        format_of_prefer_png(folded(ext_of(f))) == f,
{
    reveal_strlit("jpg");
    reveal_strlit("webp");
    reveal_strlit("png");
    reveal_strlit("jpeg");
    let e = ext_of(f);
    assert(!crate::text::is_space(e[0]));
    assert(crate::text::trim_start(e) == e);
    assert(!crate::text::is_space(e.last()));
    assert(crate::text::trim_end(e) == e);
    assert(crate::text::lower_seq(e) =~= e);
    assert(folded(e) == e);
}

/// A clamped budget is always within the allowed budgets, and a clamped
/// quality within 20..=100.
pub proof fn lemma_clamps(kb: u32, q: u32)
    ensures
        MIN_TARGET_BYTES <= clamp_int(kb * 1024, MIN_TARGET_BYTES as int, MAX_TARGET_BYTES as int)
            <= MAX_TARGET_BYTES,
        20 <= clamp_int(q as int, 20, 100) <= 100,
{
}

} // verus!
