//! Decoded pictures as plain RGBA8 data.

use vstd::prelude::*;

verus! {

/// A decoded picture: `rgba` holds `width * height` pixels, row by row, four
/// bytes each (red, green, blue, alpha). `alpha` tells whether the picture's
/// colour type carries an alpha channel (it decides how WebP stores it).
pub struct Picture {
    pub width: u32,
    pub height: u32,
    pub rgba: Vec<u8>,
    pub alpha: bool,
}

/// What a picture holds, as mathematical values.
pub struct PictureModel {
    pub width: u32,
    pub height: u32,
    pub rgba: Seq<u8>,
    pub alpha: bool,
}

impl View for Picture {
    type V = PictureModel;

    open spec fn view(&self) -> PictureModel {
        PictureModel { width: self.width, height: self.height, rgba: self.rgba@, alpha: self.alpha }
    }
}

impl PictureModel {
    pub open spec fn wf(self) -> bool {
        self.rgba.len() == self.width * self.height * 4
    }
}

impl Picture {
    pub open spec fn wf(&self) -> bool {
        self@.wf()
    }

    /// A picture from raw RGBA bytes, if their count matches the size.
    pub fn from_rgba(width: u32, height: u32, rgba: Vec<u8>, alpha: bool) -> (r: Option<Picture>)
        ensures
            r is Some <==> rgba@.len() == width * height * 4,
            r matches Some(p) ==> p.wf() && p@ == (PictureModel {
                width,
                height,
                rgba: rgba@,
                alpha,
            }),
    {
        assert(width * height <= 0xffff_fffe_0000_0001) by (nonlinear_arith)
            requires
                width <= 0xffff_ffffu32,
                height <= 0xffff_ffffu32,
        ;
        let need: u64 = (width as u64) * (height as u64);
        if need > 0x3fff_ffff_ffff_ffff {
            assert(width * height * 4 >= 0x1_0000_0000_0000_0000int) by (nonlinear_arith)
                requires
                    width * height > 0x3fff_ffff_ffff_ffffint,
            ;
            let l = rgba.len();
            assert(rgba@.len() == l);
            return None;
        }
        let need4 = need * 4;
        if (rgba.len() as u64) == need4 {
            Some(Picture { width, height, rgba, alpha })
        } else {
            None
        }
    }
}

/// Index of pixel `(x, y)` in a picture `w` pixels wide.
pub open spec fn pix_index(w: int, x: int, y: int) -> int {
    y * w + x
}

/// Colour of pixel `(x, y)`, without alpha.
pub open spec fn rgb_at(rgba: Seq<u8>, w: int, x: int, y: int) -> (u8, u8, u8) {
    let i = 4 * pix_index(w, x, y);
    (rgba[i], rgba[i + 1], rgba[i + 2])
}

/// Squared distance between two colours.
pub open spec fn dist2(a: (u8, u8, u8), b: (u8, u8, u8)) -> int {
    (a.0 - b.0) * (a.0 - b.0) + (a.1 - b.1) * (a.1 - b.1) + (a.2 - b.2) * (a.2 - b.2)
}

pub proof fn lemma_pix_index_bounds(w: int, h: int, x: int, y: int)
    requires
        0 <= x < w,
        0 <= y < h,
    ensures
        0 <= pix_index(w, x, y) < w * h,
        4 * pix_index(w, x, y) + 3 < 4 * (w * h),
{
    assert(0 <= y * w + x < w * h) by (nonlinear_arith)
        requires
            0 <= x < w,
            0 <= y < h,
    ;
}

pub proof fn lemma_pix_index_inj(w: int, x1: int, y1: int, x2: int, y2: int)
    requires
        0 <= x1 < w,
        0 <= x2 < w,
        0 <= y1,
        0 <= y2,
        pix_index(w, x1, y1) == pix_index(w, x2, y2),
    ensures
        x1 == x2 && y1 == y2,
{
    assert(x1 == x2 && y1 == y2) by (nonlinear_arith)
        requires
            0 <= x1 < w,
            0 <= x2 < w,
            0 <= y1,
            0 <= y2,
            y1 * w + x1 == y2 * w + x2,
    ;
}

/// Squared distance between two colours, as `u32`.
pub fn color_dist2(a: (u8, u8, u8), b: (u8, u8, u8)) -> (d: u32)
    ensures
        d == dist2(a, b),
        d <= 195075,
{
    let dr = a.0 as i32 - b.0 as i32;
    let dg = a.1 as i32 - b.1 as i32;
    let db = a.2 as i32 - b.2 as i32;
    assert(0 <= dr * dr <= 65025) by (nonlinear_arith)
        requires
            -255 <= dr <= 255,
    ;
    assert(0 <= dg * dg <= 65025) by (nonlinear_arith)
        requires
            -255 <= dg <= 255,
    ;
    assert(0 <= db * db <= 65025) by (nonlinear_arith)
        requires
            -255 <= db <= 255,
    ;
    (dr * dr + dg * dg + db * db) as u32
}

} // verus!
