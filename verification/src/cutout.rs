//! Flat-background removal: pixels that connect to the border through
//! colours close to the border's median colour become transparent.

use vstd::prelude::*;

use crate::picture::{
    PictureModel, color_dist2, dist2, lemma_pix_index_bounds, lemma_pix_index_inj, pix_index, rgb_at, Picture,
};

verus! {

/// How many values of `s` are below `v`.
pub open spec fn count_below(s: Seq<u8>, v: int) -> nat
    decreases s.len(),
{
    if s.len() == 0 {
        0
    } else {
        count_below(s.drop_last(), v) + if (s.last() as int) < v {
            1nat
        } else {
            0nat
        }
    }
}

/// `v` is what stands at position `k` once `s` is sorted ascending.
pub open spec fn is_kth_smallest(s: Seq<u8>, k: int, v: u8) -> bool {
    count_below(s, v as int) <= k < count_below(s, v + 1)
}

proof fn lemma_count_below_ends(s: Seq<u8>)
    ensures
        count_below(s, 0) == 0,
        count_below(s, 256) == s.len(),
    decreases s.len(),
{
    if s.len() > 0 {
        lemma_count_below_ends(s.drop_last());
    }
}

proof fn lemma_count_below_le_len(s: Seq<u8>, v: int)
    ensures
        count_below(s, v) <= s.len(),
    decreases s.len(),
{
    if s.len() > 0 {
        lemma_count_below_le_len(s.drop_last(), v);
    }
}

proof fn lemma_count_below_push(s: Seq<u8>, e: u8, v: int)
    ensures
        count_below(s.push(e), v) == count_below(s, v) + if (e as int) < v {
            1nat
        } else {
            0nat
        },
{
    assert(s.push(e).drop_last() =~= s);
}

/// The value at position `k` of `s` sorted ascending (a median when `k` is
/// half the length).
pub fn kth_smallest(s: &Vec<u8>, k: usize) -> (v: u8)
    requires
        k < s@.len(),
    ensures
        is_kth_smallest(s@, k as int, v),
{
    let mut hist: Vec<u64> = Vec::new();
    let mut j: usize = 0;
    while j < 256
        invariant
            j <= 256,
            hist@.len() == j,
            forall|t: int| 0 <= t < j ==> hist@[t] == 0,
        decreases 256 - j,
    {
        hist.push(0);
        j = j + 1;
    }
    let n = s.len();
    let mut i: usize = 0;
    while i < n
        invariant
            i <= n,
            n == s@.len(),
            hist@.len() == 256,
            forall|t: int|
                0 <= t < 256 ==> #[trigger] hist@[t] == count_below(s@.take(i as int), t + 1)
                    - count_below(s@.take(i as int), t),
            forall|t: int| 0 <= t < 256 ==> #[trigger] hist@[t] <= i,
        decreases n - i,
    {
        let e = s[i];
        let ghost before = hist@;
        proof {
            assert(s@.take(i + 1) =~= s@.take(i as int).push(e));
            assert forall|t: int| 0 <= t < 257 implies count_below(s@.take(i + 1), t) == count_below(
                s@.take(i as int),
                t,
            ) + if (e as int) < t {
                1nat
            } else {
                0nat
            } by {
                lemma_count_below_push(s@.take(i as int), e, t);
            }
        }
        let cur = hist[e as usize];
        hist.set(e as usize, cur + 1);
        i = i + 1;
    }
    assert(s@.take(n as int) =~= s@);
    proof {
        lemma_count_below_ends(s@);
    }
    let mut cum: u64 = 0;
    let mut v: usize = 0;
    while v < 256
        invariant
            v <= 256,
            n == s@.len(),
            k < n,
            hist@.len() == 256,
            forall|t: int|
                0 <= t < 256 ==> #[trigger] hist@[t] == count_below(s@, t + 1) - count_below(s@, t),
            forall|t: int| 0 <= t < 256 ==> #[trigger] hist@[t] <= n,
            cum == count_below(s@, v as int),
            cum <= k,
        decreases 256 - v,
    {
        let c = hist[v];
        proof {
            lemma_count_below_le_len(s@, v + 1);
        }
        if cum + c > k as u64 {
            return v as u8;
        }
        cum = cum + c;
        v = v + 1;
    }
    proof {
        lemma_count_below_ends(s@);
    }
    0
}

/// Coordinates of the `i`-th border sample: first the top and bottom pixel
/// of every column, left to right, then the left and right pixel of every row.
pub open spec fn border_coord(w: int, h: int, i: int) -> (int, int) {
    if i < 2 * w {
        (i / 2, if i % 2 == 0 {
            0
        } else {
            h - 1
        })
    } else {
        let j = i - 2 * w;
        (if j % 2 == 0 {
            0
        } else {
            w - 1
        }, j / 2)
    }
}

/// Channel `c` of every border sample, in sampling order.
pub open spec fn border_channel(rgba: Seq<u8>, w: int, h: int, c: int) -> Seq<u8> {
    Seq::new(
        (2 * w + 2 * h) as nat,
        |i: int|
            {
                let q = border_coord(w, h, i);
                rgba[4 * pix_index(w, q.0, q.1) + c]
            },
    )
}

/// The backdrop colour: per channel, the median of the border samples
/// (the element at half the sample count once sorted).
pub open spec fn is_backdrop(rgba: Seq<u8>, w: int, h: int, bg: (u8, u8, u8)) -> bool {
    let k = (2 * w + 2 * h) / 2;
    &&& is_kth_smallest(border_channel(rgba, w, h, 0), k, bg.0)
    &&& is_kth_smallest(border_channel(rgba, w, h, 1), k, bg.1)
    &&& is_kth_smallest(border_channel(rgba, w, h, 2), k, bg.2)
}

fn pixel_byte(src: &Picture, x: usize, y: usize, c: usize) -> (b: u8)
    requires
        src.wf(),
        x < src.width,
        y < src.height,
        c < 4,
    ensures
        b == src.rgba@[4 * pix_index(src.width as int, x as int, y as int) + c],
{
    proof {
        lemma_pix_index_bounds(src.width as int, src.height as int, x as int, y as int);
    }
    let len = src.rgba.len();
    assert(4 * pix_index(src.width as int, x as int, y as int) + 3 < len);
    let i = 4 * (y * (src.width as usize) + x) + c;
    src.rgba[i]
}

/// The border samples of each channel, in sampling order.
fn border_samples(src: &Picture) -> (r: (Vec<u8>, Vec<u8>, Vec<u8>))
    requires
        src.wf(),
        src.width > 0,
        src.height > 0,
    ensures
        r.0@ == border_channel(src.rgba@, src.width as int, src.height as int, 0),
        r.1@ == border_channel(src.rgba@, src.width as int, src.height as int, 1),
        r.2@ == border_channel(src.rgba@, src.width as int, src.height as int, 2),
{
    let w = src.width as usize;
    let h = src.height as usize;
    let ghost wi = w as int;
    let ghost hi = h as int;
    let mut rs: Vec<u8> = Vec::new();
    let mut gs: Vec<u8> = Vec::new();
    let mut bs: Vec<u8> = Vec::new();
    let mut x: usize = 0;
    while x < w
        invariant
            src.wf(),
            w == src.width,
            h == src.height,
            h > 0,
            wi == w,
            hi == h,
            x <= w,
            rs@.len() == 2 * x,
            rs@ =~= border_channel(src.rgba@, wi, hi, 0).take(2 * x),
            gs@ =~= border_channel(src.rgba@, wi, hi, 1).take(2 * x),
            bs@ =~= border_channel(src.rgba@, wi, hi, 2).take(2 * x),
        decreases w - x,
    {
        let ghost old_r = rs@;
        let ghost old_g = gs@;
        let ghost old_b = bs@;
        rs.push(pixel_byte(src, x, 0, 0));
        gs.push(pixel_byte(src, x, 0, 1));
        bs.push(pixel_byte(src, x, 0, 2));
        rs.push(pixel_byte(src, x, h - 1, 0));
        gs.push(pixel_byte(src, x, h - 1, 1));
        bs.push(pixel_byte(src, x, h - 1, 2));
        proof {
            let i0 = 2 * x as int;
            assert(i0 / 2 == x as int && i0 % 2 == 0 && (i0 + 1) / 2 == x as int && (i0 + 1) % 2
                == 1) by (nonlinear_arith)
                requires
                    i0 == 2 * x,
            ;
            assert(border_coord(wi, hi, i0) == (x as int, 0int));
            assert(border_coord(wi, hi, i0 + 1) == (x as int, hi - 1));
        }
        x = x + 1;
    }
    let mut y: usize = 0;
    while y < h
        invariant
            src.wf(),
            w == src.width,
            h == src.height,
            w > 0,
            wi == w,
            hi == h,
            y <= h,
            rs@.len() == 2 * w + 2 * y,
            rs@ =~= border_channel(src.rgba@, wi, hi, 0).take(2 * w + 2 * y),
            gs@ =~= border_channel(src.rgba@, wi, hi, 1).take(2 * w + 2 * y),
            bs@ =~= border_channel(src.rgba@, wi, hi, 2).take(2 * w + 2 * y),
        decreases h - y,
    {
        rs.push(pixel_byte(src, 0, y, 0));
        gs.push(pixel_byte(src, 0, y, 1));
        bs.push(pixel_byte(src, 0, y, 2));
        rs.push(pixel_byte(src, w - 1, y, 0));
        gs.push(pixel_byte(src, w - 1, y, 1));
        bs.push(pixel_byte(src, w - 1, y, 2));
        proof {
            let i0 = 2 * w + 2 * y as int;
            let j0 = 2 * y as int;
            assert(j0 / 2 == y as int && j0 % 2 == 0 && (j0 + 1) / 2 == y as int && (j0 + 1) % 2
                == 1) by (nonlinear_arith)
                requires
                    j0 == 2 * y,
            ;
            assert(border_coord(wi, hi, i0) == (0int, y as int));
            assert(border_coord(wi, hi, i0 + 1) == (wi - 1, y as int));
        }
        y = y + 1;
    }
    (rs, gs, bs)
}

proof fn lemma_count_below_mono(s: Seq<u8>, a: int, b: int)
    requires
        a <= b,
    ensures
        count_below(s, a) <= count_below(s, b),
    decreases s.len(),
{
    if s.len() > 0 {
        lemma_count_below_mono(s.drop_last(), a, b);
    }
}

proof fn lemma_kth_unique(s: Seq<u8>, k: int, v1: u8, v2: u8)
    requires
        is_kth_smallest(s, k, v1),
        is_kth_smallest(s, k, v2),
    ensures
        v1 == v2,
{
    if v1 < v2 {
        lemma_count_below_mono(s, v1 + 1, v2 as int);
    } else if v2 < v1 {
        lemma_count_below_mono(s, v2 + 1, v1 as int);
    }
}

/// The backdrop colour of a picture (unique, see `lemma_backdrop_unique`).
pub open spec fn backdrop_of(rgba: Seq<u8>, w: int, h: int) -> (u8, u8, u8) {
    choose|bg: (u8, u8, u8)| is_backdrop(rgba, w, h, bg)
}

pub proof fn lemma_backdrop_unique(rgba: Seq<u8>, w: int, h: int, bg: (u8, u8, u8))
    requires
        is_backdrop(rgba, w, h, bg),
    ensures
        backdrop_of(rgba, w, h) == bg,
{
    let other = backdrop_of(rgba, w, h);
    assert(is_backdrop(rgba, w, h, other));
    let k = (2 * w + 2 * h) / 2;
    lemma_kth_unique(border_channel(rgba, w, h, 0), k, bg.0, other.0);
    lemma_kth_unique(border_channel(rgba, w, h, 1), k, bg.1, other.1);
    lemma_kth_unique(border_channel(rgba, w, h, 2), k, bg.2, other.2);
}

/// How many values of `s` are above `v`.
pub open spec fn count_above(s: Seq<u8>, v: int) -> nat
    decreases s.len(),
{
    if s.len() == 0 {
        0
    } else {
        count_above(s.drop_last(), v) + if (s.last() as int) > v {
            1nat
        } else {
            0nat
        }
    }
}

/// How many values of `s` equal `v`.
pub open spec fn count_at(s: Seq<u8>, v: int) -> nat
    decreases s.len(),
{
    if s.len() == 0 {
        0
    } else {
        count_at(s.drop_last(), v) + if (s.last() as int) == v {
            1nat
        } else {
            0nat
        }
    }
}

proof fn lemma_counts_split(s: Seq<u8>, v: int)
    ensures
        count_above(s, v) + count_below(s, v + 1) == s.len(),
        count_at(s, v) + count_below(s, v) == count_below(s, v + 1),
    decreases s.len(),
{
    if s.len() > 0 {
        lemma_counts_split(s.drop_last(), v);
    }
}

proof fn lemma_kth_exists_from(s: Seq<u8>, k: int, v: int) -> (r: u8)
    requires
        0 <= k < s.len(),
        0 <= v <= 255,
        count_below(s, v) <= k,
    ensures
        is_kth_smallest(s, k, r),
    decreases 255 - v,
{
    lemma_count_below_ends(s);
    if k < count_below(s, v + 1) {
        v as u8
    } else {
        lemma_kth_exists_from(s, k, v + 1)
    }
}

/// Every non-empty picture has a backdrop colour.
proof fn lemma_backdrop_exists(rgba: Seq<u8>, w: int, h: int)
    requires
        w >= 1,
        h >= 1,
    ensures
        is_backdrop(rgba, w, h, backdrop_of(rgba, w, h)),
{
    let k = (2 * w + 2 * h) / 2;
    let s0 = border_channel(rgba, w, h, 0);
    let s1 = border_channel(rgba, w, h, 1);
    let s2 = border_channel(rgba, w, h, 2);
    lemma_count_below_ends(s0);
    lemma_count_below_ends(s1);
    lemma_count_below_ends(s2);
    let a = lemma_kth_exists_from(s0, k, 0);
    let b = lemma_kth_exists_from(s1, k, 0);
    let c = lemma_kth_exists_from(s2, k, 0);
    assert(is_backdrop(rgba, w, h, (a, b, c)));
}

/// The median of a channel: at most half of the samples are below it and
/// at most half above it; and a value that more than half of the samples
/// hold is the median.
proof fn lemma_channel_median(s: Seq<u8>, v: u8)
    requires
        is_kth_smallest(s, (s.len() / 2) as int, v),
    ensures
        2 * count_below(s, v as int) <= s.len(),
        2 * count_above(s, v as int) <= s.len(),
        forall|m: int| 2 * count_at(s, m) > s.len() ==> v == m,
{
    lemma_counts_split(s, v as int);
    assert forall|m: int| 2 * count_at(s, m) > s.len() implies v == m by {
        lemma_counts_split(s, m);
        lemma_count_below_le_len(s, m + 1);
        if (v as int) < m {
            lemma_count_below_mono(s, v + 1, m);
        } else if (v as int) > m {
            lemma_count_below_mono(s, m + 1, v as int);
        }
    }
}

/// The backdrop of a non-empty picture is the median of the border samples
/// in each channel: at most half of them are below it and at most half
/// above it; so a value that more than half of the border samples hold in a
/// channel is the backdrop's value there.
pub proof fn lemma_backdrop_is_median(rgba: Seq<u8>, w: int, h: int)
    requires
        w >= 1,
        h >= 1,
    ensures
        forall|c: int|
            0 <= c < 3 ==> {
                let s = #[trigger] border_channel(rgba, w, h, c);
                let v = if c == 0 {
                    backdrop_of(rgba, w, h).0
                } else if c == 1 {
                    backdrop_of(rgba, w, h).1
                } else {
                    backdrop_of(rgba, w, h).2
                };
                &&& s.len() == 2 * w + 2 * h
                &&& 2 * count_below(s, v as int) <= s.len()
                &&& 2 * count_above(s, v as int) <= s.len()
                &&& forall|m: int| 2 * count_at(s, m) > s.len() ==> v == m
            },
{
    lemma_backdrop_exists(rgba, w, h);
    let bg = backdrop_of(rgba, w, h);
    lemma_channel_median(border_channel(rgba, w, h, 0), bg.0);
    lemma_channel_median(border_channel(rgba, w, h, 1), bg.1);
    lemma_channel_median(border_channel(rgba, w, h, 2), bg.2);
}

/// The median colour of the border of a non-empty picture.
pub fn backdrop_color(src: &Picture) -> (bg: (u8, u8, u8))
    requires
        src.wf(),
        src.width > 0,
        src.height > 0,
    ensures
        is_backdrop(src.rgba@, src.width as int, src.height as int, bg),
        bg == backdrop_of(src.rgba@, src.width as int, src.height as int),
        2 * count_below(border_channel(src.rgba@, src.width as int, src.height as int, 0), bg.0 as int)
            <= 2 * src.width + 2 * src.height,
        2 * count_above(border_channel(src.rgba@, src.width as int, src.height as int, 0), bg.0 as int)
            <= 2 * src.width + 2 * src.height,
        2 * count_below(border_channel(src.rgba@, src.width as int, src.height as int, 1), bg.1 as int)
            <= 2 * src.width + 2 * src.height,
        2 * count_above(border_channel(src.rgba@, src.width as int, src.height as int, 1), bg.1 as int)
            <= 2 * src.width + 2 * src.height,
        2 * count_below(border_channel(src.rgba@, src.width as int, src.height as int, 2), bg.2 as int)
            <= 2 * src.width + 2 * src.height,
        2 * count_above(border_channel(src.rgba@, src.width as int, src.height as int, 2), bg.2 as int)
            <= 2 * src.width + 2 * src.height,
{
    let (rs, gs, bs) = border_samples(src);
    let mid = rs.len() / 2;
    let bg = (kth_smallest(&rs, mid), kth_smallest(&gs, mid), kth_smallest(&bs, mid));
    proof {
        let (w, h) = (src.width as int, src.height as int);
        lemma_backdrop_unique(src.rgba@, w, h, bg);
        lemma_backdrop_is_median(src.rgba@, w, h);
        assert(border_channel(src.rgba@, w, h, 0).len() == 2 * w + 2 * h);
        assert(border_channel(src.rgba@, w, h, 1).len() == 2 * w + 2 * h);
        assert(border_channel(src.rgba@, w, h, 2).len() == 2 * w + 2 * h);
    }
    bg
}


/// The picture, backdrop colour and distance threshold of one cut.
pub struct Backdrop {
    pub w: int,
    pub h: int,
    pub rgba: Seq<u8>,
    pub bg: (u8, u8, u8),
    pub thresh: int,
}

/// 4-neighbourhood.
pub open spec fn adjacent(a: (int, int), b: (int, int)) -> bool {
    ||| b == (a.0 - 1, a.1)
    ||| b == (a.0 + 1, a.1)
    ||| b == (a.0, a.1 - 1)
    ||| b == (a.0, a.1 + 1)
}

impl Backdrop {
    pub open spec fn in_bounds(self, q: (int, int)) -> bool {
        0 <= q.0 < self.w && 0 <= q.1 < self.h
    }

    pub open spec fn on_border(self, q: (int, int)) -> bool {
        q.0 == 0 || q.1 == 0 || q.0 == self.w - 1 || q.1 == self.h - 1
    }

    /// An in-bounds pixel whose colour is within the threshold of the backdrop.
    pub open spec fn close(self, q: (int, int)) -> bool {
        self.in_bounds(q) && dist2(rgb_at(self.rgba, self.w, q.0, q.1), self.bg) <= self.thresh
    }

    /// A chain of close, 4-adjacent pixels that starts on the border.
    pub open spec fn is_path(self, p: Seq<(int, int)>) -> bool {
        &&& p.len() > 0
        &&& self.on_border(p[0])
        &&& forall|i: int| 0 <= i < p.len() ==> self.close(#[trigger] p[i])
        &&& forall|i: int| 0 <= i < p.len() - 1 ==> #[trigger] adjacent(p[i], p[i + 1])
    }

    /// The pixels that the backdrop reaches from the border.
    pub open spec fn in_region(self, q: (int, int)) -> bool {
        exists|p: Seq<(int, int)>| #[trigger] self.is_path(p) && p.last() == q
    }
}

pub open spec fn qpt(e: (usize, usize)) -> (int, int) {
    (e.0 as int, e.1 as int)
}

pub open spec fn seen_at(seen: Seq<bool>, w: int, q: (int, int)) -> bool {
    seen[pix_index(w, q.0, q.1)]
}

pub open spec fn count_true(s: Seq<bool>) -> nat
    decreases s.len(),
{
    if s.len() == 0 {
        0
    } else {
        count_true(s.drop_last()) + if s.last() {
            1nat
        } else {
            0nat
        }
    }
}

proof fn lemma_count_true_le(s: Seq<bool>)
    ensures
        count_true(s) <= s.len(),
    decreases s.len(),
{
    if s.len() > 0 {
        lemma_count_true_le(s.drop_last());
    }
}

proof fn lemma_count_true_update(s: Seq<bool>, i: int)
    requires
        0 <= i < s.len(),
        !s[i],
    ensures
        count_true(s.update(i, true)) == count_true(s) + 1,
    decreases s.len(),
{
    let t = s.update(i, true);
    if i == s.len() - 1 {
        assert(t.drop_last() =~= s.drop_last());
    } else {
        assert(t.drop_last() =~= s.drop_last().update(i, true));
        lemma_count_true_update(s.drop_last(), i);
    }
}

impl Backdrop {
    /// Every close neighbour of `q` has been seen.
    pub open spec fn expanded(self, seen: Seq<bool>, q: (int, int)) -> bool {
        forall|r: (int, int)| #[trigger] adjacent(q, r) && self.close(r) ==> seen_at(seen, self.w, r)
    }

    /// The state of the breadth-first fill: `queue[..head]` is expanded,
    /// every queued pixel is seen and in the region, every seen pixel is queued.
    pub open spec fn fill_inv(self, seen: Seq<bool>, queue: Seq<(usize, usize)>, head: int) -> bool {
        &&& seen.len() == self.w * self.h
        &&& 0 <= head <= queue.len()
        &&& queue.len() == count_true(seen)
        &&& forall|k: int|
            0 <= k < queue.len() ==> {
                &&& self.in_bounds(qpt(#[trigger] queue[k]))
                &&& seen_at(seen, self.w, qpt(queue[k]))
                &&& self.in_region(qpt(queue[k]))
            }
        &&& forall|q: (int, int)|
            self.in_bounds(q) && #[trigger] seen_at(seen, self.w, q) ==> exists|k: int|
                0 <= k < queue.len() && qpt(#[trigger] queue[k]) == q
        &&& forall|k: int| 0 <= k < head ==> self.expanded(seen, qpt(#[trigger] queue[k]))
    }

    /// Every close border pixel has been seen.
    pub open spec fn border_done(self, seen: Seq<bool>) -> bool {
        forall|q: (int, int)|
            self.on_border(q) && self.close(q) ==> #[trigger] seen_at(seen, self.w, q)
    }
}

proof fn lemma_extend(bd: Backdrop, q: (int, int), r: (int, int))
    requires
        bd.in_region(q),
        adjacent(q, r),
        bd.close(r),
    ensures
        bd.in_region(r),
{
    let p = choose|p: Seq<(int, int)>| #[trigger] bd.is_path(p) && p.last() == q;
    let p2 = p.push(r);
    assert forall|i: int| 0 <= i < p2.len() - 1 implies #[trigger] adjacent(p2[i], p2[i + 1]) by {
        if i < p.len() - 1 {
            assert(adjacent(p[i], p[i + 1]));
        }
    }
    assert forall|i: int| 0 <= i < p2.len() implies bd.close(#[trigger] p2[i]) by {
        if i < p.len() {
            assert(bd.close(p[i]));
        }
    }
    assert(bd.is_path(p2));
}

proof fn lemma_border_start(bd: Backdrop, q: (int, int))
    requires
        bd.on_border(q),
        bd.close(q),
    ensures
        bd.in_region(q),
{
    let p = seq![q];
    assert(bd.is_path(p));
}

/// Marks `(x, y)` seen and queues it, if it is close and not yet seen.
fn try_push(
    src: &Picture,
    bg: (u8, u8, u8),
    thresh: u32,
    x: usize,
    y: usize,
    seen: &mut Vec<bool>,
    queue: &mut Vec<(usize, usize)>,
    Ghost(bd): Ghost<Backdrop>,
    Ghost(head): Ghost<int>,
)
    requires
        src.wf(),
        bd == (Backdrop {
            w: src.width as int,
            h: src.height as int,
            rgba: src.rgba@,
            bg,
            thresh: thresh as int,
        }),
        x < src.width,
        y < src.height,
        bd.fill_inv(old(seen)@, old(queue)@, head),
        bd.close((x as int, y as int)) ==> bd.in_region((x as int, y as int)),
    ensures
        bd.fill_inv(final(seen)@, final(queue)@, head),
        bd.close((x as int, y as int)) ==> seen_at(final(seen)@, bd.w, (x as int, y as int)),
        forall|q: (int, int)|
            #![trigger seen_at(old(seen)@, bd.w, q)]
            #![trigger seen_at(final(seen)@, bd.w, q)]
            bd.in_bounds(q) && seen_at(old(seen)@, bd.w, q) ==> seen_at(final(seen)@, bd.w, q),
        final(queue)@.len() >= old(queue)@.len(),
        forall|k: int| 0 <= k < old(queue)@.len() ==> final(queue)@[k] == old(queue)@[k],
{
    let w = src.width as usize;
    proof {
        lemma_pix_index_bounds(bd.w, bd.h, x as int, y as int);
    }
    let len = src.rgba.len();
    assert(4 * pix_index(bd.w, x as int, y as int) + 3 < len);
    let i = y * w + x;
    if seen[i] {
        return;
    }
    let p = (pixel_byte(src, x, y, 0), pixel_byte(src, x, y, 1), pixel_byte(src, x, y, 2));
    let d = color_dist2(p, bg);
    if d > thresh {
        return;
    }
    let ghost s0 = seen@;
    let ghost q0 = queue@;
    let ghost pt = (x as int, y as int);
    seen.set(i, true);
    queue.push((x, y));
    proof {
        lemma_count_true_update(s0, i as int);
        let s1 = seen@;
        let q1 = queue@;
        assert forall|q: (int, int)| bd.in_bounds(q) && #[trigger] seen_at(s0, bd.w, q) implies seen_at(
            s1,
            bd.w,
            q,
        ) by {
            lemma_pix_index_bounds(bd.w, bd.h, q.0, q.1);
        }
        assert forall|k: int| 0 <= k < q1.len() implies {
            &&& bd.in_bounds(qpt(#[trigger] q1[k]))
            &&& seen_at(s1, bd.w, qpt(q1[k]))
            &&& bd.in_region(qpt(q1[k]))
        } by {
            if k < q0.len() {
                assert(q1[k] == q0[k]);
                assert(seen_at(s0, bd.w, qpt(q0[k])));
            }
        }
        assert forall|q: (int, int)| bd.in_bounds(q) && #[trigger] seen_at(s1, bd.w, q) implies exists|
            k: int,
        | 0 <= k < q1.len() && qpt(#[trigger] q1[k]) == q by {
            if q == pt {
                assert(qpt(q1[q0.len() as int]) == q);
            } else {
                lemma_pix_index_bounds(bd.w, bd.h, q.0, q.1);
                if pix_index(bd.w, q.0, q.1) == i {
                    lemma_pix_index_inj(bd.w, q.0, q.1, x as int, y as int);
                }
                assert(seen_at(s0, bd.w, q));
                let k = choose|k: int| 0 <= k < q0.len() && qpt(#[trigger] q0[k]) == q;
                assert(q1[k] == q0[k]);
            }
        }
        assert forall|k: int| 0 <= k < head implies bd.expanded(s1, qpt(#[trigger] q1[k])) by {
            assert(q1[k] == q0[k]);
            assert(bd.expanded(s0, qpt(q0[k])));
            assert forall|r: (int, int)| #[trigger] adjacent(qpt(q1[k]), r) && bd.close(r) implies seen_at(
                s1,
                bd.w,
                r,
            ) by {
                assert(seen_at(s0, bd.w, r));
            }
        }
    }
}

/// The seen map of a breadth-first fill from the close border pixels:
/// exactly the region that the backdrop reaches.
fn flood(src: &Picture, bg: (u8, u8, u8), thresh: u32, Ghost(bd): Ghost<Backdrop>) -> (seen: Vec<
    bool,
>)
    requires
        src.wf(),
        src.width > 0,
        src.height > 0,
        bd == (Backdrop {
            w: src.width as int,
            h: src.height as int,
            rgba: src.rgba@,
            bg,
            thresh: thresh as int,
        }),
    ensures
        seen@.len() == bd.w * bd.h,
        forall|q: (int, int)|
            bd.in_bounds(q) ==> (#[trigger] seen_at(seen@, bd.w, q) <==> bd.in_region(q)),
{
    let w = src.width as usize;
    let h = src.height as usize;
    let len = src.rgba.len();
    assert(w * h <= len) by (nonlinear_arith)
        requires
            len == w * h * 4,
    ;
    let n = w * h;
    let mut seen: Vec<bool> = Vec::new();
    let mut j: usize = 0;
    while j < n
        invariant
            j <= n,
            seen@.len() == j,
            count_true(seen@) == 0,
            forall|t: int| 0 <= t < j ==> !seen@[t],
        decreases n - j,
    {
        let ghost before = seen@;
        seen.push(false);
        assert(seen@.drop_last() =~= before);
        j = j + 1;
    }
    let mut queue: Vec<(usize, usize)> = Vec::new();
    assert(bd.fill_inv(seen@, queue@, 0)) by {
        assert forall|q: (int, int)| bd.in_bounds(q) && #[trigger] seen_at(seen@, bd.w, q) implies exists|
            k: int,
        | 0 <= k < queue@.len() && qpt(#[trigger] queue@[k]) == q by {
            lemma_pix_index_bounds(bd.w, bd.h, q.0, q.1);
        }
    }
    let mut x: usize = 0;
    while x < w
        invariant
            src.wf(),
            w == src.width,
            h == src.height,
            h > 0,
            x <= w,
            bd == (Backdrop {
                w: src.width as int,
                h: src.height as int,
                rgba: src.rgba@,
                bg,
                thresh: thresh as int,
            }),
            bd.fill_inv(seen@, queue@, 0),
            forall|q: (int, int)|
                0 <= q.0 < x && (q.1 == 0 || q.1 == h - 1) && bd.close(q) ==> #[trigger] seen_at(
                    seen@,
                    bd.w,
                    q,
                ),
        decreases w - x,
    {
        proof {
            if bd.close((x as int, 0int)) {
                lemma_border_start(bd, (x as int, 0int));
            }
            if bd.close((x as int, h - 1)) {
                lemma_border_start(bd, (x as int, h - 1));
            }
        }
        try_push(src, bg, thresh, x, 0, &mut seen, &mut queue, Ghost(bd), Ghost(0));
        try_push(src, bg, thresh, x, h - 1, &mut seen, &mut queue, Ghost(bd), Ghost(0));
        x = x + 1;
    }
    let mut y: usize = 0;
    while y < h
        invariant
            src.wf(),
            w == src.width,
            h == src.height,
            w > 0,
            y <= h,
            bd == (Backdrop {
                w: src.width as int,
                h: src.height as int,
                rgba: src.rgba@,
                bg,
                thresh: thresh as int,
            }),
            bd.fill_inv(seen@, queue@, 0),
            forall|q: (int, int)|
                (q.1 == 0 || q.1 == h - 1) && bd.close(q) ==> #[trigger] seen_at(seen@, bd.w, q),
            forall|q: (int, int)|
                0 <= q.1 < y && (q.0 == 0 || q.0 == w - 1) && bd.close(q) ==> #[trigger] seen_at(
                    seen@,
                    bd.w,
                    q,
                ),
        decreases h - y,
    {
        proof {
            if bd.close((0int, y as int)) {
                lemma_border_start(bd, (0int, y as int));
            }
            if bd.close((w - 1, y as int)) {
                lemma_border_start(bd, (w - 1, y as int));
            }
        }
        try_push(src, bg, thresh, 0, y, &mut seen, &mut queue, Ghost(bd), Ghost(0));
        try_push(src, bg, thresh, w - 1, y, &mut seen, &mut queue, Ghost(bd), Ghost(0));
        y = y + 1;
    }
    assert(bd.border_done(seen@));
    let mut head: usize = 0;
    while head < queue.len()
        invariant
            src.wf(),
            w == src.width,
            h == src.height,
            n == w * h,
            bd == (Backdrop {
                w: src.width as int,
                h: src.height as int,
                rgba: src.rgba@,
                bg,
                thresh: thresh as int,
            }),
            bd.fill_inv(seen@, queue@, head as int),
            bd.border_done(seen@),
        decreases 2 * n - queue@.len() - head,
    {
        proof {
            lemma_count_true_le(seen@);
        }
        let (x, y) = queue[head];
        let ghost pt = (x as int, y as int);
        assert(bd.in_region(pt) && bd.in_bounds(pt));
        proof {
            if x > 0 && bd.close((x - 1, y as int)) {
                lemma_extend(bd, pt, (x - 1, y as int));
            }
        }
        if x > 0 {
            try_push(src, bg, thresh, x - 1, y, &mut seen, &mut queue, Ghost(bd), Ghost(head as int));
        }
        proof {
            if x + 1 < w && bd.close((x + 1, y as int)) {
                lemma_extend(bd, pt, (x + 1, y as int));
            }
        }
        if x + 1 < w {
            try_push(src, bg, thresh, x + 1, y, &mut seen, &mut queue, Ghost(bd), Ghost(head as int));
        }
        proof {
            if y > 0 && bd.close((x as int, y - 1)) {
                lemma_extend(bd, pt, (x as int, y - 1));
            }
        }
        if y > 0 {
            try_push(src, bg, thresh, x, y - 1, &mut seen, &mut queue, Ghost(bd), Ghost(head as int));
        }
        proof {
            if y + 1 < h && bd.close((x as int, y + 1)) {
                lemma_extend(bd, pt, (x as int, y + 1));
            }
        }
        if y + 1 < h {
            try_push(src, bg, thresh, x, y + 1, &mut seen, &mut queue, Ghost(bd), Ghost(head as int));
        }
        proof {
            assert(qpt(queue@[head as int]) == pt);
            assert forall|r: (int, int)| #[trigger] adjacent(pt, r) && bd.close(r) implies seen_at(
                seen@,
                bd.w,
                r,
            ) by {}
            assert(bd.expanded(seen@, pt));
        }
        head = head + 1;
        proof {
            lemma_count_true_le(seen@);
        }
    }
    proof {
        assert forall|q: (int, int)| bd.in_bounds(q) implies (#[trigger] seen_at(seen@, bd.w, q)
            <==> bd.in_region(q)) by {
            if seen_at(seen@, bd.w, q) {
                let k = choose|k: int| 0 <= k < queue@.len() && qpt(#[trigger] queue@[k]) == q;
                assert(bd.in_region(qpt(queue@[k])));
            }
            if bd.in_region(q) {
                let p = choose|p: Seq<(int, int)>| #[trigger] bd.is_path(p) && p.last() == q;
                lemma_path_seen(bd, seen@, queue@, p, p.len() - 1);
            }
        }
    }
    seen
}

proof fn lemma_path_seen(
    bd: Backdrop,
    seen: Seq<bool>,
    queue: Seq<(usize, usize)>,
    p: Seq<(int, int)>,
    j: int,
)
    requires
        bd.fill_inv(seen, queue, queue.len() as int),
        bd.border_done(seen),
        bd.is_path(p),
        0 <= j < p.len(),
    ensures
        seen_at(seen, bd.w, p[j]),
    decreases j,
{
    assert(bd.close(p[j]));
    if j == 0 {
    } else {
        lemma_path_seen(bd, seen, queue, p, j - 1);
        assert(bd.close(p[j - 1]));
        let k = choose|k: int| 0 <= k < queue.len() && qpt(#[trigger] queue[k]) == p[j - 1];
        assert(bd.expanded(seen, qpt(queue[k])));
        let i = j - 1;
        assert(adjacent(p[i], p[i + 1]));
        assert(p[i + 1] == p[j]);
    }
}


/// The distance threshold for a tolerance: `t * t * 3` with `t` kept in 8..=90.
pub open spec fn thresh_of(tolerance: u8) -> int {
    let t: int = if tolerance < 8 {
        8
    } else if tolerance > 90 {
        90
    } else {
        tolerance as int
    };
    t * t * 3
}

/// New alpha of a region pixel at distance `d` from the backdrop: fully
/// transparent up to half the threshold, then a linear ramp, never above `a`.
pub open spec fn ramp_alpha(d: int, thresh: int, a: u8) -> u8 {
    let hard = thresh / 2;
    let span = if thresh - hard >= 1 {
        thresh - hard
    } else {
        1
    };
    let r: int = if d <= hard {
        0
    } else if d >= thresh {
        a as int
    } else {
        (d - hard) * 255 / span
    };
    if r < a {
        r as u8
    } else {
        a
    }
}

/// Alpha of pixel `p` after the cut.
pub open spec fn cut_alpha(bd: Backdrop, p: int) -> u8 {
    let q = (p % bd.w, p / bd.w);
    let a = bd.rgba[4 * p + 3];
    if bd.in_region(q) {
        ramp_alpha(dist2(rgb_at(bd.rgba, bd.w, q.0, q.1), bd.bg), bd.thresh, a)
    } else {
        a
    }
}

/// The cut of a non-empty picture with the given backdrop and threshold.
pub open spec fn cut_of(src: PictureModel, tolerance: u8) -> Backdrop {
    Backdrop {
        w: src.width as int,
        h: src.height as int,
        rgba: src.rgba,
        bg: backdrop_of(src.rgba, src.width as int, src.height as int),
        thresh: thresh_of(tolerance),
    }
}

proof fn lemma_pixel_coords(w: int, h: int, p: int)
    requires
        0 < w,
        0 <= p < w * h,
    ensures
        0 <= p % w < w,
        0 <= p / w < h,
        pix_index(w, p % w, p / w) == p,
{
    vstd::arithmetic::div_mod::lemma_fundamental_div_mod(p, w);
    assert((p / w) * w == w * (p / w)) by (nonlinear_arith);
    assert(0 <= p % w < w) by (nonlinear_arith)
        requires
            0 < w,
            0 <= p,
    ;
    assert(0 <= p / w < h) by (nonlinear_arith)
        requires
            0 < w,
            0 <= p < w * h,
            p == w * (p / w) + (p % w),
            0 <= p % w < w,
    ;
}

/// Flood-fills from the border through pixels close to the border's median
/// colour and makes them transparent (fully up to half the threshold, then a
/// linear ramp; alpha never rises). Colours are kept. For product shots and
/// screenshots on a flat backdrop; not a portrait matte.
pub fn punch_flat_background(src: &Picture, tolerance: u8) -> (out: Picture)
    requires
        src.wf(),
    ensures
        out.wf(),
        out.width == src.width,
        out.height == src.height,
        out.alpha == src.alpha,
        src.width == 0 || src.height == 0 ==> out@ == src@,
        src.width > 0 && src.height > 0 ==> {
            let bd = cut_of(src@, tolerance);
            &&& forall|p: int, c: int|
                0 <= p < src.width * src.height && 0 <= c < 3 ==> #[trigger] out.rgba@[4 * p + c]
                    == src.rgba@[4 * p + c]
            &&& forall|p: int|
                0 <= p < src.width * src.height ==> #[trigger] out.rgba@[4 * p + 3] == cut_alpha(
                    bd,
                    p,
                )
        },
{
    let w = src.width as usize;
    let h = src.height as usize;
    if w == 0 || h == 0 {
        let rgba = src.rgba.clone();
        assert(rgba@ =~= src.rgba@);
        return Picture { width: src.width, height: src.height, rgba, alpha: src.alpha };
    }
    let tol: u32 = if tolerance < 8 {
        8
    } else if tolerance > 90 {
        90
    } else {
        tolerance as u32
    };
    assert(8 <= tol * tol * 3 <= 24300) by (nonlinear_arith)
        requires
            8 <= tol <= 90,
    ;
    let thresh = tol * tol * 3;
    let bg = backdrop_color(src);
    let ghost bd = Backdrop {
        w: src.width as int,
        h: src.height as int,
        rgba: src.rgba@,
        bg,
        thresh: thresh as int,
    };
    proof {
        lemma_backdrop_unique(src.rgba@, w as int, h as int, bg);
        assert(bd == cut_of(src@, tolerance));
    }
    let seen = flood(src, bg, thresh, Ghost(bd));
    let mut out = src.rgba.clone();
    assert(out@ =~= src.rgba@);
    let len = src.rgba.len();
    assert(w * h <= len) by (nonlinear_arith)
        requires
            len == w * h * 4,
    ;
    let n = w * h;
    let hard = thresh / 2;
    let span = if thresh - hard >= 1 {
        thresh - hard
    } else {
        1
    };
    let mut p: usize = 0;
    while p < n
        invariant
            src.wf(),
            w == src.width,
            h == src.height,
            w > 0,
            n == w * h,
            len == src.rgba@.len(),
            len == 4 * n,
            thresh <= 24300,
            hard == thresh / 2,
            span == (if thresh - hard >= 1 {
                thresh - hard
            } else {
                1
            }),
            bd == cut_of(src@, tolerance),
            bd.bg == bg,
            bd.thresh == thresh,
            seen@.len() == n,
            forall|q: (int, int)|
                bd.in_bounds(q) ==> (#[trigger] seen_at(seen@, bd.w, q) <==> bd.in_region(q)),
            p <= n,
            out@.len() == len,
            forall|t: int, c: int|
                0 <= t < n && 0 <= c < 3 ==> #[trigger] out@[4 * t + c] == src.rgba@[4 * t + c],
            forall|t: int| 0 <= t < p ==> #[trigger] out@[4 * t + 3] == cut_alpha(bd, t),
            forall|t: int| p <= t < n ==> #[trigger] out@[4 * t + 3] == src.rgba@[4 * t + 3],
        decreases n - p,
    {
        proof {
            lemma_pixel_coords(w as int, h as int, p as int);
        }
        let ghost q = ((p as int) % (w as int), (p as int) / (w as int));
        assert(seen_at(seen@, bd.w, q) == seen@[p as int]);
        let b = 4 * p;
        if seen[p] {
            let px = (out[b], out[b + 1], out[b + 2]);
            assert(out@[4 * (p as int) + 0] == src.rgba@[4 * (p as int) + 0]);
            assert(out@[4 * (p as int) + 1] == src.rgba@[4 * (p as int) + 1]);
            assert(out@[4 * (p as int) + 2] == src.rgba@[4 * (p as int) + 2]);
            let d = color_dist2(px, bg);
            let a0 = out[b + 3];
            let a: u8 = if d <= hard {
                0
            } else if d >= thresh {
                a0
            } else {
                assert(((d - hard) * 255) as int / (span as int) <= 255) by (nonlinear_arith)
                    requires
                        hard < d < thresh,
                        span == thresh - hard,
                        span >= 1,
                ;
                ((d - hard) * 255 / span) as u8
            };
            let na = if a < a0 {
                a
            } else {
                a0
            };
            out.set(b + 3, na);
            assert(out@[4 * (p as int) + 3] == cut_alpha(bd, p as int));
        } else {
            assert(out@[4 * (p as int) + 3] == cut_alpha(bd, p as int));
        }
        p = p + 1;
    }
    Picture { width: src.width, height: src.height, rgba: out, alpha: src.alpha }
}

/// A cut never makes a pixel more opaque; a pixel the flood does not
/// reach keeps its alpha; a reached pixel of exactly the backdrop's colour
/// becomes fully transparent.
pub proof fn lemma_cut_alpha(bd: Backdrop, p: int)
    requires
        bd.thresh >= 0,
    ensures
        cut_alpha(bd, p) <= bd.rgba[4 * p + 3],
        !bd.in_region((p % bd.w, p / bd.w)) ==> cut_alpha(bd, p) == bd.rgba[4 * p + 3],
        bd.in_region((p % bd.w, p / bd.w)) && rgb_at(bd.rgba, bd.w, p % bd.w, p / bd.w) == bd.bg
            ==> cut_alpha(bd, p) == 0,
{
    let q = (p % bd.w, p / bd.w);
    let c = rgb_at(bd.rgba, bd.w, q.0, q.1);
    if bd.in_region(q) && c == bd.bg {
        assert(dist2(c, bd.bg) == 0);
    }
}

/// The threshold of every tolerance is positive.
pub proof fn lemma_thresh_positive(tolerance: u8)
    ensures
        thresh_of(tolerance) >= 192,
{
    let t: int = if tolerance < 8 {
        8
    } else if tolerance > 90 {
        90
    } else {
        tolerance as int
    };
    assert(t * t * 3 >= 192) by (nonlinear_arith)
        requires
            8 <= t,
    ;
}

/// A larger tolerance gives a larger threshold.
proof fn lemma_thresh_mono(t1: u8, t2: u8)
    requires
        t1 <= t2,
    ensures
        thresh_of(t1) <= thresh_of(t2),
{
    let a: int = if t1 < 8 {
        8
    } else if t1 > 90 {
        90
    } else {
        t1 as int
    };
    let b: int = if t2 < 8 {
        8
    } else if t2 > 90 {
        90
    } else {
        t2 as int
    };
    assert(a * a * 3 <= b * b * 3) by (nonlinear_arith)
        requires
            0 <= a <= b,
    ;
}

/// With a larger threshold the ramp is never higher.
proof fn lemma_ramp_mono(d: int, th1: int, th2: int, a: u8)
    requires
        0 <= th1 <= th2,
    ensures
        ramp_alpha(d, th2, a) <= ramp_alpha(d, th1, a),
{
    let h1 = th1 / 2;
    let h2 = th2 / 2;
    let s1 = if th1 - h1 >= 1 {
        th1 - h1
    } else {
        1
    };
    let s2 = if th2 - h2 >= 1 {
        th2 - h2
    } else {
        1
    };
    assert(h1 <= h2) by {
        vstd::arithmetic::div_mod::lemma_div_is_ordered(th1, th2, 2);
    }
    assert(s1 <= s2);
    if h2 < d && d < th2 && h1 < d && d < th1 {
        let n1 = (d - h1) * 255;
        let n2 = (d - h2) * 255;
        assert(0 <= n2 <= n1) by (nonlinear_arith)
            requires
                h1 <= h2 < d,
                n1 == (d - h1) * 255,
                n2 == (d - h2) * 255,
        ;
        vstd::arithmetic::div_mod::lemma_div_is_ordered(n2, n1, s2);
        vstd::arithmetic::div_mod::lemma_div_is_ordered_by_denominator(n1, s1, s2);
    }
}

/// A path of pixels close to the backdrop stays such a path when the
/// threshold grows, so the region only grows.
proof fn lemma_region_mono(b1: Backdrop, b2: Backdrop, q: (int, int))
    requires
        b1.w == b2.w && b1.h == b2.h && b1.rgba == b2.rgba && b1.bg == b2.bg,
        b1.thresh <= b2.thresh,
        b1.in_region(q),
    ensures
        b2.in_region(q),
{
    let p = choose|p: Seq<(int, int)>| #[trigger] b1.is_path(p) && p.last() == q;
    assert forall|i: int| 0 <= i < p.len() implies b2.close(#[trigger] p[i]) by {
        assert(b1.close(p[i]));
    }
    assert(b2.is_path(p));
}

/// Raising the tolerance never makes a pixel more opaque: each pixel's
/// alpha after a cut with the larger tolerance is at most its alpha after a
/// cut with the smaller one.
pub proof fn lemma_cut_monotone(src: PictureModel, t1: u8, t2: u8, p: int)
    requires
        t1 <= t2,
    ensures
        cut_alpha(cut_of(src, t2), p) <= cut_alpha(cut_of(src, t1), p),
{
    let b1 = cut_of(src, t1);
    let b2 = cut_of(src, t2);
    lemma_thresh_mono(t1, t2);
    lemma_thresh_positive(t1);
    let q = (p % b1.w, p / b1.w);
    let a = b1.rgba[4 * p + 3];
    let d = dist2(rgb_at(b1.rgba, b1.w, q.0, q.1), b1.bg);
    lemma_cut_alpha(b2, p);
    if b1.in_region(q) {
        lemma_region_mono(b1, b2, q);
        lemma_ramp_mono(d, b1.thresh, b2.thresh, a);
    }
}

} // verus!
