//! Colour palette: a sampled 8x8x8 histogram, ranked by share, with
//! near-identical tones merged.

use vstd::prelude::*;

use crate::picture::{color_dist2, dist2, Picture};
use crate::text::{hex2_upper, hex_upper, string_of};

verus! {

/// One palette colour: the centre of a histogram bucket, how many sampled
/// pixels fell in it, and its `#RRGGBB` code.
#[derive(Debug, Clone)]
pub struct PaletteColor {
    pub hex: String,
    pub r: u8,
    pub g: u8,
    pub b: u8,
    pub count: u64,
}

/// Every `step`-th pixel is sampled, with `step` chosen so that about 80 000
/// pixels are looked at (the counter is 32 bits wide, as is `step`).
pub open spec fn sample_step(n: int) -> int {
    let t = if n > 1 {
        n
    } else {
        1
    };
    let s = t / 80000;
    let s1 = if s > 1 {
        s
    } else {
        1
    };
    s1 % 0x1_0000_0000
}

pub open spec fn sampled(step: int, p: int) -> bool {
    ((p + 1) % 0x1_0000_0000) % step == 0
}

/// Histogram bucket of pixel `p`: the top three bits of each channel.
pub open spec fn bucket_of(rgba: Seq<u8>, p: int) -> int {
    (rgba[4 * p] / 32) * 64 + (rgba[4 * p + 1] / 32) * 8 + rgba[4 * p + 2] / 32
}

/// A pixel is counted when it is sampled and not too transparent (alpha >= 40).
pub open spec fn counted(rgba: Seq<u8>, step: int, p: int) -> bool {
    sampled(step, p) && rgba[4 * p + 3] >= 40
}

/// How many of the first `k` pixels are counted in bucket `b`.
pub open spec fn bucket_count(rgba: Seq<u8>, step: int, k: nat, b: int) -> nat
    decreases k,
{
    if k == 0 {
        0
    } else {
        bucket_count(rgba, step, (k - 1) as nat, b) + if counted(rgba, step, k - 1) && bucket_of(
            rgba,
            k - 1,
        ) == b {
            1nat
        } else {
            0nat
        }
    }
}

/// How many of the first `k` pixels are counted at all.
pub open spec fn counted_total(rgba: Seq<u8>, step: int, k: nat) -> nat
    decreases k,
{
    if k == 0 {
        0
    } else {
        counted_total(rgba, step, (k - 1) as nat) + if counted(rgba, step, k - 1) {
            1nat
        } else {
            0nat
        }
    }
}

/// Centre colour of bucket `b`.
pub open spec fn bucket_rgb(b: int) -> (u8, u8, u8) {
    ((((b / 64) % 8) * 32 + 16) as u8, (((b / 8) % 8) * 32 + 16) as u8, ((b % 8) * 32 + 16) as u8)
}

/// `a` ranks before `b`: more samples, or as many and a lower bucket.
pub open spec fn ranks_before(a: (u16, u64), b: (u16, u64)) -> bool {
    a.1 > b.1 || (a.1 == b.1 && a.0 < b.0)
}

/// `r` lists every non-empty bucket once, with its count, best first.
pub open spec fn is_ranking(counts: Seq<u64>, r: Seq<(u16, u64)>) -> bool {
    &&& forall|i: int|
        0 <= i < r.len() ==> (#[trigger] r[i]).0 < 512 && r[i].1 == counts[r[i].0 as int] && r[i].1
            > 0
    &&& forall|b: int|
        0 <= b < 512 && counts[b] > 0 ==> exists|i: int| 0 <= i < r.len() && (#[trigger] r[i]).0 == b
    &&& forall|i: int, j: int| 0 <= i < j < r.len() ==> ranks_before(#[trigger] r[i], #[trigger] r[j])
}

/// Whether colour `c` is within distance 1800 of one already picked.
pub open spec fn clashes(picked: Seq<(u16, u64)>, c: (u8, u8, u8)) -> bool {
    exists|i: int| 0 <= i < picked.len() && dist2(bucket_rgb((#[trigger] picked[i]).0 as int), c) < 1800
}

/// How many colours a palette for `limit` stops at: a colour is kept before
/// the count is checked, so a limit of 0 still keeps one.
pub open spec fn cap_of(limit: int) -> int {
    if limit >= 1 {
        limit
    } else {
        1
    }
}

/// Walk the ranking and keep a bucket unless it clashes with one kept
/// before, until `cap_of(limit)` are kept.
pub open spec fn greedy(r: Seq<(u16, u64)>, limit: int) -> Seq<(u16, u64)>
    decreases r.len(),
{
    if r.len() == 0 {
        seq![]
    } else {
        let prev = greedy(r.drop_last(), limit);
        let e = r.last();
        if prev.len() >= cap_of(limit) || clashes(prev, bucket_rgb(e.0 as int)) {
            prev
        } else {
            prev.push(e)
        }
    }
}

/// A palette never has more colours than asked for (one when asked for
/// none), and no two of its colours are within distance 1800 of each other.
pub proof fn lemma_greedy(r: Seq<(u16, u64)>, limit: int)
    requires
        limit >= 0,
    ensures
        greedy(r, limit).len() <= cap_of(limit),
        forall|i: int, j: int|
            0 <= i < j < greedy(r, limit).len() ==> dist2(
                bucket_rgb((#[trigger] greedy(r, limit)[i]).0 as int),
                bucket_rgb((#[trigger] greedy(r, limit)[j]).0 as int),
            ) >= 1800,
    decreases r.len(),
{
    if r.len() > 0 {
        lemma_greedy(r.drop_last(), limit);
        let prev = greedy(r.drop_last(), limit);
        let e = r.last();
        if !(prev.len() >= cap_of(limit) || clashes(prev, bucket_rgb(e.0 as int))) {
            let g = prev.push(e);
            assert forall|i: int, j: int| 0 <= i < j < g.len() implies dist2(
                bucket_rgb((#[trigger] g[i]).0 as int),
                bucket_rgb((#[trigger] g[j]).0 as int),
            ) >= 1800 by {
                if j == prev.len() {
                    assert(g[i] == prev[i]);
                    if dist2(bucket_rgb(prev[i].0 as int), bucket_rgb(e.0 as int)) < 1800 {
                        assert(clashes(prev, bucket_rgb(e.0 as int)));
                    }
                } else {
                    assert(g[i] == prev[i] && g[j] == prev[j]);
                }
            }
        }
    }
}

pub open spec fn hex_code(c: (u8, u8, u8)) -> Seq<char> {
    seq!['#'] + hex2_upper(c.0) + hex2_upper(c.1) + hex2_upper(c.2)
}

/// The palette of `rgba` (a `w * h` picture) for at most `limit` colours.
pub open spec fn is_palette(
    rgba: Seq<u8>,
    w: int,
    h: int,
    limit: int,
    out: Seq<PaletteColor>,
    sampled_total: int,
) -> bool {
    let step = sample_step(w * h);
    let counts = Seq::new(512, |b: int| bucket_count(rgba, step, (w * h) as nat, b) as u64);
    exists|r: Seq<(u16, u64)>|
        {
            &&& #[trigger] is_ranking(counts, r)
            &&& greedy(r, limit).len() == out.len()
            &&& forall|i: int|
                0 <= i < out.len() ==> {
                    let e = greedy(r, limit)[i];
                    let c = bucket_rgb(e.0 as int);
                    &&& (#[trigger] out[i]).r == c.0
                    &&& out[i].g == c.1
                    &&& out[i].b == c.2
                    &&& out[i].count == e.1
                    &&& out[i].hex@ == hex_code(c)
                }
            &&& sampled_total == counted_total(rgba, step, (w * h) as nat)
        }
}

/// Two pictures of `n` pixels that differ at most in the colour of pixels
/// with alpha below 40.
pub open spec fn same_visible(a: Seq<u8>, b: Seq<u8>, n: int) -> bool {
    &&& a.len() == b.len()
    &&& forall|p: int|
        0 <= p < n ==> (#[trigger] a[4 * p + 3]) == b[4 * p + 3] && (a[4 * p + 3] >= 40 ==> a[4 * p]
            == b[4 * p] && a[4 * p + 1] == b[4 * p + 1] && a[4 * p + 2] == b[4 * p + 2])
}

proof fn lemma_counts_visible(a: Seq<u8>, b: Seq<u8>, step: int, k: nat, n: int)
    requires
        k <= n,
        a.len() == 4 * n,
        same_visible(a, b, n),
    ensures
        counted_total(a, step, k) == counted_total(b, step, k),
        forall|bb: int| #[trigger] bucket_count(a, step, k, bb) == bucket_count(b, step, k, bb),
    decreases k,
{
    if k > 0 {
        lemma_counts_visible(a, b, step, (k - 1) as nat, n);
        let p = k - 1;
        assert(a[4 * p + 3] == b[4 * p + 3]);
        if counted(a, step, p) {
            assert(bucket_of(a, p) == bucket_of(b, p));
        }
        assert forall|bb: int| #[trigger] bucket_count(a, step, k, bb) == bucket_count(b, step, k, bb) by {
            assert(bucket_count(a, step, (k - 1) as nat, bb) == bucket_count(b, step, (k - 1) as nat, bb));
        }
    }
}

proof fn lemma_counts_none(rgba: Seq<u8>, step: int, k: nat, n: int)
    requires
        k <= n,
        rgba.len() == 4 * n,
        forall|p: int| 0 <= p < n ==> #[trigger] rgba[4 * p + 3] < 40,
    ensures
        counted_total(rgba, step, k) == 0,
        forall|bb: int| #[trigger] bucket_count(rgba, step, k, bb) == 0,
    decreases k,
{
    if k > 0 {
        lemma_counts_none(rgba, step, (k - 1) as nat, n);
        assert(rgba[4 * (k - 1) + 3] < 40);
        assert forall|bb: int| #[trigger] bucket_count(rgba, step, k, bb) == 0 by {
            assert(bucket_count(rgba, step, (k - 1) as nat, bb) == 0);
        }
    }
}

/// Very transparent pixels are ignored: two pictures that differ only in
/// the colour of pixels with alpha below 40 have the same palettes and the
/// same sampled total.
pub proof fn lemma_palette_ignores_transparent(
    a: Seq<u8>,
    b: Seq<u8>,
    w: int,
    h: int,
    limit: int,
    out: Seq<PaletteColor>,
    total: int,
)
    requires
        w >= 0,
        h >= 0,
        a.len() == w * h * 4,
        same_visible(a, b, w * h),
    ensures
        is_palette(a, w, h, limit, out, total) == is_palette(b, w, h, limit, out, total),
{
    let step = sample_step(w * h);
    assert(w * h >= 0) by (nonlinear_arith)
        requires
            w >= 0,
            h >= 0,
    ;
    lemma_counts_visible(a, b, step, (w * h) as nat, w * h);
    let ca = Seq::new(512, |bb: int| bucket_count(a, step, (w * h) as nat, bb) as u64);
    let cb = Seq::new(512, |bb: int| bucket_count(b, step, (w * h) as nat, bb) as u64);
    assert(ca =~= cb);
}

/// A picture whose pixels all have alpha below 40 has an empty palette and
/// nothing sampled.
pub proof fn lemma_transparent_palette_empty(
    rgba: Seq<u8>,
    w: int,
    h: int,
    limit: int,
    out: Seq<PaletteColor>,
    total: int,
)
    requires
        w >= 0,
        h >= 0,
        rgba.len() == w * h * 4,
        forall|p: int| 0 <= p < w * h ==> #[trigger] rgba[4 * p + 3] < 40,
        is_palette(rgba, w, h, limit, out, total),
    ensures
        out.len() == 0,
        total == 0,
{
    let step = sample_step(w * h);
    assert(w * h >= 0) by (nonlinear_arith)
        requires
            w >= 0,
            h >= 0,
    ;
    lemma_counts_none(rgba, step, (w * h) as nat, w * h);
    let counts = Seq::new(512, |bb: int| bucket_count(rgba, step, (w * h) as nat, bb) as u64);
    let r = choose|r: Seq<(u16, u64)>|
        {
            &&& #[trigger] is_ranking(counts, r)
            &&& greedy(r, limit).len() == out.len()
            &&& forall|i: int|
                0 <= i < out.len() ==> {
                    let e = greedy(r, limit)[i];
                    let c = bucket_rgb(e.0 as int);
                    &&& (#[trigger] out[i]).r == c.0
                    &&& out[i].g == c.1
                    &&& out[i].b == c.2
                    &&& out[i].count == e.1
                    &&& out[i].hex@ == hex_code(c)
                }
            &&& total == counted_total(rgba, step, (w * h) as nat)
        };
    if r.len() > 0 {
        assert(r[0].1 == counts[r[0].0 as int]);
    }
    assert(r =~= Seq::<(u16, u64)>::empty());
    assert(greedy(r, limit) =~= Seq::<(u16, u64)>::empty());
}

fn hex_string(c: (u8, u8, u8)) -> (s: String)
    ensures
        s@ == hex_code(c),
{
    let mut v: Vec<char> = Vec::new();
    v.push('#');
    v.push(hex_upper(c.0 / 16));
    v.push(hex_upper(c.0 % 16));
    v.push(hex_upper(c.1 / 16));
    v.push(hex_upper(c.1 % 16));
    v.push(hex_upper(c.2 / 16));
    v.push(hex_upper(c.2 % 16));
    assert(v@ =~= hex_code(c));
    string_of(&v)
}

fn bucket_color(b: u16) -> (c: (u8, u8, u8))
    requires
        b < 512,
    ensures
        c == bucket_rgb(b as int),
{
    ((((b / 64) % 8) * 32 + 16) as u8, (((b / 8) % 8) * 32 + 16) as u8, ((b % 8) * 32 + 16) as u8)
}

/// Counts of each bucket over the sampled pixels.
fn histogram(src: &Picture) -> (res: (Vec<u64>, u64))
    requires
        src.wf(),
        sample_step(src.width * src.height) != 0,
    ensures
        res.1 == counted_total(
            src.rgba@,
            sample_step(src.width * src.height),
            (src.width * src.height) as nat,
        ),
        res.0@.len() == 512,
        forall|b: int|
            0 <= b < 512 ==> #[trigger] res.0@[b] == bucket_count(
                src.rgba@,
                sample_step(src.width * src.height),
                (src.width * src.height) as nat,
                b,
            ),
{
    let mut counts: Vec<u64> = Vec::new();
    let mut j: usize = 0;
    while j < 512
        invariant
            j <= 512,
            counts@.len() == j,
            forall|t: int| 0 <= t < j ==> counts@[t] == 0,
        decreases 512 - j,
    {
        counts.push(0);
        j = j + 1;
    }
    let w = src.width as u64;
    let h = src.height as u64;
    let len = src.rgba.len();
    assert(w * h <= len) by (nonlinear_arith)
        requires
            len == w * h * 4,
    ;
    let n: u64 = w * h;
    let total: u64 = if n > 1 {
        n
    } else {
        1
    };
    let s = total / 80000;
    let s1: u64 = if s > 1 {
        s
    } else {
        1
    };
    let step: u32 = (s1 % 0x1_0000_0000) as u32;
    let ghost gstep = sample_step(src.width * src.height);
    assert(step == gstep);
    let mut i: u32 = 0;
    let mut p: usize = 0;
    let mut total: u64 = 0;
    while p < n as usize
        invariant
            src.wf(),
            len == src.rgba@.len(),
            len == 4 * n,
            n == src.width * src.height,
            step == gstep,
            step != 0,
            p <= n,
            i as int == (p as int) % 0x1_0000_0000,
            counts@.len() == 512,
            forall|b: int|
                0 <= b < 512 ==> #[trigger] counts@[b] == bucket_count(
                    src.rgba@,
                    gstep,
                    p as nat,
                    b,
                ),
            forall|b: int| 0 <= b < 512 ==> #[trigger] counts@[b] <= p,
            total == counted_total(src.rgba@, gstep, p as nat),
            total <= p,
        decreases n - p,
    {
        i = if i == 0xffff_ffff {
            0
        } else {
            i + 1
        };
        let ghost pi = p as int;
        assert(i as int == (pi + 1) % 0x1_0000_0000);
        let b0 = 4 * p;
        if i % step == 0 && src.rgba[b0 + 3] >= 40 {
            let idx = ((src.rgba[b0] / 32) as usize) * 64 + ((src.rgba[b0 + 1] / 32) as usize) * 8 + (
            src.rgba[b0 + 2] / 32) as usize;
            assert(idx == bucket_of(src.rgba@, pi));
            let cur = counts[idx];
            counts.set(idx, cur + 1);
            total = total + 1;
        }
        p = p + 1;
    }
    (counts, total)
}

/// Inserts every non-empty bucket into a ranking, best first.
fn rank(counts: &Vec<u64>) -> (r: Vec<(u16, u64)>)
    requires
        counts@.len() == 512,
    ensures
        is_ranking(counts@, r@),
{
    let mut r: Vec<(u16, u64)> = Vec::new();
    let mut b: u16 = 0;
    while b < 512
        invariant
            b <= 512,
            counts@.len() == 512,
            forall|i: int|
                0 <= i < r@.len() ==> (#[trigger] r@[i]).0 < b && r@[i].1 == counts@[r@[i].0 as int]
                    && r@[i].1 > 0,
            forall|c: int|
                0 <= c < b && counts@[c] > 0 ==> exists|i: int|
                    0 <= i < r@.len() && (#[trigger] r@[i]).0 == c,
            forall|i: int, j: int|
                0 <= i < j < r@.len() ==> ranks_before(#[trigger] r@[i], #[trigger] r@[j]),
        decreases 512 - b,
    {
        let n = counts[b as usize];
        if n > 0 {
            let e = (b, n);
            let mut pos: usize = 0;
            while pos < r.len() && !(e.1 > r[pos].1 || (e.1 == r[pos].1 && e.0 < r[pos].0))
                invariant
                    pos <= r@.len(),
                    forall|i: int| 0 <= i < pos ==> !ranks_before(e, #[trigger] r@[i]),
                decreases r@.len() - pos,
            {
                pos = pos + 1;
            }
            let ghost old_r = r@;
            r.insert(pos, e);
            proof {
                old_r.insert_ensures(pos as int, e);
                assert forall|i: int| 0 <= i < r@.len() implies (#[trigger] r@[i]).0 < b + 1 && r@[i].1
                    == counts@[r@[i].0 as int] && r@[i].1 > 0 by {
                    if i < pos {
                    } else if i > pos {
                        assert(r@[i] == old_r[i - 1]);
                    }
                }
                assert forall|c: int|
                    0 <= c < b + 1 && counts@[c] > 0 implies exists|i: int|
                    0 <= i < r@.len() && (#[trigger] r@[i]).0 == c by {
                    if c == b {
                        assert(r@[pos as int].0 == c);
                    } else {
                        let i = choose|i: int| 0 <= i < old_r.len() && (#[trigger] old_r[i]).0 == c;
                        if i < pos {
                            assert(r@[i] == old_r[i]);
                        } else {
                            assert(r@[i + 1] == old_r[i]);
                        }
                    }
                }
                assert forall|i: int, j: int| 0 <= i < j < r@.len() implies ranks_before(
                    #[trigger] r@[i],
                    #[trigger] r@[j],
                ) by {
                    if j < pos {
                        assert(r@[i] == old_r[i] && r@[j] == old_r[j]);
                    } else if j == pos {
                        assert(r@[i] == old_r[i]);
                        assert(!ranks_before(e, old_r[i]));
                        assert(old_r[i].0 < b);
                    } else if i < pos {
                        assert(r@[i] == old_r[i] && r@[j] == old_r[j - 1]);
                        if pos < old_r.len() {
                            assert(!ranks_before(e, old_r[i]));
                            assert(old_r[i].0 < b);
                        }
                    } else if i == pos {
                        assert(r@[j] == old_r[j - 1]);
                        assert(ranks_before(e, old_r[pos as int]));
                        if j - 1 > pos {
                            assert(ranks_before(old_r[pos as int], old_r[j - 1]));
                        }
                    } else {
                        assert(r@[i] == old_r[i - 1] && r@[j] == old_r[j - 1]);
                    }
                }
            }
        }
        b = b + 1;
    }
    r
}

/// Whether `c` is within distance 1800 of a colour already picked.
fn clashes_with(picked: &Vec<(u16, u64)>, c: (u8, u8, u8)) -> (res: bool)
    requires
        forall|i: int| 0 <= i < picked@.len() ==> (#[trigger] picked@[i]).0 < 512,
    ensures
        res == clashes(picked@, c),
{
    let mut i: usize = 0;
    while i < picked.len()
        invariant
            i <= picked@.len(),
            forall|i: int| 0 <= i < picked@.len() ==> (#[trigger] picked@[i]).0 < 512,
            forall|k: int|
                0 <= k < i ==> dist2(bucket_rgb((#[trigger] picked@[k]).0 as int), c) >= 1800,
        decreases picked@.len() - i,
    {
        let pc = bucket_color(picked[i].0);
        if color_dist2(pc, c) < 1800 {
            return true;
        }
        i = i + 1;
    }
    false
}

/// Up to `limit` colours of a picture: buckets ranked by sampled share, each
/// kept unless within distance 1800 of one kept before. Also returns the
/// number of sampled pixels (the denominator of each share).
pub fn palette(src: &Picture, limit: usize) -> (res: (Vec<PaletteColor>, u64))
    requires
        src.wf(),
        sample_step(src.width * src.height) != 0,
    ensures
        is_palette(src.rgba@, src.width as int, src.height as int, limit as int, res.0@, res.1 as int),
        res.0@.len() <= cap_of(limit as int),
{
    let (counts, total) = histogram(src);
    let ranked = rank(&counts);
    let ghost cts = Seq::new(
        512,
        |b: int|
            bucket_count(
                src.rgba@,
                sample_step(src.width * src.height),
                (src.width * src.height) as nat,
                b,
            ) as u64,
    );
    assert(counts@ =~= cts);
    let mut chosen: Vec<(u16, u64)> = Vec::new();
    let mut out: Vec<PaletteColor> = Vec::new();
    let cap: usize = if limit >= 1 {
        limit
    } else {
        1
    };
    let mut k: usize = 0;
    while k < ranked.len()
        invariant
            k <= ranked@.len(),
            is_ranking(counts@, ranked@),
            chosen@ == greedy(ranked@.take(k as int), limit as int),
            cap == cap_of(limit as int),
            chosen@.len() <= cap,
            out@.len() == chosen@.len(),
            forall|i: int| 0 <= i < chosen@.len() ==> (#[trigger] chosen@[i]).0 < 512,
            forall|i: int|
                0 <= i < out@.len() ==> {
                    let e = chosen@[i];
                    let c = bucket_rgb(e.0 as int);
                    &&& (#[trigger] out@[i]).r == c.0
                    &&& out@[i].g == c.1
                    &&& out@[i].b == c.2
                    &&& out@[i].count == e.1
                    &&& out@[i].hex@ == hex_code(c)
                },
        decreases ranked@.len() - k,
    {
        let e = ranked[k];
        assert(ranked@.take(k + 1).drop_last() =~= ranked@.take(k as int));
        assert(ranked@.take(k + 1).last() == e);
        assert(e.0 < 512);
        let c = bucket_color(e.0);
        if chosen.len() < cap && !clashes_with(&chosen, c) {
            chosen.push(e);
            out.push(PaletteColor { hex: hex_string(c), r: c.0, g: c.1, b: c.2, count: e.1 });
        }
        k = k + 1;
    }
    assert(ranked@.take(ranked@.len() as int) =~= ranked@);
    (out, total)
}

} // verus!
