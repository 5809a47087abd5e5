//! The decisions of compressing to a byte budget: lower the quality first,
//! then scale the picture down, then scale harder, and report whether the
//! budget was met. The caller encodes, measures and resamples; the new size
//! for a rescale is a square-root ratio that the caller computes.

use vstd::prelude::*;

use crate::codec::{cpu_deadline_hit, encode_with_quality, encoded_with_quality, resize_fit, resized_fit};
use crate::format::{clamp_int, OutFormat, MAX_TARGET_BYTES, MIN_TARGET_BYTES};
use crate::ops::{decode_capped, decode_spec, within_caps};
use crate::picture::{Picture, PictureModel};

verus! {

/// Quality of the first encode.
pub const START_QUALITY: u8 = 86;

/// Rounds of the first phase (quality steps and gentle rescales).
pub const FIRST_ROUNDS: u32 = 48;

/// Rescales of the second phase.
pub const EXTRA_ROUNDS: u32 = 10;

#[derive(Clone, Copy, Debug, PartialEq, Eq, Structural)]
pub enum ShrinkPhase {
    /// Quality steps of 8 down to above 40, then gentle rescales.
    First,
    /// Harder rescales while still over budget.
    Extra,
    /// Finished.
    Done,
}

/// How hard a rescale is: the ratio `sqrt(target / len)` is clamped to
/// 0.45..=0.88 with sides of at least 64 (gentle), or to 0.2..=0.7 with
/// sides of at least 32 (hard), and each side is rounded.
#[derive(Clone, Copy, Debug, PartialEq, Eq, Structural)]
pub enum ScaleKind {
    Gentle,
    Hard,
}

/// What the caller does next.
#[derive(Clone, Copy, Debug, PartialEq, Eq, Structural)]
pub enum ShrinkStep {
    /// Stop: the last encoding is the result.
    Finish { over_budget: bool },
    /// Encode the current picture again at this quality, then call `step`.
    Reencode { quality: u8 },
    /// Compute a new size of this kind and call `rescale` with it.
    Rescale { kind: ScaleKind },
    /// Resample to this size (keeping the aspect ratio), encode at this
    /// quality, then call `step`.
    Resize { width: u32, height: u32, quality: u8 },
}

/// The state of one compression.
pub struct Shrinker {
    pub target: usize,
    pub lossy: bool,
    pub quality: u8,
    pub round: u32,
    pub extra: u32,
    pub phase: ShrinkPhase,
    pub last_len: usize,
    /// Encodes asked for so far (after the first).
    pub encodes: u32,
}

impl Shrinker {
    pub open spec fn wf(self) -> bool {
        &&& self.round <= FIRST_ROUNDS
        &&& self.extra <= EXTRA_ROUNDS
        &&& (self.lossy ==> 38 <= self.quality <= 86)
        &&& (self.phase == ShrinkPhase::First ==> (self.quality % 8 == 6 || self.quality % 8 == 0))
        &&& MIN_TARGET_BYTES <= self.target <= MAX_TARGET_BYTES
        &&& self.encodes <= self.round + self.extra
    }

    /// Starts a compression to `target_bytes` (clamped to the allowed
    /// budgets); the first encode is at `START_QUALITY`.
    pub fn new(target_bytes: usize, format: OutFormat) -> (s: Shrinker)
        ensures
            s.wf(),
            s.target == clamp_int(target_bytes as int, MIN_TARGET_BYTES as int, MAX_TARGET_BYTES as int),
            s.lossy == (format == OutFormat::Jpeg || format == OutFormat::Webp),
            s.quality == START_QUALITY,
            s.round == 0 && s.extra == 0 && s.encodes == 0,
            s.phase == ShrinkPhase::First,
            s.last_len == 0,
    {
        let target = crate::format::clamp_target_bytes(target_bytes);
        let lossy = match format {
            OutFormat::Jpeg => true,
            OutFormat::Webp => true,
            OutFormat::Png => false,
        };
        Shrinker {
            target,
            lossy,
            quality: START_QUALITY,
            round: 0,
            extra: 0,
            phase: ShrinkPhase::First,
            last_len: 0,
            encodes: 0,
        }
    }

    /// The second phase, entered with an encoding of `len` bytes.
    pub open spec fn extra_top(self, len: usize, w: u32, h: u32, hit: bool) -> (Shrinker, ShrinkStep) {
        if len <= self.target || self.extra >= EXTRA_ROUNDS {
            (
                Shrinker { phase: ShrinkPhase::Done, last_len: len, ..self },
                ShrinkStep::Finish { over_budget: len > self.target },
            )
        } else if hit {
            (
                Shrinker { phase: ShrinkPhase::Done, last_len: len, ..self },
                ShrinkStep::Finish { over_budget: true },
            )
        } else if (if w > h {
            w
        } else {
            h
        }) < 48 {
            (
                Shrinker { phase: ShrinkPhase::Done, last_len: len, ..self },
                ShrinkStep::Finish { over_budget: len > self.target },
            )
        } else {
            (
                Shrinker { phase: ShrinkPhase::Extra, last_len: len, ..self },
                ShrinkStep::Rescale { kind: ScaleKind::Hard },
            )
        }
    }

    /// The transition after an encoding of `len` bytes of a `w` x `h`
    /// picture; `hit` tells whether the CPU deadline has passed.
    pub open spec fn step_spec(self, len: usize, w: u32, h: u32, hit: bool) -> (Shrinker, ShrinkStep) {
        match self.phase {
            ShrinkPhase::First => if self.round >= FIRST_ROUNDS {
                self.extra_top(len, w, h, hit)
            } else if len <= self.target {
                (
                    Shrinker { phase: ShrinkPhase::Done, last_len: len, ..self },
                    ShrinkStep::Finish { over_budget: false },
                )
            } else if hit {
                (
                    Shrinker { phase: ShrinkPhase::Done, last_len: len, ..self },
                    ShrinkStep::Finish { over_budget: true },
                )
            } else if self.lossy && self.quality > 40 {
                (
                    Shrinker {
                        quality: (self.quality - 8) as u8,
                        round: (self.round + 1) as u32,
                        last_len: len,
                        encodes: (self.encodes + 1) as u32,
                        ..self
                    },
                    ShrinkStep::Reencode { quality: (self.quality - 8) as u8 },
                )
            } else if (if w > h {
                w
            } else {
                h
            }) < 96 {
                self.extra_top(len, w, h, hit)
            } else {
                (Shrinker { last_len: len, ..self }, ShrinkStep::Rescale { kind: ScaleKind::Gentle })
            },
            ShrinkPhase::Extra => self.extra_top(len, w, h, hit),
            ShrinkPhase::Done => (self, ShrinkStep::Finish { over_budget: self.last_len > self.target }),
        }
    }

    /// The transition once the caller has computed the new size `nw` x `nh`
    /// of the current `w` x `h` picture.
    pub open spec fn rescale_spec(self, nw: u32, nh: u32, w: u32, h: u32, hit: bool) -> (
        Shrinker,
        ShrinkStep,
    ) {
        match self.phase {
            ShrinkPhase::First => if nw >= w && nh >= h {
                self.extra_top(self.last_len, w, h, hit)
            } else {
                let q = if self.lossy {
                    72u8
                } else {
                    self.quality
                };
                (
                    Shrinker {
                        quality: q,
                        round: (self.round + 1) as u32,
                        encodes: (self.encodes + 1) as u32,
                        ..self
                    },
                    ShrinkStep::Resize { width: nw, height: nh, quality: q },
                )
            },
            ShrinkPhase::Extra => if nw >= w && nh >= h {
                (
                    Shrinker { phase: ShrinkPhase::Done, ..self },
                    ShrinkStep::Finish { over_budget: self.last_len > self.target },
                )
            } else {
                let q = if self.lossy {
                    42u8
                } else {
                    self.quality
                };
                (
                    Shrinker {
                        quality: q,
                        extra: (self.extra + 1) as u32,
                        encodes: (self.encodes + 1) as u32,
                        ..self
                    },
                    ShrinkStep::Resize { width: nw, height: nh, quality: q },
                )
            },
            ShrinkPhase::Done => (self, ShrinkStep::Finish { over_budget: self.last_len > self.target }),
        }
    }

    fn extra_top_exec(&mut self, len: usize, w: u32, h: u32, hit: bool) -> (r: ShrinkStep)
        requires
            old(self).wf(),
        ensures
            (*final(self), r) == old(self).extra_top(len, w, h, hit),
            final(self).wf(),
    {
        self.last_len = len;
        if len <= self.target || self.extra >= EXTRA_ROUNDS {
            self.phase = ShrinkPhase::Done;
            return ShrinkStep::Finish { over_budget: len > self.target };
        }
        if hit {
            self.phase = ShrinkPhase::Done;
            return ShrinkStep::Finish { over_budget: true };
        }
        let longest = if w > h {
            w
        } else {
            h
        };
        if longest < 48 {
            self.phase = ShrinkPhase::Done;
            ShrinkStep::Finish { over_budget: len > self.target }
        } else {
            self.phase = ShrinkPhase::Extra;
            ShrinkStep::Rescale { kind: ScaleKind::Hard }
        }
    }

    /// Decides what follows an encoding of `len` bytes of a `w` x `h`
    /// picture. In the first phase: stop when within budget or past the
    /// deadline; else lower a lossy quality by 8 while above 40; else
    /// rescale gently unless the longest side is under 96. In the second
    /// phase: rescale hard while over budget, up to ten times, unless past
    /// the deadline or the longest side is under 48.
    pub fn step(&mut self, len: usize, w: u32, h: u32, deadline_hit: bool) -> (r: ShrinkStep)
        requires
            old(self).wf(),
        ensures
            (*final(self), r) == old(self).step_spec(len, w, h, deadline_hit),
            final(self).wf(),
            r is Rescale ==> (final(self).phase == ShrinkPhase::First && final(self).round
                < FIRST_ROUNDS) || (final(self).phase == ShrinkPhase::Extra && final(self).extra
                < EXTRA_ROUNDS),
    {
        match self.phase {
            ShrinkPhase::First => {
                if self.round >= FIRST_ROUNDS {
                    return self.extra_top_exec(len, w, h, deadline_hit);
                }
                if len <= self.target {
                    self.phase = ShrinkPhase::Done;
                    self.last_len = len;
                    return ShrinkStep::Finish { over_budget: false };
                }
                if deadline_hit {
                    self.phase = ShrinkPhase::Done;
                    self.last_len = len;
                    return ShrinkStep::Finish { over_budget: true };
                }
                if self.lossy && self.quality > 40 {
                    self.quality = self.quality - 8;
                    self.round = self.round + 1;
                    self.encodes = self.encodes + 1;
                    self.last_len = len;
                    return ShrinkStep::Reencode { quality: self.quality };
                }
                let longest = if w > h {
                    w
                } else {
                    h
                };
                if longest < 96 {
                    return self.extra_top_exec(len, w, h, deadline_hit);
                }
                self.last_len = len;
                ShrinkStep::Rescale { kind: ScaleKind::Gentle }
            },
            ShrinkPhase::Extra => self.extra_top_exec(len, w, h, deadline_hit),
            ShrinkPhase::Done => ShrinkStep::Finish { over_budget: self.last_len > self.target },
        }
    }

    /// Decides what follows the new size `nw` x `nh` computed for a rescale
    /// of the current `w` x `h` picture: resize when a side shrinks (at
    /// quality 72 after a gentle rescale and 42 after a hard one, for lossy
    /// formats); otherwise the first phase ends, or the second one does.
    pub fn rescale(&mut self, nw: u32, nh: u32, w: u32, h: u32, deadline_hit: bool) -> (r: ShrinkStep)
        requires
            old(self).wf(),
            old(self).phase == ShrinkPhase::First ==> old(self).round < FIRST_ROUNDS,
            old(self).phase == ShrinkPhase::Extra ==> old(self).extra < EXTRA_ROUNDS,
        ensures
            (*final(self), r) == old(self).rescale_spec(nw, nh, w, h, deadline_hit),
            final(self).wf(),
            r is Rescale ==> (final(self).phase == ShrinkPhase::First && final(self).round
                < FIRST_ROUNDS) || (final(self).phase == ShrinkPhase::Extra && final(self).extra
                < EXTRA_ROUNDS),
    {
        match self.phase {
            ShrinkPhase::First => {
                if nw >= w && nh >= h {
                    let len = self.last_len;
                    return self.extra_top_exec(len, w, h, deadline_hit);
                }
                if self.lossy {
                    self.quality = 72;
                }
                self.round = self.round + 1;
                self.encodes = self.encodes + 1;
                ShrinkStep::Resize { width: nw, height: nh, quality: self.quality }
            },
            ShrinkPhase::Extra => {
                if nw >= w && nh >= h {
                    self.phase = ShrinkPhase::Done;
                    return ShrinkStep::Finish { over_budget: self.last_len > self.target };
                }
                if self.lossy {
                    self.quality = 42;
                }
                self.extra = self.extra + 1;
                self.encodes = self.encodes + 1;
                ShrinkStep::Resize { width: nw, height: nh, quality: self.quality }
            },
            ShrinkPhase::Done => ShrinkStep::Finish { over_budget: self.last_len > self.target },
        }
    }
}

/// Quality goes first: while a lossy format's quality is above 40, an
/// encoding over budget is answered by encoding again 8 lower, never by
/// scaling; and a within-budget encoding in the first phase ends the job.
pub proof fn lemma_quality_before_scale(sh: Shrinker, len: usize, w: u32, h: u32, hit: bool)
    requires
        sh.wf(),
        sh.phase == ShrinkPhase::First,
        sh.round < FIRST_ROUNDS,
    ensures
        len > sh.target && !hit && sh.lossy && sh.quality > 40 ==> (sh.step_spec(len, w, h, hit).1
            == (ShrinkStep::Reencode { quality: (sh.quality - 8) as u8 })),
        len <= sh.target ==> (sh.step_spec(len, w, h, hit).1 == (ShrinkStep::Finish {
            over_budget: false,
        })),
        (sh.step_spec(len, w, h, hit).1 is Rescale) ==> !(sh.lossy && sh.quality > 40),
{
}

/// A rescale never enlarges: a new size is used only when a side shrinks,
/// and the encoding that follows is counted.
pub proof fn lemma_rescale_shrinks(sh: Shrinker, nw: u32, nh: u32, w: u32, h: u32, hit: bool)
    requires
        sh.wf(),
    ensures
        (sh.rescale_spec(nw, nh, w, h, hit).1 is Resize) ==> sh.rescale_spec(nw, nh, w, h, hit).1->width
            == nw && sh.rescale_spec(nw, nh, w, h, hit).1->height == nh && (nw < w || nh < h)
            && sh.rescale_spec(nw, nh, w, h, hit).0.encodes == sh.encodes + 1,
{
}

/// Once quality can no longer help, hard rescales carry on: in the second
/// phase, or in the first once its rounds are spent or its quality is used
/// up on a picture whose longest side is under 96, an encoding over budget
/// with extra rounds left and the deadline not passed is answered by a hard
/// rescale whenever the longest side is at least 48, and the second phase
/// begins.
pub proof fn lemma_hard_rescales_continue(sh: Shrinker, len: usize, w: u32, h: u32)
    requires
        sh.wf(),
        len > sh.target,
        sh.extra < EXTRA_ROUNDS,
        w >= 48 || h >= 48,
        sh.phase == ShrinkPhase::Extra || (sh.phase == ShrinkPhase::First && (sh.round
            >= FIRST_ROUNDS || (!(sh.lossy && sh.quality > 40) && w < 96 && h < 96))),
    ensures
        sh.step_spec(len, w, h, false).1 == (ShrinkStep::Rescale { kind: ScaleKind::Hard }),
        sh.step_spec(len, w, h, false).0.phase == ShrinkPhase::Extra,
{
}

/// A gentle rescale that would not shrink the picture hands over to the
/// second phase: over budget, with extra rounds left and the deadline not
/// passed, a hard rescale follows whenever the longest side is at least 48.
pub proof fn lemma_gentle_stall_goes_hard(sh: Shrinker, nw: u32, nh: u32, w: u32, h: u32)
    requires
        sh.wf(),
        sh.phase == ShrinkPhase::First,
        sh.last_len > sh.target,
        sh.extra < EXTRA_ROUNDS,
        nw >= w && nh >= h,
        w >= 48 || h >= 48,
    ensures
        sh.rescale_spec(nw, nh, w, h, false).1 == (ShrinkStep::Rescale { kind: ScaleKind::Hard }),
{
}

/// The rounds are bounded: every encode after the first is counted, and at
/// most 58 are ever asked for.
pub proof fn lemma_encodes_bounded(sh: Shrinker)
    requires
        sh.wf(),
    ensures
        sh.encodes <= FIRST_ROUNDS + EXTRA_ROUNDS,
{
}

/// The result of a compression.
#[derive(Debug, Clone)]
pub struct CompressResult {
    pub bytes: Vec<u8>,
    pub width: u32,
    pub height: u32,
    pub format: OutFormat,
    pub original_bytes: usize,
    pub original_width: u32,
    pub original_height: u32,
    pub over_budget: bool,
}

/// A side proposed by the caller's scaler, kept in 1..=4096 (the scaler's
/// square-root sizes are always in that range for pictures decoded here).
fn fit_side(v: u32) -> (r: u32)
    ensures
        r == fit_side_spec(v),
        1 <= r <= 4096,
        1 <= v <= 4096 ==> r == v,
{
    if v < 1 {
        1
    } else if v > 4096 {
        4096
    } else {
        v
    }
}

/// `fit_side` as a value.
pub open spec fn fit_side_spec(v: u32) -> u32 {
    if v < 1 {
        1
    } else if v > 4096 {
        4096
    } else {
        v
    }
}

/// Where one round of compression stands: the shrinker, the current
/// picture, and its current encoding.
pub struct RoundState {
    pub sh: Shrinker,
    pub pic: PictureModel,
    pub bytes: Seq<u8>,
}

/// What a round saw from outside: whether the deadline had passed at each
/// of its (up to three) checks, and the sizes the scaler proposed for its
/// (up to two) rescales.
pub struct RoundChoices {
    pub h0: bool,
    pub a1: (u32, u32),
    pub h1: bool,
    pub a2: (u32, u32),
    pub h2: bool,
}

/// The decision a round reaches: a step on the current encoding, then up
/// to two rescales with the proposed sizes.
pub open spec fn decide(st: RoundState, c: RoundChoices) -> (Shrinker, ShrinkStep) {
    let len = st.bytes.len() as usize;
    let w = st.pic.width;
    let h = st.pic.height;
    let (s1, a) = st.sh.step_spec(len, w, h, c.h0);
    if a is Rescale {
        let (s2, b) = s1.rescale_spec(fit_side_spec(c.a1.0), fit_side_spec(c.a1.1), w, h, c.h1);
        if b is Rescale {
            s2.rescale_spec(fit_side_spec(c.a2.0), fit_side_spec(c.a2.1), w, h, c.h2)
        } else {
            (s2, b)
        }
    } else {
        (s1, a)
    }
}

/// The proposed sizes are answers of the scaler to the round's questions.
pub open spec fn answers_ok<F: Fn(u32, u32, usize, usize, ScaleKind) -> (u32, u32)>(
    scale: F,
    st: RoundState,
    c: RoundChoices,
) -> bool {
    let len = st.bytes.len() as usize;
    let w = st.pic.width;
    let h = st.pic.height;
    let (s1, a) = st.sh.step_spec(len, w, h, c.h0);
    let (s2, b) = s1.rescale_spec(fit_side_spec(c.a1.0), fit_side_spec(c.a1.1), w, h, c.h1);
    &&& (a is Rescale) ==> call_ensures(scale, (w, h, st.sh.target, len, a->kind), c.a1)
    &&& (a is Rescale && b is Rescale) ==> call_ensures(
        scale,
        (w, h, st.sh.target, len, b->kind),
        c.a2,
    )
}

/// No deadline check of the round found the deadline passed.
pub open spec fn no_hits(c: RoundChoices) -> bool {
    !c.h0 && !c.h1 && !c.h2
}

/// A round that encodes again leads to `next`: at the new quality, after
/// resampling to the new size when the decision is a resize.
pub open spec fn steps_to(st: RoundState, c: RoundChoices, format: OutFormat, next: RoundState) -> bool {
    let (s, a) = decide(st, c);
    &&& next.sh == s
    &&& match a {
        ShrinkStep::Reencode { quality } => next.pic == st.pic && encoded_with_quality(
            st.pic,
            format,
            quality,
        ) == Ok::<Seq<u8>, Seq<char>>(next.bytes),
        ShrinkStep::Resize { width, height, quality } => next.pic == resized_fit(st.pic, width, height)
            && encoded_with_quality(next.pic, format, quality) == Ok::<Seq<u8>, Seq<char>>(next.bytes),
        _ => false,
    }
}

/// A round that ends the compression: its decision is to stop.
pub open spec fn ends(st: RoundState, c: RoundChoices) -> bool {
    !(decide(st, c).1 is Reencode) && !(decide(st, c).1 is Resize)
}

/// The shrinker a compression to `target_bytes` starts with.
pub open spec fn is_start(sh: Shrinker, target_bytes: usize, format: OutFormat) -> bool {
    &&& sh.wf()
    &&& sh.target == budget_of(target_bytes)
    &&& sh.lossy == (format == OutFormat::Jpeg || format == OutFormat::Webp)
    &&& sh.quality == START_QUALITY
    &&& sh.round == 0 && sh.extra == 0 && sh.encodes == 0
    &&& sh.phase == ShrinkPhase::First
    &&& sh.last_len == 0
}

/// The rounds of a compression of `p`, up to round `states.len() - 1`:
/// the first encodes `p` at `START_QUALITY`, each later one follows from
/// the one before, the scaler's sizes are its answers, and without a
/// deadline no check finds it passed.
pub open spec fn run_prefix<F: Fn(u32, u32, usize, usize, ScaleKind) -> (u32, u32)>(
    p: PictureModel,
    target_bytes: usize,
    format: OutFormat,
    timed: bool,
    scale: F,
    states: Seq<RoundState>,
    cs: Seq<RoundChoices>,
) -> bool {
    &&& states.len() >= 1
    &&& cs.len() == states.len() - 1
    &&& is_start(states[0].sh, target_bytes, format)
    &&& states[0].pic == p
    &&& encoded_with_quality(p, format, START_QUALITY) == Ok::<Seq<u8>, Seq<char>>(states[0].bytes)
    &&& forall|i: int| 0 <= i < cs.len() ==> steps_to(states[i], #[trigger] cs[i], format, states[i + 1])
    &&& forall|i: int| 0 <= i < cs.len() ==> answers_ok(scale, states[i], #[trigger] cs[i])
    &&& forall|i: int| 0 <= i < cs.len() ==> (!timed ==> no_hits(#[trigger] cs[i]))
}

/// A whole compression run: its rounds, and a last round (`last`) that
/// decides to stop; the result is the last round's encoding.
pub open spec fn run<F: Fn(u32, u32, usize, usize, ScaleKind) -> (u32, u32)>(
    p: PictureModel,
    target_bytes: usize,
    format: OutFormat,
    timed: bool,
    scale: F,
    states: Seq<RoundState>,
    cs: Seq<RoundChoices>,
    last: RoundChoices,
) -> bool {
    &&& run_prefix(p, target_bytes, format, timed, scale, states, cs)
    &&& ends(states.last(), last)
    &&& answers_ok(scale, states.last(), last)
    &&& (!timed ==> no_hits(last))
}

/// An encoder that never fails for this format.
pub open spec fn never_fails(format: OutFormat) -> bool {
    forall|q: PictureModel, k: u8| #[trigger] encoded_with_quality(q, format, k) is Ok
}

/// The budget a request for `target_bytes` is held to.
pub open spec fn budget_of(target_bytes: usize) -> int {
    clamp_int(target_bytes as int, MIN_TARGET_BYTES as int, MAX_TARGET_BYTES as int)
}

/// Bytes that the encoder of a format produced from some picture at some
/// quality: a compressed result is always re-encoded, so nothing of the
/// upload (its metadata in particular) is copied through.
pub open spec fn reencoded(format: OutFormat, bytes: Seq<u8>) -> bool {
    exists|q: PictureModel, k: u8| encoded_with_quality(q, format, k) == Ok::<Seq<u8>, Seq<char>>(bytes)
}

/// Whether the first encoding (at `START_QUALITY`) is within the budget.
pub open spec fn first_fits(p: PictureModel, format: OutFormat, budget: int) -> bool {
    match encoded_with_quality(p, format, START_QUALITY) {
        Ok(b) => b.len() <= budget,
        Err(_) => false,
    }
}

/// A picture that compression works on: decoded, and no side over 4096.
pub open spec fn workable(p: &Picture) -> bool {
    p.wf() && 1 <= p.width <= 4096 && 1 <= p.height <= 4096
}

/// A run that breaks off at its last round: the encode that round decides
/// on fails with `e`.
pub open spec fn fails_at<F: Fn(u32, u32, usize, usize, ScaleKind) -> (u32, u32)>(
    p: PictureModel,
    target_bytes: usize,
    format: OutFormat,
    timed: bool,
    scale: F,
    states: Seq<RoundState>,
    cs: Seq<RoundChoices>,
    last: RoundChoices,
    e: Seq<char>,
) -> bool {
    &&& run_prefix(p, target_bytes, format, timed, scale, states, cs)
    &&& answers_ok(scale, states.last(), last)
    &&& (!timed ==> no_hits(last))
    &&& match decide(states.last(), last).1 {
        ShrinkStep::Reencode { quality } => encoded_with_quality(states.last().pic, format, quality)
            == Err::<Seq<u8>, Seq<char>>(e),
        ShrinkStep::Resize { width, height, quality } => encoded_with_quality(
            resized_fit(states.last().pic, width, height),
            format,
            quality,
        ) == Err::<Seq<u8>, Seq<char>>(e),
        _ => false,
    }
}

/// A round that stops over budget does so only when the deadline passed at
/// one of its checks or no lower quality was left to try; one that stops
/// within budget reports so.
pub proof fn lemma_stop_reasons(st: RoundState, c: RoundChoices)
    requires
        st.sh.wf(),
        st.sh.phase != ShrinkPhase::Done,
    ensures
        decide(st, c).1 == (ShrinkStep::Finish { over_budget: true }) ==> (c.h0 || c.h1 || c.h2)
            || !(st.sh.phase == ShrinkPhase::First && st.sh.round < FIRST_ROUNDS && st.sh.lossy
            && st.sh.quality > 40),
        decide(st, c).1 == (ShrinkStep::Finish { over_budget: true }) ==> st.bytes.len()
            > st.sh.target,
        st.sh.phase == ShrinkPhase::First && st.sh.round < FIRST_ROUNDS && st.bytes.len()
            <= st.sh.target ==> decide(st, c).1 == (ShrinkStep::Finish { over_budget: false }),
{
}

/// Compresses an upload to fit `target_bytes` (clamped to the allowed
/// budgets): the quality is lowered first, then the picture is scaled down
/// to the size that `scale(width, height, budget, len, kind)` proposes,
/// until it fits, the rounds run out, or the deadline passes. The result is
/// the last encoding of that run, flagged over budget exactly when it is
/// larger than the budget. Metadata never survives: the picture is always
/// re-encoded.
#[verifier::rlimit(60)]
pub fn compress_with<F: Fn(u32, u32, usize, usize, ScaleKind) -> (u32, u32)>(
    input: &[u8],
    target_bytes: usize,
    format: OutFormat,
    deadline: &Option<std::time::Instant>,
    scale: &F,
) -> (r: Result<CompressResult, String>)
    requires
        forall|a: (u32, u32, usize, usize, ScaleKind)| call_requires(*scale, a),
    ensures
        match decode_spec(input@) {
            Err(e) => r matches Err(m) && (m@ == e || (deadline is Some && m@
                == crate::codec::timeout_message())),
            Ok(p) => {
                &&& match r {
                    Ok(c) => {
                        &&& c.over_budget == (c.bytes@.len() > budget_of(target_bytes))
                        &&& c.format == format
                        &&& c.original_bytes == input@.len()
                        &&& c.original_width == p.width
                        &&& c.original_height == p.height
                        &&& within_caps(p)
                        &&& 1 <= c.width <= 4096 && 1 <= c.height <= 4096
                        &&& c.width <= p.width && c.height <= p.height
                        &&& reencoded(format, c.bytes@)
                        &&& exists|states: Seq<RoundState>, cs: Seq<RoundChoices>, last: RoundChoices|
                            #[trigger] run(p, target_bytes, format, deadline is Some, *scale, states, cs, last)
                                && states.last().bytes == c.bytes@ && states.last().pic.width
                                == c.width && states.last().pic.height == c.height
                        &&& match encoded_with_quality(p, format, START_QUALITY) {
                            Ok(b) => b.len() <= budget_of(target_bytes) ==> (c.bytes@ == b
                                && c.width == p.width && c.height == p.height && !c.over_budget),
                            Err(_) => true,
                        }
                    },
                    Err(e) => {
                        ||| (deadline is Some && e@ == crate::codec::timeout_message())
                        ||| encoded_with_quality(p, format, START_QUALITY) == Err::<Seq<u8>, Seq<char>>(e@)
                        ||| exists|states: Seq<RoundState>, cs: Seq<RoundChoices>, last: RoundChoices|
                            #[trigger] fails_at(p, target_bytes, format, deadline is Some, *scale, states, cs, last, e@)
                    },
                }
                &&& (deadline is None && first_fits(p, format, budget_of(target_bytes))) ==> r is Ok
                &&& (deadline is None && never_fails(format)) ==> r is Ok
            },
        },
{
    let (img, ow, oh) = decode_capped(input, deadline)?;
    let ghost p0 = img@;
    let mut sh = Shrinker::new(target_bytes, format);
    let target = sh.target;
    let mut work = img;
    let mut best = match encode_with_quality(&work, format, sh.quality, deadline) {
        Ok(b) => b,
        Err(e) => {
            return Err(e);
        },
    };
    let ghost first = best@;
    let ghost mut cur_q: u8 = START_QUALITY;
    let ghost mut states: Seq<RoundState> = seq![RoundState { sh: sh, pic: work@, bytes: best@ }];
    let ghost mut cs: Seq<RoundChoices> = Seq::empty();
    let ghost timed = deadline is Some;
    loop
        invariant
            sh.wf(),
            sh.target == target,
            target == budget_of(target_bytes),
            sh.lossy == (format == OutFormat::Jpeg || format == OutFormat::Webp),
            sh.phase != ShrinkPhase::Done,
            workable(&work),
            within_caps(p0),
            decode_spec(input@) == Ok::<PictureModel, Seq<char>>(p0),
            ow == p0.width && oh == p0.height,
            encoded_with_quality(p0, format, START_QUALITY) == Ok::<Seq<u8>, Seq<char>>(first),
            forall|a: (u32, u32, usize, usize, ScaleKind)| call_requires(*scale, a),
            timed == deadline is Some,
            run_prefix(p0, target_bytes, format, timed, *scale, states, cs),
            states.last() == (RoundState { sh: sh, pic: work@, bytes: best@ }),
            cs.len() == 0 ==> work@ == p0 && best@ == first && sh.round == 0 && sh.phase
                == ShrinkPhase::First && sh.encodes == 0,
            first.len() <= target ==> cs.len() == 0,
            encoded_with_quality(work@, format, cur_q) == Ok::<Seq<u8>, Seq<char>>(best@),
            work.width <= p0.width && work.height <= p0.height,
        decreases 60 - sh.encodes,
    {
        let ghost st = RoundState { sh: sh, pic: work@, bytes: best@ };
        let ghost e0 = sh.encodes;
        let hit = cpu_deadline_hit(deadline);
        let mut action = sh.step(best.len(), work.width, work.height, hit);
        let ghost mut a1: (u32, u32) = (0u32, 0u32);
        let ghost mut h1: bool = false;
        let ghost mut a2: (u32, u32) = (0u32, 0u32);
        let ghost mut h2: bool = false;
        if let ShrinkStep::Rescale { kind } = action {
            let (pw, ph) = scale(work.width, work.height, target, best.len(), kind);
            let hit1 = cpu_deadline_hit(deadline);
            proof {
                a1 = (pw, ph);
                h1 = hit1;
            }
            action = sh.rescale(fit_side(pw), fit_side(ph), work.width, work.height, hit1);
            if let ShrinkStep::Rescale { kind } = action {
                let (qw, qh) = scale(work.width, work.height, target, best.len(), kind);
                let hit2 = cpu_deadline_hit(deadline);
                proof {
                    a2 = (qw, qh);
                    h2 = hit2;
                }
                action = sh.rescale(fit_side(qw), fit_side(qh), work.width, work.height, hit2);
            }
        }
        let ghost c = RoundChoices { h0: hit, a1: a1, h1: h1, a2: a2, h2: h2 };
        assert((sh, action) == decide(st, c));
        assert(answers_ok(*scale, st, c));
        assert(!timed ==> no_hits(c));
        match action {
            ShrinkStep::Reencode { quality } => {
                let enc = encode_with_quality(&work, format, quality, deadline);
                match enc {
                    Ok(b) => {
                        best = b;
                    },
                    Err(e) => {
                        assert(fails_at(p0, target_bytes, format, timed, *scale, states, cs, c, e@)
                            || (timed && e@ == crate::codec::timeout_message()));
                        return Err(e);
                    },
                }
                proof {
                    cur_q = quality;
                }
            },
            ShrinkStep::Resize { width, height, quality } => {
                assert(width * height * 4 <= 4096 * 4096 * 4) by (nonlinear_arith)
                    requires
                        width <= 4096,
                        height <= 4096,
                ;
                work = resize_fit(&work, width, height);
                let enc = encode_with_quality(&work, format, quality, deadline);
                match enc {
                    Ok(b) => {
                        best = b;
                    },
                    Err(e) => {
                        assert(fails_at(p0, target_bytes, format, timed, *scale, states, cs, c, e@)
                            || (timed && e@ == crate::codec::timeout_message()));
                        return Err(e);
                    },
                }
                proof {
                    cur_q = quality;
                }
            },
            _ => {
                let over_budget = best.len() > target;
                assert(reencoded(format, best@)) by {
                    assert(encoded_with_quality(work@, format, cur_q) == Ok::<Seq<u8>, Seq<char>>(best@));
                }
                assert(run(p0, target_bytes, format, timed, *scale, states, cs, c));
                return Ok(
                    CompressResult {
                        bytes: best,
                        width: work.width,
                        height: work.height,
                        format,
                        original_bytes: input.len(),
                        original_width: ow,
                        original_height: oh,
                        over_budget,
                    },
                );
            },
        }
        proof {
            let ghost next = RoundState { sh: sh, pic: work@, bytes: best@ };
            assert(steps_to(st, c, format, next));
            let ghost states2 = states.push(next);
            let ghost cs2 = cs.push(c);
            assert forall|i: int| 0 <= i < cs2.len() implies steps_to(
                states2[i],
                #[trigger] cs2[i],
                format,
                states2[i + 1],
            ) by {
                if i < cs.len() {
                    assert(states2[i] == states[i]);
                    assert(states2[i + 1] == states[i + 1]);
                    assert(cs2[i] == cs[i]);
                }
            }
            assert forall|i: int| 0 <= i < cs2.len() implies answers_ok(
                *scale,
                states2[i],
                #[trigger] cs2[i],
            ) by {
                if i < cs.len() {
                    assert(states2[i] == states[i]);
                    assert(cs2[i] == cs[i]);
                }
            }
            assert forall|i: int| 0 <= i < cs2.len() && !timed implies no_hits(#[trigger] cs2[i]) by {
                if i < cs.len() {
                    assert(cs2[i] == cs[i]);
                }
            }
            states = states2;
            cs = cs2;
        }
    }
}

} // verus!
