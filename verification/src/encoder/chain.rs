//! One frame after the other: what each refers to, how it is coded, what is remembered of it.

use vstd::prelude::*;
use crate::common::arith;
use crate::common::arith::{add_i32, apply_lic_weighted, fit_into, rct_forward, rct_inverse, sub_i32};
use crate::common::config;
use crate::common::config::{ReferenceModeV2, SceneCutModeV2, Setup, ToolMode};
use crate::common::domain::{
    ColorFormat,
    ImageData,
    PredictionMode,
    MAX_SAMPLES,
    REF_GOLDEN,
    REF_PREV2,
    REF_PREVIOUS,
};
use crate::common::error;
use crate::common::error::{CrfResult, Fault};
use crate::common::lic;
use crate::common::lic::search_lic;
use crate::common::noise;
use crate::common::noise::{
    estimate_band_activity_steps,
    estimate_band_quant_steps,
    estimate_interleaved_band_thresholds,
    soft_threshold_interleaved,
    Masking,
};
use crate::common::quant;
use crate::decoder::reconstruct;
use crate::decoder::reconstruct::{decode_frame, Setting};
use crate::encoder::adaptive;
use crate::encoder::adaptive::encode_frame_adaptive_with;
use crate::encoder::batch;
use crate::encoder::batch::fq_for_index;
use crate::encoder::frame;
use crate::encoder::frame::{encode_frame, FrameQuant, Pic};
use crate::encoder::frame_form;
use crate::encoder::sequence_tools;
use crate::encoder::sequence_tools::{apply_change_mask, change_mask};

verus! {

/// What the frames of a sequence have in common.
pub struct Reel {
    pub setup: Setup,
    pub width: u16,
    pub height: u16,
    pub format: ColorFormat,
}

/// The frames that a frame may refer to, as a decoder has them.
pub struct Past {
    pub golden: Seq<i32>,
    pub previous: Seq<i32>,
    pub before: Option<Seq<i32>>,
}

/// A coded frame, what it refers to, and the change of illumination of the reference.
pub struct Pick {
    pub data: Seq<u8>,
    pub kind: u8,
    pub a: u8,
    pub b: u8,
}

/// Samples with the faintest ones set to zero.
pub open spec fn softened(px: Seq<i32>) -> Seq<i32> {
    Seq::new(
        px.len(),
        |i: int|
            if px[i] == 1 || px[i] == -1 {
                0
            } else {
                px[i]
            },
    )
}

/// Dropping the faintest samples moves none by more than one, and leaves alone all that are not faint.
pub proof fn law_softened(px: Seq<i32>, i: int)
    requires
        0 <= i < px.len(),
    ensures
        softened(px).len() == px.len(),
        -1 <= softened(px)[i] - px[i] <= 1,
        px[i] >= 2 || px[i] <= -2 ==> softened(px)[i] == px[i],
        -1 <= px[i] <= 1 ==> softened(px)[i] == 0,
{
}

/// Samples with colours transformed, where there are three.
pub open spec fn coloured(px: Seq<i32>, c: int) -> Seq<i32> {
    if c == 3 {
        arith::rct_spec(px)
    } else {
        px
    }
}

/// Samples with the transform of colours undone, where there are three.
pub open spec fn uncoloured(px: Seq<i32>, c: int) -> Seq<i32> {
    if c == 3 {
        arith::unrct_spec(px)
    } else {
        px
    }
}

/// A small number as a byte in two's complement.
pub open spec fn signed_byte(v: int) -> u8 {
    if v < 0 {
        (v + 256) as u8
    } else {
        v as u8
    }
}

impl Reel {
    pub open spec fn w(self) -> int {
        self.width as int
    }

    pub open spec fn h(self) -> int {
        self.height as int
    }

    pub open spec fn c(self) -> int {
        self.format.spec_count() as int
    }

    /// Samples in a frame.
    pub open spec fn n(self) -> int {
        self.h() * (self.w() * self.c())
    }

    /// The size and samples of a frame.
    pub open spec fn pic(self, px: Seq<i32>) -> Pic {
        Pic { w: self.w(), h: self.h(), c: self.c(), px }
    }

    /// The frames can be coded.
    pub open spec fn ok(self) -> bool {
        self.w() >= 1 && self.h() >= 1 && self.n() <= MAX_SAMPLES
    }

    /// What frames are decoded with.
    pub open spec fn setting(self) -> Setting {
        Setting {
            ct: self.setup.ct,
            width: self.width as usize,
            height: self.height as usize,
            components: self.format.spec_count() as usize,
            mode: self.setup.mode,
        }
    }

    /// How frame `i` is quantised.
    pub open spec fn quant(self, i: int) -> FrameQuant {
        let k = self.setup.kernel;
        batch::quant_of_index(
            i,
            self.setup.spec_step(),
            k,
            k.deadzone_bias,
            if k.anchor_interval == 0 {
                1
            } else {
                k.anchor_interval as int
            },
            k.q95_perceptual,
        )
    }

    /// Whether the faintest samples are dropped.
    pub open spec fn soft(self) -> bool {
        self.setup.kernel.q95_perceptual && self.setup.kernel.enabled
    }

    /// Whether noise is taken out.
    pub open spec fn noisy(self) -> bool {
        self.setup.kernel.enabled && self.setup.kernel.noise_adaptive && self.c() == 3
    }

    /// Whether steps follow the texture.
    pub open spec fn textured(self) -> bool {
        let k = self.setup.kernel;
        k.enabled && (k.activity_masking_x100 != 100 || k.flat_area_protection_x100 != 100
            || k.edge_protection_x100 != 100) && self.c() == 3
    }

    pub open spec fn masking(self) -> Masking {
        Masking {
            texture_x100: self.setup.kernel.activity_masking_x100,
            flat_x100: self.setup.kernel.flat_area_protection_x100,
            edge_x100: self.setup.kernel.edge_protection_x100,
        }
    }

    /// The code of one frame.
    #[verifier::opaque]
    pub open spec fn shot(
        self,
        px: Seq<i32>,
        first: bool,
        fq: FrameQuant,
        bands: Option<Seq<u8>>,
    ) -> Result<Seq<u8>, Fault> {
        let s = self.setup;
        if s.adaptive {
            match adaptive::adaptive(
                self.pic(px),
                s.ct,
                s.block_size,
                first,
                fq,
                None::<PredictionMode>,
                bands,
                s.switches.copies,
            ) {
                Ok(e) => Ok(e.data),
                Err(f) => Err(f),
            }
        } else {
            frame::plain_frame(self.pic(px), s.ct, s.block_size, s.mode, first, fq, None::<Seq<u8>>)
        }
    }

    /// The first frame as it is coded: the shorter of the codes with and without the transform of
    /// colours, and whether it is the one without.
    pub open spec fn first_shot(self, px: Seq<i32>) -> Result<(Seq<u8>, bool), Fault> {
        let p = if self.soft() {
            softened(px)
        } else {
            px
        };
        match self.shot(coloured(p, self.c()), true, self.quant(0), None) {
            Err(f) => Err(f),
            Ok(a) => if self.c() == 3 {
                match self.shot(p, true, self.quant(0), None) {
                    Err(f) => Err(f),
                    Ok(b) => if b.len() < a.len() {
                        Ok((b, true))
                    } else {
                        Ok((a, false))
                    },
                }
            } else {
                Ok((a, false))
            },
        }
    }

    /// The samples that a coded frame stands for.
    pub open spec fn seen(self, data: Seq<u8>, plain: bool) -> Result<Seq<i32>, Fault> {
        match reconstruct::frame_result(data, self.setting()) {
            Err(f) => Err(f),
            Ok(px) => if plain {
                Ok(px)
            } else {
                Ok(uncoloured(px, self.c()))
            },
        }
    }

    /// The first frame: its code, whether colours are left alone, and what is remembered.
    pub open spec fn opened(self, px: Seq<i32>) -> Result<(Seq<u8>, bool, Past), Fault> {
        match self.first_shot(px) {
            Err(f) => Err(f),
            Ok((d, plain)) => match self.seen(d, plain) {
                Err(f) => Err(f),
                Ok(g) => Ok((d, plain, Past { golden: g, previous: g, before: None })),
            },
        }
    }

    /// A difference to the first frame as it is coded: faint samples and noise gone.
    pub open spec fn prepared(self, px: Seq<i32>, reference: Seq<i32>) -> Seq<i32> {
        let d = arith::sub_spec(px, reference);
        let e = if self.soft() {
            softened(d)
        } else {
            d
        };
        let f = if self.noisy() {
            noise::denoised(e, self.w() * self.c(), self.h(), self.setup.kernel.noise_tau_x100)
        } else {
            e
        };
        coloured(f, self.c())
    }

    /// The steps of the bands of a difference.
    pub open spec fn bands(self, d: Seq<i32>, step: u8) -> Option<Seq<u8>> {
        if self.textured() {
            Some(
                noise::activity_steps(
                    d,
                    self.w() * self.c(),
                    self.h(),
                    self.c(),
                    step,
                    self.masking(),
                ),
            )
        } else if self.noisy() {
            Some(
                noise::noise_steps(
                    d,
                    self.w() * self.c(),
                    self.h(),
                    step,
                    self.setup.kernel.noise_tau_x100,
                ),
            )
        } else {
            None
        }
    }

    /// The code of the difference to (a change of illumination of) the first frame.
    pub open spec fn golden_shot(self, px: Seq<i32>, reference: Seq<i32>, i: int) -> Result<
        Seq<u8>,
        Fault,
    > {
        let d = self.prepared(px, reference);
        self.shot(d, false, self.quant(i), self.bands(d, self.quant(i).step))
    }

    /// The shorter of the codes of the differences to the first frame and to a change of
    /// illumination of it.
    pub open spec fn golden_pick(self, px: Seq<i32>, golden: Seq<i32>, i: int) -> Result<
        Pick,
        Fault,
    > {
        match self.golden_shot(px, golden, i) {
            Err(f) => Err(f),
            Ok(d) => {
                let plain = Pick { data: d, kind: REF_GOLDEN, a: 0, b: 0 };
                match lic::search(golden, px) {
                    None => Ok(plain),
                    Some(t) => if self.setup.switches.lic && t.pays() {
                        match self.golden_shot(
                            px,
                            arith::lic_spec(golden, t.a_num as int, t.b as int),
                            i,
                        ) {
                            Err(f) => Err(f),
                            Ok(e) => if e.len() < d.len() {
                                Ok(
                                    Pick {
                                        data: e,
                                        kind: REF_GOLDEN,
                                        a: t.a_num as u8,
                                        b: signed_byte(t.b as int),
                                    },
                                )
                            } else {
                                Ok(plain)
                            },
                        }
                    } else {
                        Ok(plain)
                    },
                }
            },
        }
    }

    /// The side of the tiles in which changes are looked for.
    pub open spec fn tile(self) -> int {
        if self.setup.block_size < 4 {
            4
        } else {
            self.setup.block_size as int
        }
    }

    /// The difference to a frame, with tiles that hardly changed set to zero.
    pub open spec fn change(self, px: Seq<i32>, reference: Seq<i32>, i: int) -> Seq<i32> {
        let d = arith::sub_spec(px, reference);
        if self.setup.kernel.change_mask == ToolMode::Off {
            d
        } else {
            sequence_tools::masked(
                d,
                sequence_tools::mask_spec(
                    px,
                    reference,
                    self.w(),
                    self.h(),
                    self.c(),
                    self.tile(),
                    (self.quant(i).step / 2) as i32,
                ),
                self.w(),
                self.h(),
                self.c(),
                self.tile(),
            )
        }
    }

    /// Whether the sequence starts afresh at frame `i`, which differs by `d` from the one before.
    pub open spec fn cut(self, d: Seq<i32>, i: int) -> bool {
        let k = self.setup.kernel;
        (k.anchor_interval > 0 && batch::multiple(i, k.anchor_interval as int)) || (k.scene_cut
            != SceneCutModeV2::Off && noise::total_mag(d) / d.len() as int > (
        k.scene_cut_threshold_x1000 * 255) / 1000)
    }

    /// The code of the difference to another frame.
    pub open spec fn change_shot(self, px: Seq<i32>, reference: Seq<i32>, i: int) -> Result<
        Seq<u8>,
        Fault,
    > {
        self.shot(coloured(self.change(px, reference, i), self.c()), false, self.quant(i), None)
    }

    /// With the frame before competing, or taking the place of the first frame.
    pub open spec fn previous_pick(self, px: Seq<i32>, past: Past, g: Pick, i: int) -> Result<
        Pick,
        Fault,
    > {
        match self.change_shot(px, past.previous, i) {
            Err(f) => Err(f),
            Ok(d) => if self.setup.kernel.reference_mode == ReferenceModeV2::Previous || d.len()
                < g.data.len() {
                Ok(Pick { data: d, kind: REF_PREVIOUS, a: 0, b: 0 })
            } else {
                Ok(g)
            },
        }
    }

    /// With the frame before the previous one competing.
    pub open spec fn before_pick(self, px: Seq<i32>, past: Past, g: Pick, i: int) -> Result<
        Pick,
        Fault,
    > {
        match past.before {
            Some(b) => if self.setup.kernel.reference_mode == ReferenceModeV2::Hybrid && g.kind
                != REF_PREVIOUS {
                match self.change_shot(px, b, i) {
                    Err(f) => Err(f),
                    Ok(d) => if d.len() < g.data.len() {
                        Ok(Pick { data: d, kind: REF_PREV2, a: 0, b: 0 })
                    } else {
                        Ok(g)
                    },
                }
            } else {
                Ok(g)
            },
            None => Ok(g),
        }
    }

    /// The code of frame `i`, given the one that refers to the first frame.
    pub open spec fn picked(self, px: Seq<i32>, past: Past, g: Pick, i: int) -> Result<Pick, Fault> {
        if self.setup.kernel.reference_mode == ReferenceModeV2::Golden || self.cut(
            self.change(px, past.previous, i),
            i,
        ) {
            Ok(g)
        } else {
            match self.previous_pick(px, past, g, i) {
                Err(f) => Err(f),
                Ok(p) => self.before_pick(px, past, p, i),
            }
        }
    }
}

impl Pick {
    /// The frame with what it refers to in its header.
    pub open spec fn signed(self) -> Seq<u8> {
        self.data.update(11, self.kind).update(12, self.a).update(13, self.b)
    }

    /// What the frame refers to.
    pub open spec fn base(self, past: Past) -> Seq<i32> {
        if self.kind == REF_PREV2 {
            past.before->0
        } else if self.kind == REF_PREVIOUS {
            past.previous
        } else {
            arith::weighted_spec(past.golden, self.a, self.b)
        }
    }
}

impl Past {
    /// What is remembered after another frame.
    pub open spec fn with(self, px: Seq<i32>) -> Past {
        Past { golden: self.golden, previous: px, before: Some(self.previous) }
    }

    /// All frames have `n` samples.
    pub open spec fn sized(self, n: int) -> bool {
        &&& self.golden.len() == n
        &&& self.previous.len() == n
        &&& self.before is Some ==> self.before->0.len() == n
    }
}

impl Reel {
    /// Frame `i`, given the code that refers to the first frame: its code, and what is remembered.
    pub open spec fn joined(self, px: Seq<i32>, past: Past, g: Pick, i: int) -> Result<
        (Seq<u8>, Past),
        Fault,
    > {
        match self.picked(px, past, g, i) {
            Err(f) => Err(f),
            Ok(p) => match self.seen(p.signed(), false) {
                Err(f) => Err(f),
                Ok(d) => Ok((p.signed(), past.with(arith::add_spec(p.base(past), d)))),
            },
        }
    }

    /// Frame `i`: its code, and what is remembered.
    pub open spec fn followed(self, px: Seq<i32>, past: Past, i: int) -> Result<
        (Seq<u8>, Past),
        Fault,
    > {
        match self.golden_pick(px, past.golden, i) {
            Err(f) => Err(f),
            Ok(g) => self.joined(px, past, g, i),
        }
    }
}

/// What the frames of a sequence with a frame like `image` have in common.
pub open spec fn reel(setup: &Setup, image: &ImageData) -> Reel {
    Reel {
        setup: *setup,
        width: image.width,
        height: image.height,
        format: image.color_format,
    }
}

/// All codes are well framed.
pub proof fn lemma_shot(x: Reel, px: Seq<i32>, first: bool, fq: FrameQuant, bands: Option<Seq<u8>>)
    ensures
        x.shot(px, first, fq, bands) is Ok ==> frame_form::well_framed(
            x.shot(px, first, fq, bands)->Ok_0,
        ),
{
    reveal(Reel::shot);
    let s = x.setup;
    frame_form::lemma_adaptive_framed(
        x.pic(px),
        s.ct,
        s.block_size,
        first,
        fq,
        None,
        bands,
        s.switches.copies,
    );
    frame_form::lemma_plain_framed(x.pic(px), s.ct, s.block_size, s.mode, first, fq, None);
}

fn code_frame(
    setup: &Setup,
    image: &ImageData,
    first: bool,
    fq: FrameQuant,
    bands: Option<&Vec<u8>>,
) -> (r: CrfResult<Vec<u8>>)
    requires
        frame::codable(image),
    ensures
        frame::agrees_bytes(
            r,
            reel(setup, image).shot(image.pixels@, first, fq, quant::bands_view(bands)),
        ),
        r is Ok ==> frame_form::well_framed(r->Ok_0@),
{
    proof {
        reveal(Reel::shot);
        lemma_shot(reel(setup, image), image.pixels@, first, fq, quant::bands_view(bands));
        assert(reel(setup, image).pic(image.pixels@) == frame::pic(image));
    }
    if setup.adaptive {
        match encode_frame_adaptive_with(
            image,
            setup.ct,
            setup.block_size,
            first,
            fq,
            None,
            bands,
            setup.switches.copies,
        ) {
            Ok(out) => Ok(out.data),
            Err(e) => Err(e),
        }
    } else {
        encode_frame(image, setup.ct, setup.block_size, setup.mode, first, fq, None)
    }
}

fn soften(px: &Vec<i32>) -> (out: Vec<i32>)
    ensures
        out@ == softened(px@),
{
    let mut out: Vec<i32> = Vec::with_capacity(px.len());
    let mut i: usize = 0;
    while i < px.len()
        invariant
            i <= px@.len(),
            out@ == softened(px@).take(i as int),
        decreases px@.len() - i,
    {
        let v: i32 = px[i];
        out.push(
            if v == 1 || v == -1 {
                0
            } else {
                v
            },
        );
        i = i + 1;
        assert(out@ =~= softened(px@).take(i as int));
    }
    assert(out@ =~= softened(px@));
    out
}

/// Transforms colours, where there are three.
pub fn colour(px: Vec<i32>, components: usize) -> (out: Vec<i32>)
    requires
        components == 3 ==> px@.len() % 3 == 0,
    ensures
        out@ == coloured(px@, components as int),
{
    if components != 3 {
        return px;
    }
    match rct_forward(&px, components) {
        Ok(v) => v,
        Err(_) => px,
    }
}

/// Undoes the transform of colours, where there are three.
pub fn uncolour(px: Vec<i32>, components: usize) -> (out: Vec<i32>)
    requires
        components == 3 ==> px@.len() % 3 == 0,
    ensures
        out@ == uncoloured(px@, components as int),
{
    if components != 3 {
        return px;
    }
    match rct_inverse(&px, components) {
        Ok(v) => v,
        Err(_) => px,
    }
}

/// Facts on the size of a frame.
pub proof fn lemma_frame_size(image: &ImageData)
    requires
        frame::codable(image),
    ensures
        ({
            let (w, h, c) = (
                image.width as int,
                image.height as int,
                image.color_format.spec_count() as int,
            );
            let n = image.pixels@.len();
            &&& n >= 1
            &&& n == w * h * c
            &&& n == h * (w * c)
            &&& c == 3 ==> n % 3 == 0
            &&& 1 <= w * c <= 0x4_0000
        }),
        noise::image_ok(
            image.pixels@,
            image.width * image.color_format.spec_count(),
            image.height as int,
        ),
        frame::pic(image).ok(),
{
    frame::lemma_codable(image);
    let (w, h, c) = (
        image.width as int,
        image.height as int,
        image.color_format.spec_count() as int,
    );
    frame::lemma_counts(w, h, c);
    assert(w * h >= 1) by (nonlinear_arith)
        requires
            w >= 1,
            h >= 1,
    ;
    assert(1 <= w * c) by (nonlinear_arith)
        requires
            w >= 1,
            c >= 1,
    ;
    if c == 3 {
        let a = w * h;
        assert((a * 3) % 3 == 0);
    }
}

fn interval_of(setup: &Setup) -> (n: usize)
    ensures
        n == if setup.kernel.anchor_interval == 0 {
            1
        } else {
            setup.kernel.anchor_interval as int
        },
{
    if setup.kernel.anchor_interval == 0 {
        1
    } else {
        setup.kernel.anchor_interval as usize
    }
}

fn quant_for(setup: &Setup, i: usize, Ghost(x): Ghost<Reel>) -> (q: FrameQuant)
    requires
        x.setup == *setup,
    ensures
        q == x.quant(i as int),
{
    fq_for_index(
        i,
        setup.lossy_step(),
        &setup.kernel,
        setup.kernel.deadzone_bias,
        interval_of(setup),
        setup.kernel.q95_perceptual,
    )
}

fn first_code(setup: &Setup, frame: &ImageData) -> (r: CrfResult<(Vec<u8>, bool)>)
    requires
        frame::codable(frame),
    ensures
        match r {
            Ok(v) => reel(setup, frame).first_shot(frame.pixels@) == Ok::<(Seq<u8>, bool), Fault>(
                (v.0@, v.1),
            ) && frame_form::well_framed(v.0@),
            Err(e) => reel(setup, frame).first_shot(frame.pixels@) == Err::<(Seq<u8>, bool), Fault>(
                error::fault(e),
            ),
        },
{
    let ghost x = reel(setup, frame);
    proof {
        lemma_frame_size(frame);
    }
    let c: usize = frame.color_format.component_count();
    let fq: FrameQuant = quant_for(setup, 0, Ghost(x));
    let px: Vec<i32> = if setup.kernel.q95_perceptual && setup.kernel.enabled {
        soften(&frame.pixels)
    } else {
        frame.copy().pixels
    };
    let plain: ImageData = frame.with_pixels(px);
    let ghost p = plain.pixels@;
    assert(p == if x.soft() {
        softened(frame.pixels@)
    } else {
        frame.pixels@
    });
    let mixed: ImageData = frame.with_pixels(colour(plain.copy().pixels, c));
    assert(mixed.pixels@ == coloured(p, x.c()));
    assert(reel(setup, &mixed) == x);
    assert(reel(setup, &plain) == x);
    let a: Vec<u8> = match code_frame(setup, &mixed, true, fq, None) {
        Ok(d) => d,
        Err(e) => {
            return Err(e);
        },
    };
    if c == 3 {
        let b: Vec<u8> = match code_frame(setup, &plain, true, fq, None) {
            Ok(d) => d,
            Err(e) => {
                return Err(e);
            },
        };
        if b.len() < a.len() {
            return Ok((b, true));
        }
    }
    Ok((a, false))
}

/// What frames like `image` are decoded with.
pub fn setting_for(setup: &Setup, image: &ImageData) -> (x: Setting)
    requires
        frame::codable(image),
    ensures
        x == reel(setup, image).setting(),
        x.ok(),
        x.n() == image.pixels@.len(),
{
    proof {
        lemma_frame_size(image);
    }
    Setting {
        ct: setup.ct,
        width: image.width as usize,
        height: image.height as usize,
        components: image.color_format.component_count(),
        mode: setup.mode,
    }
}

fn see(setup: &Setup, image: &ImageData, data: &Vec<u8>, plain: bool) -> (r: CrfResult<Vec<i32>>)
    requires
        frame::codable(image),
    ensures
        error::agrees(r, reel(setup, image).seen(data@, plain)),
        r is Ok ==> r->Ok_0@.len() == image.pixels@.len(),
{
    proof {
        lemma_frame_size(image);
    }
    let x: Setting = setting_for(setup, image);
    match decode_frame(data, x) {
        Err(e) => Err(e),
        Ok(px) => if plain {
            Ok(px)
        } else {
            Ok(uncolour(px, image.color_format.component_count()))
        },
    }
}

/// The frames that a frame may refer to.
pub struct Memory {
    pub golden: Vec<i32>,
    pub previous: Vec<i32>,
    pub before: Option<Vec<i32>>,
}

impl Memory {
    pub open spec fn view(&self) -> Past {
        Past {
            golden: self.golden@,
            previous: self.previous@,
            before: match self.before {
                Some(b) => Some(b@),
                None => None,
            },
        }
    }

    /// Remembers another frame.
    pub fn remember(&mut self, px: Vec<i32>)
        ensures
            final(self)@ == old(self)@.with(px@),
    {
        let mut now: Vec<i32> = px;
        std::mem::swap(&mut self.previous, &mut now);
        self.before = Some(now);
    }
}

/// What coding a first frame gives.
pub open spec fn agrees_open(
    r: CrfResult<(Vec<u8>, bool, Memory)>,
    s: Result<(Seq<u8>, bool, Past), Fault>,
) -> bool {
    match r {
        Ok(v) => s == Ok::<(Seq<u8>, bool, Past), Fault>((v.0@, v.1, v.2@)),
        Err(e) => s == Err::<(Seq<u8>, bool, Past), Fault>(error::fault(e)),
    }
}

/// Codes the first frame, and decodes it again: that is what later frames refer to.
pub fn open_sequence(setup: &Setup, frame: &ImageData) -> (r: CrfResult<(Vec<u8>, bool, Memory)>)
    requires
        frame::codable(frame),
    ensures
        agrees_open(r, reel(setup, frame).opened(frame.pixels@)),
        r is Ok ==> r->Ok_0.2@.sized(frame.pixels@.len() as int) && frame_form::well_framed(
            r->Ok_0.0@,
        ),
{
    let (data, plain): (Vec<u8>, bool) = match first_code(setup, frame) {
        Ok(v) => v,
        Err(e) => {
            return Err(e);
        },
    };
    let golden: Vec<i32> = match see(setup, frame, &data, plain) {
        Ok(v) => v,
        Err(e) => {
            return Err(e);
        },
    };
    let previous: Vec<i32> = golden.clone();
    assert(previous@ =~= golden@);
    Ok((data, plain, Memory { golden, previous, before: None }))
}

/// A difference to the first frame, or a change of illumination of it, as it is coded.
fn prepare(setup: &Setup, frame: &ImageData, reference: &Vec<i32>) -> (d: ImageData)
    requires
        frame::codable(frame),
        reference@.len() == frame.pixels@.len(),
    ensures
        d.shape() == frame.shape(),
        frame::codable(&d),
        d.pixels@ == reel(setup, frame).prepared(frame.pixels@, reference@),
{
    let ghost x = reel(setup, frame);
    proof {
        lemma_frame_size(frame);
    }
    let c: usize = frame.color_format.component_count();
    let (w, h): (usize, usize) = (frame.width as usize, frame.height as usize);
    let diff: Vec<i32> = sub_i32(&frame.pixels, reference);
    let soft: Vec<i32> = if setup.kernel.q95_perceptual && setup.kernel.enabled {
        soften(&diff)
    } else {
        diff
    };
    let calm: Vec<i32> = if setup.kernel.enabled && setup.kernel.noise_adaptive && c == 3 {
        let tau: u16 = setup.kernel.noise_tau_x100;
        let limits: Vec<i64> = estimate_interleaved_band_thresholds(&soft, w, h, c, tau);
        let calm: Vec<i32> = soft_threshold_interleaved(&soft, w, h, c, &limits);
        assert(calm@ =~= noise::denoised(soft@, w * c, h as int, tau)) by {
            noise::lemma_denoised(soft@, w * c, h as int, tau, limits@);
        }
        calm
    } else {
        soft
    };
    frame.with_pixels(colour(calm, c))
}

fn steps_of_bands(setup: &Setup, d: &ImageData, step: u8) -> (r: Option<Vec<u8>>)
    requires
        frame::codable(d),
    ensures
        r is Some <==> reel(setup, d).bands(d.pixels@, step) is Some,
        r is Some ==> reel(setup, d).bands(d.pixels@, step) == Some(r->0@),
{
    proof {
        lemma_frame_size(d);
    }
    let k: &config::KernelLossyConfig = &setup.kernel;
    let c: usize = d.color_format.component_count();
    let (w, h): (usize, usize) = (d.width as usize, d.height as usize);
    if !k.enabled || c != 3 {
        return None;
    }
    if k.activity_masking_x100 != 100 || k.flat_area_protection_x100 != 100
        || k.edge_protection_x100 != 100 {
        let m: Masking = Masking {
            texture_x100: k.activity_masking_x100,
            flat_x100: k.flat_area_protection_x100,
            edge_x100: k.edge_protection_x100,
        };
        Some(estimate_band_activity_steps(&d.pixels, w, h, c, step, m))
    } else if k.noise_adaptive {
        Some(estimate_band_quant_steps(&d.pixels, w, h, c, step, k.noise_tau_x100))
    } else {
        None
    }
}

fn golden_code(setup: &Setup, frame: &ImageData, reference: &Vec<i32>, i: usize) -> (r: CrfResult<
    Vec<u8>,
>)
    requires
        frame::codable(frame),
        reference@.len() == frame.pixels@.len(),
    ensures
        frame::agrees_bytes(
            r,
            reel(setup, frame).golden_shot(frame.pixels@, reference@, i as int),
        ),
        r is Ok ==> frame_form::well_framed(r->Ok_0@),
{
    let ghost x = reel(setup, frame);
    let fq: FrameQuant = quant_for(setup, i, Ghost(x));
    let d: ImageData = prepare(setup, frame, reference);
    assert(reel(setup, &d) == x);
    match steps_of_bands(setup, &d, fq.step) {
        Some(steps) => code_frame(setup, &d, false, fq, Some(&steps)),
        None => code_frame(setup, &d, false, fq, None),
    }
}

/// A coded frame, what it refers to, and the change of illumination of the reference.
pub struct Choice {
    pub data: Vec<u8>,
    pub kind: u8,
    pub a: u8,
    pub b: u8,
}

impl Choice {
    pub open spec fn view(&self) -> Pick {
        Pick { data: self.data@, kind: self.kind, a: self.a, b: self.b }
    }
}

/// What choosing gives.
pub open spec fn agrees_pick(r: CrfResult<Choice>, s: Result<Pick, Fault>) -> bool {
    match r {
        Ok(v) => s == Ok::<Pick, Fault>(v@) && frame_form::well_framed(v.data@),
        Err(e) => s == Err::<Pick, Fault>(error::fault(e)),
    }
}

/// Codes a frame as a difference to the first one, or to a change of illumination of it if that is
/// shorter.
pub fn choose_golden(setup: &Setup, frame: &ImageData, golden: &Vec<i32>, i: usize) -> (r: CrfResult<
    Choice,
>)
    requires
        frame::codable(frame),
        golden@.len() == frame.pixels@.len(),
    ensures
        agrees_pick(r, reel(setup, frame).golden_pick(frame.pixels@, golden@, i as int)),
        r is Ok ==> r->Ok_0.kind == REF_GOLDEN,
{
    let ghost x = reel(setup, frame);
    proof {
        lemma_frame_size(frame);
    }
    let data: Vec<u8> = match golden_code(setup, frame, golden, i) {
        Ok(d) => d,
        Err(e) => {
            return Err(e);
        },
    };
    if setup.switches.lic {
        if let Some(t) = search_lic(golden, &frame.pixels) {
            if t.worthwhile() {
                let reference: Vec<i32> = fit_into(golden, t.a_num, t.b);
                let other: Vec<u8> = match golden_code(setup, frame, &reference, i) {
                    Ok(d) => d,
                    Err(e) => {
                        return Err(e);
                    },
                };
                if other.len() < data.len() {
                    let b: u8 = if t.b < 0 {
                        (t.b + 256) as u8
                    } else {
                        t.b as u8
                    };
                    return Ok(Choice { data: other, kind: REF_GOLDEN, a: t.a_num as u8, b });
                }
            }
        }
    }
    Ok(Choice { data, kind: REF_GOLDEN, a: 0, b: 0 })
}

fn change_of(setup: &Setup, frame: &ImageData, reference: &Vec<i32>, i: usize) -> (d: Vec<i32>)
    requires
        frame::codable(frame),
        reference@.len() == frame.pixels@.len(),
    ensures
        d@ == reel(setup, frame).change(frame.pixels@, reference@, i as int),
        d@.len() == frame.pixels@.len(),
{
    let ghost x = reel(setup, frame);
    proof {
        lemma_frame_size(frame);
    }
    let c: usize = frame.color_format.component_count();
    let (w, h): (usize, usize) = (frame.width as usize, frame.height as usize);
    let len: usize = frame.pixels.len();
    let mut d: Vec<i32> = sub_i32(&frame.pixels, reference);
    let off: bool = match setup.kernel.change_mask {
        ToolMode::Off => true,
        ToolMode::Auto => false,
    };
    if !off {
        let fq: FrameQuant = quant_for(setup, i, Ghost(x));
        let ts: usize = if setup.block_size < 4 {
            4
        } else {
            setup.block_size as usize
        };
        let mask: Vec<bool> = change_mask(
            &frame.pixels,
            reference,
            w,
            h,
            c,
            ts,
            (fq.step / 2) as i32,
        );
        apply_change_mask(&mut d, &mask, w, h, c, ts);
    }
    d
}

fn starts_afresh(setup: &Setup, d: &Vec<i32>, i: usize, Ghost(x): Ghost<Reel>) -> (b: bool)
    requires
        x.setup == *setup,
        1 <= d@.len() <= MAX_SAMPLES,
    ensures
        b == x.cut(d@, i as int),
{
    let k: &config::KernelLossyConfig = &setup.kernel;
    if k.anchor_interval > 0 && i % (k.anchor_interval as usize) == 0 {
        return true;
    }
    let off: bool = match k.scene_cut {
        SceneCutModeV2::Off => true,
        SceneCutModeV2::Auto => false,
    };
    if off {
        return false;
    }
    let n: usize = d.len();
    let (_, m) = noise::sums(d, 0, n);
    assert(d@.subrange(0, n as int) =~= d@);
    m / n as i64 > (k.scene_cut_threshold_x1000 as i64 * 255) / 1000
}

fn change_code(setup: &Setup, frame: &ImageData, reference: &Vec<i32>, i: usize) -> (r: CrfResult<
    Vec<u8>,
>)
    requires
        frame::codable(frame),
        reference@.len() == frame.pixels@.len(),
    ensures
        frame::agrees_bytes(
            r,
            reel(setup, frame).change_shot(frame.pixels@, reference@, i as int),
        ),
        r is Ok ==> frame_form::well_framed(r->Ok_0@),
{
    let ghost x = reel(setup, frame);
    proof {
        lemma_frame_size(frame);
    }
    let fq: FrameQuant = quant_for(setup, i, Ghost(x));
    let d: Vec<i32> = change_of(setup, frame, reference, i);
    let image: ImageData = frame.with_pixels(colour(d, frame.color_format.component_count()));
    assert(reel(setup, &image) == x);
    code_frame(setup, &image, false, fq, None)
}

fn choose_previous(
    setup: &Setup,
    frame: &ImageData,
    memory: &Memory,
    g: Choice,
    i: usize,
) -> (r: CrfResult<Choice>)
    requires
        frame::codable(frame),
        memory@.sized(frame.pixels@.len() as int),
        frame_form::well_framed(g.data@),
    ensures
        agrees_pick(
            r,
            reel(setup, frame).previous_pick(frame.pixels@, memory@, g@, i as int),
        ),
{
    let data: Vec<u8> = match change_code(setup, frame, &memory.previous, i) {
        Ok(d) => d,
        Err(e) => {
            return Err(e);
        },
    };
    let forced: bool = match setup.kernel.reference_mode {
        ReferenceModeV2::Previous => true,
        _ => false,
    };
    if forced || data.len() < g.data.len() {
        Ok(Choice { data, kind: REF_PREVIOUS, a: 0, b: 0 })
    } else {
        Ok(g)
    }
}

fn choose_before(
    setup: &Setup,
    frame: &ImageData,
    memory: &Memory,
    g: Choice,
    i: usize,
) -> (r: CrfResult<Choice>)
    requires
        frame::codable(frame),
        memory@.sized(frame.pixels@.len() as int),
        frame_form::well_framed(g.data@),
    ensures
        agrees_pick(r, reel(setup, frame).before_pick(frame.pixels@, memory@, g@, i as int)),
{
    let hybrid: bool = match setup.kernel.reference_mode {
        ReferenceModeV2::Hybrid => true,
        _ => false,
    };
    if hybrid && g.kind != REF_PREVIOUS {
        if let Some(before) = &memory.before {
            let data: Vec<u8> = match change_code(setup, frame, before, i) {
                Ok(d) => d,
                Err(e) => {
                    return Err(e);
                },
            };
            if data.len() < g.data.len() {
                return Ok(Choice { data, kind: REF_PREV2, a: 0, b: 0 });
            }
        }
    }
    Ok(g)
}

fn choose_reference(setup: &Setup, frame: &ImageData, memory: &Memory, g: Choice, i: usize) -> (r: CrfResult<
    Choice,
>)
    requires
        frame::codable(frame),
        memory@.sized(frame.pixels@.len() as int),
        frame_form::well_framed(g.data@),
    ensures
        agrees_pick(r, reel(setup, frame).picked(frame.pixels@, memory@, g@, i as int)),
{
    let ghost x = reel(setup, frame);
    proof {
        lemma_frame_size(frame);
    }
    let golden: bool = match setup.kernel.reference_mode {
        ReferenceModeV2::Golden => true,
        _ => false,
    };
    if golden {
        return Ok(g);
    }
    let d: Vec<i32> = change_of(setup, frame, &memory.previous, i);
    if starts_afresh(setup, &d, i, Ghost(x)) {
        return Ok(g);
    }
    match choose_previous(setup, frame, memory, g, i) {
        Ok(p) => choose_before(setup, frame, memory, p, i),
        Err(e) => Err(e),
    }
}

/// What coding a later frame gives, where `past` is remembered.
pub open spec fn agrees_follow(
    r: CrfResult<(Vec<u8>, Vec<i32>)>,
    s: Result<(Seq<u8>, Past), Fault>,
    past: Past,
) -> bool {
    match r {
        Ok(v) => s == Ok::<(Seq<u8>, Past), Fault>((v.0@, past.with(v.1@))),
        Err(e) => s == Err::<(Seq<u8>, Past), Fault>(error::fault(e)),
    }
}

/// Codes frame `i`, given its code as a difference to the first frame. Returns the code, and the
/// frame as a decoder has it.
pub fn join_frame(setup: &Setup, frame: &ImageData, memory: &Memory, g: Choice, i: usize) -> (r:
    CrfResult<(Vec<u8>, Vec<i32>)>)
    requires
        frame::codable(frame),
        memory@.sized(frame.pixels@.len() as int),
        frame_form::well_framed(g.data@),
        g.kind == REF_GOLDEN,
    ensures
        agrees_follow(
            r,
            reel(setup, frame).joined(frame.pixels@, memory@, g@, i as int),
            memory@,
        ),
        r is Ok ==> r->Ok_0.1@.len() == frame.pixels@.len(),
{
    let ghost x = reel(setup, frame);
    let ghost past = memory@;
    let choice: Choice = match choose_reference(setup, frame, memory, g, i) {
        Ok(c) => c,
        Err(e) => {
            return Err(e);
        },
    };
    let ghost pick = choice@;
    let mut data: Vec<u8> = choice.data;
    data.set(11, choice.kind);
    data.set(12, choice.a);
    data.set(13, choice.b);
    assert(data@ =~= pick.signed());
    let d: Vec<i32> = match see(setup, frame, &data, false) {
        Ok(v) => v,
        Err(e) => {
            return Err(e);
        },
    };
    proof {
        lemma_kind(x, frame.pixels@, past, g@, i as int);
    }
    let now: Vec<i32> = if choice.kind == REF_PREV2 {
        match &memory.before {
            Some(b) => add_i32(b, &d),
            None => Vec::new(),
        }
    } else if choice.kind == REF_PREVIOUS {
        add_i32(&memory.previous, &d)
    } else {
        add_i32(&apply_lic_weighted(&memory.golden, choice.a, choice.b), &d)
    };
    assert(now@ == arith::add_spec(pick.base(past), x.seen(data@, false)->Ok_0));
    Ok((data, now))
}

/// A frame that refers to the one before the previous has it.
pub proof fn lemma_kind(x: Reel, px: Seq<i32>, past: Past, g: Pick, i: int)
    requires
        g.kind != REF_PREV2,
    ensures
        ({
            let r = x.picked(px, past, g, i);
            r is Ok && r->Ok_0.kind == REF_PREV2 ==> past.before is Some
        }),
{
}

/// Codes frame `i`. Returns the code, and the frame as a decoder has it.
pub fn follow_frame(setup: &Setup, frame: &ImageData, memory: &Memory, i: usize) -> (r: CrfResult<
    (Vec<u8>, Vec<i32>),
>)
    requires
        frame::codable(frame),
        memory@.sized(frame.pixels@.len() as int),
    ensures
        agrees_follow(
            r,
            reel(setup, frame).followed(frame.pixels@, memory@, i as int),
            memory@,
        ),
        r is Ok ==> r->Ok_0.1@.len() == frame.pixels@.len(),
{
    match choose_golden(setup, frame, &memory.golden, i) {
        Ok(g) => join_frame(setup, frame, memory, g, i),
        Err(e) => Err(e),
    }
}

/// The step of frame `i`: none where nothing is lost, that of the first frame, that of anchors, which
/// come at regular intervals, or that of the sequence.
pub proof fn law_frame_step(x: Reel, i: int)
    requires
        i >= 0,
        x.setup.kernel.anchor_interval >= 1,
    ensures
        ({
            let k = x.setup.kernel;
            let q = x.quant(i);
            &&& !k.enabled || k.global_step == 0 ==> !q.spec_lossy()
            &&& k.enabled && k.global_step > 0 ==> {
                &&& i == 0 ==> q.step == k.first_frame_step
                &&& i > 0 && i % k.anchor_interval as int == 0 ==> q.step == k.anchor_step
                &&& i % k.anchor_interval as int != 0 ==> q.step == k.global_step
            }
            &&& q.step == 0 ==> !q.spec_lossy()
            &&& q.step > 0 ==> q.bias == k.deadzone_bias && q.chroma_bias == k.chroma_deadzone_bias
                && q.chroma_half_res == k.chroma_half_res && q.chroma_step >= q.step
        }),
{
    let k = x.setup.kernel;
    batch::law_quant_of_index(
        i,
        x.setup.spec_step(),
        k,
        k.deadzone_bias,
        k.anchor_interval as int,
        k.q95_perceptual,
    );
}

/// Setting tiles that hardly changed to zero costs no more than half a step: each difference that is
/// coded is within half a step of the difference to the frame it refers to, and is that difference
/// where it is larger, or where changes are not looked for.
pub proof fn law_change_close(x: Reel, px: Seq<i32>, reference: Seq<i32>, i: int, k: int)
    requires
        x.ok(),
        px.len() == x.n(),
        reference.len() == x.n(),
        0 <= k < x.n(),
        i32::MIN <= px[k] - reference[k] <= i32::MAX,
    ensures
        ({
            let d = x.change(px, reference, i);
            let s = x.quant(i).step as int;
            &&& d.len() == px.len()
            &&& -s <= 2 * (d[k] - (px[k] - reference[k])) <= s
            &&& d[k] == px[k] - reference[k] || d[k] == 0
            &&& 2 * (px[k] - reference[k]) > s + 1 ==> d[k] == px[k] - reference[k]
            &&& 2 * (px[k] - reference[k]) < -s - 1 ==> d[k] == px[k] - reference[k]
            &&& x.setup.kernel.change_mask == ToolMode::Off ==> d[k] == px[k] - reference[k]
        }),
{
    let d = arith::sub_spec(px, reference);
    let (w, h, c) = (x.w(), x.h(), x.c());
    assert(w * h * c == h * (w * c)) by (nonlinear_arith);
    let t = (x.quant(i).step / 2) as i32;
    sequence_tools::law_masked_close(px, reference, w, h, c, x.tile(), t, d, k);
}

/// A sequence starts afresh at anchors; where cuts are looked for, also where a frame differs from the
/// one before by more on average than the part of the full range that is the limit, and not where all
/// samples differ by less.
pub proof fn law_cut(x: Reel, d: Seq<i32>, i: int, m: int)
    requires
        d.len() >= 1,
        i >= 1,
        m >= 0,
    ensures
        ({
            let k = x.setup.kernel;
            let anchor = k.anchor_interval > 0 && i % k.anchor_interval as int == 0;
            let limit = k.scene_cut_threshold_x1000 as int * 255;
            &&& anchor ==> x.cut(d, i)
            &&& !anchor && k.scene_cut == SceneCutModeV2::Off ==> !x.cut(d, i)
            &&& !anchor && (forall|j: int| 0 <= j < d.len() ==> -m <= #[trigger] d[j] <= m) && 1000
                * m <= limit ==> !x.cut(d, i)
            &&& k.scene_cut != SceneCutModeV2::Off && (forall|j: int|
                0 <= j < d.len() ==> !(-m < #[trigger] d[j] < m)) && 1000 * m > limit ==> x.cut(d, i)
        }),
{
    let n = d.len() as int;
    let t = noise::total_mag(d);
    let k = x.setup.kernel;
    let limit = k.scene_cut_threshold_x1000 as int * 255;
    assert((k.scene_cut_threshold_x1000 * 255) == limit);
    if (forall|j: int| 0 <= j < d.len() ==> -m <= #[trigger] d[j] <= m) && 1000 * m <= limit {
        assert forall|j: int| 0 <= j < d.len() implies (0 <= #[trigger] d[j] <= m || 0 <= -d[j]
            <= m) by {
            assert(-m <= d[j] <= m);
        }
        noise::law_total_mag(d, 0, m);
        vstd::arithmetic::div_mod::lemma_div_is_ordered(t, m * n, n);
        vstd::arithmetic::div_mod::lemma_div_multiples_vanish(m, n);
        assert(n * m == m * n) by (nonlinear_arith);
    }
    if (forall|j: int| 0 <= j < d.len() ==> !(-m < #[trigger] d[j] < m)) && 1000 * m > limit {
        assert forall|j: int| 0 <= j < d.len() implies (m <= #[trigger] d[j] <= 0x8000_0000 || m
            <= -d[j] <= 0x8000_0000) by {
            assert(!(-m < d[j] < m));
        }
        noise::law_total_mag(d, m, 0x8000_0000);
        vstd::arithmetic::div_mod::lemma_div_is_ordered(m * n, t, n);
        vstd::arithmetic::div_mod::lemma_div_multiples_vanish(m, n);
        assert(n * m == m * n) by (nonlinear_arith);
    }
}

/// Which code a frame gets: that of the difference to the first frame where every frame refers to that,
/// and after a cut; where frames refer to the one before, that; else the shortest of these, and of the
/// difference to the frame before the previous one where the previous one does not win.
pub proof fn law_picked(x: Reel, px: Seq<i32>, past: Past, g: Pick, i: int)
    requires
        x.picked(px, past, g, i) is Ok,
        g.kind == REF_GOLDEN,
    ensures
        ({
            let p = x.picked(px, past, g, i)->Ok_0;
            let mode = x.setup.kernel.reference_mode;
            let cut = x.cut(x.change(px, past.previous, i), i);
            let (a, b) = (x.change_shot(px, past.previous, i), x.change_shot(px, past.before->0, i));
            &&& mode == ReferenceModeV2::Golden ==> p == g
            &&& cut ==> p == g
            &&& mode == ReferenceModeV2::Previous && !cut ==> a is Ok && p.kind == REF_PREVIOUS
                && p.data == a->Ok_0
            &&& mode == ReferenceModeV2::Hybrid && !cut ==> {
                &&& p.data.len() <= g.data.len()
                &&& a is Ok && p.data.len() <= a->Ok_0.len()
                &&& past.before is Some && p.kind != REF_PREVIOUS ==> b is Ok && p.data.len()
                    <= b->Ok_0.len()
            }
            &&& p.kind == REF_PREVIOUS ==> a is Ok && p.data == a->Ok_0
            &&& p.kind == REF_PREV2 ==> past.before is Some && b is Ok && p.data == b->Ok_0
            &&& p.kind == REF_GOLDEN ==> p == g
            &&& p.kind == REF_GOLDEN || p.kind == REF_PREVIOUS || p.kind == REF_PREV2
        }),
{
}

/// The code that refers to the first frame is the shorter of those with and without a change of
/// illumination, which competes where it pays.
pub proof fn law_golden_pick(x: Reel, px: Seq<i32>, golden: Seq<i32>, i: int)
    requires
        x.golden_pick(px, golden, i) is Ok,
    ensures
        ({
            let p = x.golden_pick(px, golden, i)->Ok_0;
            let d = x.golden_shot(px, golden, i);
            let t = lic::search(golden, px);
            let e = x.golden_shot(
                px,
                arith::lic_spec(golden, t->0.a_num as int, t->0.b as int),
                i,
            );
            &&& d is Ok && p.data.len() <= d->Ok_0.len()
            &&& p.kind == REF_GOLDEN
            &&& p.a == 0 ==> p.data == d->Ok_0
            &&& x.setup.switches.lic && t is Some && t->0.pays() ==> e is Ok && p.data.len()
                <= e->Ok_0.len()
            &&& p.data.len() < d->Ok_0.len() ==> x.setup.switches.lic && t is Some && t->0.pays()
                && p.data == e->Ok_0
        }),
{
    if golden.len() != 0 && golden.len() == px.len() {
        lic::lemma_best_fit(
            golden,
            px,
            lic::looked_at(golden.len() as int) as nat,
            lic::LIC_A_COUNT as nat,
        );
    }
}

} // verus!
