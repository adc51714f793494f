//! What an encoder is told, and what follows from it.

use vstd::prelude::*;
use crate::common::domain::{ColorFormat, CompressionType, CrfHeader, Flags, PredictionMode};
use crate::common::error::{invalid, CrfError, CrfResult};

verus! {

/// What a frame may refer to.
#[derive(Clone, Copy, PartialEq, Eq, Debug, Structural)]
pub enum ReferenceModeV2 {
    /// The first frame.
    Golden,
    /// The frame before.
    Previous,
    /// Whichever of the first frame and the two before makes it shortest.
    Hybrid,
}

/// Whether a tool is used.
#[derive(Clone, Copy, PartialEq, Eq, Debug, Structural)]
pub enum ToolMode {
    Off,
    Auto,
}

/// Whether changes of scene are looked for.
#[derive(Clone, Copy, PartialEq, Eq, Debug, Structural)]
pub enum SceneCutModeV2 {
    Off,
    Auto,
}

/// How frames refer to each other.
#[derive(Clone, Copy, PartialEq, Eq, Debug, Structural)]
pub struct TemporalOptions {
    pub reference_mode: ReferenceModeV2,
    pub change_mask: ToolMode,
    pub scene_cut: SceneCutModeV2,
    pub scene_cut_threshold_x1000: u16,
    pub anchor_interval: u16,
}

/// How much noise and texture count.
#[derive(Clone, Copy, PartialEq, Eq, Debug, Structural)]
pub struct PerceptualOptions {
    pub noise_adaptive: bool,
    pub noise_tau_x100: u16,
    pub activity_masking_x100: u16,
    pub flat_area_protection_x100: u16,
    pub edge_protection_x100: u16,
}

/// Limits on the length of the file.
#[derive(Clone, Copy, Debug)]
pub struct RateOptions {
    pub max_bytes: Option<u64>,
    pub target_bytes: Option<u64>,
}

/// What a lossy encoder is told.
#[derive(Clone, Copy, Debug)]
pub struct LossyOptionsV2 {
    /// Quality in hundredths of a percent.
    pub quality_x100: u16,
    /// By how much the quality of the first frame is lower, in hundredths of a percent.
    pub first_frame_offset_x100: i16,
    /// Whether the first frame is kept without loss.
    pub golden_lossless: bool,
    pub deadzone_bias: i8,
    pub chroma_deadzone_bias: i8,
    pub chroma_half_res: bool,
    pub temporal: TemporalOptions,
    pub perceptual: PerceptualOptions,
    pub rate: RateOptions,
}

/// Builds lossy options.
#[derive(Clone, Copy, Debug)]
pub struct LossyOptionsV2Builder {
    options: LossyOptionsV2,
}

/// How the rounding of luma is shifted, if nothing else is asked for.
pub const LUMA_BIAS: i8 = 4;

/// How the rounding of chroma is shifted, if nothing else is asked for.
pub const CHROMA_BIAS: i8 = -4;

/// Largest quality.
pub const QUALITY_MAX: u16 = 10000;

impl LossyOptionsV2 {
    /// The options that go with a quality.
    pub open spec fn preset(quality_x100: u16) -> LossyOptionsV2 {
        LossyOptionsV2 {
            quality_x100,
            first_frame_offset_x100: 0,
            golden_lossless: false,
            deadzone_bias: LUMA_BIAS,
            chroma_deadzone_bias: CHROMA_BIAS,
            chroma_half_res: true,
            temporal: TemporalOptions {
                reference_mode: ReferenceModeV2::Hybrid,
                change_mask: ToolMode::Auto,
                scene_cut: SceneCutModeV2::Auto,
                scene_cut_threshold_x1000: 120,
                anchor_interval: 12,
            },
            perceptual: PerceptualOptions {
                noise_adaptive: false,
                noise_tau_x100: 100,
                activity_masking_x100: 100,
                flat_area_protection_x100: 100,
                edge_protection_x100: 100,
            },
            rate: RateOptions { max_bytes: None, target_bytes: None },
        }
    }

    /// Starts from the options that go with a quality.
    pub fn builder_preset(quality_x100: u16) -> (b: LossyOptionsV2Builder)
        ensures
            b@ == LossyOptionsV2::preset(quality_x100),
    {
        LossyOptionsV2Builder {
            options: LossyOptionsV2 {
                quality_x100,
                first_frame_offset_x100: 0,
                golden_lossless: false,
                deadzone_bias: LUMA_BIAS,
                chroma_deadzone_bias: CHROMA_BIAS,
                chroma_half_res: true,
                temporal: TemporalOptions {
                    reference_mode: ReferenceModeV2::Hybrid,
                    change_mask: ToolMode::Auto,
                    scene_cut: SceneCutModeV2::Auto,
                    scene_cut_threshold_x1000: 120,
                    anchor_interval: 12,
                },
                perceptual: PerceptualOptions {
                    noise_adaptive: false,
                    noise_tau_x100: 100,
                    activity_masking_x100: 100,
                    flat_area_protection_x100: 100,
                    edge_protection_x100: 100,
                },
                rate: RateOptions { max_bytes: None, target_bytes: None },
            },
        }
    }
}

impl LossyOptionsV2Builder {
    pub closed spec fn view(&self) -> LossyOptionsV2 {
        self.options
    }

    /// Sets what a frame may refer to.
    pub fn reference_mode(self, mode: ReferenceModeV2) -> (b: LossyOptionsV2Builder)
        ensures
            b@ == (LossyOptionsV2 {
                temporal: TemporalOptions { reference_mode: mode, ..self@.temporal },
                ..self@
            }),
    {
        let mut o: LossyOptionsV2 = self.options;
        o.temporal.reference_mode = mode;
        LossyOptionsV2Builder { options: o }
    }

    /// Sets by how much the quality of the first frame is lower.
    pub fn first_frame_offset(self, offset_x100: i16) -> (b: LossyOptionsV2Builder)
        ensures
            b@ == (LossyOptionsV2 { first_frame_offset_x100: offset_x100, ..self@ }),
    {
        let mut o: LossyOptionsV2 = self.options;
        o.first_frame_offset_x100 = offset_x100;
        LossyOptionsV2Builder { options: o }
    }

    /// The options, if the quality is one.
    pub fn build(self) -> (r: CrfResult<LossyOptionsV2>)
        ensures
            self@.quality_x100 <= QUALITY_MAX ==> r is Ok && r->Ok_0 == self@,
            self@.quality_x100 > QUALITY_MAX ==> r is Err && r->Err_0 is InvalidCodingParams,
    {
        if self.options.quality_x100 > QUALITY_MAX {
            return Err(invalid("quality"));
        }
        Ok(self.options)
    }
}

/// Fine tuning that goes with a quality in percent.
#[derive(Clone, Copy, PartialEq, Eq, Debug, Structural)]
pub struct LossyTuning {
    /// Whether chroma planes are halved in both directions.
    pub chroma_half_res: bool,
    /// Whether the first frame is kept without loss.
    pub golden_lossless: bool,
    /// Whether noise is filtered.
    pub noise_adaptive: bool,
    /// How much noise is filtered, in percent of the mean magnitude.
    pub noise_tau_x100: u16,
    /// Frames from one anchor to the next.
    pub keyframe_interval: u16,
    /// How the rounding of luma is shifted.
    pub deadzone_bias: i8,
    /// How the rounding of chroma is shifted, if not like that of luma.
    pub chroma_deadzone_bias: Option<i8>,
}

impl Default for LossyTuning {
    fn default() -> (t: LossyTuning)
        ensures
            t == default_tuning(),
    {
        LossyTuning {
            chroma_half_res: true,
            golden_lossless: true,
            noise_adaptive: false,
            noise_tau_x100: 100,
            keyframe_interval: 12,
            deadzone_bias: LUMA_BIAS,
            chroma_deadzone_bias: Some(CHROMA_BIAS),
        }
    }
}

pub open spec fn default_tuning() -> LossyTuning {
    LossyTuning {
        chroma_half_res: true,
        golden_lossless: true,
        noise_adaptive: false,
        noise_tau_x100: 100,
        keyframe_interval: 12,
        deadzone_bias: LUMA_BIAS,
        chroma_deadzone_bias: Some(CHROMA_BIAS),
    }
}

/// What an encoder is told.
#[derive(Debug)]
pub struct EncodeParams {
    /// Name of the way residuals are coded.
    pub compression_type: String,
    pub block_size: Option<u8>,
    pub prediction_mode: PredictionMode,
    /// Whether ways to code a frame compete.
    pub adaptive_prediction: bool,
    /// Quality in percent, for loss.
    pub lossy_quality: Option<u8>,
    pub lossy_tuning: Option<LossyTuning>,
    /// Options for loss; they come before the quality in percent.
    pub lossy: Option<LossyOptionsV2>,
    /// Whether frames are images, or the first an image and the others differences.
    pub input_original_frames: bool,
    pub user_metadata: Option<String>,
}

impl EncodeParams {
    pub open spec fn same(&self, o: &EncodeParams) -> bool {
        &&& self.compression_type@ == o.compression_type@
        &&& self.block_size == o.block_size
        &&& self.prediction_mode == o.prediction_mode
        &&& self.adaptive_prediction == o.adaptive_prediction
        &&& self.lossy_quality == o.lossy_quality
        &&& self.lossy_tuning == o.lossy_tuning
        &&& self.lossy == o.lossy
        &&& self.input_original_frames == o.input_original_frames
    }
}

impl Clone for EncodeParams {
    fn clone(&self) -> (p: EncodeParams)
        ensures
            p.same(self),
    {
        EncodeParams {
            compression_type: self.compression_type.clone(),
            block_size: self.block_size,
            prediction_mode: self.prediction_mode,
            adaptive_prediction: self.adaptive_prediction,
            lossy_quality: self.lossy_quality,
            lossy_tuning: self.lossy_tuning,
            lossy: self.lossy,
            input_original_frames: self.input_original_frames,
            user_metadata: match &self.user_metadata {
                Some(s) => Some(s.clone()),
                None => None,
            },
        }
    }
}

/// Lossy options as the encoder works with them.
#[derive(Clone, Copy, Debug)]
pub struct KernelLossyConfig {
    pub enabled: bool,
    pub global_step: u8,
    pub first_frame_step: u8,
    pub anchor_step: u8,
    pub anchor_interval: u16,
    pub deadzone_bias: i8,
    pub chroma_deadzone_bias: i8,
    pub chroma_half_res: bool,
    pub q95_perceptual: bool,
    pub noise_adaptive: bool,
    pub noise_tau_x100: u16,
    pub activity_masking_x100: u16,
    pub flat_area_protection_x100: u16,
    pub edge_protection_x100: u16,
    pub reference_mode: ReferenceModeV2,
    pub change_mask: ToolMode,
    pub scene_cut: SceneCutModeV2,
    pub scene_cut_threshold_x1000: u16,
    pub rate: RateOptions,
}

/// The step that goes with a quality in hundredths of a percent.
pub open spec fn step_of_quality(q: int) -> u8 {
    if q >= QUALITY_MAX {
        0
    } else if q <= 0 {
        20
    } else {
        ((QUALITY_MAX - q) / 500) as u8
    }
}

/// The step that goes with a quality in hundredths of a percent.
pub fn step_of_quality_exec(q: i32) -> (s: u8)
    ensures
        s == step_of_quality(q as int),
{
    if q >= QUALITY_MAX as i32 {
        0
    } else if q <= 0 {
        20
    } else {
        ((QUALITY_MAX as i32 - q) / 500) as u8
    }
}

/// A step is the part of the way from full quality in units of five percent: none at full quality, 20
/// at none, and never larger for a higher quality.
pub proof fn law_step_of_quality(p: int, q: int)
    requires
        p <= q,
    ensures
        step_of_quality(p) >= step_of_quality(q),
        0 < q < 10000 ==> 500 * step_of_quality(q) <= 10000 - q < 500 * (step_of_quality(q) + 1),
        q >= 10000 ==> step_of_quality(q) == 0,
        q <= 0 ==> step_of_quality(q) == 20,
        step_of_quality(q) <= 20,
{
}

/// The step of chroma is thirty percent more than that of luma, to the nearest, never finer, and
/// coarser the coarser that of luma is.
pub proof fn law_chroma_step(a: u8, b: u8)
    requires
        a <= b,
    ensures
        chroma_step_of(a) <= chroma_step_of(b),
        chroma_step_of(a) >= a,
        chroma_step_of(a) < 255 ==> -50 <= 100 * chroma_step_of(a) - 130 * a <= 50,
{
}

/// A higher quality never makes the frames of a sequence coarser, whatever else is asked for; full
/// quality loses nothing, and a quality of 95 percent or less loses something.
pub proof fn law_quality_helps(o: LossyOptionsV2, q: u16)
    requires
        o.quality_x100 <= q <= 10000,
        o.first_frame_offset_x100 >= 0,
    ensures
        ({
            let a = KernelLossyConfig::spec_from_options(o);
            let b = KernelLossyConfig::spec_from_options(LossyOptionsV2 { quality_x100: q, ..o });
            &&& a.global_step >= b.global_step
            &&& a.anchor_step >= b.anchor_step
            &&& a.first_frame_step >= b.first_frame_step
            &&& q == 10000 ==> !b.enabled && b.global_step == 0 && b.anchor_step == 0
                && b.first_frame_step == 0
            &&& q <= 9500 ==> b.enabled && b.global_step >= 1 && b.anchor_step >= 1
            &&& o.golden_lossless ==> a.first_frame_step == 0
            &&& !o.golden_lossless && a.enabled ==> a.first_frame_step >= a.global_step
        }),
{
    law_step_of_quality(o.quality_x100 as int, q as int);
    law_step_of_quality(
        o.quality_x100 - o.first_frame_offset_x100,
        q - o.first_frame_offset_x100,
    );
    law_step_of_quality(o.quality_x100 - o.first_frame_offset_x100, o.quality_x100 as int);
}

/// What options ask for besides the quality is done as it is asked for, where something is lost.
pub proof fn law_options_kept(o: LossyOptionsV2)
    requires
        o.quality_x100 <= 9500,
    ensures
        ({
            let k = KernelLossyConfig::spec_from_options(o);
            &&& k.enabled
            &&& k.anchor_step == k.global_step
            &&& k.anchor_interval == o.temporal.anchor_interval
            &&& k.deadzone_bias == o.deadzone_bias
            &&& k.chroma_deadzone_bias == o.chroma_deadzone_bias
            &&& k.chroma_half_res == o.chroma_half_res
            &&& k.q95_perceptual <==> o.quality_x100 > 9000
            &&& k.noise_adaptive == o.perceptual.noise_adaptive
            &&& k.noise_tau_x100 == o.perceptual.noise_tau_x100
            &&& k.activity_masking_x100 == o.perceptual.activity_masking_x100
            &&& k.flat_area_protection_x100 == o.perceptual.flat_area_protection_x100
            &&& k.edge_protection_x100 == o.perceptual.edge_protection_x100
            &&& k.reference_mode == o.temporal.reference_mode
            &&& k.change_mask == o.temporal.change_mask
            &&& k.scene_cut == o.temporal.scene_cut
            &&& k.scene_cut_threshold_x1000 == o.temporal.scene_cut_threshold_x1000
            &&& k.rate == o.rate
        }),
{
}

/// The step of chroma that goes with a step of luma: thirty percent more.
pub open spec fn chroma_step_of(step: u8) -> u8 {
    let v = (step * 130 + 50) / 100;
    if v > 255 {
        255
    } else {
        v as u8
    }
}

impl KernelLossyConfig {
    pub open spec fn spec_lossless() -> KernelLossyConfig {
        KernelLossyConfig {
            enabled: false,
            global_step: 0,
            first_frame_step: 0,
            anchor_step: 0,
            anchor_interval: 0,
            deadzone_bias: 0,
            chroma_deadzone_bias: 0,
            chroma_half_res: false,
            q95_perceptual: false,
            noise_adaptive: false,
            noise_tau_x100: 100,
            activity_masking_x100: 100,
            flat_area_protection_x100: 100,
            edge_protection_x100: 100,
            reference_mode: ReferenceModeV2::Golden,
            change_mask: ToolMode::Off,
            scene_cut: SceneCutModeV2::Off,
            scene_cut_threshold_x1000: 0,
            rate: RateOptions { max_bytes: None, target_bytes: None },
        }
    }

    /// Nothing is lost.
    pub fn lossless() -> (k: KernelLossyConfig)
        ensures
            k == KernelLossyConfig::spec_lossless(),
    {
        KernelLossyConfig {
            enabled: false,
            global_step: 0,
            first_frame_step: 0,
            anchor_step: 0,
            anchor_interval: 0,
            deadzone_bias: 0,
            chroma_deadzone_bias: 0,
            chroma_half_res: false,
            q95_perceptual: false,
            noise_adaptive: false,
            noise_tau_x100: 100,
            activity_masking_x100: 100,
            flat_area_protection_x100: 100,
            edge_protection_x100: 100,
            reference_mode: ReferenceModeV2::Golden,
            change_mask: ToolMode::Off,
            scene_cut: SceneCutModeV2::Off,
            scene_cut_threshold_x1000: 0,
            rate: RateOptions { max_bytes: None, target_bytes: None },
        }
    }

    /// The step of chroma that goes with a step of luma.
    pub fn chroma_step(&self, step: u8) -> (s: u8)
        ensures
            s == chroma_step_of(step),
    {
        let v: u32 = (step as u32 * 130 + 50) / 100;
        if v > 255 {
            255
        } else {
            v as u8
        }
    }

    /// The configuration that options ask for.
    pub open spec fn spec_from_options(o: LossyOptionsV2) -> KernelLossyConfig {
        let step = step_of_quality(o.quality_x100 as int);
        if step == 0 {
            KernelLossyConfig::spec_lossless()
        } else {
            KernelLossyConfig {
                enabled: true,
                global_step: step,
                first_frame_step: if o.golden_lossless {
                    0
                } else {
                    step_of_quality(o.quality_x100 - o.first_frame_offset_x100)
                },
                anchor_step: step,
                anchor_interval: o.temporal.anchor_interval,
                deadzone_bias: o.deadzone_bias,
                chroma_deadzone_bias: o.chroma_deadzone_bias,
                chroma_half_res: o.chroma_half_res,
                q95_perceptual: step == 1,
                noise_adaptive: o.perceptual.noise_adaptive,
                noise_tau_x100: o.perceptual.noise_tau_x100,
                activity_masking_x100: o.perceptual.activity_masking_x100,
                flat_area_protection_x100: o.perceptual.flat_area_protection_x100,
                edge_protection_x100: o.perceptual.edge_protection_x100,
                reference_mode: o.temporal.reference_mode,
                change_mask: o.temporal.change_mask,
                scene_cut: o.temporal.scene_cut,
                scene_cut_threshold_x1000: o.temporal.scene_cut_threshold_x1000,
                rate: o.rate,
            }
        }
    }

    /// The configuration that options ask for; without options, nothing is lost.
    pub fn from_options(options: Option<LossyOptionsV2>) -> (r: CrfResult<KernelLossyConfig>)
        ensures
            r is Err <==> options is Some && options->0.quality_x100 > QUALITY_MAX,
            r is Err ==> r->Err_0 is InvalidCodingParams,
            r is Ok ==> r->Ok_0 == match options {
                Some(o) => KernelLossyConfig::spec_from_options(o),
                None => KernelLossyConfig::spec_lossless(),
            },
    {
        let o: LossyOptionsV2 = match options {
            Some(o) => o,
            None => {
                return Ok(KernelLossyConfig::lossless());
            },
        };
        if o.quality_x100 > QUALITY_MAX {
            return Err(invalid("quality"));
        }
        let step: u8 = step_of_quality_exec(o.quality_x100 as i32);
        if step == 0 {
            return Ok(KernelLossyConfig::lossless());
        }
        Ok(
            KernelLossyConfig {
                enabled: true,
                global_step: step,
                first_frame_step: if o.golden_lossless {
                    0
                } else {
                    step_of_quality_exec(o.quality_x100 as i32 - o.first_frame_offset_x100 as i32)
                },
                anchor_step: step,
                anchor_interval: o.temporal.anchor_interval,
                deadzone_bias: o.deadzone_bias,
                chroma_deadzone_bias: o.chroma_deadzone_bias,
                chroma_half_res: o.chroma_half_res,
                q95_perceptual: step == 1,
                noise_adaptive: o.perceptual.noise_adaptive,
                noise_tau_x100: o.perceptual.noise_tau_x100,
                activity_masking_x100: o.perceptual.activity_masking_x100,
                flat_area_protection_x100: o.perceptual.flat_area_protection_x100,
                edge_protection_x100: o.perceptual.edge_protection_x100,
                reference_mode: o.temporal.reference_mode,
                change_mask: o.temporal.change_mask,
                scene_cut: o.temporal.scene_cut,
                scene_cut_threshold_x1000: o.temporal.scene_cut_threshold_x1000,
                rate: o.rate,
            },
        )
    }
}

/// The options that a quality in percent and its tuning stand for: frames refer to the first one.
pub open spec fn options_of_quality(q: u8, t: LossyTuning) -> LossyOptionsV2 {
    let p = LossyOptionsV2::preset(
        if q >= 100 {
            QUALITY_MAX
        } else {
            (q * 100) as u16
        },
    );
    LossyOptionsV2 {
        golden_lossless: t.golden_lossless,
        deadzone_bias: t.deadzone_bias,
        chroma_deadzone_bias: match t.chroma_deadzone_bias {
            Some(b) => b,
            None => t.deadzone_bias,
        },
        chroma_half_res: t.chroma_half_res,
        temporal: TemporalOptions {
            reference_mode: ReferenceModeV2::Golden,
            change_mask: ToolMode::Off,
            scene_cut: SceneCutModeV2::Off,
            anchor_interval: t.keyframe_interval,
            ..p.temporal
        },
        perceptual: PerceptualOptions {
            noise_adaptive: t.noise_adaptive,
            noise_tau_x100: t.noise_tau_x100,
            ..p.perceptual
        },
        ..p
    }
}

fn options_of_quality_exec(q: u8, t: LossyTuning) -> (o: LossyOptionsV2)
    ensures
        o == options_of_quality(q, t),
{
    let mut o: LossyOptionsV2 = LossyOptionsV2::builder_preset(
        if q >= 100 {
            QUALITY_MAX
        } else {
            q as u16 * 100
        },
    ).options;
    o.golden_lossless = t.golden_lossless;
    o.deadzone_bias = t.deadzone_bias;
    o.chroma_deadzone_bias = match t.chroma_deadzone_bias {
        Some(b) => b,
        None => t.deadzone_bias,
    };
    o.chroma_half_res = t.chroma_half_res;
    o.temporal.reference_mode = ReferenceModeV2::Golden;
    o.temporal.change_mask = ToolMode::Off;
    o.temporal.scene_cut = SceneCutModeV2::Off;
    o.temporal.anchor_interval = t.keyframe_interval;
    o.perceptual.noise_adaptive = t.noise_adaptive;
    o.perceptual.noise_tau_x100 = t.noise_tau_x100;
    o
}

/// A quality in percent is that quality, with what the tuning asks for; every frame is a difference to
/// the first one.
pub proof fn law_percent(q: u8, t: LossyTuning)
    ensures
        ({
            let o = options_of_quality(q, t);
            &&& q <= 100 ==> o.quality_x100 == 100 * q
            &&& q > 100 ==> o.quality_x100 == 10000
            &&& o.first_frame_offset_x100 == 0
            &&& o.golden_lossless == t.golden_lossless
            &&& o.chroma_half_res == t.chroma_half_res
            &&& o.deadzone_bias == t.deadzone_bias
            &&& t.chroma_deadzone_bias is Some ==> o.chroma_deadzone_bias
                == t.chroma_deadzone_bias->0
            &&& t.chroma_deadzone_bias is None ==> o.chroma_deadzone_bias == t.deadzone_bias
            &&& o.temporal.anchor_interval == t.keyframe_interval
            &&& o.temporal.reference_mode == ReferenceModeV2::Golden
            &&& o.temporal.change_mask == ToolMode::Off
            &&& o.temporal.scene_cut == SceneCutModeV2::Off
            &&& o.perceptual.noise_adaptive == t.noise_adaptive
            &&& o.perceptual.noise_tau_x100 == t.noise_tau_x100
            &&& o.perceptual.activity_masking_x100 == 100
            &&& o.perceptual.flat_area_protection_x100 == 100
            &&& o.perceptual.edge_protection_x100 == 100
            &&& o.rate.max_bytes is None && o.rate.target_bytes is None
        }),
{
}

impl EncodeParams {
    /// The options for loss, if there is to be any.
    pub open spec fn options(&self) -> Option<LossyOptionsV2> {
        match self.lossy {
            Some(o) => Some(o),
            None => match self.lossy_quality {
                Some(q) => Some(
                    options_of_quality(
                        q,
                        match self.lossy_tuning {
                            Some(t) => t,
                            None => default_tuning(),
                        },
                    ),
                ),
                None => None,
            },
        }
    }

    /// What options for loss come to.
    pub open spec fn kernel(&self) -> KernelLossyConfig {
        match self.options() {
            Some(o) => KernelLossyConfig::spec_from_options(o),
            None => KernelLossyConfig::spec_lossless(),
        }
    }

    /// The parameters make sense.
    pub open spec fn valid(&self) -> bool {
        type_named(self.compression_type@) is Some && (self.options() is Some
            ==> self.options()->0.quality_x100 <= QUALITY_MAX)
    }
}

/// The way to code residuals that has the given name.
pub open spec fn type_named(s: Seq<char>) -> Option<CompressionType> {
    if s == "golomb-rice"@ || s == "golomb"@ {
        Some(CompressionType::GolombRice)
    } else if s == "exp-golomb"@ || s == "exp_golomb"@ || s == "egc"@ {
        Some(CompressionType::ExpGolomb)
    } else if s == "transform"@ || s == "dct"@ {
        Some(CompressionType::Transform)
    } else {
        None
    }
}

fn is_named(s: &String, name: &str) -> (b: bool)
    ensures
        b == (s@ == name@),
{
    *s == name.to_owned()
}

/// The way to code residuals that has the given name.
pub fn parse_compression_type(s: &String) -> (t: Option<CompressionType>)
    ensures
        t == type_named(s@),
{
    if is_named(s, "golomb-rice") || is_named(s, "golomb") {
        Some(CompressionType::GolombRice)
    } else if is_named(s, "exp-golomb") || is_named(s, "exp_golomb") || is_named(s, "egc") {
        Some(CompressionType::ExpGolomb)
    } else if is_named(s, "transform") || is_named(s, "dct") {
        Some(CompressionType::Transform)
    } else {
        None
    }
}

/// Which ways of coding may be left out.
#[derive(Clone, Copy, Debug)]
pub struct Switches {
    /// Whether references adapted to a change of illumination compete.
    pub lic: bool,
    /// Whether blocks that repeat earlier ones compete.
    pub copies: bool,
}

impl Switches {
    /// Nothing is left out.
    pub open spec fn spec_all() -> Switches {
        Switches { lic: true, copies: true }
    }

    /// Nothing is left out.
    pub fn all() -> (s: Switches)
        ensures
            s == Switches::spec_all(),
    {
        Switches { lic: true, copies: true }
    }
}

/// What an encoder works with.
#[derive(Clone, Copy, Debug)]
pub struct Setup {
    pub ct: CompressionType,
    pub block_size: u16,
    pub mode: PredictionMode,
    pub adaptive: bool,
    pub kernel: KernelLossyConfig,
    pub switches: Switches,
}

/// What an encoder with the given parameters works with.
pub open spec fn setup_of(p: &EncodeParams, switches: Switches) -> Setup {
    Setup {
        ct: type_named(p.compression_type@)->0,
        block_size: match p.block_size {
            Some(b) => b as u16,
            None => 8,
        },
        mode: p.prediction_mode,
        adaptive: p.adaptive_prediction,
        kernel: p.kernel(),
        switches,
    }
}

/// Works out what an encoder with the given parameters works with.
pub fn resolve_setup(p: &EncodeParams, switches: Switches) -> (r: CrfResult<Setup>)
    ensures
        r is Ok <==> p.valid(),
        r is Ok ==> r->Ok_0 == setup_of(p, switches),
        r is Err ==> r->Err_0 is InvalidCodingParams,
{
    let ct: CompressionType = match parse_compression_type(&p.compression_type) {
        Some(t) => t,
        None => {
            return Err(CrfError::InvalidCodingParams(p.compression_type.clone()));
        },
    };
    let options: Option<LossyOptionsV2> = match p.lossy {
        Some(o) => Some(o),
        None => match p.lossy_quality {
            Some(q) => {
                let t: LossyTuning = match p.lossy_tuning {
                    Some(t) => t,
                    None => LossyTuning::default(),
                };
                Some(options_of_quality_exec(q, t))
            },
            None => None,
        },
    };
    let kernel: KernelLossyConfig = match KernelLossyConfig::from_options(options) {
        Ok(k) => k,
        Err(e) => {
            return Err(e);
        },
    };
    let block_size: u16 = match p.block_size {
        Some(b) => b as u16,
        None => 8,
    };
    Ok(
        Setup {
            ct,
            block_size,
            mode: p.prediction_mode,
            adaptive: p.adaptive_prediction,
            kernel,
            switches,
        },
    )
}

impl Setup {
    /// The step that is written in the file, if anything is lost.
    pub open spec fn spec_step(self) -> Option<u8> {
        if self.kernel.enabled {
            Some(self.kernel.global_step)
        } else {
            None
        }
    }

    /// The step that is written in the file, if anything is lost.
    pub fn lossy_step(&self) -> (s: Option<u8>)
        ensures
            s == self.spec_step(),
    {
        if self.kernel.enabled {
            Some(self.kernel.global_step)
        } else {
            None
        }
    }

    /// The header of a file.
    pub open spec fn header(
        self,
        frame_count: u16,
        width: u16,
        height: u16,
        bit_depth: u8,
        color_format: ColorFormat,
        no_rct: bool,
    ) -> CrfHeader {
        CrfHeader {
            frame_count,
            width,
            height,
            bit_depth,
            color_format,
            compression_type: self.ct,
            flags: Flags {
                has_index: true,
                has_rct: color_format.spec_count() == 3,
                has_lossy_quant: self.kernel.enabled,
                first_frame_no_rct: no_rct,
            },
            block_size: self.block_size,
            prediction_mode: self.mode,
            lossy_quant: if self.kernel.enabled {
                self.kernel.global_step
            } else {
                0
            },
        }
    }

    /// The header of a file.
    pub fn make_header(
        &self,
        frame_count: u16,
        width: u16,
        height: u16,
        bit_depth: u8,
        color_format: ColorFormat,
        no_rct: bool,
    ) -> (h: CrfHeader)
        ensures
            h == self.header(frame_count, width, height, bit_depth, color_format, no_rct),
    {
        CrfHeader {
            frame_count,
            width,
            height,
            bit_depth,
            color_format,
            compression_type: self.ct,
            flags: Flags {
                has_index: true,
                has_rct: color_format.component_count() == 3,
                has_lossy_quant: self.kernel.enabled,
                first_frame_no_rct: no_rct,
            },
            block_size: self.block_size,
            prediction_mode: self.mode,
            lossy_quant: if self.kernel.enabled {
                self.kernel.global_step
            } else {
                0
            },
        }
    }
}

} // verus!
