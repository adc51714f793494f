//! Encoding a sequence that is in memory as a whole.

use vstd::prelude::*;
use crate::common::config;
use crate::common::config::{resolve_setup, EncodeParams, KernelLossyConfig, Setup, Switches};
use crate::common::domain;
use crate::common::domain::{CrfHeader, ImageData, PredictionMode, HEADER_SIZE};
use crate::common::error;
use crate::common::error::{invalid, CrfError, CrfResult, Fault};
use crate::common::par::par_map;
use crate::encoder::adaptive;
use crate::encoder::adaptive::encode_frame_adaptive_with;
use crate::encoder::batch;
use crate::encoder::batch::{assemble_crf_output, fq_for_chain_index, place_frames, EncodedFrame};
use crate::encoder::candidate;
use crate::encoder::candidate::{AdaptiveOutput, Entry};
use crate::encoder::chain;
use crate::encoder::chain::{colour, Reel};
use crate::encoder::film;
use crate::encoder::film::{Recorder, Still};
use crate::encoder::frame;
use crate::encoder::frame::{encode_frame, FrameQuant};
use crate::encoder::sequence_tools;

verus! {

/// More frames than this are to be streamed.
pub const BATCH_MAX_FRAMES: usize = 50;

/// Sequences that need more bytes than this are to be streamed.
pub const BATCH_MEM_LIMIT: u64 = 1_500_000_000;

/// What is wrong with the first of the first `n` frames that does not fit the first one, if any.
pub open spec fn misfit(s: Seq<Still>, n: nat) -> Option<Fault>
    decreases n,
{
    if n <= 1 {
        None
    } else {
        match misfit(s, (n - 1) as nat) {
            Some(f) => Some(f),
            None => {
                let (a, b) = (s[0].shape, s[n - 1].shape);
                if a.width != b.width || a.height != b.height || a.color_format
                    != b.color_format {
                    Some(
                        Fault::Dimensions {
                            width: a.width,
                            height: a.height,
                            other_width: b.width,
                            other_height: b.height,
                        },
                    )
                } else if a.bit_depth != b.bit_depth {
                    Some(Fault::Invalid)
                } else {
                    None
                }
            },
        }
    }
}

/// Whether the frames need too much memory.
pub open spec fn too_big(s: Seq<Still>) -> bool {
    s[0].shape.samples() * 4 * s.len() > BATCH_MEM_LIMIT
}

/// What is wrong with the frames as a whole, if anything.
pub open spec fn refused(s: Seq<Still>) -> Option<Fault> {
    if s.len() < 2 || s.len() > BATCH_MAX_FRAMES {
        Some(Fault::FrameCount(s.len() as u16))
    } else {
        match misfit(s, s.len()) {
            Some(f) => Some(f),
            None => if too_big(s) {
                Some(Fault::Invalid)
            } else {
                None
            },
        }
    }
}

/// Whether a file is longer than the rate allows: than the hard limit, or than five quarters of the
/// target.
pub open spec fn overlong(k: KernelLossyConfig, size: int) -> bool {
    k.enabled && ((k.rate.max_bytes is Some && size > k.rate.max_bytes->0) || (k.rate.target_bytes
        is Some && size > sequence_tools::capped(k.rate.target_bytes->0 * 5) / 4))
}

/// What the frames of a chain have in common.
pub open spec fn reel_of(setup: Setup, s: Still) -> Reel {
    Reel {
        setup,
        width: s.shape.width,
        height: s.shape.height,
        format: s.shape.color_format,
    }
}

/// The code of a frame of a chain of differences.
#[verifier::opaque]
pub open spec fn link(
    x: Reel,
    px: Seq<i32>,
    first: bool,
    fq: FrameQuant,
    preferred: Option<PredictionMode>,
) -> Result<Entry, Fault> {
    let s = x.setup;
    if s.adaptive {
        adaptive::adaptive(
            x.pic(px),
            s.ct,
            s.block_size,
            first,
            fq,
            preferred,
            None::<Seq<u8>>,
            s.switches.copies,
        )
    } else {
        match frame::plain_frame(
            x.pic(px),
            s.ct,
            s.block_size,
            s.mode,
            first,
            fq,
            None::<Seq<u8>>,
        ) {
            Ok(d) => Ok(Entry { data: d, mode: None }),
            Err(f) => Err(f),
        }
    }
}

/// The first frame of a chain, which loses nothing: the shorter of the codes with and without the
/// transform of colours, and whether it is the one without.
pub open spec fn first_link(x: Reel, px: Seq<i32>) -> Result<(Entry, bool), Fault> {
    let fq = FrameQuant::spec_lossless();
    match link(x, chain::coloured(px, x.c()), true, fq, None) {
        Err(f) => Err(f),
        Ok(a) => if x.c() == 3 {
            match link(x, px, true, fq, None) {
                Err(f) => Err(f),
                Ok(b) => if b.data.len() < a.data.len() {
                    Ok((b, true))
                } else {
                    Ok((a, false))
                },
            }
        } else {
            Ok((a, false))
        },
    }
}

/// Frame `i` of a chain, where the first frame has the mode `preferred`.
pub open spec fn later_link(x: Reel, px: Seq<i32>, preferred: Option<PredictionMode>, i: int) -> Result<
    Seq<u8>,
    Fault,
> {
    let k = x.setup.kernel;
    match link(
        x,
        chain::coloured(px, x.c()),
        false,
        batch::quant_of_chain(i, x.setup.spec_step(), k, k.deadzone_bias),
        preferred,
    ) {
        Ok(e) => Ok(e.data),
        Err(f) => Err(f),
    }
}

/// The first `n` frames of a chain, given the first.
pub open spec fn links(x: Reel, s: Seq<Still>, first: Entry, n: nat) -> Result<Seq<Seq<u8>>, Fault>
    decreases n,
{
    if n <= 1 {
        Ok(seq![first.data])
    } else {
        match links(x, s, first, (n - 1) as nat) {
            Err(f) => Err(f),
            Ok(ds) => match later_link(x, s[n - 1].px, first.mode, n - 1) {
                Err(f) => Err(f),
                Ok(d) => Ok(ds.push(d)),
            },
        }
    }
}

/// The file of a chain: a frame and differences.
pub open spec fn chain_file(setup: Setup, s: Seq<Still>) -> Result<Seq<u8>, Fault> {
    let x = reel_of(setup, s[0]);
    if x.w() < 1 || x.h() < 1 {
        Err(Fault::Invalid)
    } else {
        match first_link(x, s[0].px) {
            Err(f) => Err(f),
            Ok((e, plain)) => match links(x, s, e, s.len()) {
                Err(f) => Err(f),
                Ok(ds) => {
                    let h = setup.header(
                        s.len() as u16,
                        x.width,
                        x.height,
                        s[0].shape.bit_depth,
                        x.format,
                        plain,
                    );
                    if h.is_valid() {
                        Ok(batch::file_bytes(h, ds))
                    } else {
                        Err(Fault::Invalid)
                    }
                },
            },
        }
    }
}

/// The file of original frames.
pub open spec fn film_file(setup: Setup, s: Seq<Still>) -> Result<Seq<u8>, Fault> {
    match film::filmed(setup, s) {
        Err(f) => Err(f),
        Ok(x) => x.file(),
    }
}

/// The file of a sequence.
pub open spec fn resolved_result(setup: Setup, original: bool, s: Seq<Still>) -> Result<
    Seq<u8>,
    Fault,
> {
    match refused(s) {
        Some(f) => Err(f),
        None => match if original {
            film_file(setup, s)
        } else {
            chain_file(setup, s)
        } {
            Err(f) => Err(f),
            Ok(b) => if overlong(setup.kernel, b.len() as int) {
                Err(Fault::Invalid)
            } else {
                Ok(b)
            },
        },
    }
}

/// The file of a sequence with the given parameters.
pub open spec fn sequence_result(p: &EncodeParams, on: Switches, s: Seq<Still>) -> Result<
    Seq<u8>,
    Fault,
> {
    if p.valid() {
        resolved_result(config::setup_of(p, on), p.input_original_frames, s)
    } else {
        Err(Fault::Invalid)
    }
}

fn same_format(a: &ImageData, b: &ImageData) -> (r: bool)
    ensures
        r == (a.color_format == b.color_format),
{
    a.color_format.to_u8() == b.color_format.to_u8()
}

proof fn lemma_misfit(s: Seq<Still>, m: nat, n: nat)
    requires
        m <= n,
    ensures
        misfit(s, m) is Some ==> misfit(s, n) == misfit(s, m),
    decreases n,
{
    if m < n {
        lemma_misfit(s, m, (n - 1) as nat);
    }
}

/// Frames that fit are all like the first.
pub proof fn lemma_fitting(s: Seq<Still>, n: nat, i: int)
    requires
        misfit(s, n) is None,
        0 <= i < n,
    ensures
        s[i].shape == s[0].shape,
    decreases n,
{
    if n > 1 && i < n - 1 {
        lemma_fitting(s, (n - 1) as nat, i);
    }
}

/// Checks the frames as a whole.
fn check_frames(frames: &[ImageData]) -> (r: CrfResult<()>)
    ensures
        r is Ok <==> refused(film::stills(frames@)) is None,
        r is Err ==> refused(film::stills(frames@)) == Some(error::fault(r->Err_0)),
{
    let ghost s = film::stills(frames@);
    let n: usize = frames.len();
    if n < 2 || n > BATCH_MAX_FRAMES {
        return Err(CrfError::FrameCountOutOfRange(#[verifier::truncate] (n as u16)));
    }
    let a: &ImageData = &frames[0];
    let mut i: usize = 1;
    while i < n
        invariant
            n == frames@.len(),
            2 <= n <= BATCH_MAX_FRAMES,
            1 <= i <= n,
            s == film::stills(frames@),
            *a == frames@[0],
            misfit(s, i as nat) is None,
        decreases n - i,
    {
        let b: &ImageData = &frames[i];
        proof {
            assert(s[0] == film::still(a));
            assert(s[i as int] == film::still(b));
            lemma_misfit(s, (i + 1) as nat, n as nat);
        }
        if a.width != b.width || a.height != b.height || !same_format(a, b) {
            return Err(
                CrfError::ImageDimensionsMismatch {
                    expected: (a.width, a.height),
                    actual: (b.width, b.height),
                },
            );
        }
        if a.bit_depth != b.bit_depth {
            return Err(invalid("bit depth"));
        }
        i = i + 1;
    }
    proof {
        assert(s[0] == film::still(a));
        domain::lemma_samples_bound(a.shape());
    }
    let area: u64 = a.width as u64 * a.height as u64;
    let samples: u64 = area * a.color_format.component_count() as u64;
    proof {
        let m = a.shape().samples() * 4;
        assert(m * n == n * m) by (nonlinear_arith);
        assert(0 <= n * m <= 50 * m) by (nonlinear_arith)
            requires
                0 <= n <= 50,
                m >= 0,
        ;
    }
    if samples * 4 * n as u64 > BATCH_MEM_LIMIT {
        return Err(invalid("memory"));
    }
    Ok(())
}

fn is_overlong(k: &KernelLossyConfig, size: usize) -> (b: bool)
    ensures
        b == overlong(*k, size as int),
{
    if !k.enabled {
        return false;
    }
    let n: u64 = size as u64;
    if let Some(max) = k.rate.max_bytes {
        if n > max {
            return true;
        }
    }
    if let Some(target) = k.rate.target_bytes {
        let five: u64 = if target > u64::MAX / 5 {
            u64::MAX
        } else {
            target * 5
        };
        if n > five / 4 {
            return true;
        }
    }
    false
}

fn code_link(
    setup: &Setup,
    image: &ImageData,
    first: bool,
    fq: FrameQuant,
    preferred: Option<PredictionMode>,
) -> (r: CrfResult<AdaptiveOutput>)
    requires
        frame::codable(image),
    ensures
        candidate::agrees_entry(
            r,
            link(chain::reel(setup, image), image.pixels@, first, fq, preferred),
        ),
{
    proof {
        reveal(link);
        assert(chain::reel(setup, image).pic(image.pixels@) == frame::pic(image));
    }
    if setup.adaptive {
        encode_frame_adaptive_with(
            image,
            setup.ct,
            setup.block_size,
            first,
            fq,
            preferred,
            None,
            setup.switches.copies,
        )
    } else {
        match encode_frame(image, setup.ct, setup.block_size, setup.mode, first, fq, None) {
            Ok(data) => Ok(AdaptiveOutput { data, pred_mode: None }),
            Err(e) => Err(e),
        }
    }
}

fn coloured_copy(image: &ImageData) -> (r: ImageData)
    requires
        frame::codable(image),
    ensures
        r.shape() == image.shape(),
        frame::codable(&r),
        r.pixels@ == chain::coloured(image.pixels@, image.color_format.spec_count() as int),
{
    proof {
        chain::lemma_frame_size(image);
    }
    image.with_pixels(colour(image.copy().pixels, image.color_format.component_count()))
}

fn code_first_link(setup: &Setup, image: &ImageData) -> (r: CrfResult<(AdaptiveOutput, bool)>)
    requires
        frame::codable(image),
    ensures
        match r {
            Ok(v) => first_link(chain::reel(setup, image), image.pixels@) == Ok::<
                (Entry, bool),
                Fault,
            >((v.0@, v.1)),
            Err(e) => first_link(chain::reel(setup, image), image.pixels@) == Err::<
                (Entry, bool),
                Fault,
            >(error::fault(e)),
        },
{
    let ghost x = chain::reel(setup, image);
    let fq: FrameQuant = FrameQuant::lossless();
    let mixed: ImageData = coloured_copy(image);
    assert(chain::reel(setup, &mixed) == x);
    let a: AdaptiveOutput = match code_link(setup, &mixed, true, fq, None) {
        Ok(v) => v,
        Err(e) => {
            return Err(e);
        },
    };
    if image.color_format.component_count() == 3 {
        let b: AdaptiveOutput = match code_link(setup, image, true, fq, None) {
            Ok(v) => v,
            Err(e) => {
                return Err(e);
            },
        };
        if b.data.len() < a.data.len() {
            return Ok((b, true));
        }
    }
    Ok((a, false))
}

/// Frame `k` of a chain can be coded.
pub open spec fn link_ready(frames: &[ImageData], k: usize) -> bool {
    k < frames@.len() && frame::codable(&frames@[k as int])
}

/// The code of frame `k` of a chain.
pub open spec fn link_ok(
    setup: &Setup,
    frames: &[ImageData],
    k: usize,
    preferred: Option<PredictionMode>,
    r: CrfResult<Vec<u8>>,
) -> bool {
    frame::agrees_bytes(
        r,
        later_link(
            chain::reel(setup, &frames@[k as int]),
            frames@[k as int].pixels@,
            preferred,
            k as int,
        ),
    )
}

fn code_later_link(
    setup: &Setup,
    frames: &[ImageData],
    k: usize,
    preferred: Option<PredictionMode>,
) -> (r: CrfResult<Vec<u8>>)
    requires
        link_ready(frames, k),
    ensures
        link_ok(setup, frames, k, preferred, r),
{
    let frame: &ImageData = &frames[k];
    let fq: FrameQuant = fq_for_chain_index(
        k,
        setup.lossy_step(),
        &setup.kernel,
        setup.kernel.deadzone_bias,
    );
    let mixed: ImageData = coloured_copy(frame);
    assert(chain::reel(setup, &mixed) == chain::reel(setup, frame));
    match code_link(setup, &mixed, false, fq, preferred) {
        Ok(v) => Ok(v.data),
        Err(e) => Err(e),
    }
}

fn code_later_links(
    setup: &Setup,
    frames: &[ImageData],
    order: &Vec<usize>,
    preferred: Option<PredictionMode>,
) -> (out: Vec<CrfResult<Vec<u8>>>)
    requires
        forall|t: int| 0 <= t < order@.len() ==> link_ready(frames, #[trigger] order@[t]),
    ensures
        out@.len() == order@.len(),
        forall|t: int|
            0 <= t < out@.len() ==> link_ok(
                setup,
                frames,
                order@[t],
                preferred,
                #[trigger] out@[t],
            ),
{
    let f = |k: &usize| -> (r: CrfResult<Vec<u8>>)
        requires
            link_ready(frames, *k),
        ensures
            link_ok(setup, frames, *k, preferred, r),
        { code_later_link(setup, frames, *k, preferred) };
    par_map(order, f)
}

proof fn lemma_links(x: Reel, s: Seq<Still>, first: Entry, m: nat, n: nat)
    requires
        m <= n,
    ensures
        links(x, s, first, m) is Err ==> links(x, s, first, n) == links(x, s, first, m),
    decreases n,
{
    if m < n {
        lemma_links(x, s, first, m, (n - 1) as nat);
    }
}

/// Codes a frame and differences.
fn encode_chain(setup: &Setup, frames: &[ImageData]) -> (r: CrfResult<Vec<u8>>)
    requires
        refused(film::stills(frames@)) is None,
        forall|i: int| 0 <= i < frames@.len() ==> (#[trigger] frames@[i]).wf(),
    ensures
        frame::agrees_bytes(r, chain_file(*setup, film::stills(frames@))),
{
    let ghost s = film::stills(frames@);
    let n: usize = frames.len();
    let image: &ImageData = &frames[0];
    assert(s[0] == film::still(image));
    if image.width < 1 || image.height < 1 {
        return Err(invalid("frame size"));
    }
    let ghost x = chain::reel(setup, image);
    assert(x == reel_of(*setup, s[0]));
    let (first, plain): (AdaptiveOutput, bool) = match code_first_link(setup, image) {
        Ok(v) => v,
        Err(e) => {
            return Err(e);
        },
    };
    let ghost e = first@;
    let mut order: Vec<usize> = Vec::new();
    let mut k: usize = n;
    proof {
        assert forall|i: int| 0 <= i < n implies (#[trigger] s[i]).shape == s[0].shape by {
            lemma_fitting(s, n as nat, i);
        }
        assert forall|i: int| 0 <= i < n implies frame::codable(&#[trigger] frames@[i])
            && chain::reel(setup, &frames@[i]) == x by {
            assert(s[i] == film::still(&frames@[i]));
            assert(s[i].shape == s[0].shape);
        }
    }
    while k > 1
        invariant
            1 <= k <= n,
            n == frames@.len(),
            order@.len() == n - k,
            forall|t: int| 0 <= t < order@.len() ==> #[trigger] order@[t] == n - 1 - t,
        decreases k,
    {
        k = k - 1;
        order.push(k);
    }
    let mut codes: Vec<CrfResult<Vec<u8>>> = code_later_links(
        setup,
        frames,
        &order,
        first.pred_mode,
    );
    let mut out: Vec<EncodedFrame> = Vec::new();
    out.push((first.data, 0, 0, false));
    assert(batch::datas_of(out@) =~= seq![e.data]);
    let mut i: usize = 1;
    while i < n
        invariant
            1 <= i <= n,
            n == frames@.len(),
            s == film::stills(frames@),
            x == reel_of(*setup, s[0]),
            forall|j: int| 0 <= j < n ==> #[trigger] chain::reel(setup, &frames@[j]) == x,
            first_link(x, s[0].px) == Ok::<(Entry, bool), Fault>((e, plain)),
            x.w() >= 1,
            x.h() >= 1,
            out@.len() == i,
            links(x, s, e, i as nat) == Ok::<Seq<Seq<u8>>, Fault>(batch::datas_of(out@)),
            codes@.len() == n - i,
            forall|t: int|
                0 <= t < codes@.len() ==> link_ok(
                    setup,
                    frames,
                    (n - 1 - t) as usize,
                    e.mode,
                    #[trigger] codes@[t],
                ),
        decreases n - i,
    {
        proof {
            lemma_links(x, s, e, (i + 1) as nat, n as nat);
            assert(s[i as int] == film::still(&frames@[i as int]));
            assert(chain::reel(setup, &frames@[i as int]) == x);
        }
        let code: CrfResult<Vec<u8>> = match codes.pop() {
            Some(c) => c,
            None => Err(invalid("frame")),
        };
        assert(link_ok(setup, frames, i, e.mode, code));
        let ghost before = out@;
        match code {
            Ok(d) => {
                let ghost data = d@;
                out.push((d, 0, 0, false));
                assert(batch::datas_of(out@) =~= batch::datas_of(before).push(data));
            },
            Err(err) => {
                return Err(err);
            },
        }
        i = i + 1;
    }
    let header: CrfHeader = setup.make_header(
        n as u16,
        image.width,
        image.height,
        image.bit_depth,
        image.color_format,
        plain,
    );
    match header.validate() {
        Ok(_) => {},
        Err(err) => {
            return Err(err);
        },
    }
    place_frames(&mut out);
    assemble_crf_output(&header, HEADER_SIZE + 8 * n, &out)
}

/// Codes original frames.
fn encode_film(setup: &Setup, frames: &[ImageData]) -> (r: CrfResult<Vec<u8>>)
    requires
        frames@.len() >= 1,
        forall|i: int| 0 <= i < frames@.len() ==> (#[trigger] frames@[i]).wf(),
    ensures
        frame::agrees_bytes(r, film_file(*setup, film::stills(frames@))),
{
    let ghost s = film::stills(frames@);
    let n: usize = frames.len();
    assert(s[0] == film::still(&frames@[0]));
    let start: Recorder = match Recorder::start(setup, &frames[0]) {
        Ok(x) => x,
        Err(e) => {
            return Err(e);
        },
    };
    let rest: &[ImageData] = vstd::slice::slice_subrange(frames, 1, n);
    assert(film::stills(rest@) =~= s.skip(1));
    match start.add_batch(rest) {
        Ok(x) => x.into_file(),
        Err(e) => Err(e),
    }
}

/// Encodes a sequence with parameters that have been worked out. With `original`, the frames are
/// those of the sequence; else all but the first are differences to the one before.
pub fn encode_sequence_resolved(frames: &[ImageData], setup: &Setup, original: bool) -> (r: CrfResult<
    Vec<u8>,
>)
    requires
        forall|i: int| 0 <= i < frames@.len() ==> (#[trigger] frames@[i]).wf(),
    ensures
        frame::agrees_bytes(r, resolved_result(*setup, original, film::stills(frames@))),
{
    match check_frames(frames) {
        Ok(_) => {},
        Err(e) => {
            return Err(e);
        },
    }
    let coded: CrfResult<Vec<u8>> = if original {
        encode_film(setup, frames)
    } else {
        encode_chain(setup, frames)
    };
    match coded {
        Ok(out) => {
            let n: usize = out.len();
            if is_overlong(&setup.kernel, n) {
                Err(invalid("rate"))
            } else {
                Ok(out)
            }
        },
        Err(e) => Err(e),
    }
}

/// Encodes a sequence with the ways of coding that `on` leaves.
pub fn encode_sequence_with(frames: &[ImageData], params: &EncodeParams, on: Switches) -> (r:
    CrfResult<Vec<u8>>)
    requires
        forall|i: int| 0 <= i < frames@.len() ==> (#[trigger] frames@[i]).wf(),
    ensures
        frame::agrees_bytes(r, sequence_result(params, on, film::stills(frames@))),
{
    match resolve_setup(params, on) {
        Ok(setup) => encode_sequence_resolved(frames, &setup, params.input_original_frames),
        Err(e) => Err(e),
    }
}

/// Encodes a sequence.
pub fn encode_sequence(frames: &[ImageData], params: &EncodeParams) -> (r: CrfResult<Vec<u8>>)
    requires
        forall|i: int| 0 <= i < frames@.len() ==> (#[trigger] frames@[i]).wf(),
    ensures
        frame::agrees_bytes(r, sequence_result(params, Switches::spec_all(), film::stills(frames@))),
{
    encode_sequence_with(frames, params, Switches::all())
}

/// A file that is longer than the limit is refused, and so is one that is longer than the target by
/// more than a quarter; a shorter one is not, nor is any where nothing is lost.
pub proof fn law_overlong(k: KernelLossyConfig, a: int, b: int)
    requires
        0 <= a <= b,
    ensures
        overlong(k, a) ==> overlong(k, b),
        !k.enabled ==> !overlong(k, a),
        k.rate.max_bytes is None && k.rate.target_bytes is None ==> !overlong(k, a),
        k.enabled && k.rate.max_bytes is Some && a > k.rate.max_bytes->0 ==> overlong(k, a),
        k.enabled && k.rate.target_bytes is Some && k.rate.target_bytes->0 <= 0x1000_0000_0000 && 4
            * a > 5 * k.rate.target_bytes->0 + 3 ==> overlong(k, a),
        overlong(k, a) ==> (k.rate.max_bytes is Some && a > k.rate.max_bytes->0) || (
        k.rate.target_bytes is Some && (4 * a > 5 * k.rate.target_bytes->0 || a
            > 0x3fff_ffff_ffff_ffff)),
{
}

/// Frames are taken if, and only if, there are at least two and no more than are kept in memory, all of
/// the size, colours and depth of the first, and not too large together.
pub proof fn law_refused(s: Seq<Still>, i: int)
    ensures
        s.len() < 2 || s.len() > 50 ==> refused(s) == Some(
            Fault::FrameCount(s.len() as u16),
        ),
        refused(s) is None && 0 <= i < s.len() ==> s[i].shape == s[0].shape,
        2 <= s.len() <= 50 && refused(s) is Some && (forall|j: int|
            0 <= j < s.len() ==> (#[trigger] s[j]).shape == s[0].shape) ==> 4 * (
        s[0].shape.samples() * s.len()) > 1_500_000_000,
        refused(s) is None ==> 4 * (s[0].shape.samples() * s.len()) <= 1_500_000_000,
{
    assert(s[0].shape.samples() * 4 * s.len() == 4 * (s[0].shape.samples() * s.len()))
        by (nonlinear_arith);
    if refused(s) is None && 0 <= i < s.len() {
        lemma_fitting(s, s.len(), i);
    }
    lemma_all_fit(s, s.len());
}

proof fn lemma_all_fit(s: Seq<Still>, n: nat)
    requires
        n <= s.len(),
    ensures
        (forall|j: int| 0 <= j < s.len() ==> (#[trigger] s[j]).shape == s[0].shape) ==> misfit(s, n)
            is None,
    decreases n,
{
    if n > 1 {
        lemma_all_fit(s, (n - 1) as nat);
        assert(s[n - 1].shape == s[n - 1].shape);
    }
}

} // verus!
