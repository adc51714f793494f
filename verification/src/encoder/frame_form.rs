//! What all coded frames have in common.

use vstd::prelude::*;
use crate::common::domain;
use crate::common::domain::{
    CompressionType,
    FrameHeader,
    PredictionMode,
    BAND_HEIGHT,
    FRAME_HEADER_SIZE,
    REF_PREVIOUS,
};
use crate::encoder::adaptive;
use crate::encoder::banded;
use crate::encoder::candidate;
use crate::encoder::candidate::{Entry, BAND_HEIGHT_ALT, TALL_BANDS_FROM};
use crate::encoder::frame;
use crate::encoder::frame::{Coded, FrameQuant, Pic};
use crate::encoder::intra_transform;
use crate::encoder::palette;
use crate::encoder::planar;

verus! {

/// A frame with a header that tells its length, and that refers to the frame before.
pub open spec fn well_framed(d: Seq<u8>) -> bool {
    &&& d.len() >= FRAME_HEADER_SIZE
    &&& d.len() <= u32::MAX ==> FrameHeader::parsed(d).frame_size + FRAME_HEADER_SIZE == d.len()
    &&& d[11] == REF_PREVIOUS
    &&& d[12] == 0
    &&& d[13] == 0
}

/// Frames put together from a header and a code are well framed.
pub proof fn lemma_frame_bytes(p: Pic, c: Coded, m: u8)
    ensures
        well_framed(frame::frame_bytes(p, c, m)),
{
    let h = FrameHeader {
        pred_mode: m,
        ..FrameHeader::spec_with_type(c.body.len() as u32, p.px.len() as u32, c.param, c.kind)
    };
    domain::law_frame_header_roundtrip(h, c.body);
    let d = h.bytes() + c.body;
    assert(FrameHeader::parsed(d) == h);
    assert(d[11] == h.reference_type);
    assert(d[12] == h.lic_a_num);
    assert(d[13] == h.lic_b);
}

/// The frame of one mode is well framed.
pub proof fn lemma_plain_framed(
    p: Pic,
    ct: CompressionType,
    block_size: u16,
    mode: PredictionMode,
    first: bool,
    fq: FrameQuant,
    bands: Option<Seq<u8>>,
)
    ensures
        ({
            let r = frame::plain_frame(p, ct, block_size, mode, first, fq, bands);
            r is Ok ==> well_framed(r->Ok_0)
        }),
{
    let r = frame::coded(
        p,
        frame::frame_residuals(p, mode, fq, bands),
        ct,
        block_size,
        first,
    );
    if r is Ok {
        lemma_frame_bytes(p, r->Ok_0, mode.code());
    }
}

proof fn lemma_shorter(a: Entry, p: Pic, body: Seq<u8>, param: u8, kind: u8)
    requires
        well_framed(a.data),
    ensures
        well_framed(candidate::shorter(a, candidate::entry(p, body, param, kind)).data),
        candidate::shorter(a, candidate::entry(p, body, param, kind)).data.len() <= a.data.len(),
{
    lemma_frame_bytes(p, Coded { body, param, kind }, domain::PRED_MODE_UNSET);
}

proof fn lemma_exact_framed(a: Entry, p: Pic, first: bool, copies: bool)
    requires
        well_framed(a.data),
    ensures
        well_framed(candidate::with_exact(a, p, first, copies).data),
        candidate::with_exact(a, p, first, copies).data.len() <= a.data.len(),
{
    let bands = candidate::bands_of(p);
    lemma_shorter(a, p, bands.0, bands.1, 2);
    let b = candidate::with_banded(a, p);
    if let Some(body) = palette::palette_payload(p.px, p.w as nat) {
        lemma_shorter(b, p, body, 1, 4);
    }
    let c = candidate::with_palette(b, p);
    lemma_shorter(c, p, candidate::copies_of(p), 0, 7);
}

proof fn lemma_transformed_framed(
    a: Entry,
    p: Pic,
    fq: FrameQuant,
    preferred: Option<PredictionMode>,
)
    requires
        well_framed(a.data),
    ensures
        well_framed(candidate::with_transformed(a, p, fq, preferred).data),
        candidate::with_transformed(a, p, fq, preferred).data.len() <= a.data.len(),
{
    let body = candidate::best_dct_body(p, fq);
    lemma_shorter(a, p, body, body[0] % 16, 6);
    let b = candidate::with_dct(a, p, fq);
    let i = intra_transform::intra_payload(
        p.px,
        p.w,
        p.h,
        fq.step,
        fq.bias,
        fq.chroma_step,
        fq.chroma_bias,
    );
    lemma_shorter(b, p, i, 0, 8);
}

proof fn lemma_cabac_framed(
    a: Entry,
    p: Pic,
    fq: FrameQuant,
    preferred: Option<PredictionMode>,
    bands: Option<Seq<u8>>,
)
    requires
        well_framed(a.data),
    ensures
        well_framed(candidate::with_cabac(a, p, fq, preferred, bands).data),
        candidate::with_cabac(a, p, fq, preferred, bands).data.len() <= a.data.len(),
{
    let m = candidate::lead_mode(p, preferred);
    let c = candidate::cabac_coded(
        frame::frame_residuals(p, m, fq, bands),
        (p.w * p.c) as usize,
    );
    lemma_frame_bytes(p, c, m.code());
}

/// A contest has a winner if the leading modes can be coded, and it is no longer than they are.
pub proof fn lemma_contest_framed(
    p: Pic,
    ct: CompressionType,
    block_size: u16,
    first: bool,
    fq: FrameQuant,
    preferred: Option<PredictionMode>,
    bands: Option<Seq<u8>>,
    planar: Option<Seq<u8>>,
    copies: bool,
)
    ensures
        ({
            let r = candidate::contest(
                p,
                ct,
                block_size,
                first,
                fq,
                preferred,
                bands,
                planar,
                copies,
            );
            let o = candidate::opening(p, ct, block_size, first, fq, preferred, bands);
            &&& r is Ok <==> o is Ok
            &&& r is Ok ==> well_framed(r->Ok_0.data) && r->Ok_0.data.len() <= o->Ok_0.data.len()
        }),
{
    let (a, b) = (candidate::lead_mode(p, preferred), candidate::next_mode(p, preferred));
    lemma_plain_framed(p, ct, block_size, a, first, fq, bands);
    lemma_plain_framed(p, ct, block_size, b, first, fq, bands);
    let o = candidate::opening(p, ct, block_size, first, fq, preferred, bands);
    if o is Ok && ct == CompressionType::GolombRice {
        let e = o->Ok_0;
        if let Some(body) = planar {
            lemma_shorter(e, p, body, 0, 3);
        }
        let f = candidate::with_planar(e, p, planar);
        lemma_exact_framed(f, p, first, copies);
        let g = if fq.spec_lossy() {
            f
        } else {
            candidate::with_exact(f, p, first, copies)
        };
        lemma_cabac_framed(g, p, fq, preferred, bands);
        lemma_transformed_framed(
            candidate::with_cabac(g, p, fq, preferred, bands),
            p,
            fq,
            preferred,
        );
    }
}

/// The frame that wins is well framed.
pub proof fn lemma_adaptive_framed(
    p: Pic,
    ct: CompressionType,
    block_size: u16,
    first: bool,
    fq: FrameQuant,
    preferred: Option<PredictionMode>,
    bands: Option<Seq<u8>>,
    copies: bool,
)
    ensures
        ({
            let r = adaptive::adaptive(p, ct, block_size, first, fq, preferred, bands, copies);
            r is Ok ==> well_framed(r->Ok_0.data)
        }),
{
    let planar = planar::planar_payload(p, ct, block_size, fq, bands);
    if planar is Ok {
        lemma_contest_framed(
            p,
            ct,
            block_size,
            first,
            fq,
            preferred,
            bands,
            Some(planar->Ok_0),
            copies,
        );
    }
    lemma_contest_framed(p, ct, block_size, first, fq, preferred, bands, None, copies);
}

/// The frame of a payload without a mode of its own is as long as its header and the payload.
proof fn lemma_entry_len(p: Pic, body: Seq<u8>, param: u8, kind: u8)
    ensures
        candidate::entry(p, body, param, kind).data.len() == FRAME_HEADER_SIZE + body.len(),
{
    frame::lemma_frame_len(p, Coded { body, param, kind }, domain::PRED_MODE_UNSET);
}

proof fn lemma_best_variant(p: Pic, fq: FrameQuant, n: nat)
    requires
        1 <= n,
    ensures
        0 <= candidate::best_variant(p, fq, n) < n,
        forall|i: int|
            0 <= i < n ==> candidate::dct_body(
                p,
                fq,
                candidate::variants(fq)[candidate::best_variant(p, fq, n)],
            ).len() <= (#[trigger] candidate::dct_body(p, fq, candidate::variants(fq)[i])).len(),
    decreases n,
{
    if n > 1 {
        lemma_best_variant(p, fq, (n - 1) as nat);
    }
}

/// A frame of `n` bytes is no longer than the frames of the two best modes.
pub open spec fn beats_modes(
    n: nat,
    p: Pic,
    ct: CompressionType,
    block_size: u16,
    first: bool,
    fq: FrameQuant,
    preferred: Option<PredictionMode>,
    bands: Option<Seq<u8>>,
) -> bool {
    let (a, b) = (candidate::lead_mode(p, preferred), candidate::next_mode(p, preferred));
    let (d, e) = (
        frame::plain_frame(p, ct, block_size, a, first, fq, bands),
        frame::plain_frame(p, ct, block_size, b, first, fq, bands),
    );
    &&& d is Ok && n <= d->Ok_0.len()
    &&& e is Ok && n <= e->Ok_0.len()
}

/// A frame of `n` bytes is no longer than the frame of three planes, for three components.
pub open spec fn beats_planar(
    n: nat,
    p: Pic,
    block_size: u16,
    fq: FrameQuant,
    bands: Option<Seq<u8>>,
) -> bool {
    let r = planar::planar_payload(p, CompressionType::GolombRice, block_size, fq, bands);
    p.c == 3 ==> r is Ok && n <= candidate::entry(p, r->Ok_0, 0, 3).data.len()
}

/// A frame of `n` bytes is no longer than the frames that lose nothing: those of bands of either
/// height, of palette places and of blocks that may repeat, where these compete.
pub open spec fn beats_exact(n: nat, p: Pic, first: bool, copies: bool) -> bool {
    let low = banded::banded_payload(p.px, p.w, p.h, p.c, BAND_HEIGHT as int);
    let tall = banded::banded_payload(p.px, p.w, p.h, p.c, BAND_HEIGHT_ALT as int);
    let places = palette::palette_payload(p.px, p.w as nat);
    &&& n <= candidate::entry(p, low, BAND_HEIGHT as u8, 2).data.len()
    &&& p.h >= TALL_BANDS_FROM ==> n <= candidate::entry(
        p,
        tall,
        BAND_HEIGHT_ALT as u8,
        2,
    ).data.len()
    &&& palette::plausible(p.px, p.c as nat) && places is Some ==> n <= candidate::entry(
        p,
        places->0,
        1,
        4,
    ).data.len()
    &&& copies && first && p.c > 1 ==> n <= candidate::entry(
        p,
        candidate::copies_of(p),
        0,
        7,
    ).data.len()
}

/// A frame of `n` bytes is no longer than the leading mode's frame on top of the range coder, where
/// that competes.
pub open spec fn beats_cabac(
    n: nat,
    p: Pic,
    fq: FrameQuant,
    preferred: Option<PredictionMode>,
    bands: Option<Seq<u8>>,
) -> bool {
    let m = candidate::lead_mode(p, preferred);
    let c = candidate::cabac_coded(
        frame::frame_residuals(p, m, fq, bands),
        (p.w * p.c) as usize,
    );
    candidate::cabac_worth(p, preferred) ==> n <= frame::frame_bytes(p, c, m.code()).len()
}

/// A frame of `n` bytes is no longer than the frames of transformed blocks of all shapes and of
/// predicted and transformed blocks, where these compete.
pub open spec fn beats_transformed(
    n: nat,
    p: Pic,
    fq: FrameQuant,
    preferred: Option<PredictionMode>,
) -> bool {
    let i = intra_transform::intra_payload(
        p.px,
        p.w,
        p.h,
        fq.step,
        fq.bias,
        fq.chroma_step,
        fq.chroma_bias,
    );
    candidate::dct_worth(p, preferred, fq) && !(p.c == 1 && !fq.spec_lossy()) ==> {
        &&& forall|j: int|
            0 <= j < candidate::variants(fq).len() ==> {
                let body = #[trigger] candidate::dct_body(p, fq, candidate::variants(fq)[j]);
                n <= candidate::entry(p, body, body[0] % 16, 6).data.len()
            }
        &&& p.c == 3 ==> n <= candidate::entry(p, i, 0, 8).data.len()
    }
}

/// A frame of `n` bytes is no longer than any frame that competes.
pub open spec fn beats_all(
    n: nat,
    p: Pic,
    ct: CompressionType,
    block_size: u16,
    first: bool,
    fq: FrameQuant,
    preferred: Option<PredictionMode>,
    bands: Option<Seq<u8>>,
    copies: bool,
) -> bool {
    &&& beats_modes(n, p, ct, block_size, first, fq, preferred, bands)
    &&& ct == CompressionType::GolombRice ==> {
        &&& beats_planar(n, p, block_size, fq, bands)
        &&& !fq.spec_lossy() ==> beats_exact(n, p, first, copies)
        &&& beats_cabac(n, p, fq, preferred, bands)
        &&& beats_transformed(n, p, fq, preferred)
    }
}

proof fn lemma_beats_exact(a: Entry, p: Pic, first: bool, copies: bool, n: nat)
    requires
        n <= candidate::with_exact(a, p, first, copies).data.len(),
    ensures
        n <= a.data.len(),
        beats_exact(n, p, first, copies),
{
    let low = banded::banded_payload(p.px, p.w, p.h, p.c, BAND_HEIGHT as int);
    let tall = banded::banded_payload(p.px, p.w, p.h, p.c, BAND_HEIGHT_ALT as int);
    lemma_entry_len(p, low, BAND_HEIGHT as u8, 2);
    lemma_entry_len(p, tall, BAND_HEIGHT_ALT as u8, 2);
    let b = candidate::with_banded(a, p);
    let c = candidate::with_palette(b, p);
    assert(n <= c.data.len());
    assert(n <= b.data.len());
}

proof fn lemma_beats_transformed(
    a: Entry,
    p: Pic,
    fq: FrameQuant,
    preferred: Option<PredictionMode>,
    n: nat,
)
    requires
        n <= candidate::with_transformed(a, p, fq, preferred).data.len(),
    ensures
        n <= a.data.len(),
        beats_transformed(n, p, fq, preferred),
{
    let all = candidate::variants(fq);
    let best = candidate::best_dct_body(p, fq);
    lemma_best_variant(p, fq, all.len());
    lemma_entry_len(p, best, best[0] % 16, 6);
    if candidate::dct_worth(p, preferred, fq) && !(p.c == 1 && !fq.spec_lossy()) {
        let b = candidate::with_dct(a, p, fq);
        assert(n <= b.data.len());
        assert forall|j: int| 0 <= j < all.len() implies {
            let body = #[trigger] candidate::dct_body(p, fq, all[j]);
            n <= candidate::entry(p, body, body[0] % 16, 6).data.len()
        } by {
            let body = candidate::dct_body(p, fq, all[j]);
            lemma_entry_len(p, body, body[0] % 16, 6);
        }
    }
}

/// The frame that wins is never longer than any other frame that competes.
pub proof fn law_contest_never_worse(
    p: Pic,
    ct: CompressionType,
    block_size: u16,
    first: bool,
    fq: FrameQuant,
    preferred: Option<PredictionMode>,
    bands: Option<Seq<u8>>,
    copies: bool,
)
    requires
        adaptive::adaptive(p, ct, block_size, first, fq, preferred, bands, copies) is Ok,
    ensures
        beats_all(
            adaptive::adaptive(
                p,
                ct,
                block_size,
                first,
                fq,
                preferred,
                bands,
                copies,
            )->Ok_0.data.len(),
            p,
            ct,
            block_size,
            first,
            fq,
            preferred,
            bands,
            copies,
        ),
{
    let r = adaptive::adaptive(p, ct, block_size, first, fq, preferred, bands, copies);
    let n = r->Ok_0.data.len();
    let o = candidate::opening(p, ct, block_size, first, fq, preferred, bands);
    if ct == CompressionType::GolombRice {
        let three = if p.c == 3 {
            Some(planar::planar_payload(p, ct, block_size, fq, bands)->Ok_0)
        } else {
            None
        };
        let f = candidate::with_planar(o->Ok_0, p, three);
        let g = if fq.spec_lossy() {
            f
        } else {
            candidate::with_exact(f, p, first, copies)
        };
        let k = candidate::with_cabac(g, p, fq, preferred, bands);
        assert(r->Ok_0 == candidate::with_transformed(k, p, fq, preferred));
        lemma_beats_transformed(k, p, fq, preferred, n);
        if !fq.spec_lossy() {
            lemma_beats_exact(f, p, first, copies, n);
        }
    }
}

} // verus!
