//! Decoder of frames coded as places in a palette.

use vstd::prelude::*;
use crate::common::bits;
use crate::common::error;
use crate::common::error::{invalid, short, CrfResult, Fault};
use crate::common::framing;
use crate::common::framing::get_part;
use crate::common::le;
use crate::common::le::get_le16;
use crate::decoder::exp_golomb;
use crate::decoder::exp_golomb::ExpGolombDecoder;
use crate::decoder::rle_golomb;
use crate::decoder::rle_golomb::decode_frame_rle_golomb;
use crate::encoder::palette as enc;

verus! {

/// Which of the two forms of payload the coding parameter of a frame names: with flags, or the older
/// one without.
pub open spec fn newer(coding_params: u8) -> bool {
    coding_params % 2 == 1
}

/// Whether a payload holds tokens that can copy from above, or plain places.
pub open spec fn has_tokens(data: Seq<u8>, new: bool) -> bool {
    new && data[2] % 2 == 1
}

/// Bytes before the palette's length.
pub open spec fn head_len(new: bool) -> int {
    if new {
        4
    } else {
        3
    }
}

/// The samples that the first `n` tokens stand for.
pub open spec fn from_tokens(t: Seq<i32>, pal: Seq<i32>, stride: int, n: nat) -> Option<Seq<i32>>
    decreases n,
{
    if n == 0 {
        Some(Seq::empty())
    } else {
        match from_tokens(t, pal, stride, (n - 1) as nat) {
            None => None,
            Some(out) => {
                let v = t[n - 1];
                if v == 0 {
                    if n - 1 < stride {
                        Some(
                            out.push(
                                if pal.len() > 0 {
                                    pal[0]
                                } else {
                                    0
                                },
                            ),
                        )
                    } else {
                        Some(out.push(out[n - 1 - stride]))
                    }
                } else if 0 < v <= pal.len() {
                    Some(out.push(pal[v - 1]))
                } else {
                    None
                }
            },
        }
    }
}

/// The samples that the first `n` places stand for.
pub open spec fn from_places(t: Seq<i32>, pal: Seq<i32>, n: nat) -> Option<Seq<i32>>
    decreases n,
{
    if n == 0 {
        Some(Seq::empty())
    } else {
        match from_places(t, pal, (n - 1) as nat) {
            None => None,
            Some(out) => if 0 <= t[n - 1] < pal.len() {
                Some(out.push(pal[t[n - 1] as int]))
            } else {
                None
            },
        }
    }
}

/// The `n` samples that a payload stands for.
pub open spec fn palette_result(data: Seq<u8>, n: nat, coding_params: u8, width: nat) -> Result<
    Seq<i32>,
    Fault,
> {
    let new = newer(coding_params);
    let h = head_len(new);
    if data.len() < h + 4 {
        Err(Fault::Short { expected: h + 4, actual: data.len() as int })
    } else {
        match framing::part_at(data, h) {
            Err(f) => Err(f),
            Ok((code, end)) => {
                let pal = exp_golomb::exp_frame(code, le::le16_at(data, 0));
                let t = rle_golomb::rle_frame(data.skip(end), data[h - 1] as nat, n);
                let stride = if width == 0 {
                    1
                } else {
                    width as int
                };
                let out = if has_tokens(data, new) {
                    from_tokens(t, pal, stride, n)
                } else {
                    from_places(t, pal, n)
                };
                match out {
                    Some(px) => Ok(px),
                    None => Err(Fault::Invalid),
                }
            },
        }
    }
}

proof fn lemma_tokens_none(t: Seq<i32>, pal: Seq<i32>, stride: int, m: nat, n: nat)
    requires
        m <= n,
        from_tokens(t, pal, stride, m) is None,
    ensures
        from_tokens(t, pal, stride, n) is None,
    decreases n,
{
    if m < n {
        lemma_tokens_none(t, pal, stride, m, (n - 1) as nat);
    }
}

proof fn lemma_places_none(t: Seq<i32>, pal: Seq<i32>, m: nat, n: nat)
    requires
        m <= n,
        from_places(t, pal, m) is None,
    ensures
        from_places(t, pal, n) is None,
    decreases n,
{
    if m < n {
        lemma_places_none(t, pal, m, (n - 1) as nat);
    }
}

fn from_tokens_exec(t: &Vec<i32>, pal: &Vec<i32>, stride: usize) -> (r: Option<Vec<i32>>)
    requires
        stride >= 1,
    ensures
        match r {
            Some(v) => from_tokens(t@, pal@, stride as int, t@.len()) == Some(v@) && v@.len()
                == t@.len(),
            None => from_tokens(t@, pal@, stride as int, t@.len()) is None,
        },
{
    let mut out: Vec<i32> = Vec::new();
    let mut i: usize = 0;
    while i < t.len()
        invariant
            stride >= 1,
            i <= t@.len(),
            out@.len() == i,
            from_tokens(t@, pal@, stride as int, i as nat) == Some(out@),
        decreases t@.len() - i,
    {
        let v: i32 = t[i];
        if v == 0 {
            if i < stride {
                let first: i32 = if pal.len() > 0 {
                    pal[0]
                } else {
                    0
                };
                out.push(first);
            } else {
                let above: i32 = out[i - stride];
                out.push(above);
            }
        } else if v > 0 && (v - 1) as usize <= usize::MAX && ((v - 1) as usize) < pal.len() {
            out.push(pal[(v - 1) as usize]);
        } else {
            proof {
                lemma_tokens_none(t@, pal@, stride as int, (i + 1) as nat, t@.len());
            }
            return None;
        }
        i = i + 1;
    }
    Some(out)
}

fn from_places_exec(t: &Vec<i32>, pal: &Vec<i32>) -> (r: Option<Vec<i32>>)
    ensures
        match r {
            Some(v) => from_places(t@, pal@, t@.len()) == Some(v@) && v@.len() == t@.len(),
            None => from_places(t@, pal@, t@.len()) is None,
        },
{
    let mut out: Vec<i32> = Vec::new();
    let mut i: usize = 0;
    while i < t.len()
        invariant
            i <= t@.len(),
            out@.len() == i,
            from_places(t@, pal@, i as nat) == Some(out@),
        decreases t@.len() - i,
    {
        let v: i32 = t[i];
        if v >= 0 && (v as usize) < pal.len() {
            out.push(pal[v as usize]);
        } else {
            proof {
                lemma_places_none(t@, pal@, (i + 1) as nat, t@.len());
            }
            return None;
        }
        i = i + 1;
    }
    Some(out)
}

/// Decodes `pixel_count` samples coded as places in a palette.
pub fn decode_palette_payload(
    data: &[u8],
    pixel_count: usize,
    coding_params: u8,
    width: usize,
) -> (r: CrfResult<Vec<i32>>)
    ensures
        error::agrees(
            r,
            palette_result(data@, pixel_count as nat, coding_params, width as nat),
        ),
        r is Ok ==> r->Ok_0@.len() == pixel_count,
{
    let new: bool = coding_params % 2 == 1;
    let h: usize = if new {
        4
    } else {
        3
    };
    let len: usize = data.len();
    if len < h + 4 {
        return Err(short(h, 4, len));
    }
    let count: usize = get_le16(data, 0) as usize;
    let k: u8 = data[h - 1];
    match get_part(data, h) {
        Err(e) => Err(e),
        Ok((a, b)) => {
            let code: &[u8] = vstd::slice::slice_subrange(data, a, b);
            let rest: &[u8] = vstd::slice::slice_subrange(data, b, len);
            assert(rest@ =~= data@.skip(b as int));
            let mut d = ExpGolombDecoder::new(code);
            let pal: Vec<i32> = d.decode_signed_array(count);
            let t: Vec<i32> = decode_frame_rle_golomb(rest, k, pixel_count);
            proof {
                rle_golomb::lemma_rle_len(bits::bits_of(rest@), 0, k as nat, pixel_count as nat);
            }
            let out: Option<Vec<i32>> = if new && data[2] % 2 == 1 {
                from_tokens_exec(
                    &t,
                    &pal,
                    if width == 0 {
                        1
                    } else {
                        width
                    },
                )
            } else {
                from_places_exec(&t, &pal)
            };
            match out {
                Some(px) => Ok(px),
                None => Err(invalid("palette index out of range")),
            }
        },
    }
}

proof fn lemma_tokens_back(px: Seq<i32>, width: nat, n: nat)
    requires
        n <= px.len(),
        enc::copies_above(px.len(), width),
        enc::palette(px).len() <= 256,
    ensures
        from_tokens(
            enc::tokens(enc::indices(px), width),
            enc::palette(px),
            width as int,
            n,
        ) == Some(px.take(n as int)),
    decreases n,
{
    let pal = enc::palette(px);
    let ix = enc::indices(px);
    let t = enc::tokens(ix, width);
    if n == 0 {
        assert(px.take(0) =~= Seq::<i32>::empty());
    } else {
        let i = n - 1;
        lemma_tokens_back(px, width, i as nat);
        enc::lemma_palette(px, i);
        assert(ix[i] == enc::place_of(pal, px[i]) as i32);
        if i >= width && ix[i - width] == ix[i] {
            enc::lemma_palette(px, i - width);
            assert(px.take(i)[i - width] == px[i]);
        }
        assert(px.take(i).push(px[i]) =~= px.take(n as int));
    }
}

proof fn lemma_places_back(px: Seq<i32>, n: nat)
    requires
        n <= px.len(),
        enc::palette(px).len() <= 256,
    ensures
        from_places(enc::indices(px), enc::palette(px), n) == Some(px.take(n as int)),
    decreases n,
{
    let pal = enc::palette(px);
    let ix = enc::indices(px);
    if n == 0 {
        assert(px.take(0) =~= Seq::<i32>::empty());
    } else {
        let i = n - 1;
        lemma_places_back(px, i as nat);
        enc::lemma_palette(px, i);
        assert(ix[i] == enc::place_of(pal, px[i]) as i32);
        assert(px.take(i).push(px[i]) =~= px.take(n as int));
    }
}

/// The code of a palette fits its length field.
proof fn lemma_palette_code_fits(px: Seq<i32>)
    requires
        enc::palette_fits(px),
    ensures
        enc::palette_code(enc::palette(px)).len() <= u32::MAX,
{
    let z = crate::common::codes::zigzags(enc::palette(px));
    crate::common::codes::lemma_exp_bits_len(z);
    crate::common::bits::lemma_pack(crate::common::codes::exp_bits(z));
}

/// Coding samples as places in a palette loses nothing, as long as the palette is small enough.
pub proof fn law_palette_roundtrip(px: Seq<i32>, width: nat)
    requires
        enc::palette_fits(px),
        forall|i: int| 0 <= i < px.len() ==> -0x4000_0000 < #[trigger] px[i] < 0x4000_0000,
        px.len() < u32::MAX,
    ensures
        palette_result(enc::palette_bytes(px, width), px.len(), 1, width) == Ok::<
            Seq<i32>,
            Fault,
        >(px),
{
    let data = enc::palette_bytes(px, width);
    let pal = enc::palette(px);
    let t = enc::tokens(enc::indices(px), width);
    let k = enc::token_k(t);
    let code = enc::palette_code(pal);
    let rest = crate::encoder::rle_golomb::rle_bytes(t, k);
    assert(k <= 255);
    assert(data.subrange(0, 2) =~= le::le16(pal.len() as u16));
    le::lemma_le16(data, 0, pal.len() as u16);
    assert(data[2] == if enc::copies_above(px.len(), width) {
        1u8
    } else {
        0u8
    });
    assert(data[3] == k as u8);
    assert(data.subrange(4, 8 + code.len() as int) =~= framing::part(code));
    lemma_palette_code_fits(px);
    framing::lemma_part(data, 4, code);
    assert(data.skip(8 + code.len() as int) =~= rest);
    assert forall|i: int| 0 <= i < pal.len() implies -0x4000_0000 < #[trigger] pal[i]
        < 0x4000_0000 by {
        enc::lemma_palette_values(px, i);
    }
    exp_golomb::law_exp_golomb_roundtrip(pal);
    rle_golomb::law_rle_golomb_roundtrip(t, k);
    if enc::copies_above(px.len(), width) {
        lemma_tokens_back(px, width, px.len());
    } else {
        lemma_places_back(px, px.len());
    }
    assert(px.take(px.len() as int) =~= px);
}

/// Whether tokens stand for samples depends on the size of the palette alone.
proof fn lemma_tokens_some(t: Seq<i32>, a: Seq<i32>, b: Seq<i32>, stride: int, n: nat)
    requires
        a.len() == b.len(),
    ensures
        from_tokens(t, a, stride, n) is Some ==> from_tokens(t, b, stride, n) is Some,
    decreases n,
{
    if n > 0 {
        lemma_tokens_some(t, a, b, stride, (n - 1) as nat);
    }
}

proof fn lemma_places_some(t: Seq<i32>, a: Seq<i32>, b: Seq<i32>, n: nat)
    requires
        a.len() == b.len(),
    ensures
        from_places(t, a, n) is Some ==> from_places(t, b, n) is Some,
    decreases n,
{
    if n > 0 {
        lemma_places_some(t, a, b, (n - 1) as nat);
    }
}

/// What was coded as places in a palette can be decoded, however far from zero samples are.
pub proof fn lemma_palette_reads(px: Seq<i32>, width: nat)
    requires
        enc::palette_fits(px),
        px.len() < u32::MAX,
    ensures
        palette_result(enc::palette_bytes(px, width), px.len(), 1, width) is Ok,
{
    let data = enc::palette_bytes(px, width);
    let pal = enc::palette(px);
    let t = enc::tokens(enc::indices(px), width);
    let k = enc::token_k(t);
    let code = enc::palette_code(pal);
    let rest = crate::encoder::rle_golomb::rle_bytes(t, k);
    assert(k <= 255);
    assert(data.subrange(0, 2) =~= le::le16(pal.len() as u16));
    le::lemma_le16(data, 0, pal.len() as u16);
    assert(data[2] == if enc::copies_above(px.len(), width) {
        1u8
    } else {
        0u8
    });
    assert(data[3] == k as u8);
    assert(data.subrange(4, 8 + code.len() as int) =~= framing::part(code));
    lemma_palette_code_fits(px);
    framing::lemma_part(data, 4, code);
    assert(data.skip(8 + code.len() as int) =~= rest);
    rle_golomb::law_rle_golomb_roundtrip(t, k);
    let back = exp_golomb::exp_frame(code, pal.len());
    crate::common::codes::lemma_exps_len(
        crate::common::bits::bits_of(code),
        0,
        exp_golomb::EXP_CAP as nat,
        pal.len(),
    );
    assert(back.len() == pal.len());
    if enc::copies_above(px.len(), width) {
        lemma_tokens_back(px, width, px.len());
        lemma_tokens_some(t, pal, back, width as int, px.len());
    } else {
        lemma_places_back(px, px.len());
        lemma_places_some(t, pal, back, px.len());
    }
}

/// A payload gives as many samples as are asked for.
pub proof fn lemma_palette_len(data: Seq<u8>, n: nat, coding_params: u8, width: nat)
    ensures
        ({
            let r = palette_result(data, n, coding_params, width);
            r is Ok ==> r->Ok_0.len() == n
        }),
{
    let new = newer(coding_params);
    let h = head_len(new);
    if data.len() >= h + 4 && framing::part_at(data, h) is Ok {
        let (code, end) = framing::part_at(data, h)->Ok_0;
        let pal = exp_golomb::exp_frame(code, le::le16_at(data, 0));
        let t = rle_golomb::rle_frame(data.skip(end), data[h - 1] as nat, n);
        let stride = if width == 0 {
            1
        } else {
            width as int
        };
        lemma_tokens_len(t, pal, stride, n);
        lemma_places_len(t, pal, n);
    }
}

proof fn lemma_tokens_len(t: Seq<i32>, pal: Seq<i32>, stride: int, n: nat)
    ensures
        from_tokens(t, pal, stride, n) is Some ==> from_tokens(t, pal, stride, n)->0.len() == n,
    decreases n,
{
    if n > 0 {
        lemma_tokens_len(t, pal, stride, (n - 1) as nat);
    }
}

proof fn lemma_places_len(t: Seq<i32>, pal: Seq<i32>, n: nat)
    ensures
        from_places(t, pal, n) is Some ==> from_places(t, pal, n)->0.len() == n,
    decreases n,
{
    if n > 0 {
        lemma_places_len(t, pal, (n - 1) as nat);
    }
}

} // verus!
