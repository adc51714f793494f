//! Frames with few different sample values, coded as places in a palette.

use vstd::prelude::*;
use crate::common::bits;
use crate::common::choose_k;
use crate::common::codes;
use crate::common::framing;
use crate::common::framing::put_part;
use crate::common::le;
use crate::common::le::{put_bytes, put_le16};
use crate::encoder::exp_golomb::ExpGolombEncoder;
use crate::encoder::rle_golomb;
use crate::encoder::rle_golomb::RleGolombEncoder;

verus! {

/// Most values that a palette can have.
pub const PALETTE_MAX_COLORS: usize = 256;

/// Most pixels that may differ among those that [`palette_plausible`] looks at.
pub const PALETTE_SAMPLE_PIXEL_LIMIT: usize = 4096;

/// Distance of the samples that [`palette_plausible`] looks at.
pub const PALETTE_STEP: usize = 7;

/// The place of `v` in `s`, or the length of `s`.
pub open spec fn place_of(s: Seq<i32>, v: i32) -> nat
    decreases s.len(),
{
    if s.len() == 0 {
        0
    } else if s[0] == v {
        0
    } else {
        1 + place_of(s.skip(1), v)
    }
}

/// The different values of `px` in the order in which they first come.
pub open spec fn palette(px: Seq<i32>) -> Seq<i32>
    decreases px.len(),
{
    if px.len() == 0 {
        Seq::empty()
    } else {
        let p = palette(px.drop_last());
        if place_of(p, px.last()) < p.len() {
            p
        } else {
            p.push(px.last())
        }
    }
}

/// The place of each sample in the palette.
pub open spec fn indices(px: Seq<i32>) -> Seq<i32> {
    Seq::new(px.len(), |i: int| place_of(palette(px), px[i]) as i32)
}

/// Whether places that repeat the one above are coded as such.
pub open spec fn copies_above(n: nat, width: nat) -> bool {
    width > 0 && n > width
}

/// What is coded for each sample: zero where the place above is the same, else the place plus one.
pub open spec fn tokens(ix: Seq<i32>, width: nat) -> Seq<i32> {
    if copies_above(ix.len(), width) {
        Seq::new(
            ix.len(),
            |i: int|
                if i >= width && ix[i - width] == ix[i] {
                    0
                } else {
                    (ix[i] + 1) as i32
                },
        )
    } else {
        ix
    }
}

/// The coded palette.
pub open spec fn palette_code(p: Seq<i32>) -> Seq<u8> {
    bits::pack(codes::exp_bits(codes::zigzags(p)))
}

/// The parameter for tokens.
pub open spec fn token_k(t: Seq<i32>) -> nat {
    choose_k::adaptive_k_spec(codes::zigzags(t))
}

/// The payload: number of values, flags, parameter, palette, tokens.
pub open spec fn palette_bytes(px: Seq<i32>, width: nat) -> Seq<u8> {
    let t = tokens(indices(px), width);
    le::le16(palette(px).len() as u16) + seq![
        if copies_above(px.len(), width) {
            1u8
        } else {
            0u8
        },
        token_k(t) as u8,
    ] + framing::part(palette_code(palette(px))) + rle_golomb::rle_bytes(t, token_k(t))
}

/// The values can be put into a palette.
pub open spec fn palette_fits(px: Seq<i32>) -> bool {
    palette(px).len() <= PALETTE_MAX_COLORS && forall|i: int|
        0 <= i < px.len() ==> #[trigger] px[i] > i32::MIN
}

/// What [`encode_palette_payload`] returns, if anything.
pub open spec fn palette_payload(px: Seq<i32>, width: nat) -> Option<Seq<u8>> {
    if palette_fits(px) {
        Some(palette_bytes(px, width))
    } else {
        None
    }
}

pub proof fn lemma_place_of(s: Seq<i32>, v: i32)
    ensures
        place_of(s, v) <= s.len(),
        place_of(s, v) < s.len() ==> s[place_of(s, v) as int] == v,
        place_of(s, v) == s.len() ==> forall|j: int| 0 <= j < s.len() ==> #[trigger] s[j] != v,
        forall|j: int| 0 <= j < place_of(s, v) ==> #[trigger] s[j] != v,
    decreases s.len(),
{
    if s.len() > 0 && s[0] != v {
        let t = s.skip(1);
        lemma_place_of(t, v);
        assert forall|j: int| 0 <= j < place_of(s, v) implies #[trigger] s[j] != v by {
            if j > 0 {
                assert(t[j - 1] == s[j]);
            }
        }
        if place_of(s, v) == s.len() {
            assert forall|j: int| 0 <= j < s.len() implies #[trigger] s[j] != v by {
                if j > 0 {
                    assert(t[j - 1] == s[j]);
                }
            }
        }
    }
}

/// A longer palette keeps the places.
pub proof fn lemma_place_push(s: Seq<i32>, v: i32, u: i32)
    ensures
        place_of(s, u) < s.len() ==> place_of(s.push(v), u) == place_of(s, u),
        place_of(s, v) == s.len() ==> place_of(s.push(v), v) == s.len(),
    decreases s.len(),
{
    if s.len() > 0 {
        lemma_place_push(s.skip(1), v, u);
        assert(s.push(v).skip(1) =~= s.skip(1).push(v));
        lemma_place_of(s, v);
    } else {
        assert(s.push(v)[0] == v);
    }
}

/// Every sample is in the palette, and keeps its place as the palette grows.
pub proof fn lemma_palette(px: Seq<i32>, i: int)
    requires
        0 <= i < px.len(),
    ensures
        place_of(palette(px), px[i]) < palette(px).len(),
        palette(px)[place_of(palette(px), px[i]) as int] == px[i],
    decreases px.len(),
{
    let init = px.drop_last();
    let p = palette(init);
    let v = px.last();
    lemma_place_of(p, v);
    if i < px.len() - 1 {
        lemma_palette(init, i);
        lemma_place_push(p, v, px[i]);
    } else {
        lemma_place_push(p, v, v);
    }
    lemma_place_of(palette(px), px[i]);
}

proof fn lemma_palette_step(px: Seq<i32>, n: nat)
    requires
        n < px.len(),
    ensures
        palette(px.take(n as int)).len() <= palette(px.take((n + 1) as int)).len(),
        palette(px.take((n + 1) as int)) == ({
            let p = palette(px.take(n as int));
            if place_of(p, px[n as int]) < p.len() {
                p
            } else {
                p.push(px[n as int])
            }
        }),
{
    assert(px.take((n + 1) as int).drop_last() =~= px.take(n as int));
}

proof fn lemma_palette_grows(px: Seq<i32>, n: nat)
    requires
        n <= px.len(),
    ensures
        palette(px.take(n as int)).len() <= palette(px).len(),
        forall|i: int|
            0 <= i < n ==> place_of(palette(px.take(n as int)), #[trigger] px[i]) == place_of(
                palette(px),
                px[i],
            ),
    decreases px.len() - n,
{
    if n == px.len() {
        assert(px.take(n as int) =~= px);
    } else {
        lemma_palette_step(px, n);
        lemma_palette_grows(px, n + 1);
        let p = palette(px.take(n as int));
        assert forall|i: int| 0 <= i < n implies place_of(p, #[trigger] px[i]) == place_of(
            palette(px),
            px[i],
        ) by {
            assert(px.take(n as int)[i] == px[i]);
            lemma_palette(px.take(n as int), i);
            lemma_place_push(p, px[n as int], px[i]);
        }
    }
}

fn place_exec(s: &Vec<i32>, v: i32) -> (k: usize)
    ensures
        k == place_of(s@, v),
{
    let mut k: usize = 0;
    assert(s@.skip(0) =~= s@);
    while k < s.len() && s[k] != v
        invariant
            k <= s@.len(),
            place_of(s@, v) == k + place_of(s@.skip(k as int), v),
        decreases s@.len() - k,
    {
        assert(s@.skip(k as int).skip(1) =~= s@.skip(k + 1));
        k = k + 1;
    }
    k
}

/// The different values and the place of each sample, unless there are too many values.
fn index_samples(pixels: &[i32]) -> (r: Option<(Vec<i32>, Vec<i32>)>)
    ensures
        palette_fits(pixels@) ==> r is Some,
        r is Some ==> palette_fits(pixels@) && (r->Some_0).0@ == palette(pixels@)
            && (r->Some_0).1@ == indices(pixels@),
{
    let mut p: Vec<i32> = Vec::new();
    let mut ix: Vec<i32> = Vec::new();
    let mut i: usize = 0;
    assert(pixels@.take(0) =~= Seq::<i32>::empty());
    while i < pixels.len()
        invariant
            i <= pixels@.len(),
            p@ == palette(pixels@.take(i as int)),
            p@.len() <= PALETTE_MAX_COLORS,
            ix@.len() == i,
            forall|j: int| 0 <= j < i ==> #[trigger] pixels@[j] > i32::MIN,
            forall|j: int|
                0 <= j < i ==> #[trigger] ix@[j] == place_of(p@, pixels@[j]) as i32,
        decreases pixels@.len() - i,
    {
        let v: i32 = pixels[i];
        let k: usize = place_exec(&p, v);
        proof {
            lemma_palette_step(pixels@, i as nat);
            lemma_palette_grows(pixels@, (i + 1) as nat);
            lemma_place_of(p@, v);
        }
        if v == i32::MIN {
            return None;
        }
        let ghost before = p@;
        if k == p.len() {
            if k >= PALETTE_MAX_COLORS {
                return None;
            }
            p.push(v);
        }
        ix.push(k as i32);
        proof {
            assert forall|j: int| 0 <= j < i + 1 implies #[trigger] ix@[j] == place_of(
                p@,
                pixels@[j],
            ) as i32 by {
                if j < i {
                    assert(pixels@.take(i as int)[j] == pixels@[j]);
                    lemma_palette(pixels@.take(i as int), j);
                }
                lemma_place_push(before, v, pixels@[j]);
            }
        }
        i = i + 1;
    }
    assert(pixels@.take(i as int) =~= pixels@);
    assert(ix@ =~= indices(pixels@));
    Some((p, ix))
}

fn tokens_exec(ix: &Vec<i32>, width: usize) -> (t: Vec<i32>)
    requires
        forall|i: int| 0 <= i < ix@.len() ==> 0 <= #[trigger] ix@[i] < PALETTE_MAX_COLORS,
    ensures
        t@ == tokens(ix@, width as nat),
        t@.len() == ix@.len(),
{
    let ghost all = tokens(ix@, width as nat);
    if !(width > 0 && ix.len() > width) {
        let t: Vec<i32> = ix.clone();
        assert(t@ =~= ix@);
        return t;
    }
    let mut t: Vec<i32> = Vec::new();
    let mut i: usize = 0;
    while i < ix.len()
        invariant
            copies_above(ix@.len(), width as nat),
            forall|i: int| 0 <= i < ix@.len() ==> 0 <= #[trigger] ix@[i] < PALETTE_MAX_COLORS,
            i <= ix@.len(),
            all == tokens(ix@, width as nat),
            all.len() == ix@.len(),
            t@ == all.take(i as int),
        decreases ix@.len() - i,
    {
        if i >= width && ix[i - width] == ix[i] {
            t.push(0);
        } else {
            t.push(ix[i] + 1);
        }
        i = i + 1;
        assert(t@ =~= all.take(i as int));
    }
    assert(t@ =~= all);
    t
}

/// Codes samples as places in a palette, unless there are too many values.
pub fn encode_palette_payload(pixels: &[i32], width: usize) -> (r: Option<Vec<u8>>)
    requires
        pixels@.len() < u32::MAX,
    ensures
        match r {
            Some(v) => palette_payload(pixels@, width as nat) == Some(v@),
            None => palette_payload(pixels@, width as nat) is None,
        },
{
    match index_samples(pixels) {
        None => None,
        Some((p, ix)) => {
            proof {
                assert forall|i: int| 0 <= i < ix@.len() implies 0 <= #[trigger] ix@[i]
                    < PALETTE_MAX_COLORS by {
                    lemma_palette(pixels@, i);
                }
            }
            let t: Vec<i32> = tokens_exec(&ix, width);
            let mut e = RleGolombEncoder::adaptive(&t);
            let k: u8 = e.k();
            e.encode_signed_array(&t);
            assert(e@ =~= rle_golomb::rle_code(t@, k as nat));
            let idx: Vec<u8> = e.finish();
            let mut pe = ExpGolombEncoder::new();
            proof {
                assert forall|i: int| 0 <= i < p@.len() implies #[trigger] p@[i] > i32::MIN by {
                    lemma_palette_values(pixels@, i);
                }
            }
            pe.encode_signed_array(&p);
            assert(pe@ =~= codes::exp_bits(codes::zigzags(p@)));
            let pal: Vec<u8> = pe.finish();
            let mut out: Vec<u8> = Vec::new();
            put_le16(&mut out, p.len() as u16);
            out.push(
                if width > 0 && pixels.len() > width {
                    1
                } else {
                    0
                },
            );
            out.push(k);
            put_part(&mut out, &pal);
            put_bytes(&mut out, &idx);
            assert(out@ =~= palette_bytes(pixels@, width as nat));
            Some(out)
        },
    }
}

/// A value of the palette is that of some sample.
pub proof fn lemma_palette_values(px: Seq<i32>, k: int)
    requires
        0 <= k < palette(px).len(),
    ensures
        exists|i: int| 0 <= i < px.len() && #[trigger] px[i] == palette(px)[k],
    decreases px.len(),
{
    let init = px.drop_last();
    let p = palette(init);
    if k < p.len() {
        lemma_palette_values(init, k);
        let i = choose|i: int| 0 <= i < init.len() && #[trigger] init[i] == p[k];
        assert(px[i] == palette(px)[k]);
    } else {
        assert(px[px.len() - 1] == palette(px)[k]);
    }
}

/// The samples that [`palette_plausible`] looks at.
pub open spec fn looked_at(px: Seq<i32>) -> Seq<i32> {
    Seq::new((px.len() + 6) / 7, |j: int| px[7 * j])
}

/// A number made of the first `n` samples of the pixel at `i`.
pub open spec fn pixel_key(px: Seq<i32>, i: int, n: nat) -> u64
    decreases n,
{
    if n == 0 {
        0
    } else {
        let k = pixel_key(px, i, (n - 1) as nat);
        if i + n - 1 < px.len() {
            k.wrapping_mul(0x1_0000_01B3).wrapping_add((px[i + n - 1] as int % 0x1_0000) as u64)
        } else {
            k
        }
    }
}

/// The pixels among the first `n` samples that are looked at.
pub open spec fn pixel_keys(px: Seq<i32>, c: nat, n: nat) -> Seq<u64>
    decreases n,
{
    if n == 0 {
        Seq::empty()
    } else {
        let s = pixel_keys(px, c, (n - 1) as nat);
        if c > 1 && (7 * (n - 1)) % c as int == 0 {
            s.push(pixel_key(px, 7 * (n - 1), c))
        } else {
            s
        }
    }
}

/// Whether a palette is worth a try: neither the values nor the pixels that are looked at are too
/// many.
pub open spec fn plausible(px: Seq<i32>, c: nat) -> bool {
    &&& looked_at(px).to_set().len() <= PALETTE_MAX_COLORS
    &&& pixel_keys(px, c, looked_at(px).len()).to_set().len() <= PALETTE_SAMPLE_PIXEL_LIMIT
}

fn pixel_key_exec(px: &[i32], i: usize, c: usize) -> (k: u64)
    requires
        i < px@.len(),
        c <= 4,
    ensures
        k == pixel_key(px@, i as int, c as nat),
{
    let mut k: u64 = 0;
    let mut n: usize = 0;
    while n < c
        invariant
            i < px@.len(),
            n <= c <= 4,
            k == pixel_key(px@, i as int, n as nat),
        decreases c - n,
    {
        if n < px.len() - i {
            let v: i32 = px[i + n];
            let low: u64 = low16(v);
            k = k.wrapping_mul(0x1_0000_01B3).wrapping_add(low);
        }
        n = n + 1;
    }
    k
}

fn low16(v: i32) -> (r: u64)
    ensures
        r == v as int % 0x1_0000,
{
    if v >= 0 {
        (v % 0x1_0000) as u64
    } else {
        let m: i64 = -(v as i64);
        let t: i64 = m % 0x1_0000;
        if t == 0 {
            0
        } else {
            (0x1_0000 - t) as u64
        }
    }
}

proof fn lemma_keys_prefix(px: Seq<i32>, c: nat, n: nat, m: nat)
    requires
        n <= m,
    ensures
        pixel_keys(px, c, n).to_set().subset_of(pixel_keys(px, c, m).to_set()),
    decreases m,
{
    if n < m {
        lemma_keys_prefix(px, c, n, (m - 1) as nat);
        let a = pixel_keys(px, c, (m - 1) as nat);
        let b = pixel_keys(px, c, m);
        assert forall|v: u64| a.to_set().contains(v) implies b.to_set().contains(v) by {
            let i = choose|i: int| 0 <= i < a.len() && a[i] == v;
            assert(b[i] == v);
        }
    }
}

proof fn lemma_push_set<A>(s: Seq<A>, v: A)
    ensures
        s.push(v).to_set() == s.to_set().insert(v),
{
    assert forall|x: A| s.push(v).to_set().contains(x) == s.to_set().insert(v).contains(x) by {
        if s.to_set().contains(x) {
            let i = choose|i: int| 0 <= i < s.len() && s[i] == x;
            assert(s.push(v)[i] == x);
        }
        assert(s.push(v)[s.len() as int] == v);
        if s.push(v).to_set().contains(x) && x != v {
            let i = choose|i: int| 0 <= i < s.push(v).len() && s.push(v)[i] == x;
            assert(s[i] == x);
        }
    }
    assert(s.push(v).to_set() =~= s.to_set().insert(v));
}

/// Whether a palette is worth a try, from a look at some of the samples.
pub fn palette_plausible(pixels: &[i32], components: usize) -> (b: bool)
    requires
        1 <= components <= 4,
        pixels@.len() < u32::MAX,
    ensures
        b == plausible(pixels@, components as nat),
{
    broadcast use vstd::std_specs::hash::group_hash_axioms;

    let ghost all = looked_at(pixels@);
    let ghost c = components as nat;
    let mut values: std::collections::HashSet<i32> = std::collections::HashSet::new();
    let mut keys: std::collections::HashSet<u64> = std::collections::HashSet::new();
    let n: usize = if pixels.len() == 0 {
        0
    } else {
        (pixels.len() - 1) / PALETTE_STEP + 1
    };
    let mut j: usize = 0;
    assert(all.take(0).to_set() =~= Set::<i32>::empty());
    assert(pixel_keys(pixels@, c, 0).to_set() =~= Set::<u64>::empty());
    while j < n
        invariant
            1 <= components <= 4,
            c == components,
            pixels@.len() < u32::MAX,
            n == (pixels@.len() + 6) / 7,
            all == looked_at(pixels@),
            all.len() == n,
            j <= n,
            values@ == all.take(j as int).to_set(),
            keys@ == pixel_keys(pixels@, c, j as nat).to_set(),
            values@.len() <= PALETTE_MAX_COLORS,
            keys@.len() <= PALETTE_SAMPLE_PIXEL_LIMIT,
        decreases n - j,
    {
        broadcast use vstd::std_specs::hash::group_hash_axioms;

        let i: usize = PALETTE_STEP * j;
        values.insert(pixels[i]);
        proof {
            lemma_push_set(all.take(j as int), pixels@[i as int]);
            assert(all.take(j as int).push(pixels@[i as int]) =~= all.take(j + 1));
            lemma_take_len(all, j + 1);
        }
        if values.len() > PALETTE_MAX_COLORS {
            return false;
        }
        if components > 1 && i % components == 0 {
            let k: u64 = pixel_key_exec(pixels, i, components);
            keys.insert(k);
            proof {
                lemma_push_set(pixel_keys(pixels@, c, j as nat), k);
            }
        }
        proof {
            assert(keys@ == pixel_keys(pixels@, c, (j + 1) as nat).to_set());
            lemma_keys_prefix(pixels@, c, (j + 1) as nat, n as nat);
            lemma_finite(pixel_keys(pixels@, c, n as nat));
            vstd::set_lib::lemma_len_subset(
                keys@,
                pixel_keys(pixels@, c, n as nat).to_set(),
            );
        }
        if keys.len() > PALETTE_SAMPLE_PIXEL_LIMIT {
            return false;
        }
        j = j + 1;
    }
    assert(all.take(j as int) =~= all);
    true
}

proof fn lemma_finite<A>(s: Seq<A>)
    ensures
        s.to_set().finite(),
{
    vstd::seq_lib::seq_to_set_is_finite(s);
}

proof fn lemma_take_len<A>(s: Seq<A>, n: int)
    requires
        0 <= n <= s.len(),
    ensures
        s.take(n).to_set().len() <= s.to_set().len(),
{
    lemma_finite(s);
    assert forall|v: A| s.take(n).to_set().contains(v) implies s.to_set().contains(v) by {
        let i = choose|i: int| 0 <= i < s.take(n).len() && s.take(n)[i] == v;
        assert(s[i] == v);
    }
    vstd::set_lib::lemma_len_subset(s.take(n).to_set(), s.to_set());
}

/// A palette holds the values of the samples, each once, in the order in which they first occur.
pub proof fn law_palette(px: Seq<i32>, i: int, j: int)
    requires
        0 <= i < j < palette(px).len(),
    ensures
        palette(px)[i] != palette(px)[j],
        exists|a: int, b: int|
            0 <= a < b < px.len() && #[trigger] px[a] == palette(px)[i] && #[trigger] px[b]
                == palette(px)[j] && forall|k: int|
                0 <= k < b ==> #[trigger] px[k] != palette(px)[j],
    decreases px.len(),
{
    let init = px.drop_last();
    let p = palette(init);
    let v = px.last();
    lemma_place_of(p, v);
    if j < p.len() {
        law_palette(init, i, j);
        let (a, b) = choose|a: int, b: int|
            0 <= a < b < init.len() && #[trigger] init[a] == p[i] && #[trigger] init[b] == p[j]
                && forall|k: int| 0 <= k < b ==> #[trigger] init[k] != p[j];
        assert(px[a] == palette(px)[i] && px[b] == palette(px)[j]);
        assert forall|k: int| 0 <= k < b implies #[trigger] px[k] != palette(px)[j] by {
            assert(init[k] == px[k]);
        }
    } else {
        lemma_palette_values(init, i);
        let a = choose|a: int| 0 <= a < init.len() && #[trigger] init[a] == p[i];
        let b = px.len() - 1;
        assert(px[a] == palette(px)[i] && px[b] == palette(px)[j]);
        assert forall|k: int| 0 <= k < b implies #[trigger] px[k] != palette(px)[j] by {
            assert(init[k] == px[k]);
            lemma_palette(init, k);
            assert(p[place_of(p, px[k]) as int] != v);
        }
    }
}

/// A sample is told to be that of the row above if, and only if, it is, and by its number in the palette
/// otherwise.
pub proof fn law_tokens(px: Seq<i32>, width: nat, i: int)
    requires
        0 <= i < px.len(),
        0 < width < px.len(),
        palette(px).len() <= PALETTE_MAX_COLORS,
    ensures
        ({
            let t = tokens(indices(px), width);
            &&& t.len() == px.len()
            &&& t[i] == 0 <==> i >= width && px[i - width] == px[i]
            &&& t[i] != 0 ==> 1 <= t[i] <= palette(px).len() && palette(px)[t[i] - 1] == px[i]
        }),
{
    let ix = indices(px);
    lemma_palette(px, i);
    lemma_place_of(palette(px), px[i]);
    if i >= width {
        lemma_palette(px, i - width);
        lemma_place_of(palette(px), px[i - width]);
    }
}

/// An image of few colours is worth a try, and one of which every seventh sample shows too many is not.
pub proof fn law_plausible(px: Seq<i32>, c: nat)
    ensures
        palette(px).len() <= 256 && looked_at(px).len() <= 4096
            ==> plausible(px, c),
        palette(looked_at(px)).len() > 256 ==> !plausible(px, c),
{
    let l = looked_at(px);
    lemma_finite(l);
    lemma_finite(palette(px));
    lemma_distinct(l);
    lemma_distinct(px);
    if palette(px).len() <= 256 {
        let s = palette(px).to_set();
        assert forall|v: i32| l.to_set().contains(v) implies s.contains(v) by {
            let j = choose|j: int| 0 <= j < l.len() && l[j] == v;
            assert(px[7 * j] == v);
            lemma_palette(px, 7 * j);
        }
        vstd::set_lib::lemma_len_subset(l.to_set(), s);
        palette(px).unique_seq_to_set();
    }
    let keys = pixel_keys(px, c, l.len());
    lemma_keys_few(px, c, l.len());
    lemma_finite(keys);
    vstd::seq_lib::seq_to_set_is_finite(keys);
    lemma_set_few(keys);
    if palette(l).len() > 256 {
        palette(l).unique_seq_to_set();
        assert forall|v: i32| palette(l).to_set().contains(v) implies l.to_set().contains(v) by {
            let k = choose|k: int| 0 <= k < palette(l).len() && palette(l)[k] == v;
            lemma_palette_values(l, k);
        }
        vstd::set_lib::lemma_len_subset(palette(l).to_set(), l.to_set());
    }
}

proof fn lemma_distinct(px: Seq<i32>)
    ensures
        palette(px).no_duplicates(),
{
    let p = palette(px);
    assert forall|i: int, j: int| 0 <= i < p.len() && 0 <= j < p.len() && i != j implies p[i]
        != p[j] by {
        if i < j {
            law_palette(px, i, j);
        } else {
            law_palette(px, j, i);
        }
    }
}

proof fn lemma_keys_few(px: Seq<i32>, c: nat, n: nat)
    ensures
        pixel_keys(px, c, n).len() <= n,
    decreases n,
{
    if n > 0 {
        lemma_keys_few(px, c, (n - 1) as nat);
    }
}

proof fn lemma_set_few<A>(s: Seq<A>)
    ensures
        s.to_set().len() <= s.len(),
{
    s.lemma_cardinality_of_set();
}

} // verus!
