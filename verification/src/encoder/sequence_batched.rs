//! Encoding a sequence whose frames are loaded batch by batch.

use vstd::prelude::*;
use crate::common::config::{KernelLossyConfig, ReferenceModeV2, Setup};
use crate::common::domain;
use crate::common::domain::ImageData;
use crate::common::error;
use crate::common::error::{CrfError, CrfResult, Fault};
use crate::encoder::film;
use crate::encoder::film::{Film, Recorder, Still};
use crate::encoder::sequence;

verus! {

/// How much a batch may take up.
#[derive(Clone, Copy, Debug)]
pub struct BatchBudget {
    /// Bytes for the frames of a batch.
    pub mem_limit: u64,
    /// Frames in a batch, where that is asked for.
    pub frames: Option<usize>,
    /// Threads that can work at once.
    pub cores: usize,
}

/// A number of at least one and at most `hi`.
pub open spec fn at_most(n: int, hi: int) -> int {
    if n < 1 {
        1
    } else if n > hi {
        hi
    } else {
        n
    }
}

/// Number of frames in a batch, for frames of `bytes` bytes each: what was asked for, or what fits
/// in memory, but no more than there are frames or threads.
pub open spec fn batch_size(b: BatchBudget, bytes: int, frame_count: int) -> int {
    let n = if b.frames is Some && b.frames->0 >= 1 {
        b.frames->0 as int
    } else {
        at_most(
            b.mem_limit as int / (if bytes < 1 {
                1
            } else {
                bytes
            }),
            frame_count,
        )
    };
    let m = if n > frame_count {
        frame_count
    } else {
        n
    };
    at_most(m, if b.cores < 1 {
        1
    } else {
        b.cores as int
    })
}

/// Works out the number of frames in a batch.
pub fn plan_batch(budget: BatchBudget, bytes: u64, frame_count: usize) -> (n: usize)
    requires
        frame_count >= 1,
    ensures
        n == batch_size(budget, bytes as int, frame_count as int),
        n >= 1,
{
    let by_memory: u64 = budget.mem_limit / (if bytes < 1 {
        1
    } else {
        bytes
    });
    let fit: usize = if by_memory < 1 {
        1
    } else if by_memory > frame_count as u64 {
        frame_count
    } else {
        by_memory as usize
    };
    let wanted: usize = match budget.frames {
        Some(k) => if k >= 1 {
            k
        } else {
            fit
        },
        None => fit,
    };
    let m: usize = if wanted > frame_count {
        frame_count
    } else {
        wanted
    };
    let cores: usize = if budget.cores < 1 {
        1
    } else {
        budget.cores
    };
    if m > cores {
        cores
    } else {
        m
    }
}

/// A setup in which frames refer to the first one only.
pub open spec fn golden_setup(s: Setup) -> Setup {
    Setup {
        kernel: KernelLossyConfig { reference_mode: ReferenceModeV2::Golden, ..s.kernel },
        ..s
    }
}

/// The frames are the first `n` that were loaded.
pub open spec fn loaded<F: Fn(usize) -> CrfResult<ImageData>>(
    load: F,
    fs: Seq<ImageData>,
    n: int,
) -> bool {
    &&& fs.len() == n
    &&& forall|i: int|
        0 <= i < n ==> call_ensures(
            load,
            (i as usize,),
            Ok::<ImageData, CrfError>(#[trigger] fs[i]),
        )
}

/// Frames can be loaded, and have as many samples as their size tells.
pub open spec fn loadable<F: Fn(usize) -> CrfResult<ImageData>>(load: F, n: int) -> bool {
    &&& forall|i: usize| i < n ==> #[trigger] call_requires(load, (i,))
    &&& forall|i: usize, f: ImageData| #[trigger]
        call_ensures(load, (i,), Ok::<ImageData, CrfError>(f)) ==> f.wf()
}

/// Adding frames in two lots is adding them all.
pub proof fn lemma_lots(x: Film, s: Seq<Still>, t: Seq<Still>, n: nat)
    requires
        n <= t.len(),
    ensures
        x.with_all(s + t, s.len() + n) == match x.with_all(s, s.len()) {
            Err(f) => Err::<Film, Fault>(f),
            Ok(y) => y.with_all(t, n),
        },
    decreases n,
{
    if n == 0 {
        lemma_same_start(x, s, t, s.len());
    } else {
        lemma_lots(x, s, t, (n - 1) as nat);
        assert((s + t)[s.len() + n - 1] == t[n - 1]);
        assert((s.len() + n - 1) as nat == s.len() + (n - 1) as nat);
    }
}

proof fn lemma_same_start(x: Film, s: Seq<Still>, t: Seq<Still>, n: nat)
    requires
        n <= s.len(),
    ensures
        x.with_all(s + t, n) == x.with_all(s, n),
    decreases n,
{
    if n > 0 {
        lemma_same_start(x, s, t, (n - 1) as nat);
        assert((s + t)[n - 1] == s[n - 1]);
    }
}

proof fn lemma_joined<F: Fn(usize) -> CrfResult<ImageData>>(
    load: F,
    fs: Seq<ImageData>,
    v: Seq<ImageData>,
)
    requires
        loaded(load, fs, fs.len() as int),
        forall|i: int|
            0 <= i < v.len() ==> call_ensures(
                load,
                ((fs.len() + i) as usize,),
                Ok::<ImageData, CrfError>(#[trigger] v[i]),
            ),
    ensures
        loaded(load, fs + v, (fs.len() + v.len()) as int),
{
    let all = fs + v;
    assert forall|i: int| 0 <= i < all.len() implies call_ensures(
        load,
        (i as usize,),
        Ok::<ImageData, CrfError>(#[trigger] all[i]),
    ) by {
        if i < fs.len() {
            assert(all[i] == fs[i]);
        } else {
            assert(all[i] == v[i - fs.len()]);
        }
    }
}

/// Of the frames from number `from` on, `v` were loaded, and loading the next one failed.
spec fn failed_load<F: Fn(usize) -> CrfResult<ImageData>>(
    load: F,
    from: int,
    to: int,
    v: Seq<ImageData>,
    e: CrfError,
) -> bool {
    &&& from + v.len() < to
    &&& forall|i: int|
        0 <= i < v.len() ==> call_ensures(
            load,
            ((from + i) as usize,),
            Ok::<ImageData, CrfError>(#[trigger] v[i]),
        )
    &&& call_ensures(load, ((from + v.len()) as usize,), Err::<ImageData, CrfError>(e))
}

fn load_batch<F: Fn(usize) -> CrfResult<ImageData>>(load: &F, from: usize, to: usize) -> (r:
    CrfResult<Vec<ImageData>>)
    requires
        loadable(*load, to as int),
        from <= to,
    ensures
        match r {
            Ok(v) => v@.len() == to - from && forall|i: int|
                0 <= i < v@.len() ==> call_ensures(
                    *load,
                    ((from + i) as usize,),
                    Ok::<ImageData, CrfError>(#[trigger] v@[i]),
                ),
            Err(e) => exists|v: Seq<ImageData>| #[trigger]
                failed_load(*load, from as int, to as int, v, e),
        },
{
    let mut out: Vec<ImageData> = Vec::new();
    let mut k: usize = from;
    while k < to
        invariant
            loadable(*load, to as int),
            from <= k <= to,
            out@.len() == k - from,
            forall|i: int|
                0 <= i < out@.len() ==> call_ensures(
                    *load,
                    ((from + i) as usize,),
                    Ok::<ImageData, CrfError>(#[trigger] out@[i]),
                ),
        decreases to - k,
    {
        match load(k) {
            Ok(f) => {
                out.push(f);
            },
            Err(e) => {
                assert(failed_load(*load, from as int, to as int, out@, e));
                return Err(e);
            },
        }
        k = k + 1;
    }
    Ok(out)
}

/// Loading ends at the frame behind `fs`: the frames of `fs` were loaded, those of the batches before
/// the one at hand were coded, and loading the next frame failed.
pub open spec fn load_fails<F: Fn(usize) -> CrfResult<ImageData>>(
    load: F,
    setup: Setup,
    n: int,
    fs: Seq<ImageData>,
    e: CrfError,
) -> bool {
    &&& fs.len() < n
    &&& loaded(load, fs, fs.len() as int)
    &&& call_ensures(load, (fs.len() as usize,), Err::<ImageData, CrfError>(e))
    &&& fs.len() >= 1 ==> exists|m: int|
        1 <= m <= fs.len() && (#[trigger] film::filmed(
            golden_setup(setup),
            film::stills(fs.take(m)),
        )) is Ok
}

/// Coding ends within `fs`: those frames were loaded, and coding one of them failed.
pub open spec fn coding_fails<F: Fn(usize) -> CrfResult<ImageData>>(
    load: F,
    setup: Setup,
    n: int,
    fs: Seq<ImageData>,
    e: CrfError,
) -> bool {
    &&& 1 <= fs.len() <= n
    &&& loaded(load, fs, fs.len() as int)
    &&& film::filmed(golden_setup(setup), film::stills(fs)) == Err::<Film, Fault>(error::fault(e))
}

/// What encoding loaded frames gives. If all `n` frames are loaded and coded, it is their file, or
/// the error of making the file of them all. Otherwise it is the error of the load or of the coding
/// that failed; the frames before were loaded.
pub open spec fn batched_ok<F: Fn(usize) -> CrfResult<ImageData>>(
    load: F,
    setup: Setup,
    n: int,
    r: CrfResult<Vec<u8>>,
) -> bool {
    match r {
        Ok(v) => n >= 2 && exists|fs: Seq<ImageData>| #[trigger]
            loaded(load, fs, n) && sequence::film_file(golden_setup(setup), film::stills(fs)) == Ok::<
                Seq<u8>,
                Fault,
            >(v@),
        Err(e) => {
            ||| n < 2 && error::fault(e) == Fault::FrameCount(n as u16)
            ||| n >= 2 && exists|fs: Seq<ImageData>| #[trigger] load_fails(load, setup, n, fs, e)
            ||| n >= 2 && exists|fs: Seq<ImageData>| #[trigger] coding_fails(load, setup, n, fs, e)
            ||| n >= 2 && exists|fs: Seq<ImageData>| #[trigger]
                loaded(load, fs, n) && sequence::film_file(golden_setup(setup), film::stills(fs))
                    == Err::<Seq<u8>, Fault>(error::fault(e))
        },
    }
}

proof fn lemma_more_filmed(setup: Setup, fs: Seq<ImageData>, v: Seq<ImageData>, x: Film)
    requires
        fs.len() >= 1,
        film::filmed(setup, film::stills(fs)) == Ok::<Film, Fault>(x),
    ensures
        film::filmed(setup, film::stills(fs + v)) == x.with_all(film::stills(v), v.len()),
{
    let (s, t) = (film::stills(fs).skip(1), film::stills(v));
    assert(film::stills(fs + v).skip(1) =~= s + t);
    assert(film::stills(fs + v)[0] == film::stills(fs)[0]);
    match film::started(setup, film::stills(fs)[0]) {
        Ok(first) => lemma_lots(first, s, t, t.len()),
        Err(_) => {},
    }
}

proof fn lemma_load_fails<F: Fn(usize) -> CrfResult<ImageData>>(
    load: F,
    setup: Setup,
    n: int,
    fs: Seq<ImageData>,
    v: Seq<ImageData>,
    e: CrfError,
)
    requires
        fs.len() >= 1,
        loaded(load, fs, fs.len() as int),
        film::filmed(golden_setup(setup), film::stills(fs)) is Ok,
        failed_load(load, fs.len() as int, n, v, e),
    ensures
        load_fails(load, setup, n, fs + v, e),
{
    lemma_joined(load, fs, v);
    assert((fs + v).take(fs.len() as int) =~= fs);
}

/// Encodes original frames that `load` gives one by one, as differences to the first frame. Only the
/// frames of one batch are in memory at a time; how frames are split into batches does not change
/// the file.
pub fn encode_sequence_batched<F: Fn(usize) -> CrfResult<ImageData>>(
    frame_count: usize,
    load: F,
    setup: &Setup,
    budget: BatchBudget,
) -> (r: CrfResult<Vec<u8>>)
    requires
        loadable(load, frame_count as int),
    ensures
        batched_ok(load, *setup, frame_count as int, r),
{
    if frame_count < 2 {
        return Err(CrfError::FrameCountOutOfRange(frame_count as u16));
    }
    let mut golden: Setup = *setup;
    golden.kernel.reference_mode = ReferenceModeV2::Golden;
    assert(golden == golden_setup(*setup));
    let first: ImageData = match load(0) {
        Ok(f) => f,
        Err(e) => {
            assert(load_fails(load, *setup, frame_count as int, Seq::empty(), e));
            return Err(e);
        },
    };
    let ghost mut fs: Seq<ImageData> = seq![first];
    proof {
        domain::lemma_samples_bound(first.shape());
        assert(film::stills(fs)[0] == film::still(&first));
        assert(loaded(load, fs, 1));
    }
    let bytes: u64 = first.width as u64 * first.height as u64
        * first.color_format.component_count() as u64 * 4;
    let batch: usize = plan_batch(budget, bytes, frame_count);
    let mut rec: Recorder = match Recorder::start(&golden, &first) {
        Ok(x) => x,
        Err(e) => {
            assert(coding_fails(load, *setup, frame_count as int, fs, e));
            return Err(e);
        },
    };
    assert(film::stills(fs).skip(1) =~= Seq::<Still>::empty());
    let mut at: usize = 1;
    while at < frame_count
        invariant
            loadable(load, frame_count as int),
            frame_count >= 2,
            batch >= 1,
            1 <= at <= frame_count,
            fs.len() == at,
            loaded(load, fs, at as int),
            film::filmed(golden_setup(*setup), film::stills(fs)) == Ok::<Film, Fault>(rec@),
            rec@.ok(),
        decreases frame_count - at,
    {
        let end: usize = if batch < frame_count - at {
            at + batch
        } else {
            frame_count
        };
        let frames: Vec<ImageData> = match load_batch(&load, at, end) {
            Ok(v) => v,
            Err(e) => {
                proof {
                    let v = choose|v: Seq<ImageData>| #[trigger]
                        failed_load(load, at as int, end as int, v, e);
                    assert(failed_load(load, at as int, frame_count as int, v, e));
                    lemma_load_fails(load, *setup, frame_count as int, fs, v, e);
                }
                return Err(e);
            },
        };
        proof {
            lemma_more_filmed(golden_setup(*setup), fs, frames@, rec@);
            lemma_joined(load, fs, frames@);
            fs = fs + frames@;
            assert(loaded(load, fs, end as int));
            assert forall|i: int| 0 <= i < frames@.len() implies (#[trigger] frames@[i]).wf() by {
                assert(call_ensures(
                    load,
                    ((at + i) as usize,),
                    Ok::<ImageData, CrfError>(frames@[i]),
                ));
            }
        }
        rec = match rec.add_batch(&frames) {
            Ok(x) => x,
            Err(e) => {
                assert(coding_fails(load, *setup, frame_count as int, fs, e));
                return Err(e);
            },
        };
        at = end;
    }
    rec.into_file()
}

/// A batch has at least one frame, no more than there are frames or threads, and no more than was asked
/// for or than fits in memory.
pub proof fn law_batch_size(b: BatchBudget, bytes: int, frame_count: int)
    requires
        bytes >= 1,
        frame_count >= 1,
    ensures
        ({
            let n = batch_size(b, bytes, frame_count);
            let asked = b.frames is Some && b.frames->0 >= 1;
            &&& 1 <= n <= frame_count
            &&& n == 1 || n <= b.cores
            &&& asked ==> n <= b.frames->0
            &&& !asked && n > 1 ==> n * bytes <= b.mem_limit
            &&& asked && b.frames->0 <= frame_count && b.frames->0 <= b.cores ==> n == b.frames->0
            &&& !asked && n < frame_count && n < b.cores ==> (n + 1) * bytes > b.mem_limit
        }),
{
    let m = b.mem_limit as int;
    let k = m / bytes;
    vstd::arithmetic::div_mod::lemma_fundamental_div_mod(m, bytes);
    vstd::arithmetic::div_mod::lemma_mod_bound(m, bytes);
    vstd::arithmetic::div_mod::lemma_div_pos_is_pos(m, bytes);
    let n = batch_size(b, bytes, frame_count);
    assert(k * bytes <= m < (k + 1) * bytes) by (nonlinear_arith)
        requires
            m == bytes * k + m % bytes,
            0 <= m % bytes < bytes,
    ;
    assert(n <= k ==> n * bytes <= k * bytes) by (nonlinear_arith)
        requires
            bytes >= 1,
    ;
    assert(n >= k ==> (n + 1) * bytes >= (k + 1) * bytes) by (nonlinear_arith)
        requires
            bytes >= 1,
    ;
}

} // verus!
