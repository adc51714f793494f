//! Buffers that are used again.

use crf::encoder::scratch::{BandScratch, FrameScratch};

fn capacities_of(scratch: &BandScratch) -> Vec<usize> {
    (0..8).map(|index| scratch.candidate_ref(index).capacity()).collect()
}

#[test]
fn frame_scratch_reuses_capacity_after_shrink() {
    let mut scratch = FrameScratch::default();
    let (residuals, reconstruction) = scratch.closed_loop(4096);
    let res_ptr = residuals.as_ptr();
    let recon_ptr = reconstruction.as_ptr();
    let (residuals, reconstruction) = scratch.closed_loop(1024);
    assert_eq!(residuals.as_ptr(), res_ptr);
    assert_eq!(reconstruction.as_ptr(), recon_ptr);
}

#[test]
fn band_scratch_reuses_all_candidate_capacities() {
    let mut scratch = BandScratch::default();
    for index in 0..8 {
        scratch.candidate(index, 2048);
    }
    let capacities = capacities_of(&scratch);
    for index in 0..8 {
        scratch.candidate(index, 512);
    }
    assert_eq!(capacities_of(&scratch), capacities);
}
