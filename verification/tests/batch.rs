//! How frames are quantised.

use crf::common::config::KernelLossyConfig;
use crf::encoder::batch::fq_for_chain_index;

#[test]
fn fq_for_chain_index_chroma_half_res_decoupled_from_step() {
    let mut tuning = KernelLossyConfig::lossless();
    tuning.enabled = true;
    tuning.global_step = 1;
    tuning.anchor_interval = 5;
    tuning.chroma_half_res = true;

    let fq_q95 = fq_for_chain_index(1, Some(1), &tuning, 0);
    assert!(fq_q95.chroma_half_res);

    let fq_q90 = fq_for_chain_index(1, Some(2), &tuning, 0);
    assert!(fq_q90.chroma_half_res);

    tuning.chroma_half_res = false;
    let fq_off = fq_for_chain_index(1, Some(2), &tuning, 0);
    assert!(!fq_off.chroma_half_res);
}

#[test]
fn fq_for_chain_index_anchor_boundary_lossless() {
    let mut tuning = KernelLossyConfig::lossless();
    tuning.enabled = true;
    tuning.global_step = 2;
    tuning.anchor_interval = 5;

    let fq_anchor = fq_for_chain_index(5, Some(2), &tuning, 0);
    assert_eq!(fq_anchor.step, 0);
    let fq_normal = fq_for_chain_index(3, Some(2), &tuning, 0);
    assert_eq!(fq_normal.step, 2);
}
