//! Predicted and transformed blocks of one plane.

use crf::common::intra8::BLK;
use crf::encoder::intra_probe::encode_intra_probe;

#[test]
fn probe_small_plane_structure() {
    let w = 64usize;
    let h = 48usize;
    let mut plane = vec![0i32; w * h];
    for y in 0..h {
        for x in 0..w {
            plane[y * w + x] = ((x / 4) * 9 + (y / 6) * 17) as i32 % 200 - 100;
        }
    }
    let out = encode_intra_probe(&plane, w, h, 2, 0).unwrap();
    assert_eq!(out.recon.len(), plane.len());
    assert!(out.payload_bytes > 0);
    assert_eq!(out.mode_hist.iter().sum::<usize>(), (w / BLK) * (h / BLK));
}
