//! Searching for levels.

use crf::common::dct::quantize_coeffs_with_matrix;
use crf::encoder::rdoq::trellis_quantize_coeffs;

#[test]
fn test_trellis_q1_identity() {
    let coeffs: Vec<i32> = (-500..500).collect();
    let qm = [64u32; 16];
    let out = trellis_quantize_coeffs(&coeffs, 40, 25, 1, Some(&qm), 4, 4);
    assert_eq!(coeffs, out);
}

#[test]
fn test_trellis_sparsifies_small_coeffs_keeps_large() {
    let mut coeffs = vec![0i32; 256];
    for (i, v) in coeffs.iter_mut().enumerate() {
        *v = match i % 8 {
            0 => 300,
            1 => 3,
            2 => -4,
            3 => 250,
            _ => 0,
        };
    }
    let qm = [64u32; 16];
    let baseline = quantize_coeffs_with_matrix(&coeffs, 16, 16, 5, &qm, 4, 4, false);
    let out = trellis_quantize_coeffs(&coeffs, 16, 16, 5, Some(&qm), 4, 4);
    let abs_sum_base: i64 = baseline.iter().map(|&v| v.unsigned_abs() as i64).sum();
    let abs_sum_out: i64 = out.iter().map(|&v| v.unsigned_abs() as i64).sum();
    assert!(abs_sum_out <= abs_sum_base);
    assert!(out.iter().any(|&v| v.unsigned_abs() > 200));
}

#[test]
fn test_trellis_output_multiple_of_step() {
    let w = 40usize;
    let h = 15usize;
    let coeffs: Vec<i32> = (0..w * h).map(|i| (((i * 7) % 601) as i32) - 300).collect();
    let qm = [
        64u32, 68, 80, 96, 68, 80, 96, 112, 80, 96, 112, 128, 96, 112, 128, 144,
    ];
    let out = trellis_quantize_coeffs(&coeffs, 40, 15, 5, Some(&qm), 4, 4);
    for by in (0..h).step_by(4) {
        for bx in (0..w).step_by(4) {
            let full_block = by + 4 <= h && bx + 4 <= w;
            for r in 0..4usize {
                for c in 0..4usize {
                    let y = by + r;
                    let x = bx + c;
                    if y >= h || x >= w {
                        continue;
                    }
                    let idx = y * w + x;
                    let expected_q = if full_block {
                        let wt = qm[r * 4 + c];
                        (((5u32 * wt) / 64).max(1)) as i32
                    } else {
                        5
                    };
                    assert_eq!(out[idx] % expected_q, 0);
                }
            }
        }
    }
}
