//! Quantised transforms of whole frames.

use crf::common::dct::{
    dct_dequantize_inverse, dct_dequantize_inverse_interleaved,
    dct_dequantize_inverse_interleaved_bs,
};
use crf::encoder::dct_path::{
    dct_quantize, dct_quantize_interleaved, dct_quantize_interleaved_bs,
};

#[test]
fn test_dct_quant_roundtrip_q1() {
    let pixels: Vec<i32> = (0..256).map(|i| ((i * 37) % 200) - 100).collect();
    let quantized = dct_quantize(&pixels, 16, 16, 1);
    let restored = dct_dequantize_inverse(&quantized, 16, 16);
    assert_eq!(pixels, restored);
}

#[test]
fn test_dct_quant_energy_compaction() {
    let smooth: Vec<i32> = (0..64 * 64)
        .map(|i| {
            let x = i % 64;
            let y = i / 64;
            100 + x / 8 + y / 16
        })
        .collect();
    let q = 5u8;
    let quantized = dct_quantize(&smooth, 64, 64, q);
    let zeros = quantized.iter().filter(|&&v| v == 0).count();
    let zero_pct = zeros as f64 / quantized.len() as f64;
    assert!(zero_pct > 0.3);
}

fn make_interleaved_rgb(w: usize, h: usize) -> Vec<i32> {
    let mut px = Vec::with_capacity(w * h * 3);
    for y in 0..h {
        for x in 0..w {
            let yy = ((x * 3 + y) % 256) as i32;
            let co: i32 = if x < w / 2 { 90 } else { -70 };
            let cg: i32 = if y < h / 2 { 45 } else { -45 };
            px.push(yy);
            px.push(co);
            px.push(cg);
        }
    }
    px
}

#[test]
fn test_dct_interleaved_roundtrip_q1() {
    let pixels = make_interleaved_rgb(37, 23);
    let q = dct_quantize_interleaved(&pixels, 37, 23, 3, 1);
    let back = dct_dequantize_inverse_interleaved(&q, 37, 23, 3);
    assert_eq!(pixels, back);
}

#[test]
fn test_dct_interleaved_lossy_psnr_floor() {
    let pixels = make_interleaved_rgb(64, 64);
    let q = dct_quantize_interleaved(&pixels, 64, 64, 3, 5);
    let back = dct_dequantize_inverse_interleaved(&q, 64, 64, 3);
    let mut sq_sum = 0.0f64;
    for (a, b) in pixels.iter().zip(back.iter()) {
        let d = (a - b) as f64;
        sq_sum += d * d;
    }
    let mse = sq_sum / pixels.len() as f64;
    let psnr = if mse > 0.0 {
        10.0 * (255.0f64 * 255.0 / mse).log10()
    } else {
        f64::INFINITY
    };
    assert!(psnr > 30.0);
}

#[test]
fn test_matrix_quant_q1_identity() {
    let pixels = make_interleaved_rgb(37, 23);
    let qm = dct_quantize_interleaved_bs(&pixels, 37, 23, 3, 1, 4, 4, true, false);
    let back = dct_dequantize_inverse_interleaved_bs(&qm, 37, 23, 3, 4, 4);
    assert_eq!(pixels, back);
}

#[test]
fn test_rect_q1_identity_lossless_variants() {
    for (bw, bh) in [(8usize, 4usize), (4usize, 8usize)] {
        let pixels = make_interleaved_rgb(37, 23);
        let q = dct_quantize_interleaved_bs(&pixels, 37, 23, 3, 1, bw, bh, false, false);
        let back = dct_dequantize_inverse_interleaved_bs(&q, 37, 23, 3, bw, bh);
        assert_eq!(pixels, back);
    }
}

#[test]
fn test_matrix_vs_flat_tradeoff() {
    let w = 64usize;
    let h = 64usize;
    let mut px = Vec::with_capacity(w * h * 3);
    for y in 0..h {
        for x in 0..w {
            let yy = 100 + (x / 4) as i32 + (y / 8) as i32;
            let tex = if (x % 16 < 8) && (y % 16 < 8) {
                ((x * y) % 7) as i32
            } else {
                0
            };
            px.push((yy + tex).clamp(0, 255));
            px.push(((x / 32) as i32 - 1) * 60);
            px.push(((y / 32) as i32 - 1) * 45);
        }
    }
    let q = 5u8;
    let flat = dct_quantize_interleaved(&px, w, h, 3, q);
    let mat = dct_quantize_interleaved_bs(&px, w, h, 3, q, 4, 4, true, false);

    let zeros = |v: &[i32]| v.iter().filter(|&&c| c == 0).count();
    assert!(zeros(&mat) >= zeros(&flat));

    let psnr_of = |recon: &[i32]| -> f64 {
        let back = dct_dequantize_inverse_interleaved(recon, w, h, 3);
        let mse: f64 = px
            .iter()
            .zip(back.iter())
            .map(|(a, b)| {
                let d = (a - b) as f64;
                d * d
            })
            .sum::<f64>()
            / px.len() as f64;
        if mse > 0.0 {
            10.0 * (255.0f64 * 255.0 / mse).log10()
        } else {
            f64::INFINITY
        }
    };
    let p_flat = psnr_of(&flat);
    let p_mat = psnr_of(&mat);
    assert!(p_flat - p_mat <= 1.5);
}
