//! Doubling planes.

use crf::decoder::planar::upsample_2x_bilinear;

fn upsample_f64_reference(
    small: &[i32],
    sw: usize,
    sh: usize,
    dw: usize,
    dh: usize,
) -> Vec<i32> {
    let mut out = vec![0i32; dw * dh];
    for y in 0..dh {
        let sy = (y as f64 + 0.5) / 2.0 - 0.5;
        let y0 = sy.floor().max(0.0) as usize;
        let y1 = (y0 + 1).min(sh - 1);
        let fy = sy - y0 as f64;
        for x in 0..dw {
            let sx = (x as f64 + 0.5) / 2.0 - 0.5;
            let x0 = sx.floor().max(0.0) as usize;
            let x1 = (x0 + 1).min(sw - 1);
            let fx = sx - x0 as f64;

            let v00 = small[y0 * sw + x0] as f64;
            let v10 = small[y0 * sw + x1] as f64;
            let v01 = small[y1 * sw + x0] as f64;
            let v11 = small[y1 * sw + x1] as f64;
            let top = v00 * (1.0 - fx) + v10 * fx;
            let bot = v01 * (1.0 - fx) + v11 * fx;
            out[y * dw + x] = (top * (1.0 - fy) + bot * fy).round() as i32;
        }
    }
    out
}

fn rand_small(sw: usize, sh: usize, seed: u64, range: i32) -> Vec<i32> {
    let mut state = seed;
    let n = sw * sh;
    let mut v = Vec::with_capacity(n);
    for _ in 0..n {
        state = state
            .wrapping_mul(6364136223846793005)
            .wrapping_add(1442695040888963407);
        v.push(((state >> 33) as i32 % range) - range / 2);
    }
    v
}

#[test]
fn test_upsample_fixed_matches_f64_various_sizes() {
    let cases: [(usize, usize, usize, usize); 8] = [
        (1, 1, 2, 2),
        (1, 4, 2, 8),
        (4, 1, 8, 2),
        (3, 5, 6, 10),
        (7, 3, 14, 6),
        (8, 8, 16, 16),
        (9, 9, 18, 18),
        (10, 11, 20, 22),
    ];
    for (sw, sh, dw, dh) in cases {
        let small = rand_small(sw, sh, 0xDEAD_BEEF ^ sw as u64, 511);
        let expect = upsample_f64_reference(&small, sw, sh, dw, dh);
        let actual = upsample_2x_bilinear(&small, sw, sh, dw, dh);
        assert_eq!(actual, expect);
    }
}

#[test]
fn test_upsample_fixed_matches_f64_random() {
    for round in 0..50u64 {
        let sw = 2 + (round % 7) as usize;
        let sh = 2 + ((round * 3) % 7) as usize;
        let dw = sw * 2;
        let dh = sh * 2;
        let small = rand_small(sw, sh, 0xC0FFEE00 ^ round, 1_000_000);
        let expect = upsample_f64_reference(&small, sw, sh, dw, dh);
        let actual = upsample_2x_bilinear(&small, sw, sh, dw, dh);
        assert_eq!(actual, expect);
    }
}
