//! Writing zero runs and Golomb-Rice codes.

use crf::common::codes::zigzag_encode;
use crf::decoder::rle_golomb::RleGolombDecoder;
use crf::encoder::rle_golomb::{
    encode_frame_rle_golomb_adaptive, encode_frame_rle_golomb_adaptive_limited, RleGolombEncoder,
};

struct RefEnc {
    buf: Vec<u8>,
    cur: u8,
    pos: u8,
    k: u8,
}
impl RefEnc {
    fn new(k: u8) -> Self {
        RefEnc {
            buf: Vec::new(),
            cur: 0,
            pos: 0,
            k,
        }
    }
    fn bit(&mut self, b: bool) {
        if b {
            self.cur |= 1 << (7 - self.pos);
        }
        self.pos += 1;
        if self.pos >= 8 {
            self.buf.push(self.cur);
            self.cur = 0;
            self.pos = 0;
        }
    }
    /// Ones, bit by bit up to the next byte and at the end, whole bytes between.
    fn ones(&mut self, count: u32) {
        let mut left = count as usize;
        while left > 0 && self.pos > 0 {
            self.bit(true);
            left -= 1;
        }
        self.buf.resize(self.buf.len() + left / 8, 0xff);
        for _ in 0..left % 8 {
            self.bit(true);
        }
    }
    fn golomb(&mut self, value: u32) {
        let q = value >> self.k;
        let r = value & ((1 << self.k) - 1);
        self.ones(q);
        self.bit(false);
        for i in (0..self.k).rev() {
            self.bit((r >> i) & 1 == 1);
        }
    }
    fn exp(&mut self, value: u32) {
        let m = 31 - (value + 1).leading_zeros();
        for _ in 0..m {
            self.bit(false);
        }
        for i in (0..=m).rev() {
            self.bit(((value + 1) >> i) & 1 == 1);
        }
    }
    fn signed_array(&mut self, values: &[i32]) -> Vec<u8> {
        let mut i = 0;
        while i < values.len() {
            if values[i] == 0 {
                let mut z = 0u32;
                while i < values.len() && values[i] == 0 {
                    z += 1;
                    i += 1;
                }
                self.bit(true);
                self.exp(z);
            } else {
                self.bit(false);
                let u = zigzag_encode(values[i]);
                self.golomb(u);
                i += 1;
            }
        }
        if self.pos > 0 {
            self.buf.push(self.cur);
        }
        std::mem::take(&mut self.buf)
    }
}

#[test]
fn test_fastfail_limit_equivalence() {
    let mut state = 0xBEEFu64;
    let values: Vec<i32> = (0..50000)
        .map(|_| {
            state = state
                .wrapping_mul(6364136223846793005)
                .wrapping_add(1442695040888963407);
            if state >> 40 & 3 != 0 {
                0
            } else {
                ((state >> 33) % 200) as i32 - 100
            }
        })
        .collect();
    let (full, k) = encode_frame_rle_golomb_adaptive(&values).unwrap();

    for x in [full.len(), full.len() + 1, full.len() * 2, usize::MAX] {
        let r = encode_frame_rle_golomb_adaptive_limited(&values, x)
            .unwrap()
            .unwrap();
        assert_eq!(r.0, full);
        assert_eq!(r.1, k);
    }

    let r = encode_frame_rle_golomb_adaptive_limited(&values, full.len() - 1).unwrap();
    if let Some((b, _)) = r {
        assert!(b.len() <= full.len() + 8);
    }
}

#[test]
fn test_batch_write_equivalence_to_legacy() {
    let mut state = 0x5EED_CAFE_F00Du64;
    let mut rnd = move || {
        state = state
            .wrapping_mul(6364136223846793005)
            .wrapping_add(1442695040888963407);
        state
    };

    let datasets: Vec<Vec<i32>> = vec![
        vec![0i32; 5000],
        {
            let mut v = Vec::new();
            for run in [1usize, 2, 3, 55, 56, 57, 4096, 70000] {
                v.extend(std::iter::repeat(0).take(run));
                v.push(((rnd() % 200) as i32) - 100);
            }
            v
        },
        (0..3000)
            .map(|_| {
                let s = rnd();
                if s & 1 == 0 {
                    0
                } else {
                    ((s >> 33) % 4000) as i32 - 2000
                }
            })
            .collect(),
        (0..2000).map(|i| (i % 7 - 3) as i32).collect(),
        vec![i32::MIN / 2, i32::MAX / 2, -1, 1, 0],
    ];

    for k in [0u8, 1, 2, 4, 6, 16] {
        for data in &datasets {
            let mut reference = RefEnc::new(k);
            let expected = reference.signed_array(data);

            let mut actual_enc = RleGolombEncoder::new(k);
            actual_enc.encode_signed_array(data);
            let actual = actual_enc.finish();

            assert_eq!(expected, actual);
        }
    }
}

#[test]
fn rle_golomb_test_rle_golomb_roundtrip_zeros() {
    let values = vec![0i32; 1000];
    let mut encoder = RleGolombEncoder::new(0);
    encoder.encode_signed_array(&values);
    let encoded = encoder.finish();

    let mut decoder = RleGolombDecoder::new(&encoded, 0);
    let decoded = decoder.decode_signed_array(values.len());
    assert_eq!(values, decoded);
}

#[test]
fn rle_golomb_test_rle_golomb_roundtrip_mixed() {
    let values = vec![0, 0, 0, 1, 2, -1, 0, 0, 5, -3, 0, 0, 0, 0, 0, 10];
    let mut encoder = RleGolombEncoder::new(1);
    encoder.encode_signed_array(&values);
    let encoded = encoder.finish();

    let mut decoder = RleGolombDecoder::new(&encoded, 1);
    let decoded = decoder.decode_signed_array(values.len());
    assert_eq!(values, decoded);
}

#[test]
fn test_rle_golomb_roundtrip_all_nonzero() {
    let values = vec![1, -1, 2, -2, 3, -3, 10, -10, 100, -100];
    let mut encoder = RleGolombEncoder::new(2);
    encoder.encode_signed_array(&values);
    let encoded = encoder.finish();

    let mut decoder = RleGolombDecoder::new(&encoded, 2);
    let decoded = decoder.decode_signed_array(values.len());
    assert_eq!(values, decoded);
}

#[test]
fn test_rle_golomb_large_run_compactness() {
    let mut values = vec![0i32; 3072];
    values.push(-7);
    let mut encoder = RleGolombEncoder::adaptive(&values);
    encoder.encode_signed_array(&values);
    let k = encoder.k();
    let encoded = encoder.finish();

    assert!(encoded.len() <= 16);

    let mut decoder = RleGolombDecoder::new(&encoded, k);
    let decoded = decoder.decode_signed_array(values.len());
    assert_eq!(values, decoded);
}

#[test]
fn test_rle_golomb_mixed_runs_roundtrip() {
    let mut values = Vec::new();
    values.extend_from_slice(&[0i32; 5000]);
    values.extend_from_slice(&[3, -3]);
    values.extend_from_slice(&[0i32; 1]);
    values.extend_from_slice(&[9]);
    values.extend_from_slice(&[0i32; 70000]);

    let mut encoder = RleGolombEncoder::adaptive(&values);
    encoder.encode_signed_array(&values);
    let k = encoder.k();
    let encoded = encoder.finish();

    let mut decoder = RleGolombDecoder::new(&encoded, k);
    let decoded = decoder.decode_signed_array(values.len());
    assert_eq!(values, decoded);
}
