//! Tools for sequences.

use crf::encoder::sequence_tools::{change_mask, search_integer_motion};

#[test]
fn mask_marks_changed_tile() {
    let mut b = vec![0; 4 * 4];
    b[5] = 3;
    let m = change_mask(&b, &[0; 16], 4, 4, 1, 2, 0);
    assert_eq!(m, vec![true, false, false, false]);
}
#[test]
fn motion_finds_shift() {
    let mut r = vec![0; 16];
    r[1] = 10;
    let mut c = vec![0; 16];
    c[2] = 10;
    let (dx, _, _) = search_integer_motion(&c, &r, 4, 4, 1, 2);
    assert_eq!(dx, -1);
}
