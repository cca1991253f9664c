use rust_thumbnails::{apply_gamma, build_gamma_lut};

#[test]
fn srgb_table_matches_float_curve() {
    let lut = build_gamma_lut(5, 11).unwrap();
    assert_eq!(lut.len(), 256);
    for i in 0..256usize {
        let f = (i as f64) / 255.0;
        let expected = (f.powf(1.0 / 2.2) * 255.0).round().clamp(0.0, 255.0) as u8;
        assert_eq!(lut[i], expected, "entry {}", i);
    }
}

#[test]
fn srgb_table_shape() {
    let lut = build_gamma_lut(5, 11).unwrap();
    assert_eq!(lut[0], 0);
    assert_eq!(lut[255], 255);
    assert!(lut.windows(2).all(|w| w[0] <= w[1]));
    assert_eq!(lut[1], 21);
    assert_eq!(lut[21], 82);
}

#[test]
fn unit_exponent_is_identity() {
    let lut = build_gamma_lut(1, 1).unwrap();
    for i in 0..256usize {
        assert_eq!(lut[i] as usize, i);
    }
    let buf = vec![0u8, 17, 200, 9, 255, 1, 2, 3];
    let once = apply_gamma(&lut, &buf);
    assert_eq!(apply_gamma(&lut, &once), once);
}

#[test]
fn srgb_twice_is_not_once() {
    let lut = build_gamma_lut(5, 11).unwrap();
    let buf = vec![1u8, 1, 1, 255];
    let once = apply_gamma(&lut, &buf);
    assert_eq!(once, vec![21u8, 21, 21, 255]);
    let twice = apply_gamma(&lut, &once);
    assert_eq!(twice, vec![82u8, 82, 82, 255]);
}

#[test]
fn apply_keeps_alpha() {
    let lut = build_gamma_lut(5, 11).unwrap();
    let buf = vec![0u8, 128, 255, 7, 21, 21, 21, 1, 9];
    let out = apply_gamma(&lut, &buf);
    assert_eq!(out[3], 7);
    assert_eq!(out[7], 1);
    assert_eq!(out[0], 0);
    assert_eq!(out[2], 255);
    assert_eq!(out[4], 82);
    assert_eq!(out[8], lut[9]);
    assert_eq!(out.len(), 9);
}

#[test]
fn exponent_zero_saturates() {
    let lut = build_gamma_lut(0, 3).unwrap();
    assert!(lut.iter().all(|&v| v == 255));
}

#[test]
fn unsupported_exponents() {
    assert!(build_gamma_lut(1, 0).is_none());
    assert!(build_gamma_lut(3, 2).is_none());
    assert!(build_gamma_lut(1, 15).is_none());
}
