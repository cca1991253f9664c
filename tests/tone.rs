use rust_thumbnails::{alpha_to_byte, tone_map, tone_map_rgb, tone_map_rgba};

fn tm(x: f32) -> u8 {
    tone_map(x.to_bits())
}

#[test]
fn tone_map_zero_is_zero() {
    assert_eq!(tm(0.0), 0);
    assert_eq!(tm(-0.0), 0);
}

#[test]
fn tone_map_exact_values() {
    assert_eq!(tm(1.0), 204);
    assert_eq!(tm(0.25), 128);
    assert_eq!(tm(0.5), 170);
    assert_eq!(tm(0.1), 73);
}

#[test]
fn tone_map_saturates() {
    assert_eq!(tm(128.0), 255);
    assert_eq!(tm(1.0e30), 255);
    assert_eq!(tm(f32::INFINITY), 255);
    assert_eq!(tm(f32::MAX), 255);
    assert_eq!(tm(100.0), 254);
}

#[test]
fn tone_map_negative_and_nan() {
    assert_eq!(tm(-1.0), 0);
    assert_eq!(tm(-0.1), 0);
    assert_eq!(tm(f32::NEG_INFINITY), 0);
    assert_eq!(tm(f32::NAN), 0);
}

#[test]
fn tone_map_tiny_values() {
    assert_eq!(tm(1.0e-30), 0);
    assert_eq!(tm(f32::from_bits(1)), 0);
    assert_eq!(tm(0.0004), 0);
    assert_eq!(tm(0.0005), 1);
}

#[test]
fn tone_map_monotone_sweep() {
    let mut prev = 0u8;
    let mut x = 0.0f32;
    while x < 300.0 {
        let v = tm(x);
        assert!(v >= prev);
        prev = v;
        x += 0.01;
    }
    assert_eq!(prev, 255);
}

#[test]
fn alpha_bytes() {
    assert_eq!(alpha_to_byte(1.0f32.to_bits()), 255);
    assert_eq!(alpha_to_byte(0.5f32.to_bits()), 128);
    assert_eq!(alpha_to_byte(0.0f32.to_bits()), 0);
    assert_eq!(alpha_to_byte(2.0f32.to_bits()), 255);
    assert_eq!(alpha_to_byte((-0.5f32).to_bits()), 0);
    assert_eq!(alpha_to_byte(f32::NAN.to_bits()), 0);
    assert_eq!(alpha_to_byte(0.2f32.to_bits()), 51);
}

#[test]
fn rgba_buffer_maps_colour_and_alpha() {
    let px: Vec<u32> = [1.0f32, 0.25, 0.0, 0.5].iter().map(|v| v.to_bits()).collect();
    assert_eq!(tone_map_rgba(&px), vec![204u8, 128, 0, 128]);
}

#[test]
fn rgb_buffer_gets_opaque_alpha() {
    let px: Vec<u32> = [1.0f32, 0.25, 0.0, 0.5, 0.5, 0.5, 9.0].iter().map(|v| v.to_bits()).collect();
    assert_eq!(tone_map_rgb(&px), vec![204u8, 128, 0, 255, 170, 170, 170, 255]);
}
