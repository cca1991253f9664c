use rust_thumbnails::{make_thumbnail, target_height};

#[test]
fn aspect_height_full_hd_to_480() {
    assert_eq!(target_height(1920, 1080, 480), Some(270));
}

#[test]
fn aspect_height_rounds_half_up() {
    assert_eq!(target_height(4, 1, 2), Some(1));
    assert_eq!(target_height(3, 1, 1), Some(0));
    assert_eq!(target_height(3, 2, 1), Some(1));
}

#[test]
fn aspect_height_needs_source_width() {
    assert_eq!(target_height(0, 100, 10), None);
}

#[test]
fn aspect_height_too_tall() {
    assert_eq!(target_height(1, u32::MAX, 2), None);
    assert_eq!(target_height(2, u32::MAX, 2), Some(u32::MAX));
}

#[test]
fn thumbnail_of_solid_image() {
    let pixels: Vec<u8> = [10u8, 20, 30, 255].repeat(8);
    let t = make_thumbnail(pixels, 4, 2, 2).unwrap();
    assert_eq!((t.width, t.height), (2, 1));
    assert_eq!(t.pixels.len(), 8);
    let expected = [10u8, 20, 30, 255].repeat(2);
    for (a, b) in t.pixels.iter().zip(expected.iter()) {
        assert!((*a as i32 - *b as i32).abs() <= 1);
    }
}

#[test]
fn thumbnail_rejects_short_buffer() {
    assert!(make_thumbnail(vec![0u8; 31], 4, 2, 2).is_none());
}

#[test]
fn thumbnail_rejects_empty_target() {
    assert!(make_thumbnail(vec![0u8; 32], 4, 2, 0).is_none());
    assert!(make_thumbnail(vec![0u8; 16], 4, 1, 1).is_none());
}

#[test]
fn thumbnail_at_source_width_copies_pixels() {
    let pixels: Vec<u8> = (0u8..24).collect();
    let t = make_thumbnail(pixels.clone(), 3, 2, 3).unwrap();
    assert_eq!((t.width, t.height), (3, 2));
    assert_eq!(t.pixels, pixels);
}
