use mini_canvas::pixel::{
    blend_channel, flatten_on_white, intersect_coverage, out_alpha, premultiply, premultiply_pixels,
};

#[test]
fn blend_channel_values() {
    assert_eq!(blend_channel(200, 100, 128), 150);
    assert_eq!(blend_channel(17, 230, 255), 17);
    assert_eq!(blend_channel(17, 230, 0), 230);
}

#[test]
fn out_alpha_values() {
    assert_eq!(out_alpha(128, 255), 255);
    assert_eq!(out_alpha(100, 50), 130);
    assert_eq!(out_alpha(255, 0), 255);
    assert_eq!(out_alpha(0, 77), 77);
}

#[test]
fn premultiply_values() {
    assert_eq!(premultiply(255, 128), 128);
    assert_eq!(premultiply(100, 200), 78);
    assert_eq!(premultiply(123, 255), 123);
    assert_eq!(premultiply(123, 0), 0);
}

#[test]
fn premultiply_pixels_keeps_alpha_and_tail() {
    let mut px = vec![200, 100, 50, 128, 1, 2, 3, 255, 9];
    premultiply_pixels(&mut px);
    assert_eq!(px, vec![100, 50, 25, 128, 1, 2, 3, 255, 9]);
}

#[test]
fn flatten_on_white_composites() {
    // Premultiplied pixels: opaque, fully transparent, and half-transparent red.
    let rgba = [10, 20, 30, 255, 0, 0, 0, 0, 100, 0, 0, 128];
    let mut rgb = vec![7; 40];
    flatten_on_white(&rgba, 3, &mut rgb);
    assert_eq!(rgb, vec![10, 20, 30, 255, 255, 255, 227, 127, 127]);
}

#[test]
fn flatten_on_white_half_transparent_full_red_is_white_red_channel() {
    // [128, 0, 0, 128] is pure red at half alpha: over white its red stays 255.
    let mut rgb = Vec::new();
    flatten_on_white(&[128, 0, 0, 128], 1, &mut rgb);
    assert_eq!(rgb, vec![255, 127, 127]);
}

#[test]
fn flatten_on_white_saturates_out_of_range_colour() {
    let mut rgb = Vec::new();
    flatten_on_white(&[10, 20, 30, 0], 1, &mut rgb);
    assert_eq!(rgb, vec![255, 255, 255]);
}

#[test]
fn intersect_coverage_takes_minimum() {
    let mut cur = [10, 200, 50];
    intersect_coverage(&mut cur, &[100, 100]);
    assert_eq!(cur, [10, 100, 50]);
}
