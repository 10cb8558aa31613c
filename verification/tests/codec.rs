use mini_canvas::cache::{LruCache, LruClock};
use std::rc::Rc;

use mini_canvas::codec::{
    cache_decoded_image, encode_jpeg, encode_png, prepare_decoded, surface_jpeg, surface_png,
    DecodedImage,
};
use mini_canvas::error::CanvasError;
use mini_canvas::hash::hash_bytes;
use mini_canvas::surface::create_pixmap;

fn solid(w: usize, h: usize, px: [u8; 4]) -> Vec<u8> {
    let mut v = Vec::with_capacity(w * h * 4);
    for _ in 0..w * h {
        v.extend_from_slice(&px);
    }
    v
}

#[test]
fn png_has_signature() {
    let png = encode_png(32, 24, &solid(32, 24, [255, 0, 0, 255])).unwrap();
    assert!(png.starts_with(b"\x89PNG"));
    assert!(png.len() > 50);
}

#[test]
fn png_rejects_bad_sizes() {
    assert!(matches!(encode_png(0, 4, &[]), Err(CanvasError::PngEncoding(_))));
    assert!(matches!(encode_png(2, 2, &[0; 15]), Err(CanvasError::PngEncoding(_))));
}

#[test]
fn jpeg_has_soi_and_flattens_alpha() {
    let rgba = solid(16, 16, [0, 0, 0, 0]);
    let mut scratch = Vec::new();
    let jpeg = encode_jpeg(16, 16, &rgba, 80, &mut scratch).unwrap();
    assert!(jpeg.starts_with(&[0xff, 0xd8, 0xff]));
    assert_eq!(scratch.len(), 16 * 16 * 3);
    assert!(scratch.iter().all(|&b| b == 255));
}

#[test]
fn jpeg_quality_is_clamped() {
    let rgba = solid(8, 8, [10, 200, 30, 255]);
    let mut scratch = Vec::new();
    let low = encode_jpeg(8, 8, &rgba, 0, &mut scratch).unwrap();
    let one = encode_jpeg(8, 8, &rgba, 1, &mut scratch).unwrap();
    assert_eq!(low, one);
    let high = encode_jpeg(8, 8, &rgba, 255, &mut scratch).unwrap();
    let hundred = encode_jpeg(8, 8, &rgba, 100, &mut scratch).unwrap();
    assert_eq!(high, hundred);
}

#[test]
fn jpeg_rejects_oversized_width() {
    let rgba = vec![0u8; 70000 * 4];
    let mut scratch = Vec::new();
    assert!(matches!(encode_jpeg(70000, 1, &rgba, 80, &mut scratch), Err(CanvasError::JpegEncoding(_))));
}

#[test]
fn jpeg_composites_premultiplied_pixels_over_white() {
    let rgba = solid(4, 4, [128, 0, 0, 128]);
    let mut scratch = Vec::new();
    encode_jpeg(4, 4, &rgba, 90, &mut scratch).unwrap();
    assert_eq!(&scratch[0..3], &[255, 127, 127]);
    assert!(scratch.chunks(3).all(|c| c == [255, 127, 127]));
}

#[test]
fn surface_png_of_new_canvas_succeeds() {
    let pixmap = create_pixmap(32, 24).unwrap();
    let png = surface_png(&pixmap).unwrap();
    assert!(png.starts_with(b"\x89PNG"));
    assert_eq!(png, encode_png(32, 24, &vec![0; 32 * 24 * 4]).unwrap());
}

#[test]
fn surface_png_rejects_pixmap_with_extra_bytes() {
    let bytes = vec![0u8; 2 * 2 * 4 + 4];
    let pixmap = tiny_skia::PixmapRef::from_bytes(&bytes, 2, 2).unwrap().to_owned();
    assert!(matches!(surface_png(&pixmap), Err(CanvasError::PngEncoding(_))));
    let mut scratch = Vec::new();
    let jpeg = surface_jpeg(&pixmap, 50, &mut scratch).unwrap();
    assert!(jpeg.starts_with(&[0xff, 0xd8, 0xff]));
    assert_eq!(scratch, vec![255; 2 * 2 * 3]);
}

#[test]
fn surface_jpeg_of_new_canvas_is_white() {
    let pixmap = create_pixmap(8, 8).unwrap();
    let mut scratch = Vec::new();
    let jpeg = surface_jpeg(&pixmap, 80, &mut scratch).unwrap();
    assert!(jpeg.starts_with(&[0xff, 0xd8, 0xff]));
    assert_eq!(scratch, vec![255; 8 * 8 * 3]);
}

#[test]
fn surface_jpeg_rejects_oversized_width() {
    let pixmap = create_pixmap(70000, 1).unwrap();
    let mut scratch = Vec::new();
    assert!(matches!(surface_jpeg(&pixmap, 80, &mut scratch), Err(CanvasError::JpegEncoding(_))));
}

#[test]
fn prepare_decoded_premultiplies_and_keeps_bytes() {
    let img = prepare_decoded(1, 1, vec![200, 100, 50, 128], b"src").unwrap();
    assert_eq!(*img.premultiplied_rgba, vec![100, 50, 25, 128]);
    assert_eq!(img.encoded, b"src".to_vec());
    assert!(prepare_decoded(0, 3, vec![], b"src").is_none());
}

fn cached<'a>(cache: &'a LruCache<DecodedImage>, key: u128) -> &'a DecodedImage {
    cache.get(key).unwrap()
}

#[test]
fn decoded_image_is_cached_and_reused() {
    let red_png = encode_png(20, 20, &solid(20, 20, [255, 0, 0, 255])).unwrap();
    let mut clock = LruClock::new();
    let mut cache: LruCache<DecodedImage> = LruCache::new(16);
    let key = cache_decoded_image(&mut cache, &red_png, &mut clock).unwrap().unwrap();
    assert_eq!(key, hash_bytes(&red_png) as u128);
    let first = cached(&cache, key);
    assert_eq!((first.width, first.height), (20, 20));
    assert_eq!(&first.premultiplied_rgba[0..4], &[255, 0, 0, 255]);
    let again = cache_decoded_image(&mut cache, &red_png, &mut clock).unwrap().unwrap();
    assert_eq!(again, key);
    assert_eq!(cache.len(), 1);

    let blue_png = encode_png(4, 4, &solid(4, 4, [0, 0, 255, 128])).unwrap();
    let blue = cache_decoded_image(&mut cache, &blue_png, &mut clock).unwrap().unwrap();
    assert_ne!(blue, key);
    let decoded = cached(&cache, blue);
    assert_eq!((decoded.width, decoded.height), (4, 4));
    assert_eq!(&decoded.premultiplied_rgba[0..4], &[0, 0, 128, 128]);
}

#[test]
fn undecodable_bytes_are_an_error() {
    let mut clock = LruClock::new();
    let mut cache: LruCache<DecodedImage> = LruCache::new(16);
    let res = cache_decoded_image(&mut cache, b"not an image", &mut clock);
    assert!(matches!(res, Err(CanvasError::UnsupportedImage(_))));
    assert_eq!(cache.len(), 0);
}

#[test]
fn same_hash_different_bytes_decodes_fresh() {
    let red_png = encode_png(2, 2, &solid(2, 2, [255, 0, 0, 255])).unwrap();
    let key = hash_bytes(&red_png) as u128;
    let mut clock = LruClock::new();
    let mut cache: LruCache<DecodedImage> = LruCache::new(16);
    // A stale entry under the same key, decoded from other bytes.
    let stale = DecodedImage {
        width: 1,
        height: 1,
        premultiplied_rgba: Rc::new(vec![0, 0, 0, 0]),
        encoded: b"other bytes".to_vec(),
    };
    cache.insert(key, stale, &mut clock);
    let got = cache_decoded_image(&mut cache, &red_png, &mut clock).unwrap().unwrap();
    assert_eq!(got, key);
    let fresh = cached(&cache, key);
    assert_eq!((fresh.width, fresh.height), (2, 2));
    assert_eq!(&fresh.premultiplied_rgba[0..4], &[255, 0, 0, 255]);
    assert_eq!(fresh.encoded, red_png);
    assert_eq!(cache.len(), 1);
}
