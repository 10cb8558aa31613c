//! Image decoding and PNG/JPEG encoding of the canvas contents.

use vstd::prelude::*;
use std::rc::Rc;
use crate::cache::{CacheEntry, LruCache, LruClock, evicted, lemma_eviction_only_drops};
use crate::error::CanvasError;
use crate::hash::{fnv1a, hash_bytes};
use crate::pixel::{flatten_on_white, flattened_on_white, premultiplied, premultiply_pixels};
use crate::surface::{pixmap_bytes, pixmap_data, pixmap_height, pixmap_size, pixmap_width};

verus! {

#[verifier::external_type_specification]
#[verifier::external_body]
pub struct ExImageError(image::ImageError);

#[verifier::external_type_specification]
#[verifier::external_body]
pub struct ExPngEncodingError(png::EncodingError);

/// What `image::load_from_memory` followed by conversion to 8-bit RGBA
/// yields for an encoded image: width, height and straight RGBA bytes, or
/// nothing when the bytes are not a supported image.
pub uninterp spec fn decoded_rgba(bytes: Seq<u8>) -> Option<(u32, u32, Seq<u8>)>;

/// The bytes `png::Encoder` writes for an 8-bit RGBA image with fast
/// compression, or nothing when it reports an error.
pub uninterp spec fn png_encoding(width: u32, height: u32, rgba: Seq<u8>) -> Option<Seq<u8>>;

/// The bytes `image`'s JPEG encoder writes for an 8-bit RGB image at the given
/// quality, or nothing when it reports an error.
pub uninterp spec fn jpeg_encoding(width: u32, height: u32, rgb: Seq<u8>, quality: u8) -> Option<Seq<u8>>;

/// The eight-byte PNG file signature.
pub open spec fn png_signature() -> Seq<u8> {
    seq![137u8, 80u8, 78u8, 71u8, 13u8, 10u8, 26u8, 10u8]
}

/// Decodes an encoded image and converts it to 8-bit RGBA.
///
/// Calls `image::load_from_memory`, then `DynamicImage::to_rgba8`,
/// `ImageBuffer::dimensions` and `ImageBuffer::into_raw`. The contract claims
/// that the result depends on the bytes alone (named `decoded_rgba`) and that
/// the pixel buffer holds at least four bytes per pixel, which `ImageBuffer`
/// guarantees for every buffer it hands out.
#[verifier::external_body]
fn decode_rgba8(bytes: &[u8]) -> (r: Result<(u32, u32, Vec<u8>), image::ImageError>)
    ensures
        match r {
            Ok((w, h, px)) => decoded_rgba(bytes@) == Some((w, h, px@)) && px@.len() >= 4 * w * h,
            Err(_) => decoded_rgba(bytes@) is None,
        },
{
    let rgba = image::load_from_memory(bytes)?.to_rgba8();
    let (width, height) = rgba.dimensions();
    Ok((width, height, rgba.into_raw()))
}

/// Encodes 8-bit RGBA pixels as PNG with fast compression.
///
/// Calls `png::Encoder::new` on an in-memory buffer, sets the colour type,
/// bit depth and compression, then `write_header` and `write_image_data`.
/// The contract claims the result depends on the arguments alone (named
/// `png_encoding`); that it is an error exactly when the width or height is
/// zero (refused by `write_header`) or the pixel buffer does not hold four
/// bytes per pixel (refused by `write_image_data`), since every other step
/// writes into memory; and that the output starts with the PNG signature,
/// which `write_header` writes first. `write_image_data` computes the buffer
/// size `4 * width * height` without an overflow check, hence the
/// requirement.
#[verifier::external_body]
fn png_encode(width: u32, height: u32, rgba: &[u8]) -> (r: Result<Vec<u8>, png::EncodingError>)
    requires
        4 * width * height <= usize::MAX,
    ensures
        match r {
            Ok(bytes) => png_encoding(width, height, rgba@) == Some(bytes@) && bytes@.len() >= 8
                && bytes@.take(8) == png_signature(),
            Err(_) => png_encoding(width, height, rgba@) is None,
        },
        r is Err <==> (width == 0 || height == 0 || rgba@.len() != 4 * width * height),
{
    let mut output = Vec::new();
    let mut encoder = png::Encoder::new(std::io::Cursor::new(&mut output), width, height);
    encoder.set_color(png::ColorType::Rgba);
    encoder.set_depth(png::BitDepth::Eight);
    encoder.set_compression(png::Compression::Fast);
    let mut writer = encoder.write_header()?;
    writer.write_image_data(rgba)?;
    drop(writer);
    Ok(output)
}

/// Encodes 8-bit RGB pixels as JPEG at `quality`.
///
/// Calls `image::codecs::jpeg::JpegEncoder::new_with_quality` on an
/// in-memory buffer, then `encode` with the RGB8 colour type. `encode` panics
/// unless the buffer holds exactly three bytes per pixel, hence the
/// requirement. The contract claims the result depends on the arguments alone
/// (named `jpeg_encoding`); that it is an error exactly when a dimension lies
/// outside `1..=65535` (the encoder's only check before writing to memory);
/// and that the output starts with the SOI marker followed by the next
/// marker's `0xFF`, which the encoder writes first.
#[verifier::external_body]
fn jpeg_encode(width: u32, height: u32, rgb: &[u8], quality: u8) -> (r: Result<Vec<u8>, image::ImageError>)
    requires
        rgb@.len() == 3 * width * height,
    ensures
        match r {
            Ok(bytes) => jpeg_encoding(width, height, rgb@, quality) == Some(bytes@) && bytes@.len()
                >= 3 && bytes@.take(3) == seq![0xFFu8, 0xD8u8, 0xFFu8],
            Err(_) => jpeg_encoding(width, height, rgb@, quality) is None,
        },
        r is Err <==> !(1 <= width <= 65535 && 1 <= height <= 65535),
{
    let mut output = Vec::new();
    let mut encoder = image::codecs::jpeg::JpegEncoder::new_with_quality(&mut output, quality);
    encoder.encode(rgb, width, height, image::ExtendedColorType::Rgb8)?;
    Ok(output)
}

/// A decoded image with premultiplied RGBA pixels, shared between the image
/// cache and draws, together with the encoded bytes it was decoded from.
pub struct DecodedImage {
    pub width: u32,
    pub height: u32,
    pub premultiplied_rgba: Rc<Vec<u8>>,
    pub encoded: Vec<u8>,
}

/// The image cache key of an encoded image: its FNV-1a hash.
pub open spec fn image_key(bytes: Seq<u8>) -> u128 {
    fnv1a(bytes) as u128
}

/// Whether `m` holds, under `bytes`' key, the image decoded from `bytes`
/// itself (and not from other bytes with the same hash).
pub open spec fn holds_image(m: Map<u128, CacheEntry<DecodedImage>>, bytes: Seq<u8>) -> bool {
    m.contains_key(image_key(bytes)) && m[image_key(bytes)].value.encoded@ == bytes
}

/// Every image in the cache is what decoding its own encoded bytes gives
/// (premultiplied), stored under the key of those bytes: a cache hit is
/// indistinguishable from a fresh decode.
pub open spec fn image_cache_faithful(m: Map<u128, CacheEntry<DecodedImage>>) -> bool {
    forall|k: u128| #[trigger] m.contains_key(k) ==> image_entry_faithful(k, m[k].value)
}

/// `img`, stored under `k`, is the fresh decode of its encoded bytes.
pub open spec fn image_entry_faithful(k: u128, img: DecodedImage) -> bool {
    &&& k == image_key(img.encoded@)
    &&& match decoded_rgba(img.encoded@) {
        Some((w, h, px)) => img.width == w && img.height == h && img.premultiplied_rgba@
            == premultiplied(px),
        None => false,
    }
}

proof fn lemma_faithful_after_touch(m: Map<u128, CacheEntry<DecodedImage>>, key: u128, stamp: u64)
    requires
        image_cache_faithful(m),
        m.contains_key(key),
    ensures
        image_cache_faithful(m.insert(key, CacheEntry { value: m[key].value, stamp })),
{
    let n = m.insert(key, CacheEntry { value: m[key].value, stamp });
    assert forall|k: u128| #[trigger] n.contains_key(k) implies image_entry_faithful(k, n[k].value) by {
        assert(m.contains_key(k));
    }
}

proof fn lemma_faithful_after_store(
    m: Map<u128, CacheEntry<DecodedImage>>,
    limit: nat,
    key: u128,
    e: CacheEntry<DecodedImage>,
)
    requires
        image_cache_faithful(m),
        image_entry_faithful(key, e.value),
    ensures
        image_cache_faithful(evicted(m, limit).insert(key, e)),
{
    let n = evicted(m, limit).insert(key, e);
    assert forall|k: u128| #[trigger] n.contains_key(k) implies image_entry_faithful(k, n[k].value) by {
        if k != key {
            lemma_eviction_only_drops(m, limit, k);
            assert(m.contains_key(k));
        }
    }
}

/// Whether two byte strings are equal.
pub fn same_bytes(a: &[u8], b: &[u8]) -> (res: bool)
    ensures
        res == (a@ == b@),
{
    if a.len() != b.len() {
        return false;
    }
    let n = a.len();
    let mut i: usize = 0;
    while i < n
        invariant
            0 <= i <= n,
            n == a@.len(),
            n == b@.len(),
            forall|j: int| 0 <= j < i ==> a@[j] == b@[j],
        decreases n - i,
    {
        if a[i] != b[i] {
            return false;
        }
        i = i + 1;
    }
    assert(a@ =~= b@);
    true
}

/// Prepares a decoded image for drawing and caching: an image without pixels
/// yields `None`; otherwise its RGBA bytes are premultiplied and kept with the
/// encoded bytes.
pub fn prepare_decoded(width: u32, height: u32, rgba: Vec<u8>, encoded: &[u8]) -> (res: Option<DecodedImage>)
    ensures
        res is None <==> (width == 0 || height == 0),
        res matches Some(img) ==> {
            &&& img.width == width
            &&& img.height == height
            &&& img.premultiplied_rgba@ == premultiplied(rgba@)
            &&& img.encoded@ == encoded@
        },
{
    if width == 0 || height == 0 {
        return None;
    }
    let mut raw = rgba;
    premultiply_pixels(raw.as_mut_slice());
    let copy = vstd::slice::slice_to_vec(encoded);
    Some(DecodedImage { width, height, premultiplied_rgba: Rc::new(raw), encoded: copy })
}

/// Makes sure the image encoded in `bytes` is in `cache` under its key (the
/// FNV-1a hash of the bytes), and returns that key.
///
/// When the cache holds the image decoded from these very bytes, it is marked
/// used. Otherwise the bytes are decoded: an undecodable image is an error and
/// an image without pixels yields `None`, both leaving cache and clock
/// unchanged; any other image is premultiplied and stored under the key
/// (replacing an image with the same hash, and making room first when the
/// cache is full). An `Ok(Some(key))` result always means the cache holds, under
/// `key`, the image decoded from `bytes`.
pub fn cache_decoded_image(cache: &mut LruCache<DecodedImage>, bytes: &[u8], clock: &mut LruClock) -> (res:
    Result<Option<u128>, CanvasError>)
    ensures
        final(cache).capacity() == old(cache).capacity(),
        image_cache_faithful(old(cache)@) ==> image_cache_faithful(final(cache)@),
        res matches Ok(Some(k)) ==> k == image_key(bytes@) && holds_image(final(cache)@, bytes@),
        holds_image(old(cache)@, bytes@) ==> {
            &&& res == Ok::<Option<u128>, CanvasError>(Some(image_key(bytes@)))
            &&& final(clock).current() == vstd::wrapping::u64_specs::wrapping_add(
                old(clock).current(),
                1,
            )
            &&& final(cache)@ == old(cache)@.insert(
                image_key(bytes@),
                CacheEntry {
                    value: old(cache)@[image_key(bytes@)].value,
                    stamp: final(clock).current(),
                },
            )
        },
        !holds_image(old(cache)@, bytes@) ==> match decoded_rgba(bytes@) {
            None => res matches Err(CanvasError::UnsupportedImage(_)) && final(cache)@ == old(cache)@
                && final(clock).current() == old(clock).current(),
            Some((w, h, px)) => if w == 0 || h == 0 {
                res == Ok::<Option<u128>, CanvasError>(None) && final(cache)@ == old(cache)@
                    && final(clock).current() == old(clock).current()
            } else {
                let key = image_key(bytes@);
                &&& res == Ok::<Option<u128>, CanvasError>(Some(key))
                &&& final(clock).current() == vstd::wrapping::u64_specs::wrapping_add(
                    old(clock).current(),
                    1,
                )
                &&& final(cache)@ == evicted(old(cache)@, old(cache).capacity()).insert(
                    key,
                    final(cache)@[key],
                )
                &&& final(cache)@[key].stamp == final(clock).current()
                &&& final(cache)@[key].value.width == w
                &&& final(cache)@[key].value.height == h
                &&& final(cache)@[key].value.premultiplied_rgba@ == premultiplied(px)
                &&& final(cache)@[key].value.encoded@ == bytes@
            },
        },
{
    let key = hash_bytes(bytes) as u128;
    let same = match cache.get(key) {
        Some(image) => same_bytes(image.encoded.as_slice(), bytes),
        None => false,
    };
    if same {
        cache.touch(key, clock);
        proof {
            if image_cache_faithful(old(cache)@) {
                lemma_faithful_after_touch(old(cache)@, key, clock.current());
            }
        }
        return Ok(Some(key));
    }
    match decode_rgba8(bytes) {
        Err(e) => Err(CanvasError::UnsupportedImage(e)),
        Ok((width, height, raw)) => match prepare_decoded(width, height, raw, bytes) {
            None => Ok(None),
            Some(image) => {
                cache.insert(key, image, clock);
                proof {
                    if image_cache_faithful(old(cache)@) {
                        lemma_faithful_after_store(
                            old(cache)@,
                            old(cache).capacity() as nat,
                            key,
                            cache@[key],
                        );
                    }
                }
                Ok(Some(key))
            },
        },
    }
}

/// Encodes the surface as PNG. It is an error exactly when a dimension is
/// zero or the pixel buffer does not hold four bytes per pixel.
pub fn encode_png(width: u32, height: u32, rgba: &[u8]) -> (res: Result<Vec<u8>, CanvasError>)
    requires
        4 * width * height <= usize::MAX,
    ensures
        match res {
            Ok(bytes) => png_encoding(width, height, rgba@) == Some(bytes@) && bytes@.take(8)
                == png_signature(),
            Err(e) => png_encoding(width, height, rgba@) is None && e is PngEncoding,
        },
        res is Err <==> (width == 0 || height == 0 || rgba@.len() != 4 * width * height),
{
    match png_encode(width, height, rgba) {
        Ok(bytes) => Ok(bytes),
        Err(e) => Err(CanvasError::PngEncoding(e)),
    }
}

/// The JPEG quality actually used: `quality` clamped to `1..=100`.
pub open spec fn spec_jpeg_quality(quality: u8) -> u8 {
    if quality < 1 {
        1
    } else if quality > 100 {
        100
    } else {
        quality
    }
}

/// Encodes the surface as JPEG: every pixel is first composited over white
/// (JPEG has no alpha), into `scratch`, and the quality is clamped to
/// `1..=100`. It is an error exactly when a dimension exceeds 65535 or is 0.
pub fn encode_jpeg(width: u32, height: u32, rgba: &[u8], quality: u8, scratch: &mut Vec<u8>) -> (res:
    Result<Vec<u8>, CanvasError>)
    requires
        4 * width * height <= rgba@.len(),
        3 * width * height <= u32::MAX,
    ensures
        final(scratch)@ == flattened_on_white(rgba@, (width * height) as nat),
        match res {
            Ok(bytes) => jpeg_encoding(
                width,
                height,
                flattened_on_white(rgba@, (width * height) as nat),
                spec_jpeg_quality(quality),
            ) == Some(bytes@) && bytes@.take(3) == seq![0xFFu8, 0xD8u8, 0xFFu8],
            Err(e) => e is JpegEncoding,
        },
        res is Err <==> !(1 <= width <= 65535 && 1 <= height <= 65535),
{
    assert(width * height <= 3 * width * height) by (nonlinear_arith);
    let count = (width as usize) * (height as usize);
    assert(4 * count == 4 * width * height && 3 * count == 3 * width * height) by (nonlinear_arith)
        requires count == width * height;
    flatten_on_white(rgba, count, scratch);
    let q = if quality < 1 {
        1
    } else if quality > 100 {
        100
    } else {
        quality
    };
    match jpeg_encode(width, height, scratch.as_slice(), q) {
        Ok(bytes) => Ok(bytes),
        Err(e) => Err(CanvasError::JpegEncoding(e)),
    }
}

/// Encodes a whole surface as PNG. It succeeds exactly when the surface
/// holds four bytes per pixel and no more, as every surface made by
/// `create_pixmap` does.
pub fn surface_png(p: &tiny_skia::Pixmap) -> (res: Result<Vec<u8>, CanvasError>)
    ensures
        ({
            let (w, h) = pixmap_size(*p);
            &&& res is Ok <==> pixmap_bytes(*p).len() == 4 * w * h
            &&& match res {
                Ok(bytes) => png_encoding(w, h, pixmap_bytes(*p)) == Some(bytes@) && bytes@.take(8)
                    == png_signature(),
                Err(e) => e is PngEncoding,
            }
        }),
{
    let width = pixmap_width(p);
    let height = pixmap_height(p);
    let data = pixmap_data(p);
    encode_png(width, height, data)
}

/// Encodes a whole surface as JPEG, compositing every pixel over white into
/// `scratch` first. It is an error exactly when a side exceeds 65535.
pub fn surface_jpeg(p: &tiny_skia::Pixmap, quality: u8, scratch: &mut Vec<u8>) -> (res: Result<
    Vec<u8>,
    CanvasError,
>)
    requires
        3 * pixmap_size(*p).0 * pixmap_size(*p).1 <= u32::MAX,
    ensures
        ({
            let (w, h) = pixmap_size(*p);
            &&& final(scratch)@ == flattened_on_white(pixmap_bytes(*p), (w * h) as nat)
            &&& match res {
                Ok(bytes) => jpeg_encoding(
                    w,
                    h,
                    flattened_on_white(pixmap_bytes(*p), (w * h) as nat),
                    spec_jpeg_quality(quality),
                ) == Some(bytes@) && bytes@.take(3) == seq![0xFFu8, 0xD8u8, 0xFFu8],
                Err(e) => e is JpegEncoding,
            }
            &&& res is Err <==> !(w <= 65535 && h <= 65535)
        }),
{
    let width = pixmap_width(p);
    let height = pixmap_height(p);
    let data = pixmap_data(p);
    encode_jpeg(width, height, data, quality, scratch)
}

/// Quality 0 encodes as quality 1 and every quality above 100 as 100: the
/// JPEG of a surface is the same for all qualities that clamp alike.
pub proof fn lemma_jpeg_quality_clamped(quality: u8)
    ensures
        spec_jpeg_quality(0) == spec_jpeg_quality(1),
        quality >= 100 ==> spec_jpeg_quality(quality) == spec_jpeg_quality(100),
        1 <= quality <= 100 ==> spec_jpeg_quality(quality) == quality,
{
}

} // verus!
