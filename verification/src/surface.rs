//! Allocation of the pixel surface and of clip coverage masks.

use vstd::prelude::*;
use crate::error::CanvasError;

verus! {

#[verifier::external_type_specification]
#[verifier::external_body]
pub struct ExPixmap(tiny_skia::Pixmap);

#[verifier::external_type_specification]
#[verifier::external_body]
pub struct ExMask(tiny_skia::Mask);

/// What a pixmap holds: its premultiplied RGBA bytes, row by row.
pub uninterp spec fn pixmap_bytes(p: tiny_skia::Pixmap) -> Seq<u8>;

/// The width and height a pixmap was made with.
pub uninterp spec fn pixmap_size(p: tiny_skia::Pixmap) -> (u32, u32);

/// What a mask holds: one coverage byte per pixel, row by row.
pub uninterp spec fn mask_bytes(m: tiny_skia::Mask) -> Seq<u8>;

/// The width and height a mask was made with.
pub uninterp spec fn mask_size(m: tiny_skia::Mask) -> (u32, u32);

/// `n` zero bytes.
pub open spec fn zeros(n: nat) -> Seq<u8> {
    Seq::new(n, |i: int| 0u8)
}

/// Sizes for which a premultiplied RGBA surface can be allocated: both sides
/// non-zero, a row of at most `i32::MAX` bytes and the whole buffer
/// addressable.
pub open spec fn pixmap_size_ok(width: u32, height: u32) -> bool {
    &&& width > 0
    &&& height > 0
    &&& 4 * width <= i32::MAX
    &&& 4 * width * height <= usize::MAX
}

/// Allocates a transparent RGBA surface.
///
/// Calls `tiny_skia::Pixmap::new`, which returns `None` exactly when a side
/// is zero, a row of `4 * width` bytes does not fit `i32`, or the buffer
/// length `4 * width * height` does not fit `usize`; otherwise the pixmap has
/// the given size and its data is `vec![0; 4 * width * height]` (transparent
/// black).
#[verifier::external_body]
fn new_pixmap(width: u32, height: u32) -> (r: Option<tiny_skia::Pixmap>)
    ensures
        r is Some <==> pixmap_size_ok(width, height),
        r matches Some(p) ==> pixmap_size(p) == (width, height) && pixmap_bytes(p) == zeros(
            (4 * width * height) as nat,
        ),
{
    tiny_skia::Pixmap::new(width, height)
}

/// Allocates a zero-coverage mask of one byte per pixel.
///
/// Calls `tiny_skia::Mask::new`, which returns `None` exactly when a side is
/// zero; otherwise the mask has the given size and its data is
/// `vec![0; width * height]`. It computes `width * height` in `usize`
/// without an overflow check, hence the requirement.
#[verifier::external_body]
fn new_mask(width: u32, height: u32) -> (r: Option<tiny_skia::Mask>)
    requires
        width * height <= usize::MAX,
    ensures
        r is Some <==> (width > 0 && height > 0),
        r matches Some(m) ==> mask_size(m) == (width, height) && mask_bytes(m) == zeros(
            (width * height) as nat,
        ),
{
    tiny_skia::Mask::new(width, height)
}

/// The width of a pixmap.
///
/// Calls `tiny_skia::Pixmap::width`. Every pixmap tiny-skia builds has a size
/// that passed the checks of `Pixmap::new` (`pixmap_size_ok`).
#[verifier::external_body]
pub(crate) fn pixmap_width(p: &tiny_skia::Pixmap) -> (r: u32)
    ensures
        r == pixmap_size(*p).0 && pixmap_size_ok(r, pixmap_size(*p).1),
{
    p.width()
}

/// The height of a pixmap.
///
/// Calls `tiny_skia::Pixmap::height`.
#[verifier::external_body]
pub(crate) fn pixmap_height(p: &tiny_skia::Pixmap) -> (r: u32)
    ensures
        r == pixmap_size(*p).1,
{
    p.height()
}

/// The premultiplied RGBA bytes of a pixmap.
///
/// Calls `tiny_skia::Pixmap::data`. Every pixmap tiny-skia builds holds at
/// least four bytes per pixel; one made from a longer buffer (through
/// `PixmapRef::from_bytes` and `to_owned`) keeps the extra bytes, so no more
/// than that is claimed.
#[verifier::external_body]
pub(crate) fn pixmap_data(p: &tiny_skia::Pixmap) -> (r: &[u8])
    ensures
        r@ == pixmap_bytes(*p),
        r@.len() >= 4 * pixmap_size(*p).0 * pixmap_size(*p).1,
{
    p.data()
}

/// The drawing surface of a new canvas: `width` by `height` pixels, all
/// transparent black; an unallocatable size is an error.
pub fn create_pixmap(width: u32, height: u32) -> (res: Result<tiny_skia::Pixmap, CanvasError>)
    ensures
        res is Ok <==> pixmap_size_ok(width, height),
        res matches Err(e) ==> e is InvalidSize,
        res matches Ok(p) ==> pixmap_size(p) == (width, height) && pixmap_bytes(p) == zeros(
            (4 * width * height) as nat,
        ),
{
    match new_pixmap(width, height) {
        Some(p) => Ok(p),
        None => Err(CanvasError::InvalidSize),
    }
}

/// A blank clip mask covering a surface of the given size (every pixel at
/// zero coverage); there is one for every surface that `create_pixmap`
/// accepts.
pub fn blank_mask(width: u32, height: u32) -> (res: Option<tiny_skia::Mask>)
    requires
        width * height <= usize::MAX,
    ensures
        res is Some <==> (width > 0 && height > 0),
        res matches Some(m) ==> mask_size(m) == (width, height) && mask_bytes(m) == zeros(
            (width * height) as nat,
        ),
        pixmap_size_ok(width, height) ==> res is Some,
{
    new_mask(width, height)
}

} // verus!
