//! Errors reported by canvas operations.

use vstd::prelude::*;

verus! {

/// Why a canvas operation failed.
#[derive(Debug)]
pub enum CanvasError {
    /// The requested surface size cannot be allocated.
    InvalidSize,
    /// `set_font` named a font that was never loaded.
    FontIndexOutOfRange,
    /// The font bytes were rejected, with the parser's reason.
    InvalidFont(&'static str),
    /// The image bytes could not be decoded.
    UnsupportedImage(image::ImageError),
    /// A decoded image does not fit its stated size.
    InvalidDecodedImage,
    /// The PNG encoder reported an error.
    PngEncoding(png::EncodingError),
    /// The JPEG encoder reported an error.
    JpegEncoding(image::ImageError),
}

} // verus!
