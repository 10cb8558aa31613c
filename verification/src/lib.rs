//! Verified core of a small 2D canvas renderer: pixel compositing, glyph
//! blending, image-content hashing, bounded LRU caches, clip memoisation,
//! font selection and the codec entry points.

pub mod cache;
pub mod clip;
pub mod codec;
pub mod counting;
pub mod error;
pub mod fonts;
pub mod glyph;
pub mod hash;
pub mod pixel;
pub mod state;
pub mod surface;
