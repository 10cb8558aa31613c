# mini_canvas

The verified core of a small 2D canvas renderer built on tiny-skia, fontdue,
image and png.

- `src/` — the library, checked by Verus:
  - `pixel` — channel blending, premultiplication, compositing over white,
    coverage intersection;
  - `glyph` — blending glyph coverage onto an RGBA surface, with and without a
    clip, for identity and general transforms;
  - `hash` — FNV-1a hashing of encoded image bytes;
  - `cache` — the use clock and the bounded LRU cache with half-batch
    eviction, with its laws;
  - `clip` — the clip-mask memo;
  - `fonts` — loaded fonts, selection and glyph cache keys;
  - `codec` — image decoding into the image cache, PNG and JPEG export;
  - `surface` — surface and mask allocation;
  - `state` — the save/restore stack and the path cursor;
  - `counting`, `error` — supporting lemmas and the error type.
- `app/` — the `Canvas` type exposed to JavaScript: float geometry, tiny-skia
  path building and painting, arcs and ellipses, glyph rasterisation.
- `tests/` — tests of the library.
