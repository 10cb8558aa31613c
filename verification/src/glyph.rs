//! Compositing of rasterised glyph coverage onto an RGBA8 surface.
//!
//! A glyph bitmap is a row-major grid of 8-bit coverage values. Each cell is
//! placed on one surface pixel; the text colour is blended over the pixel with
//! an alpha equal to coverage times colour alpha (times the clip coverage at
//! that pixel when a clip is active). Cells that land outside the surface, or
//! whose alpha rounds to zero, leave the surface untouched.

use vstd::prelude::*;
use crate::pixel::{blend_channel, lemma_blend_within_alpha, out_alpha, spec_blend_channel, spec_out_alpha};

verus! {

/// A straight (non-premultiplied) RGBA colour.
#[derive(Clone, Copy)]
pub struct Rgba {
    pub r: u8,
    pub g: u8,
    pub b: u8,
    pub a: u8,
}

/// Alpha with which one glyph cell is blended.
pub open spec fn cell_alpha(coverage: u8, a: u8, clip: Option<u8>) -> int {
    match clip {
        None => (coverage * a) / 255,
        Some(m) => (coverage * a * m) / 65025,
    }
}

/// The clip coverage at pixel `p`, when a clip is active.
pub open spec fn clip_at(clip: Option<Seq<u8>>, p: int) -> Option<u8> {
    match clip {
        Some(m) => Some(m[p]),
        None => None,
    }
}

/// Pixel `p` of `buf` after `color` is laid over it with coverage `alpha`.
pub open spec fn paint_pixel(buf: Seq<u8>, p: int, color: Rgba, alpha: int) -> Seq<u8> {
    let o = 4 * p;
    if alpha == 255 {
        buf.update(o, color.r).update(o + 1, color.g).update(o + 2, color.b).update(o + 3, 255u8)
    } else {
        buf.update(o, spec_blend_channel(color.r, buf[o], alpha) as u8).update(
            o + 1,
            spec_blend_channel(color.g, buf[o + 1], alpha) as u8,
        ).update(o + 2, spec_blend_channel(color.b, buf[o + 2], alpha) as u8).update(
            o + 3,
            spec_out_alpha(alpha, buf[o + 3] as int) as u8,
        )
    }
}

/// The surface after one glyph cell of coverage `coverage` lands on `(x, y)`.
pub open spec fn paint_cell(
    buf: Seq<u8>,
    width: int,
    height: int,
    x: int,
    y: int,
    coverage: u8,
    color: Rgba,
    clip: Option<Seq<u8>>,
) -> Seq<u8> {
    if 0 <= x < width && 0 <= y < height {
        let p = y * width + x;
        let alpha = cell_alpha(coverage, color.a, clip_at(clip, p));
        if alpha == 0 {
            buf
        } else {
            paint_pixel(buf, p, color, alpha)
        }
    } else {
        buf
    }
}

/// The surface after the first `n` cells of `bitmap` are painted, in order, at
/// the matching `positions`.
pub open spec fn paint_cells(
    buf: Seq<u8>,
    width: int,
    height: int,
    bitmap: Seq<u8>,
    positions: Seq<(int, int)>,
    color: Rgba,
    clip: Option<Seq<u8>>,
    n: nat,
) -> Seq<u8>
    decreases n,
{
    if n == 0 {
        buf
    } else {
        let prev = paint_cells(buf, width, height, bitmap, positions, color, clip, (n - 1) as nat);
        paint_cell(
            prev,
            width,
            height,
            positions[n - 1].0,
            positions[n - 1].1,
            bitmap[n - 1],
            color,
            clip,
        )
    }
}

/// Positions of the cells of a `gw`-wide glyph whose top-left cell sits on
/// `(left, top)`.
pub open spec fn aligned_positions(left: int, top: int, gw: int, count: nat) -> Seq<(int, int)> {
    Seq::new(count, |i: int| (left + i % gw, top + i / gw))
}

/// Integer view of device positions.
pub open spec fn int_positions(ps: Seq<(i32, i32)>) -> Seq<(int, int)> {
    ps.map_values(|q: (i32, i32)| (q.0 as int, q.1 as int))
}

/// A surface buffer that matches its dimensions, with an optional clip
/// coverage plane of one byte per pixel.
pub open spec fn surface_ok(len: nat, width: int, height: int, clip: Option<Seq<u8>>) -> bool {
    &&& len == 4 * width * height
    &&& match clip {
        Some(m) => m.len() == width * height,
        None => true,
    }
}

pub open spec fn clip_view(clip: Option<&[u8]>) -> Option<Seq<u8>> {
    match clip {
        Some(m) => Some(m@),
        None => None,
    }
}

fn paint_pixel_in_place(dst: &mut [u8], p: usize, color: Rgba, alpha: u16)
    requires
        4 * p + 3 < old(dst)@.len(),
        1 <= alpha <= 255,
    ensures
        final(dst)@ == paint_pixel(old(dst)@, p as int, color, alpha as int),
{
    let o = p * 4;
    if alpha == 255 {
        dst[o] = color.r;
        dst[o + 1] = color.g;
        dst[o + 2] = color.b;
        dst[o + 3] = 255;
    } else {
        let dst_a = dst[o + 3] as u16;
        let out_a = out_alpha(alpha, dst_a);
        let v0 = blend_channel(color.r, dst[o], alpha);
        dst[o] = v0;
        let v1 = blend_channel(color.g, dst[o + 1], alpha);
        dst[o + 1] = v1;
        let v2 = blend_channel(color.b, dst[o + 2], alpha);
        dst[o + 2] = v2;
        dst[o + 3] = out_a;
    }
    proof {
        let ghost expect = paint_pixel(old(dst)@, p as int, color, alpha as int);
        assert(dst@ =~= expect);
    }
}

proof fn lemma_pixel_index(x: int, y: int, width: int, height: int)
    requires
        0 <= x < width,
        0 <= y < height,
    ensures
        0 <= y * width + x < width * height,
{
    assert(0 <= y * width + x < width * height) by (nonlinear_arith)
        requires 0 <= x < width, 0 <= y < height;
}

/// Paints one glyph cell of coverage `coverage` onto `(x, y)`.
pub fn blend_cell(
    dst: &mut [u8],
    width: u32,
    height: u32,
    x: i128,
    y: i128,
    coverage: u8,
    color: Rgba,
    clip: Option<&[u8]>,
)
    requires
        surface_ok(old(dst)@.len(), width as int, height as int, clip_view(clip)),
    ensures
        final(dst)@.len() == old(dst)@.len(),
        final(dst)@ == paint_cell(
            old(dst)@,
            width as int,
            height as int,
            x as int,
            y as int,
            coverage,
            color,
            clip_view(clip),
        ),
{
    if coverage == 0 || x < 0 || y < 0 || x >= width as i128 || y >= height as i128 {
        proof {
            if 0 <= x < width && 0 <= y < height {
                let p = y * width + x;
                assert(cell_alpha(coverage, color.a, clip_at(clip_view(clip), p)) == 0);
            }
        }
        return;
    }
    proof {
        lemma_pixel_index(x as int, y as int, width as int, height as int);
    }
    let len = dst.len();
    assert(y * width <= y * width + x < width * height <= dst@.len()) by (nonlinear_arith)
        requires 0 <= x < width, 0 <= y < height, dst@.len() == 4 * width * height;
    let p = (y as usize) * (width as usize) + (x as usize);
    let a = color.a as u32;
    let cov = coverage as u32;
    let alpha: u16 = match clip {
        Some(m) => {
            let m_p = m[p] as u32;
            assert(cov * a <= 255 * 255) by (nonlinear_arith)
                requires cov <= 255, a <= 255;
            assert(cov * a * m_p <= 255 * 255 * 255) by (nonlinear_arith)
                requires cov <= 255, a <= 255, m_p <= 255;
            ((cov * a * m_p) / 65025) as u16
        },
        None => {
            assert(cov * a <= 255 * 255) by (nonlinear_arith)
                requires cov <= 255, a <= 255;
            ((cov * a) / 255) as u16
        },
    };
    if alpha == 0 {
        return;
    }
    assert(4 * p + 3 < dst@.len()) by (nonlinear_arith)
        requires p < width * height, dst@.len() == 4 * width * height;
    paint_pixel_in_place(dst, p, color, alpha);
}

/// Blends a glyph whose cells have been placed on device pixels by an
/// arbitrary transform: cell `i` of `bitmap` lands on `positions[i]`. Cells
/// are painted in row-major order, so a later cell landing on the same pixel
/// is blended over an earlier one.
pub fn blend_glyph_mapped(
    dst: &mut [u8],
    width: u32,
    height: u32,
    bitmap: &[u8],
    positions: &[(i32, i32)],
    color: Rgba,
    clip: Option<&[u8]>,
)
    requires
        surface_ok(old(dst)@.len(), width as int, height as int, clip_view(clip)),
        positions@.len() == bitmap@.len(),
    ensures
        final(dst)@ == paint_cells(
            old(dst)@,
            width as int,
            height as int,
            bitmap@,
            int_positions(positions@),
            color,
            clip_view(clip),
            bitmap@.len(),
        ),
{
    let n = bitmap.len();
    let ghost start = dst@;
    let ghost ps = int_positions(positions@);
    let mut i: usize = 0;
    while i < n
        invariant
            0 <= i <= n,
            n == bitmap@.len(),
            positions@.len() == n,
            ps == int_positions(positions@),
            surface_ok(dst@.len(), width as int, height as int, clip_view(clip)),
            dst@ == paint_cells(
                start,
                width as int,
                height as int,
                bitmap@,
                ps,
                color,
                clip_view(clip),
                i as nat,
            ),
        decreases n - i,
    {
        let (px, py) = positions[i];
        assert(ps[i as int] == (px as int, py as int));
        blend_cell(dst, width, height, px as i128, py as i128, bitmap[i], color, clip);
        i = i + 1;
    }
}

proof fn lemma_cells_outside_rows_unchanged(
    buf: Seq<u8>,
    width: int,
    height: int,
    bitmap: Seq<u8>,
    positions: Seq<(int, int)>,
    color: Rgba,
    clip: Option<Seq<u8>>,
    k: nat,
    n: nat,
)
    requires
        k <= n <= positions.len(),
        forall|i: int| k <= i < n ==> !(0 <= #[trigger] positions[i].1 < height),
    ensures
        paint_cells(buf, width, height, bitmap, positions, color, clip, n) == paint_cells(
            buf,
            width,
            height,
            bitmap,
            positions,
            color,
            clip,
            k,
        ),
    decreases n - k,
{
    if n > k {
        lemma_cells_outside_rows_unchanged(
            buf,
            width,
            height,
            bitmap,
            positions,
            color,
            clip,
            k,
            (n - 1) as nat,
        );
        assert(!(0 <= positions[n - 1].1 < height));
    }
}

proof fn lemma_aligned_position(left: int, top: int, gw: int, count: nat, gx: int, gy: int)
    requires
        0 <= gx < gw,
        0 <= gy,
        gy * gw + gx < count,
    ensures
        aligned_positions(left, top, gw, count)[gy * gw + gx] == (left + gx, top + gy),
{
    let k = gy * gw + gx;
    vstd::arithmetic::div_mod::lemma_fundamental_div_mod_converse(k, gw, gy, gx);
}

/// Blends a glyph drawn under the identity transform: its top-left cell lands
/// on `(left, top)` and cell `(gx, gy)` on `(left + gx, top + gy)`. The result
/// is exactly what `blend_glyph_mapped` paints at those positions.
pub fn blend_glyph_aligned(
    dst: &mut [u8],
    width: u32,
    height: u32,
    bitmap: &[u8],
    gw: usize,
    gh: usize,
    left: i32,
    top: i32,
    color: Rgba,
    clip: Option<&[u8]>,
)
    requires
        surface_ok(old(dst)@.len(), width as int, height as int, clip_view(clip)),
        bitmap@.len() == gw * gh,
    ensures
        final(dst)@ == paint_cells(
            old(dst)@,
            width as int,
            height as int,
            bitmap@,
            aligned_positions(left as int, top as int, gw as int, (gw * gh) as nat),
            color,
            clip_view(clip),
            (gw * gh) as nat,
        ),
{
    let ghost start = dst@;
    let ghost count: nat = (gw * gh) as nat;
    let ghost ps = aligned_positions(left as int, top as int, gw as int, count);
    let ghost mut k: nat = 0;
    let total = bitmap.len();
    let mut gy: usize = 0;
    while gy < gh
        invariant
            0 <= gy <= gh,
            total == count,
            k == gy * gw,
            count == gw * gh,
            bitmap@.len() == count,
            ps == aligned_positions(left as int, top as int, gw as int, count),
            surface_ok(dst@.len(), width as int, height as int, clip_view(clip)),
            dst@ == paint_cells(
                start,
                width as int,
                height as int,
                bitmap@,
                ps,
                color,
                clip_view(clip),
                k,
            ),
        decreases gh - gy,
    {
        assert((gy + 1) * gw == gy * gw + gw) by (nonlinear_arith);
        assert((gy + 1) * gw <= gw * gh) by (nonlinear_arith)
            requires gy < gh;
        let py = top as i128 + gy as i128;
        if py < 0 || py >= height as i128 {
            proof {
                assert forall|i: int| k <= i < k + gw implies !(0 <= #[trigger] ps[i].1 < height) by {
                    let gx = i - k;
                    lemma_aligned_position(left as int, top as int, gw as int, count, gx, gy as int);
                }
                lemma_cells_outside_rows_unchanged(
                    start,
                    width as int,
                    height as int,
                    bitmap@,
                    ps,
                    color,
                    clip_view(clip),
                    k,
                    (k + gw) as nat,
                );
                k = (k + gw) as nat;
            }
            gy = gy + 1;
            continue;
        }
        let row = gy * gw;
        let mut gx: usize = 0;
        while gx < gw
            invariant
                0 <= gx <= gw,
                gy < gh,
                row == gy * gw,
                k == row + gx,
                row + gw <= count,
                total == count,
                count == gw * gh,
                py == top + gy,
                0 <= py < height,
                bitmap@.len() == count,
                ps == aligned_positions(left as int, top as int, gw as int, count),
                surface_ok(dst@.len(), width as int, height as int, clip_view(clip)),
                dst@ == paint_cells(
                    start,
                    width as int,
                    height as int,
                    bitmap@,
                    ps,
                    color,
                    clip_view(clip),
                    k,
                ),
            decreases gw - gx,
        {
            proof {
                lemma_aligned_position(left as int, top as int, gw as int, count, gx as int, gy as int);
            }
            let px = left as i128 + gx as i128;
            blend_cell(dst, width, height, px, py, bitmap[row + gx], color, clip);
            proof {
                assert(ps[k as int] == (px as int, py as int));
                k = k + 1;
                assert(dst@ == paint_cells(
                    start,
                    width as int,
                    height as int,
                    bitmap@,
                    ps,
                    color,
                    clip_view(clip),
                    k,
                ));
            }
            gx = gx + 1;
        }
        gy = gy + 1;
    }
    assert(gh * gw == gw * gh) by (nonlinear_arith);
    assert(k == count);
}

/// Whether position `(x, y)` lands on pixel `q` of a `width` x `height`
/// surface.
pub open spec fn lands_on(x: int, y: int, width: int, height: int, q: int) -> bool {
    0 <= x < width && 0 <= y < height && y * width + x == q
}

proof fn lemma_paint_cell_len(
    buf: Seq<u8>,
    width: int,
    height: int,
    x: int,
    y: int,
    coverage: u8,
    color: Rgba,
    clip: Option<Seq<u8>>,
)
    requires
        buf.len() == 4 * width * height,
        width >= 0,
        height >= 0,
    ensures
        paint_cell(buf, width, height, x, y, coverage, color, clip).len() == buf.len(),
{
    if 0 <= x < width && 0 <= y < height {
        lemma_pixel_index(x, y, width, height);
        assert(4 * (y * width + x) + 3 < 4 * width * height) by (nonlinear_arith)
            requires 0 <= y * width + x < width * height;
    }
}

/// A pixel that no glyph cell lands on, or that the clip fully masks out,
/// keeps its four bytes: text never paints outside its glyph cells or the
/// clip.
pub proof fn lemma_untouched_pixel(
    buf: Seq<u8>,
    width: int,
    height: int,
    bitmap: Seq<u8>,
    positions: Seq<(int, int)>,
    color: Rgba,
    clip: Option<Seq<u8>>,
    n: nat,
    q: int,
    c: int,
)
    requires
        width >= 0,
        height >= 0,
        surface_ok(buf.len(), width, height, clip),
        n <= positions.len(),
        0 <= q < width * height,
        0 <= c < 4,
        (clip matches Some(m) && m[q] == 0) || (forall|i: int|
            0 <= i < n ==> !lands_on(#[trigger] positions[i].0, positions[i].1, width, height, q)),
    ensures
        paint_cells(buf, width, height, bitmap, positions, color, clip, n).len() == buf.len(),
        paint_cells(buf, width, height, bitmap, positions, color, clip, n)[4 * q + c] == buf[4 * q + c],
    decreases n,
{
    if n > 0 {
        lemma_untouched_pixel(buf, width, height, bitmap, positions, color, clip, (n - 1) as nat, q, c);
        let prev = paint_cells(buf, width, height, bitmap, positions, color, clip, (n - 1) as nat);
        let x = positions[n - 1].0;
        let y = positions[n - 1].1;
        lemma_paint_cell_len(prev, width, height, x, y, bitmap[n - 1], color, clip);
        assert(4 * q + c < 4 * width * height) by (nonlinear_arith)
            requires 0 <= q < width * height, 0 <= c < 4;
        if 0 <= x < width && 0 <= y < height {
            let p = y * width + x;
            lemma_pixel_index(x, y, width, height);
            assert(4 * p + 3 < 4 * width * height) by (nonlinear_arith)
                requires 0 <= p < width * height;
            if p != q {
                assert(4 * q + c != 4 * p && 4 * q + c != 4 * p + 1 && 4 * q + c != 4 * p + 2 && 4 * q + c
                    != 4 * p + 3);
                let alpha = cell_alpha(bitmap[n - 1], color.a, clip_at(clip, p));
                if alpha != 0 {
                    assert(paint_pixel(prev, p, color, alpha)[4 * q + c] == prev[4 * q + c]);
                }
            } else {
                match clip {
                    Some(m) => {
                        if m[q] == 0 {
                            let cv = bitmap[n - 1];
                            assert(cv * color.a * m[q] == 0) by (nonlinear_arith)
                                requires m[q] == 0;
                            assert(cell_alpha(cv, color.a, Some(m[q])) == 0);
                        } else {
                            assert(lands_on(x, y, width, height, q));
                        }
                    },
                    None => {
                        assert(lands_on(x, y, width, height, q));
                    },
                }
            }
        }
    }
}

/// Pixel `q` of `buf` is premultiplied: no colour byte exceeds its alpha.
pub open spec fn pixel_within_alpha(buf: Seq<u8>, q: int) -> bool {
    &&& buf[4 * q] <= buf[4 * q + 3]
    &&& buf[4 * q + 1] <= buf[4 * q + 3]
    &&& buf[4 * q + 2] <= buf[4 * q + 3]
}

/// Every whole pixel of `buf` is premultiplied.
pub open spec fn colours_within_alpha(buf: Seq<u8>) -> bool {
    forall|q: int| 0 <= q && 4 * q + 3 < buf.len() ==> #[trigger] pixel_within_alpha(buf, q)
}

proof fn lemma_paint_pixel_within_alpha(buf: Seq<u8>, p: int, color: Rgba, alpha: int)
    requires
        colours_within_alpha(buf),
        0 <= p,
        4 * p + 3 < buf.len(),
        1 <= alpha <= 255,
    ensures
        paint_pixel(buf, p, color, alpha).len() == buf.len(),
        colours_within_alpha(paint_pixel(buf, p, color, alpha)),
{
    let o = 4 * p;
    let n = paint_pixel(buf, p, color, alpha);
    assert(pixel_within_alpha(buf, p));
    if alpha != 255 {
        lemma_blend_within_alpha(color.r, buf[o], buf[o + 3], alpha);
        lemma_blend_within_alpha(color.g, buf[o + 1], buf[o + 3], alpha);
        lemma_blend_within_alpha(color.b, buf[o + 2], buf[o + 3], alpha);
    }
    assert forall|q: int| 0 <= q && 4 * q + 3 < n.len() implies #[trigger] pixel_within_alpha(n, q) by {
        if q != p {
            assert(pixel_within_alpha(buf, q));
        }
    }
}

proof fn lemma_paint_cell_within_alpha(
    buf: Seq<u8>,
    width: int,
    height: int,
    x: int,
    y: int,
    coverage: u8,
    color: Rgba,
    clip: Option<Seq<u8>>,
)
    requires
        colours_within_alpha(buf),
        surface_ok(buf.len(), width, height, clip),
    ensures
        paint_cell(buf, width, height, x, y, coverage, color, clip).len() == buf.len(),
        colours_within_alpha(paint_cell(buf, width, height, x, y, coverage, color, clip)),
{
    if 0 <= x < width && 0 <= y < height {
        let p = y * width + x;
        lemma_pixel_index(x, y, width, height);
        assert(4 * p + 3 < buf.len()) by (nonlinear_arith)
            requires 0 <= p < width * height, buf.len() == 4 * width * height;
        let alpha = cell_alpha(coverage, color.a, clip_at(clip, p));
        assert(0 <= alpha <= 255) by {
            assert(0 <= coverage * color.a <= 65025) by (nonlinear_arith)
                requires coverage <= 255, color.a <= 255;
            match clip_at(clip, p) {
                Some(m) => {
                    assert(0 <= coverage * color.a * m <= 65025 * 255) by (nonlinear_arith)
                        requires 0 <= coverage * color.a <= 65025, m <= 255;
                },
                None => {},
            }
        }
        if alpha != 0 {
            lemma_paint_pixel_within_alpha(buf, p, color, alpha);
        }
    }
}

/// Blending glyph cells keeps a premultiplied surface premultiplied: if no
/// colour byte exceeds its pixel's alpha before, none does after.
pub proof fn lemma_glyph_blending_keeps_premultiplied(
    buf: Seq<u8>,
    width: int,
    height: int,
    bitmap: Seq<u8>,
    positions: Seq<(int, int)>,
    color: Rgba,
    clip: Option<Seq<u8>>,
    n: nat,
)
    requires
        colours_within_alpha(buf),
        surface_ok(buf.len(), width, height, clip),
    ensures
        paint_cells(buf, width, height, bitmap, positions, color, clip, n).len() == buf.len(),
        colours_within_alpha(paint_cells(buf, width, height, bitmap, positions, color, clip, n)),
    decreases n,
{
    if n > 0 {
        lemma_glyph_blending_keeps_premultiplied(
            buf,
            width,
            height,
            bitmap,
            positions,
            color,
            clip,
            (n - 1) as nat,
        );
        let prev = paint_cells(buf, width, height, bitmap, positions, color, clip, (n - 1) as nat);
        lemma_paint_cell_within_alpha(
            prev,
            width,
            height,
            positions[n - 1].0,
            positions[n - 1].1,
            bitmap[n - 1],
            color,
            clip,
        );
    }
}

} // verus!
