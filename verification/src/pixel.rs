//! Integer colour arithmetic on 8-bit RGBA channels.

use vstd::prelude::*;

verus! {

/// `src` over `dst` with an 8-bit coverage `alpha`, rounded down.
pub open spec fn spec_blend_channel(src: u8, dst: u8, alpha: int) -> int {
    (src * alpha + dst * (255 - alpha)) / 255
}

/// Resulting alpha when a source of coverage `alpha` is laid over `dst_a`.
pub open spec fn spec_out_alpha(alpha: int, dst_a: int) -> int {
    alpha + dst_a * (255 - alpha) / 255
}

/// Channel `c` scaled by alpha `a`, rounded to nearest.
pub open spec fn spec_premultiply(c: u8, a: u8) -> int {
    (c * a + 127) / 255
}

proof fn lemma_blend_bounds(src: u8, dst: u8, alpha: int)
    requires
        0 <= alpha <= 255,
    ensures
        0 <= src * alpha + dst * (255 - alpha) <= 65025,
        0 <= spec_blend_channel(src, dst, alpha) <= 255,
{
    assert(0 <= src * alpha <= 255 * alpha) by (nonlinear_arith)
        requires 0 <= alpha <= 255, src <= 255;
    assert(0 <= dst * (255 - alpha) <= 255 * (255 - alpha)) by (nonlinear_arith)
        requires 0 <= alpha <= 255, dst <= 255;
}

/// Blends one colour channel; `alpha` is a coverage in `0..=255`.
pub fn blend_channel(src: u8, dst: u8, alpha: u16) -> (res: u8)
    requires
        alpha <= 255,
    ensures
        res == spec_blend_channel(src, dst, alpha as int),
{
    proof {
        lemma_blend_bounds(src, dst, alpha as int);
    }
    let s = src as u16;
    let d = dst as u16;
    ((s * alpha + d * (255 - alpha)) / 255) as u8
}

/// Alpha of the destination after a source with coverage `alpha` is drawn over
/// a destination alpha `dst_a`.
pub fn out_alpha(alpha: u16, dst_a: u16) -> (res: u8)
    requires
        alpha <= 255,
        dst_a <= 255,
    ensures
        res == spec_out_alpha(alpha as int, dst_a as int),
{
    assert(0 <= dst_a * (255 - alpha) <= 255 * (255 - alpha)) by (nonlinear_arith)
        requires alpha <= 255, dst_a <= 255;
    let spread = dst_a * (255 - alpha) / 255;
    (alpha + spread) as u8
}

/// Premultiplies colour channel `c` by alpha `a`, rounding to nearest.
pub fn premultiply(c: u8, a: u8) -> (res: u8)
    ensures
        res == spec_premultiply(c, a),
        res <= a,
{
    assert(0 <= c * a <= 255 * a) by (nonlinear_arith)
        requires c <= 255;
    let v = (c as u32) * (a as u32) + 127;
    (v / 255) as u8
}

/// `bytes` with the colour channels of every complete RGBA pixel premultiplied
/// by that pixel's alpha; alpha bytes and any trailing partial pixel are kept.
pub open spec fn premultiplied(bytes: Seq<u8>) -> Seq<u8> {
    Seq::new(
        bytes.len(),
        |j: int|
            if j < 4 * (bytes.len() / 4) && j % 4 != 3 {
                spec_premultiply(bytes[j], bytes[j - j % 4 + 3]) as u8
            } else {
                bytes[j]
            },
    )
}

/// Byte `k` (0 to 2 for red, green, blue; 3 for alpha) of pixel `q` of an
/// RGBA buffer.
pub open spec fn rgba_byte(bytes: Seq<u8>, q: int, k: int) -> u8 {
    bytes[4 * q + k]
}

/// Premultiplying works pixel by pixel, the same for every pixel: each
/// colour channel of a complete pixel `q` becomes `(c * a + 127) / 255` with
/// `q`'s own alpha `a`, and the alpha stays.
pub proof fn lemma_premultiplied_pixelwise(bytes: Seq<u8>, q: int, k: int)
    requires
        0 <= q < bytes.len() / 4,
        0 <= k < 3,
    ensures
        premultiplied(bytes).len() == bytes.len(),
        rgba_byte(premultiplied(bytes), q, k) as int == (rgba_byte(bytes, q, k) * rgba_byte(bytes, q, 3)
            + 127) / 255,
        rgba_byte(premultiplied(bytes), q, 3) == rgba_byte(bytes, q, 3),
{
    let j = 4 * q + k;
    assert(j % 4 == k && (4 * q + 3) % 4 == 3) by (nonlinear_arith)
        requires j == 4 * q + k, 0 <= k < 3, 0 <= q;
    assert(4 * q + 3 < 4 * (bytes.len() / 4));
    assert(0 <= bytes[j] * bytes[4 * q + 3] <= 255 * 255) by (nonlinear_arith)
        requires bytes[j] <= 255, bytes[4 * q + 3] <= 255;
}

/// Premultiplies every complete RGBA pixel of `bytes` in place.
pub fn premultiply_pixels(bytes: &mut [u8])
    ensures
        final(bytes)@ == premultiplied(old(bytes)@),
        final(bytes)@.len() == old(bytes)@.len(),
        forall|q: int, k: int|
            0 <= q < old(bytes)@.len() / 4 && 0 <= k < 3 ==> #[trigger] rgba_byte(final(bytes)@, q, k)
                as int == (rgba_byte(old(bytes)@, q, k) * rgba_byte(old(bytes)@, q, 3) + 127) / 255,
        forall|q: int| 0 <= q < old(bytes)@.len() / 4 ==> #[trigger] rgba_byte(final(bytes)@, q, 3)
            == rgba_byte(old(bytes)@, q, 3),
        forall|j: int|
            4 * (old(bytes)@.len() / 4) <= j < old(bytes)@.len() ==> #[trigger] final(bytes)@[j]
                == old(bytes)@[j],
{
    let ghost start = bytes@;
    let len = bytes.len();
    let pixels = len / 4;
    let mut p: usize = 0;
    while p < pixels
        invariant
            0 <= p <= pixels,
            pixels == len / 4,
            len == start.len(),
            bytes@.len() == len,
            forall|j: int|
                0 <= j < len ==> #[trigger] bytes@[j] == if j < 4 * p && j % 4 != 3 {
                    spec_premultiply(start[j], start[j - j % 4 + 3]) as u8
                } else {
                    start[j]
                },
        decreases pixels - p,
    {
        let o = p * 4;
        let alpha = bytes[o + 3];
        let c0 = premultiply(bytes[o], alpha);
        bytes[o] = c0;
        let c1 = premultiply(bytes[o + 1], alpha);
        bytes[o + 1] = c1;
        let c2 = premultiply(bytes[o + 2], alpha);
        bytes[o + 2] = c2;
        p = p + 1;
    }
    assert(bytes@ =~= premultiplied(start));
    assert forall|q: int, k: int| 0 <= q < start.len() / 4 && 0 <= k < 3 implies #[trigger] rgba_byte(
        bytes@,
        q,
        k,
    ) as int == (rgba_byte(start, q, k) * rgba_byte(start, q, 3) + 127) / 255 by {
        lemma_premultiplied_pixelwise(start, q, k);
    }
    assert forall|q: int| 0 <= q < start.len() / 4 implies #[trigger] rgba_byte(bytes@, q, 3)
        == rgba_byte(start, q, 3) by {
        lemma_premultiplied_pixelwise(start, q, 0);
    }
}

/// A premultiplied channel `c` of alpha `a` composited over opaque white:
/// `c + (255 - a)`, saturating at 255 for channels that exceed their alpha.
pub open spec fn spec_over_white(c: u8, a: u8) -> u8 {
    if c + (255 - a) > 255 {
        255
    } else {
        (c + (255 - a)) as u8
    }
}

/// The RGB bytes of the first `count` pixels of a premultiplied RGBA buffer,
/// each composited over opaque white.
pub open spec fn flattened_on_white(rgba: Seq<u8>, count: nat) -> Seq<u8> {
    Seq::new(
        3 * count,
        |j: int|
            {
                let p = j / 3;
                spec_over_white(rgba[4 * p + j % 3], rgba[4 * p + 3])
            },
    )
}

/// Writes into `rgb` the first `count` pixels of the premultiplied `rgba`
/// composited over white, three bytes per pixel, replacing its previous
/// contents.
pub fn flatten_on_white(rgba: &[u8], count: usize, rgb: &mut Vec<u8>)
    requires
        4 * count <= rgba@.len(),
    ensures
        final(rgb)@ == flattened_on_white(rgba@, count as nat),
{
    rgb.clear();
    let total = rgba.len();
    let mut p: usize = 0;
    while p < count
        invariant
            0 <= p <= count,
            total == rgba@.len(),
            4 * count <= rgba@.len(),
            rgb@.len() == 3 * p,
            forall|j: int| 0 <= j < 3 * p ==> #[trigger] rgb@[j] == flattened_on_white(rgba@, count as nat)[j],
        decreases count - p,
    {
        let o = p * 4;
        let alpha = rgba[o + 3] as u16;
        let inv = 255 - alpha;
        let mut c: usize = 0;
        while c < 3
            invariant
                0 <= c <= 3,
                p < count,
                o == 4 * p,
                4 * count <= rgba@.len(),
                alpha == rgba@[o + 3],
                inv == 255 - alpha,
                rgb@.len() == 3 * p + c,
                forall|j: int| 0 <= j < 3 * p + c ==> #[trigger] rgb@[j] == flattened_on_white(rgba@, count as nat)[j],
            decreases 3 - c,
        {
            let v = rgba[o + c] as u16;
            let sum = v + inv;
            let out: u8 = if sum > 255 {
                255
            } else {
                sum as u8
            };
            proof {
                let j = 3 * p + c;
                assert(j / 3 == p as int);
                assert(j % 3 == c as int);
            }
            rgb.push(out);
            c = c + 1;
        }
        p = p + 1;
    }
    assert(rgb@ =~= flattened_on_white(rgba@, count as nat));
}

/// `cur` where it overlaps `prev`, each byte lowered to the matching byte of
/// `prev` when that is smaller.
pub open spec fn intersected(cur: Seq<u8>, prev: Seq<u8>) -> Seq<u8> {
    Seq::new(
        cur.len(),
        |i: int|
            if i < prev.len() && prev[i] < cur[i] {
                prev[i]
            } else {
                cur[i]
            },
    )
}

/// Intersects coverage `cur` with coverage `prev`, byte by byte (minimum).
pub fn intersect_coverage(cur: &mut [u8], prev: &[u8])
    ensures
        final(cur)@ == intersected(old(cur)@, prev@),
        final(cur)@.len() == old(cur)@.len(),
        forall|i: int|
            0 <= i < old(cur)@.len() && i < prev@.len() ==> {
                &&& #[trigger] final(cur)@[i] <= old(cur)@[i]
                &&& final(cur)@[i] <= prev@[i]
                &&& (final(cur)@[i] == old(cur)@[i] || final(cur)@[i] == prev@[i])
            },
        forall|i: int| prev@.len() <= i < old(cur)@.len() ==> #[trigger] final(cur)@[i] == old(cur)@[i],
{
    let ghost start = cur@;
    let n = if cur.len() < prev.len() {
        cur.len()
    } else {
        prev.len()
    };
    let mut i: usize = 0;
    while i < n
        invariant
            0 <= i <= n,
            n <= cur@.len(),
            n <= prev@.len(),
            n == cur@.len() || n == prev@.len(),
            cur@.len() == start.len(),
            forall|j: int|
                0 <= j < cur@.len() ==> #[trigger] cur@[j] == if j < i {
                    intersected(start, prev@)[j]
                } else {
                    start[j]
                },
        decreases n - i,
    {
        if prev[i] < cur[i] {
            cur[i] = prev[i];
        }
        i = i + 1;
    }
    assert(cur@ =~= intersected(start, prev@));
    assert forall|i: int| 0 <= i < start.len() && i < prev@.len() implies {
        &&& #[trigger] cur@[i] <= start[i]
        &&& cur@[i] <= prev@[i]
        &&& (cur@[i] == start[i] || cur@[i] == prev@[i])
    } by {
        lemma_intersection_is_minimum(start, prev@, i);
    }
}

/// Laying a colour over a premultiplied pixel keeps it premultiplied: when a
/// colour channel is at most the pixel's alpha, the blended channel is at
/// most the blended alpha.
pub proof fn lemma_blend_within_alpha(src: u8, dst: u8, dst_a: u8, alpha: int)
    requires
        0 <= alpha <= 255,
        dst <= dst_a,
    ensures
        spec_blend_channel(src, dst, alpha) <= spec_out_alpha(alpha, dst_a as int),
        0 <= spec_blend_channel(src, dst, alpha) <= 255,
        0 <= spec_out_alpha(alpha, dst_a as int) <= 255,
{
    lemma_blend_bounds(src, dst, alpha);
    assert(0 <= dst_a * (255 - alpha) <= 255 * (255 - alpha)) by (nonlinear_arith)
        requires 0 <= alpha <= 255, dst_a <= 255;
    let x = dst * (255 - alpha);
    let y = dst_a * (255 - alpha);
    assert(x <= y) by (nonlinear_arith)
        requires x == dst * (255 - alpha), y == dst_a * (255 - alpha), dst <= dst_a, alpha <= 255;
    assert(src * alpha <= 255 * alpha) by (nonlinear_arith)
        requires src <= 255, 0 <= alpha;
    vstd::arithmetic::div_mod::lemma_div_is_ordered(src * alpha + x, 255 * alpha + y, 255);
    assert((255 * alpha + y) / 255 == alpha + y / 255) by (nonlinear_arith)
        requires 0 <= y;
}

/// Full coverage replaces the destination channel, zero coverage keeps it;
/// full coverage yields an opaque pixel and zero coverage keeps its alpha.
pub proof fn lemma_blend_extremes(src: u8, dst: u8, dst_a: u8)
    ensures
        spec_blend_channel(src, dst, 255) == src,
        spec_blend_channel(src, dst, 0) == dst,
        spec_out_alpha(255, dst_a as int) == 255,
        spec_out_alpha(0, dst_a as int) == dst_a,
{
}

/// Premultiplying by an opaque alpha keeps a channel; by a transparent alpha
/// it clears it.
pub proof fn lemma_premultiply_extremes(c: u8)
    ensures
        spec_premultiply(c, 255) == c,
        spec_premultiply(c, 0) == 0,
{
    assert((c * 255 + 127) / 255 == c) by (nonlinear_arith)
        requires c <= 255;
}

/// Over white, an opaque pixel keeps its colour, a fully transparent one
/// becomes white, and any premultiplied channel `c` of alpha `a` becomes
/// `c + 255 - a`.
pub proof fn lemma_flatten_extremes(rgba: Seq<u8>, count: nat, p: int, c: int)
    requires
        0 <= p < count,
        0 <= c < 3,
        4 * count <= rgba.len(),
    ensures
        rgba[4 * p + 3] == 255 ==> flattened_on_white(rgba, count)[3 * p + c] == rgba[4 * p + c],
        rgba[4 * p + 3] == 0 ==> flattened_on_white(rgba, count)[3 * p + c] == 255,
        rgba[4 * p + c] <= rgba[4 * p + 3] ==> flattened_on_white(rgba, count)[3 * p + c]
            == rgba[4 * p + c] + 255 - rgba[4 * p + 3],
{
    let j = 3 * p + c;
    assert(j / 3 == p);
    assert(j % 3 == c);
}

/// Intersecting coverage never raises it.
pub proof fn lemma_intersection_is_lower(cur: Seq<u8>, prev: Seq<u8>, i: int)
    requires
        0 <= i < cur.len(),
    ensures
        intersected(cur, prev)[i] <= cur[i],
        i < prev.len() ==> intersected(cur, prev)[i] <= prev[i],
{
}

/// Within the overlap, intersected coverage is exactly the smaller of the two
/// bytes: at most both, and equal to one of them. Past the end of `prev`
/// the coverage is kept.
pub proof fn lemma_intersection_is_minimum(cur: Seq<u8>, prev: Seq<u8>, i: int)
    requires
        0 <= i < cur.len(),
    ensures
        intersected(cur, prev).len() == cur.len(),
        i < prev.len() ==> {
            &&& intersected(cur, prev)[i] <= cur[i]
            &&& intersected(cur, prev)[i] <= prev[i]
            &&& (intersected(cur, prev)[i] == cur[i] || intersected(cur, prev)[i] == prev[i])
        },
        i >= prev.len() ==> intersected(cur, prev)[i] == cur[i],
{
}

} // verus!
