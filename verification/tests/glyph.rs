use mini_canvas::glyph::{blend_cell, blend_glyph_aligned, blend_glyph_mapped, Rgba};

fn white(w: usize, h: usize) -> Vec<u8> {
    vec![255; w * h * 4]
}

fn bitmap(gw: usize, gh: usize) -> Vec<u8> {
    (0..gw * gh).map(|i| ((i * 53 + 7) % 256) as u8).collect()
}

#[test]
fn opaque_cell_writes_colour() {
    let mut dst = white(3, 2);
    let black = Rgba { r: 0, g: 0, b: 0, a: 255 };
    blend_cell(&mut dst, 3, 2, 1, 1, 255, black, None);
    assert_eq!(&dst[16..20], &[0, 0, 0, 255]);
    assert!(dst[..16].iter().all(|&b| b == 255));
}

#[test]
fn partial_cell_blends() {
    let mut dst = vec![0, 0, 0, 0];
    let red = Rgba { r: 255, g: 0, b: 0, a: 255 };
    blend_cell(&mut dst, 1, 1, 0, 0, 128, red, None);
    // alpha = 128*255/255 = 128; r = 255*128/255 = 128; a = 128 + 0
    assert_eq!(dst, vec![128, 0, 0, 128]);
}

#[test]
fn clipped_out_cell_is_skipped() {
    let mut dst = white(2, 1);
    let black = Rgba { r: 0, g: 0, b: 0, a: 255 };
    let clip = [0u8, 255];
    blend_cell(&mut dst, 2, 1, 0, 0, 255, black, Some(&clip));
    blend_cell(&mut dst, 2, 1, 1, 0, 255, black, Some(&clip));
    assert_eq!(dst, vec![255, 255, 255, 255, 0, 0, 0, 255]);
}

#[test]
fn cells_off_surface_are_skipped() {
    let mut dst = white(2, 2);
    let black = Rgba { r: 0, g: 0, b: 0, a: 255 };
    blend_cell(&mut dst, 2, 2, -1, 0, 255, black, None);
    blend_cell(&mut dst, 2, 2, 0, 2, 255, black, None);
    assert_eq!(dst, white(2, 2));
}

#[test]
fn aligned_path_matches_mapped_path() {
    let (w, h) = (9usize, 7usize);
    let (gw, gh) = (5usize, 4usize);
    let bm = bitmap(gw, gh);
    let color = Rgba { r: 10, g: 20, b: 30, a: 200 };
    for &(left, top) in &[(2i32, 1i32), (-2, -1), (6, 5), (0, 0)] {
        let mut aligned = white(w, h);
        blend_glyph_aligned(&mut aligned, w as u32, h as u32, &bm, gw, gh, left, top, color, None);
        let positions: Vec<(i32, i32)> = (0..gw * gh)
            .map(|i| (left + (i % gw) as i32, top + (i / gw) as i32))
            .collect();
        let mut mapped = white(w, h);
        blend_glyph_mapped(&mut mapped, w as u32, h as u32, &bm, &positions, color, None);
        assert_eq!(aligned, mapped);
    }
}

#[test]
fn aligned_path_matches_mapped_path_under_clip() {
    let (w, h) = (6usize, 6usize);
    let (gw, gh) = (4usize, 3usize);
    let bm = bitmap(gw, gh);
    let clip: Vec<u8> = (0..w * h).map(|i| ((i * 91) % 256) as u8).collect();
    let color = Rgba { r: 200, g: 100, b: 50, a: 255 };
    let mut aligned = white(w, h);
    blend_glyph_aligned(&mut aligned, w as u32, h as u32, &bm, gw, gh, 1, 2, color, Some(&clip));
    let positions: Vec<(i32, i32)> =
        (0..gw * gh).map(|i| (1 + (i % gw) as i32, 2 + (i / gw) as i32)).collect();
    let mut mapped = white(w, h);
    blend_glyph_mapped(&mut mapped, w as u32, h as u32, &bm, &positions, color, Some(&clip));
    assert_eq!(aligned, mapped);
}

#[test]
fn text_leaves_pixels_outside_glyph_alone() {
    let (w, h) = (8usize, 8usize);
    let bm = vec![255u8; 4];
    let black = Rgba { r: 0, g: 0, b: 0, a: 255 };
    let mut dst = white(w, h);
    blend_glyph_aligned(&mut dst, w as u32, h as u32, &bm, 2, 2, 3, 3, black, None);
    for y in 0..h {
        for x in 0..w {
            let inside = (3..5).contains(&x) && (3..5).contains(&y);
            let px = &dst[(y * w + x) * 4..(y * w + x) * 4 + 4];
            if inside {
                assert_eq!(px, &[0, 0, 0, 255]);
            } else {
                assert_eq!(px, &[255, 255, 255, 255]);
            }
        }
    }
}

#[test]
fn mapped_cells_on_same_pixel_compose_in_order() {
    let mut dst = vec![0u8; 4];
    let red = Rgba { r: 255, g: 0, b: 0, a: 255 };
    blend_glyph_mapped(&mut dst, 1, 1, &[128, 128], &[(0, 0), (0, 0)], red, None);
    // first: [128,0,0,128]; second: r = (255*128 + 128*127)/255 = 191, a = 128 + 128*127/255 = 191
    assert_eq!(dst, vec![191, 0, 0, 191]);
}

#[test]
fn glyph_blending_keeps_colours_within_alpha() {
    let (w, h) = (6usize, 5usize);
    // A premultiplied surface with varied, partly transparent pixels.
    let mut dst: Vec<u8> = (0..w * h)
        .flat_map(|i| {
            let a = ((i * 37) % 256) as u8;
            [a / 2, a / 3, a, a]
        })
        .collect();
    let colour = Rgba { r: 250, g: 10, b: 200, a: 180 };
    blend_glyph_aligned(&mut dst, w as u32, h as u32, &bitmap(4, 3), 4, 3, 1, 1, colour, None);
    for px in dst.chunks(4) {
        assert!(px[0] <= px[3] && px[1] <= px[3] && px[2] <= px[3], "{px:?}");
    }
}
