use crucible::render::{mana_tint, rasterize};

fn lerp_u8(a: u8, b: u8, t: f32) -> u8 {
    let t = t.clamp(0.0, 1.0);
    (a as f32 + (b as f32 - a as f32) * t) as u8
}

#[test]
fn mana_tint_matches_thirty_percent_blend() {
    let overlay: [u8; 3] = [180, 100, 255];
    for v in 0..=255u8 {
        let got = mana_tint([v, v, v]);
        for c in 0..3 {
            assert_eq!(got[c], lerp_u8(v, overlay[c], 0.30), "channel {} value {}", c, v);
        }
    }
}

#[test]
fn mana_tint_examples() {
    assert_eq!(mana_tint([0, 0, 0]), [54, 30, 76]);
    assert_eq!(mana_tint([180, 100, 255]), [180, 100, 255]);
    assert_eq!(mana_tint([255, 255, 255]), [232, 208, 255]);
}

/// The framebuffer fill as the block-and-ticks loops draw it.
fn reference_draw(gw: usize, gh: usize, cs: usize, colors: &[[u8; 3]]) -> Vec<u8> {
    let fb_width = gw * cs;
    let fb_height = gh * cs;
    let mut frame = vec![0u8; fb_width * fb_height * 4];
    for gy in 0..gh {
        for gx in 0..gw {
            let rgb = colors[gy * gw + gx];
            let px_x = gx * cs;
            let px_y = gy * cs;
            for dy in 0..cs {
                for dx in 0..cs {
                    let offset = ((px_y + dy) * fb_width + (px_x + dx)) * 4;
                    frame[offset] = rgb[0];
                    frame[offset + 1] = rgb[1];
                    frame[offset + 2] = rgb[2];
                    frame[offset + 3] = 255;
                }
            }
        }
    }
    let tick_len = cs * 2;
    for grid_coord in (0..gw).step_by(10) {
        let px_x = grid_coord * cs + cs / 2;
        for py in 0..tick_len.min(fb_height) {
            let offset = (py * fb_width + px_x) * 4;
            if offset + 3 < frame.len() {
                frame[offset..offset + 4].copy_from_slice(&[255, 255, 255, 255]);
            }
        }
    }
    for grid_coord in (0..gh).step_by(10) {
        let py = grid_coord * cs + cs / 2;
        for px_x in 0..tick_len.min(fb_width) {
            let offset = (py * fb_width + px_x) * 4;
            if offset + 3 < frame.len() {
                frame[offset..offset + 4].copy_from_slice(&[255, 255, 255, 255]);
            }
        }
    }
    frame
}

fn colors_for(gw: usize, gh: usize) -> Vec<[u8; 3]> {
    (0..gw * gh).map(|i| [(i % 251) as u8, (i * 7 % 253) as u8, (i * 13 % 241) as u8]).collect()
}

#[test]
fn rasterize_matches_block_fill_with_ticks() {
    for (gw, gh, cs) in [(23usize, 14usize, 3usize), (12, 25, 4), (1, 1, 1), (31, 2, 2), (5, 21, 1)] {
        let colors = colors_for(gw, gh);
        let mut frame = vec![7u8; gw * cs * gh * cs * 4];
        rasterize(&mut frame, gw, gh, cs, &colors);
        assert_eq!(frame, reference_draw(gw, gh, cs, &colors), "{}x{} cells of {}", gw, gh, cs);
    }
}

#[test]
fn rasterize_single_cell_with_tick() {
    let mut frame = vec![0u8; 2 * 2 * 4];
    rasterize(&mut frame, 1, 1, 2, &[[10, 20, 30]]);
    // Pixel (1, 0) and (1, 1) are on the column tick, (0, 1) on the row tick.
    assert_eq!(&frame[0..4], &[10, 20, 30, 255]);
    assert_eq!(&frame[4..8], &[255, 255, 255, 255]);
    assert_eq!(&frame[8..12], &[255, 255, 255, 255]);
    assert_eq!(&frame[12..16], &[255, 255, 255, 255]);
}

#[test]
fn rasterize_empty_grid_touches_nothing() {
    let mut frame: Vec<u8> = Vec::new();
    rasterize(&mut frame, 0, 5, 3, &[]);
    assert!(frame.is_empty());
}
