//! Rasterisation of the grid into an RGBA framebuffer: every grid cell
//! becomes a `cell_size` x `cell_size` block of its colour, with white
//! scale ticks every ten cells along the top and left edges.

use vstd::prelude::*;

use crate::grid::{flat_index, lemma_index_in_range, lemma_index_injective};

verus! {

/// One channel blended 30% of the way from `base` toward `overlay`,
/// rounded down.
pub open spec fn tint_channel(base: u8, overlay: u8) -> u8 {
    ((7 * base + 3 * overlay) / 10) as u8
}

/// Blends `base` 30% toward the purple overlay `[180, 100, 255]` (the
/// mana debug tint), channel by channel, rounding down.
pub fn mana_tint(base: [u8; 3]) -> (rgb: [u8; 3])
    ensures
        rgb[0] == tint_channel(base[0], 180),
        rgb[1] == tint_channel(base[1], 100),
        rgb[2] == tint_channel(base[2], 255),
{
    let r = ((7 * (base[0] as u32) + 3 * 180) / 10) as u8;
    let g = ((7 * (base[1] as u32) + 3 * 100) / 10) as u8;
    let b = ((7 * (base[2] as u32) + 3 * 255) / 10) as u8;
    [r, g, b]
}

/// Tinting moves every channel toward the overlay without passing it.
pub proof fn lemma_tint_between(base: u8, overlay: u8)
    ensures
        base <= overlay ==> base <= tint_channel(base, overlay) <= overlay,
        overlay <= base ==> overlay <= tint_channel(base, overlay) <= base,
{
}

/// Whether framebuffer pixel `(px, py)` is part of a scale tick: ticks mark
/// every tenth grid column along the top edge and every tenth grid row
/// along the left edge, at the middle of the cell, `2 * cell_size` pixels
/// long.
pub open spec fn is_tick_pixel(px: int, py: int, cell_size: int) -> bool {
    cell_size > 0 && ((px % cell_size == cell_size / 2 && (px / cell_size) % 10 == 0 && py < 2
        * cell_size) || (py % cell_size == cell_size / 2 && (py / cell_size) % 10 == 0 && px < 2
        * cell_size))
}

/// Channel `c` (red, green, blue, alpha) of framebuffer pixel `(px, py)`.
pub open spec fn pixel_channel(
    colors: Seq<[u8; 3]>,
    grid_width: int,
    cell_size: int,
    px: int,
    py: int,
    c: int,
) -> u8 {
    if c == 3 || is_tick_pixel(px, py, cell_size) {
        255
    } else {
        colors[flat_index(grid_width, px / cell_size, py / cell_size)][c]
    }
}

/// Byte offset of channel `c` of pixel `(px, py)` in a framebuffer of
/// width `fb_width`.
pub open spec fn byte_offset(fb_width: int, px: int, py: int, c: int) -> int {
    4 * flat_index(fb_width, px, py) + c
}

proof fn lemma_byte_offset(fb_width: int, fb_height: int, px: int, py: int, c: int)
    requires
        0 <= px < fb_width,
        0 <= py < fb_height,
        0 <= c < 4,
    ensures
        0 <= byte_offset(fb_width, px, py, c) < 4 * (fb_width * fb_height),
{
    lemma_index_in_range(fb_width, fb_height, px, py);
}

proof fn lemma_byte_offset_injective(
    fb_width: int,
    px1: int,
    py1: int,
    c1: int,
    px2: int,
    py2: int,
    c2: int,
)
    requires
        0 <= px1 < fb_width,
        0 <= px2 < fb_width,
        0 <= py1,
        0 <= py2,
        0 <= c1 < 4,
        0 <= c2 < 4,
        byte_offset(fb_width, px1, py1, c1) == byte_offset(fb_width, px2, py2, c2),
    ensures
        px1 == px2 && py1 == py2 && c1 == c2,
{
    let q1 = flat_index(fb_width, px1, py1);
    let q2 = flat_index(fb_width, px2, py2);
    assert(0 <= q1) by (nonlinear_arith)
        requires
            0 <= px1,
            0 <= py1,
            0 <= fb_width,
            q1 == py1 * fb_width + px1,
    ;
    assert(0 <= q2) by (nonlinear_arith)
        requires
            0 <= px2,
            0 <= py2,
            0 <= fb_width,
            q2 == py2 * fb_width + px2,
    ;
    assert(q1 == q2 && c1 == c2) by (nonlinear_arith)
        requires
            4 * q1 + c1 == 4 * q2 + c2,
            0 <= c1 < 4,
            0 <= c2 < 4,
    ;
    lemma_index_injective(fb_width, px1, py1, px2, py2);
}

/// The colour channel `c` of the block that framebuffer pixel `(px, py)`
/// belongs to, before ticks are drawn.
spec fn block_channel(
    colors: Seq<[u8; 3]>,
    grid_width: int,
    cell_size: int,
    px: int,
    py: int,
    c: int,
) -> u8 {
    if c == 3 {
        255
    } else {
        colors[flat_index(grid_width, px / cell_size, py / cell_size)][c]
    }
}

/// Lexicographic order of four-component positions.
spec fn lex_lt(a0: int, a1: int, a2: int, a3: int, b0: int, b1: int, b2: int, b3: int) -> bool {
    a0 < b0 || (a0 == b0 && (a1 < b1 || (a1 == b1 && (a2 < b2 || (a2 == b2 && a3 < b3)))))
}

/// Whether the block fill, currently at pixel `(dx, dy)` of block
/// `(gx, gy)`, has already written pixel `(px, py)`.
spec fn block_filled(px: int, py: int, cs: int, gy: int, gx: int, dy: int, dx: int) -> bool {
    lex_lt(py / cs, px / cs, py % cs, px % cs, gy, gx, dy, dx)
}

/// Whether `(px, py)` lies on a column tick along the top edge that the
/// tick pass has drawn once it reaches column `gc` and row `row`.
spec fn column_tick_drawn(px: int, py: int, cs: int, ylim: int, gc: int, row: int) -> bool {
    &&& px % cs == cs / 2
    &&& (px / cs) % 10 == 0
    &&& py < ylim
    &&& (px / cs < gc || (px / cs == gc && py < row))
}

/// Whether `(px, py)` lies on a row tick along the left edge that the tick
/// pass has drawn once it reaches row `gr` and column `col`.
spec fn row_tick_drawn(px: int, py: int, cs: int, xlim: int, gr: int, col: int) -> bool {
    &&& py % cs == cs / 2
    &&& (py / cs) % 10 == 0
    &&& px < xlim
    &&& (py / cs < gr || (py / cs == gr && px < col))
}

/// Division facts for a coordinate inside a run of `n` blocks of `cs`.
proof fn lemma_split(p: int, n: int, cs: int)
    requires
        0 <= p < n * cs,
        cs > 0,
    ensures
        p == cs * (p / cs) + p % cs,
        0 <= p % cs < cs,
        0 <= p / cs < n,
{
    vstd::arithmetic::div_mod::lemma_fundamental_div_mod(p, cs);
    vstd::arithmetic::div_mod::lemma_mod_pos_bound(p, cs);
    assert(0 <= p / cs < n) by (nonlinear_arith)
        requires
            0 <= p < n * cs,
            cs > 0,
            p == cs * (p / cs) + p % cs,
            0 <= p % cs < cs,
    ;
}

/// The pixel at offset `d` inside block `g`.
proof fn lemma_join(g: int, d: int, n: int, cs: int)
    requires
        0 <= g < n,
        0 <= d < cs,
    ensures
        (g * cs + d) / cs == g,
        (g * cs + d) % cs == d,
        0 <= g * cs + d < n * cs,
{
    vstd::arithmetic::div_mod::lemma_fundamental_div_mod_converse(g * cs + d, cs, g, d);
    assert(0 <= g * cs + d < n * cs) by (nonlinear_arith)
        requires
            0 <= g < n,
            0 <= d < cs,
    ;
}

/// Writes the four channels of pixel `(px, py)`.
fn put_pixel(
    frame: &mut [u8],
    fb_width: usize,
    fb_height: usize,
    px: usize,
    py: usize,
    rgba: [u8; 4],
)
    requires
        px < fb_width,
        py < fb_height,
        old(frame)@.len() == 4 * (fb_width * fb_height),
    ensures
        final(frame)@.len() == old(frame)@.len(),
        forall|x: int, y: int, c: int|
            0 <= x < fb_width && 0 <= y < fb_height && 0 <= c < 4
                ==> #[trigger] final(frame)@[byte_offset(fb_width as int, x, y, c)] == if x == px
                && y == py {
                rgba[c]
            } else {
                old(frame)@[byte_offset(fb_width as int, x, y, c)]
            },
{
    proof {
        lemma_index_in_range(fb_width as int, fb_height as int, px as int, py as int);
        vstd::slice::axiom_spec_len(frame);
    }
    let offset = (py * fb_width + px) * 4;
    frame[offset] = rgba[0];
    frame[offset + 1] = rgba[1];
    frame[offset + 2] = rgba[2];
    frame[offset + 3] = rgba[3];
    proof {
        assert forall|x: int, y: int, c: int|
            0 <= x < fb_width && 0 <= y < fb_height && 0 <= c < 4 implies #[trigger] frame@[byte_offset(
            fb_width as int,
            x,
            y,
            c,
        )] == if x == px && y == py {
            rgba[c]
        } else {
            old(frame)@[byte_offset(fb_width as int, x, y, c)]
        } by {
            lemma_byte_offset(fb_width as int, fb_height as int, x, y, c);
            let b = byte_offset(fb_width as int, x, y, c);
            if x == px && y == py {
                assert(b == offset + c);
            } else if offset <= b < offset + 4 {
                let c2 = b - offset;
                assert(byte_offset(fb_width as int, px as int, py as int, c2) == b);
                lemma_byte_offset_injective(fb_width as int, x, y, c, px as int, py as int, c2);
            }
        }
    }
}

/// Rasterises a `grid_width` x `grid_height` grid whose cells have the
/// given colours (row-major) into `frame`, an RGBA framebuffer of
/// `grid_width * cell_size` x `grid_height * cell_size` pixels: each cell
/// is drawn as a `cell_size` x `cell_size` block of its colour, then white
/// scale ticks (see [`is_tick_pixel`]) are drawn every ten cells along the
/// top and left edges; every pixel ends up opaque.
pub fn rasterize(
    frame: &mut [u8],
    grid_width: usize,
    grid_height: usize,
    cell_size: usize,
    colors: &[[u8; 3]],
)
    requires
        colors@.len() == grid_width * grid_height,
        old(frame)@.len() == 4 * ((grid_width * cell_size) * (grid_height * cell_size)),
    ensures
        final(frame)@.len() == old(frame)@.len(),
        forall|px: int, py: int, c: int|
            0 <= px < grid_width * cell_size && 0 <= py < grid_height * cell_size && 0 <= c < 4
                ==> #[trigger] final(frame)@[byte_offset(
                (grid_width * cell_size) as int,
                px,
                py,
                c,
            )] == pixel_channel(colors@, grid_width as int, cell_size as int, px, py, c),
{
    if grid_height == 0 || cell_size == 0 || grid_width == 0 {
        proof {
            assert(grid_width * cell_size == 0 || grid_height * cell_size == 0) by (nonlinear_arith)
                requires
                    grid_height == 0 || cell_size == 0 || grid_width == 0,
            ;
        }
        return;
    }
    let ghost len = frame@.len();
    let ghost cols = colors@;
    proof {
        vstd::slice::axiom_spec_len(frame);
        vstd::slice::axiom_spec_len(colors);
        assert(grid_width * cell_size >= 1 && grid_height * cell_size >= 1) by (nonlinear_arith)
            requires
                grid_width >= 1,
                grid_height >= 1,
                cell_size >= 1,
        ;
        assert(cell_size <= grid_width * cell_size) by (nonlinear_arith)
            requires
                grid_width >= 1,
        ;
        assert(grid_width * cell_size <= (grid_width * cell_size) * (grid_height * cell_size)
            && grid_height * cell_size <= (grid_width * cell_size) * (grid_height * cell_size)
            && 2 * cell_size <= 4 * ((grid_width * cell_size) * (grid_height * cell_size)))
            by (nonlinear_arith)
            requires
                grid_height * cell_size >= 1,
                grid_width * cell_size >= 1,
                cell_size <= grid_width * cell_size,
        ;
    }
    let fb_width = grid_width * cell_size;
    let fb_height = grid_height * cell_size;
    let ghost gw = grid_width as int;
    let ghost cs = cell_size as int;
    // Each grid cell becomes a cell_size x cell_size block of its colour.
    let mut gy: usize = 0;
    while gy < grid_height
        invariant
            fb_width == grid_width * cell_size,
            fb_height == grid_height * cell_size,
            grid_width >= 1,
            grid_height >= 1,
            cell_size >= 1,
            gw == grid_width as int,
            cs == cell_size as int,
            len <= usize::MAX,
            cols == colors@,
            cols.len() == grid_width * grid_height,
            cols.len() <= usize::MAX,
            frame@.len() == len,
            len == 4 * (fb_width * fb_height),
            gy <= grid_height,
            forall|x: int, y: int, c: int|
                0 <= x < fb_width && 0 <= y < fb_height && 0 <= c < 4 && block_filled(
                    x,
                    y,
                    cs,
                    gy as int,
                    0,
                    0,
                    0,
                ) ==> #[trigger] frame@[byte_offset(fb_width as int, x, y, c)] == block_channel(
                    cols,
                    gw,
                    cs,
                    x,
                    y,
                    c,
                ),
        decreases grid_height - gy,
    {
        let mut gx: usize = 0;
        while gx < grid_width
            invariant
                fb_width == grid_width * cell_size,
                fb_height == grid_height * cell_size,
                grid_width >= 1,
                grid_height >= 1,
                cell_size >= 1,
                gw == grid_width as int,
                cs == cell_size as int,
                len <= usize::MAX,
                cols == colors@,
                cols.len() == grid_width * grid_height,
                cols.len() <= usize::MAX,
                frame@.len() == len,
                len == 4 * (fb_width * fb_height),
                gy < grid_height,
                gx <= grid_width,
                forall|x: int, y: int, c: int|
                    0 <= x < fb_width && 0 <= y < fb_height && 0 <= c < 4 && block_filled(
                        x,
                        y,
                        cs,
                        gy as int,
                        gx as int,
                        0,
                        0,
                    ) ==> #[trigger] frame@[byte_offset(fb_width as int, x, y, c)]
                        == block_channel(cols, gw, cs, x, y, c),
            decreases grid_width - gx,
        {
            proof {
                lemma_index_in_range(grid_width as int, grid_height as int, gx as int, gy as int);
                lemma_join(gx as int, 0, gw, cs);
                lemma_join(gy as int, 0, grid_height as int, cs);
            }
            let rgb = colors[gy * grid_width + gx];
            let px_x = gx * cell_size;
            let px_y = gy * cell_size;
            let mut dy: usize = 0;
            while dy < cell_size
                invariant
                    fb_width == grid_width * cell_size,
                    fb_height == grid_height * cell_size,
                    grid_width >= 1,
                    grid_height >= 1,
                    cell_size >= 1,
                    gw == grid_width as int,
                    cs == cell_size as int,
                    len <= usize::MAX,
                    cols == colors@,
                    cols.len() == grid_width * grid_height,
                    frame@.len() == len,
                    len == 4 * (fb_width * fb_height),
                    gy < grid_height,
                    gx < grid_width,
                    px_x == gx * cell_size,
                    px_y == gy * cell_size,
                    rgb == cols[flat_index(gw, gx as int, gy as int)],
                    dy <= cell_size,
                    forall|x: int, y: int, c: int|
                        0 <= x < fb_width && 0 <= y < fb_height && 0 <= c < 4 && block_filled(
                            x,
                            y,
                            cs,
                            gy as int,
                            gx as int,
                            dy as int,
                            0,
                        ) ==> #[trigger] frame@[byte_offset(fb_width as int, x, y, c)]
                            == block_channel(cols, gw, cs, x, y, c),
                decreases cell_size - dy,
            {
                let mut dx: usize = 0;
                while dx < cell_size
                    invariant
                        fb_width == grid_width * cell_size,
                        fb_height == grid_height * cell_size,
                        grid_width >= 1,
                        grid_height >= 1,
                        cell_size >= 1,
                        gw == grid_width as int,
                        cs == cell_size as int,
                        len <= usize::MAX,
                        cols == colors@,
                        cols.len() == grid_width * grid_height,
                        frame@.len() == len,
                        len == 4 * (fb_width * fb_height),
                        gy < grid_height,
                        gx < grid_width,
                        px_x == gx * cell_size,
                        px_y == gy * cell_size,
                        rgb == cols[flat_index(gw, gx as int, gy as int)],
                        dy < cell_size,
                        dx <= cell_size,
                        forall|x: int, y: int, c: int|
                            0 <= x < fb_width && 0 <= y < fb_height && 0 <= c < 4 && block_filled(
                                x,
                                y,
                                cs,
                                gy as int,
                                gx as int,
                                dy as int,
                                dx as int,
                            ) ==> #[trigger] frame@[byte_offset(fb_width as int, x, y, c)]
                                == block_channel(cols, gw, cs, x, y, c),
                    decreases cell_size - dx,
                {
                    proof {
                        lemma_join(gx as int, dx as int, gw, cs);
                        lemma_join(gy as int, dy as int, grid_height as int, cs);
                    }
                    let ghost before = frame@;
                    put_pixel(
                        frame,
                        fb_width,
                        fb_height,
                        px_x + dx,
                        px_y + dy,
                        [rgb[0], rgb[1], rgb[2], 255],
                    );
                    proof {
                        assert forall|x: int, y: int, c: int|
                            0 <= x < fb_width && 0 <= y < fb_height && 0 <= c < 4 && block_filled(
                                x,
                                y,
                                cs,
                                gy as int,
                                gx as int,
                                dy as int,
                                dx + 1,
                            ) implies #[trigger] frame@[byte_offset(fb_width as int, x, y, c)]
                            == block_channel(cols, gw, cs, x, y, c) by {
                            lemma_split(x, gw, cs);
                            lemma_split(y, grid_height as int, cs);
                            if x == px_x + dx && y == px_y + dy {
                            } else if !block_filled(x, y, cs, gy as int, gx as int, dy as int, dx as int) {
                                assert(x == px_x + dx && y == px_y + dy) by (nonlinear_arith)
                                    requires
                                        x == cs * (x / cs) + x % cs,
                                        y == cs * (y / cs) + y % cs,
                                        x / cs == gx,
                                        y / cs == gy,
                                        x % cs == dx,
                                        y % cs == dy,
                                        px_x == gx * cs,
                                        px_y == gy * cs,
                                ;
                            }
                        }
                    }
                    dx = dx + 1;
                }
                proof {
                    assert forall|x: int, y: int, c: int|
                        0 <= x < fb_width && 0 <= y < fb_height && 0 <= c < 4 && block_filled(
                            x,
                            y,
                            cs,
                            gy as int,
                            gx as int,
                            dy + 1,
                            0,
                        ) implies #[trigger] frame@[byte_offset(fb_width as int, x, y, c)]
                        == block_channel(cols, gw, cs, x, y, c) by {
                        lemma_split(x, gw, cs);
                        assert(block_filled(x, y, cs, gy as int, gx as int, dy as int, cs));
                    }
                }
                dy = dy + 1;
            }
            proof {
                assert forall|x: int, y: int, c: int|
                    0 <= x < fb_width && 0 <= y < fb_height && 0 <= c < 4 && block_filled(
                        x,
                        y,
                        cs,
                        gy as int,
                        gx + 1,
                        0,
                        0,
                    ) implies #[trigger] frame@[byte_offset(fb_width as int, x, y, c)]
                    == block_channel(cols, gw, cs, x, y, c) by {
                    lemma_split(y, grid_height as int, cs);
                    assert(block_filled(x, y, cs, gy as int, gx as int, cs, 0));
                }
            }
            gx = gx + 1;
        }
        proof {
            assert forall|x: int, y: int, c: int|
                0 <= x < fb_width && 0 <= y < fb_height && 0 <= c < 4 && block_filled(
                    x,
                    y,
                    cs,
                    gy + 1,
                    0,
                    0,
                    0,
                ) implies #[trigger] frame@[byte_offset(fb_width as int, x, y, c)]
                == block_channel(cols, gw, cs, x, y, c) by {
                lemma_split(x, gw, cs);
                assert(block_filled(x, y, cs, gy as int, gw, 0, 0));
            }
        }
        gy = gy + 1;
    }
    proof {
        assert forall|x: int, y: int, c: int|
            0 <= x < fb_width && 0 <= y < fb_height && 0 <= c < 4 implies #[trigger] frame@[byte_offset(
            fb_width as int,
            x,
            y,
            c,
        )] == block_channel(cols, gw, cs, x, y, c) by {
            lemma_split(y, grid_height as int, cs);
            assert(block_filled(x, y, cs, grid_height as int, 0, 0, 0));
        }
    }
    let ghost blocks = frame@;
    proof {
        assert(grid_width + 10 <= usize::MAX && grid_height + 10 <= usize::MAX) by (nonlinear_arith)
            requires
                cell_size >= 1,
                grid_width >= 1,
                grid_height >= 1,
                4 * ((grid_width * cell_size) * (grid_height * cell_size)) <= usize::MAX,
        ;
    }
    // Scale ticks every ten grid cells along the top edge ...
    let tick_len = cell_size * 2;
    let ylim = if tick_len < fb_height {
        tick_len
    } else {
        fb_height
    };
    let mut gc: usize = 0;
    while gc < grid_width
        invariant
            fb_width == grid_width * cell_size,
            fb_height == grid_height * cell_size,
            grid_width >= 1,
            grid_height >= 1,
            cell_size >= 1,
            gw == grid_width as int,
            cs == cell_size as int,
            len <= usize::MAX,
            frame@.len() == len,
            len == 4 * (fb_width * fb_height),
            gc % 10 == 0,
            gc <= grid_width + 9,
            grid_width + 10 <= usize::MAX,
            ylim <= fb_height,
            forall|x: int, y: int, c: int|
                0 <= x < fb_width && 0 <= y < fb_height && 0 <= c < 4 ==> #[trigger] frame@[byte_offset(
                    fb_width as int,
                    x,
                    y,
                    c,
                )] == if column_tick_drawn(x, y, cs, ylim as int, gc as int, 0) {
                    255
                } else {
                    blocks[byte_offset(fb_width as int, x, y, c)]
                },
        decreases grid_width + 10 - gc,
    {
        proof {
            lemma_join(gc as int, cs / 2, gw, cs);
        }
        let px_x = gc * cell_size + cell_size / 2;
        let mut py: usize = 0;
        while py < ylim
            invariant
                fb_width == grid_width * cell_size,
                fb_height == grid_height * cell_size,
                grid_width >= 1,
                grid_height >= 1,
                cell_size >= 1,
                gw == grid_width as int,
                cs == cell_size as int,
                len <= usize::MAX,
                frame@.len() == len,
                len == 4 * (fb_width * fb_height),
                gc % 10 == 0,
                gc < grid_width,
                px_x == gc * cell_size + cell_size / 2,
                px_x < fb_width,
                px_x as int / cs == gc,
                px_x as int % cs == cs / 2,
                ylim <= fb_height,
                py <= ylim,
                forall|x: int, y: int, c: int|
                    0 <= x < fb_width && 0 <= y < fb_height && 0 <= c < 4 ==> #[trigger] frame@[byte_offset(
                        fb_width as int,
                        x,
                        y,
                        c,
                    )] == if column_tick_drawn(x, y, cs, ylim as int, gc as int, py as int) {
                        255
                    } else {
                        blocks[byte_offset(fb_width as int, x, y, c)]
                    },
            decreases ylim - py,
        {
            proof {
                lemma_index_in_range(fb_width as int, fb_height as int, px_x as int, py as int);
            }
            let offset = (py * fb_width + px_x) * 4;
            if offset + 3 < frame.len() {
                let ghost before = frame@;
                put_pixel(frame, fb_width, fb_height, px_x, py, [255, 255, 255, 255]);
                proof {
                    assert forall|x: int, y: int, c: int|
                        0 <= x < fb_width && 0 <= y < fb_height && 0 <= c < 4 implies #[trigger] frame@[byte_offset(
                            fb_width as int,
                            x,
                            y,
                            c,
                        )] == if column_tick_drawn(x, y, cs, ylim as int, gc as int, py + 1) {
                            255
                        } else {
                            blocks[byte_offset(fb_width as int, x, y, c)]
                        } by {
                        if x != px_x || y != py {
                            lemma_split(x, gw, cs);
                            if x / cs == gc && x % cs == cs / 2 {
                                assert(x == px_x) by (nonlinear_arith)
                                    requires
                                        x == cs * (x / cs) + x % cs,
                                        x / cs == gc,
                                        x % cs == cs / 2,
                                        px_x == gc * cs + cs / 2,
                                ;
                            }
                        }
                    }
                }
            }
            py = py + 1;
        }
        proof {
            assert forall|x: int, y: int, c: int|
                0 <= x < fb_width && 0 <= y < fb_height && 0 <= c < 4 implies #[trigger] frame@[byte_offset(
                    fb_width as int,
                    x,
                    y,
                    c,
                )] == if column_tick_drawn(x, y, cs, ylim as int, gc + 10, 0) {
                    255
                } else {
                    blocks[byte_offset(fb_width as int, x, y, c)]
                } by {
                lemma_split(x, gw, cs);
                assert(column_tick_drawn(x, y, cs, ylim as int, gc + 10, 0) == column_tick_drawn(
                    x,
                    y,
                    cs,
                    ylim as int,
                    gc as int,
                    ylim as int,
                ));
            }
        }
        gc = gc + 10;
    }
    let ghost columns = frame@;
    proof {
        assert forall|x: int, y: int, c: int|
            0 <= x < fb_width && 0 <= y < fb_height && 0 <= c < 4 implies #[trigger] columns[byte_offset(
                fb_width as int,
                x,
                y,
                c,
            )] == if column_tick_drawn(x, y, cs, ylim as int, gw + 10, 0) {
                255
            } else {
                blocks[byte_offset(fb_width as int, x, y, c)]
            } by {
            lemma_split(x, gw, cs);
            assert(column_tick_drawn(x, y, cs, ylim as int, gw + 10, 0) == column_tick_drawn(
                x,
                y,
                cs,
                ylim as int,
                gc as int,
                0,
            ));
        }
    }
    // ... and along the left edge.
    let xlim = if tick_len < fb_width {
        tick_len
    } else {
        fb_width
    };
    let mut gr: usize = 0;
    while gr < grid_height
        invariant
            fb_width == grid_width * cell_size,
            fb_height == grid_height * cell_size,
            grid_width >= 1,
            grid_height >= 1,
            cell_size >= 1,
            gw == grid_width as int,
            cs == cell_size as int,
            len <= usize::MAX,
            frame@.len() == len,
            len == 4 * (fb_width * fb_height),
            gr % 10 == 0,
            gr <= grid_height + 9,
            grid_height + 10 <= usize::MAX,
            xlim <= fb_width,
            forall|x: int, y: int, c: int|
                0 <= x < fb_width && 0 <= y < fb_height && 0 <= c < 4 ==> #[trigger] frame@[byte_offset(
                    fb_width as int,
                    x,
                    y,
                    c,
                )] == if row_tick_drawn(x, y, cs, xlim as int, gr as int, 0) {
                    255
                } else {
                    columns[byte_offset(fb_width as int, x, y, c)]
                },
        decreases grid_height + 10 - gr,
    {
        proof {
            lemma_join(gr as int, cs / 2, grid_height as int, cs);
        }
        let py = gr * cell_size + cell_size / 2;
        let mut px_x: usize = 0;
        while px_x < xlim
            invariant
                fb_width == grid_width * cell_size,
                fb_height == grid_height * cell_size,
                grid_width >= 1,
                grid_height >= 1,
                cell_size >= 1,
                gw == grid_width as int,
                cs == cell_size as int,
                len <= usize::MAX,
                frame@.len() == len,
                len == 4 * (fb_width * fb_height),
                gr % 10 == 0,
                gr < grid_height,
                py == gr * cell_size + cell_size / 2,
                py < fb_height,
                py as int / cs == gr,
                py as int % cs == cs / 2,
                xlim <= fb_width,
                px_x <= xlim,
                forall|x: int, y: int, c: int|
                    0 <= x < fb_width && 0 <= y < fb_height && 0 <= c < 4 ==> #[trigger] frame@[byte_offset(
                        fb_width as int,
                        x,
                        y,
                        c,
                    )] == if row_tick_drawn(x, y, cs, xlim as int, gr as int, px_x as int) {
                        255
                    } else {
                        columns[byte_offset(fb_width as int, x, y, c)]
                    },
            decreases xlim - px_x,
        {
            proof {
                lemma_index_in_range(fb_width as int, fb_height as int, px_x as int, py as int);
            }
            let offset = (py * fb_width + px_x) * 4;
            if offset + 3 < frame.len() {
                put_pixel(frame, fb_width, fb_height, px_x, py, [255, 255, 255, 255]);
                proof {
                    assert forall|x: int, y: int, c: int|
                        0 <= x < fb_width && 0 <= y < fb_height && 0 <= c < 4 implies #[trigger] frame@[byte_offset(
                            fb_width as int,
                            x,
                            y,
                            c,
                        )] == if row_tick_drawn(x, y, cs, xlim as int, gr as int, px_x + 1) {
                            255
                        } else {
                            columns[byte_offset(fb_width as int, x, y, c)]
                        } by {
                        if x != px_x || y != py {
                            lemma_split(y, grid_height as int, cs);
                            if y / cs == gr && y % cs == cs / 2 {
                                assert(y == py) by (nonlinear_arith)
                                    requires
                                        y == cs * (y / cs) + y % cs,
                                        y / cs == gr,
                                        y % cs == cs / 2,
                                        py == gr * cs + cs / 2,
                                ;
                            }
                        }
                    }
                }
            }
            px_x = px_x + 1;
        }
        proof {
            assert forall|x: int, y: int, c: int|
                0 <= x < fb_width && 0 <= y < fb_height && 0 <= c < 4 implies #[trigger] frame@[byte_offset(
                    fb_width as int,
                    x,
                    y,
                    c,
                )] == if row_tick_drawn(x, y, cs, xlim as int, gr + 10, 0) {
                    255
                } else {
                    columns[byte_offset(fb_width as int, x, y, c)]
                } by {
                lemma_split(y, grid_height as int, cs);
                assert(row_tick_drawn(x, y, cs, xlim as int, gr + 10, 0) == row_tick_drawn(
                    x,
                    y,
                    cs,
                    xlim as int,
                    gr as int,
                    xlim as int,
                ));
            }
        }
        gr = gr + 10;
    }
    proof {
        assert forall|x: int, y: int, c: int|
            0 <= x < fb_width && 0 <= y < fb_height && 0 <= c < 4 implies #[trigger] frame@[byte_offset(
                fb_width as int,
                x,
                y,
                c,
            )] == pixel_channel(cols, gw, cs, x, y, c) by {
            lemma_split(x, gw, cs);
            lemma_split(y, grid_height as int, cs);
            assert(row_tick_drawn(x, y, cs, xlim as int, grid_height + 10, 0) == row_tick_drawn(
                x,
                y,
                cs,
                xlim as int,
                gr as int,
                0,
            ));
            assert(columns[byte_offset(fb_width as int, x, y, c)] == if column_tick_drawn(
                x,
                y,
                cs,
                ylim as int,
                gw + 10,
                0,
            ) {
                255
            } else {
                blocks[byte_offset(fb_width as int, x, y, c)]
            });
        }
    }
}

/// The tint is the weighted average `(7 * base + 3 * overlay) / 10`
/// rounded down; it fixes the overlay colour and black goes to 30% of the
/// overlay.
pub proof fn lemma_tint_value(base: u8, overlay: u8)
    ensures
        tint_channel(base, overlay) == (7 * base + 3 * overlay) / 10,
        tint_channel(overlay, overlay) == overlay,
        tint_channel(0, overlay) == (3 * overlay) / 10,
{
}

/// Every pixel is opaque; a tick pixel is white; any other pixel of the
/// block of cell `(gx, gy)` has that cell's colour. Ticks sit in the middle
/// column of every tenth cell along the top two cells' height, and in the
/// middle row of every tenth cell along the left two cells' width.
pub proof fn lemma_pixel_meaning(
    colors: Seq<[u8; 3]>,
    grid_width: int,
    cell_size: int,
    gx: int,
    gy: int,
    dx: int,
    dy: int,
    c: int,
)
    requires
        cell_size > 0,
        0 <= gx,
        0 <= gy,
        0 <= dx < cell_size,
        0 <= dy < cell_size,
        0 <= c < 3,
    ensures
        pixel_channel(colors, grid_width, cell_size, gx * cell_size + dx, gy * cell_size + dy, 3)
            == 255,
        is_tick_pixel(gx * cell_size + dx, gy * cell_size + dy, cell_size) <==> ((dx == cell_size
            / 2 && gx % 10 == 0 && gy < 2) || (dy == cell_size / 2 && gy % 10 == 0 && gx < 2)),
        !is_tick_pixel(gx * cell_size + dx, gy * cell_size + dy, cell_size) ==> pixel_channel(
            colors,
            grid_width,
            cell_size,
            gx * cell_size + dx,
            gy * cell_size + dy,
            c,
        ) == colors[gy * grid_width + gx][c],
        is_tick_pixel(gx * cell_size + dx, gy * cell_size + dy, cell_size) ==> pixel_channel(
            colors,
            grid_width,
            cell_size,
            gx * cell_size + dx,
            gy * cell_size + dy,
            c,
        ) == 255,
{
    vstd::arithmetic::div_mod::lemma_fundamental_div_mod_converse(
        gx * cell_size + dx,
        cell_size,
        gx,
        dx,
    );
    vstd::arithmetic::div_mod::lemma_fundamental_div_mod_converse(
        gy * cell_size + dy,
        cell_size,
        gy,
        dy,
    );
    assert((gy * cell_size + dy < 2 * cell_size) <==> gy < 2) by (nonlinear_arith)
        requires
            cell_size > 0,
            0 <= gy,
            0 <= dy < cell_size,
    ;
    assert((gx * cell_size + dx < 2 * cell_size) <==> gx < 2) by (nonlinear_arith)
        requires
            cell_size > 0,
            0 <= gx,
            0 <= dx < cell_size,
    ;
}

} // verus!
