//! Sandbox brushes: the materials a user can paint with and the set of
//! grid cells one dab of a round brush covers during a stroke.

use vstd::prelude::*;

use crate::grid::{dist_sq, flat_index, lemma_index_injective, lemma_index_in_range};
use crate::material::Material;

verus! {

broadcast use vstd::std_specs::hash::group_hash_axioms;

/// A material the sandbox brush can paint.
#[derive(Debug, Clone, Copy, PartialEq, Eq, Structural)]
pub enum BrushMaterial {
    Air,
    Water,
    Fire,
    Earth,
    Ice,
    Steam,
}

/// The palette: every brush, in the order the sandbox lists them.
pub open spec fn palette() -> Seq<BrushMaterial> {
    seq![
        BrushMaterial::Air,
        BrushMaterial::Water,
        BrushMaterial::Fire,
        BrushMaterial::Earth,
        BrushMaterial::Ice,
        BrushMaterial::Steam,
    ]
}

impl BrushMaterial {
    pub open spec fn spec_to_material(self) -> Material {
        match self {
            BrushMaterial::Air => Material::Air,
            BrushMaterial::Water => Material::Water,
            BrushMaterial::Fire => Material::Fire,
            BrushMaterial::Earth => Material::Earth,
            BrushMaterial::Ice => Material::Ice,
            BrushMaterial::Steam => Material::Steam,
        }
    }

    /// The simulation material this brush paints.
    pub fn to_material(self) -> (m: Material)
        ensures
            m == self.spec_to_material(),
    {
        match self {
            BrushMaterial::Air => Material::Air,
            BrushMaterial::Water => Material::Water,
            BrushMaterial::Fire => Material::Fire,
            BrushMaterial::Earth => Material::Earth,
            BrushMaterial::Ice => Material::Ice,
            BrushMaterial::Steam => Material::Steam,
        }
    }

    /// The name shown in the palette.
    pub fn label(self) -> (s: &'static str)
        ensures
            self == BrushMaterial::Air ==> s@ == "Air"@,
            self == BrushMaterial::Water ==> s@ == "Water"@,
            self == BrushMaterial::Fire ==> s@ == "Fire"@,
            self == BrushMaterial::Earth ==> s@ == "Earth"@,
            self == BrushMaterial::Ice ==> s@ == "Ice"@,
            self == BrushMaterial::Steam ==> s@ == "Steam"@,
    {
        match self {
            BrushMaterial::Air => "Air",
            BrushMaterial::Water => "Water",
            BrushMaterial::Fire => "Fire",
            BrushMaterial::Earth => "Earth",
            BrushMaterial::Ice => "Ice",
            BrushMaterial::Steam => "Steam",
        }
    }

    /// Every brush, in palette order.
    pub fn all() -> (r: &'static [BrushMaterial])
        ensures
            r@ == palette(),
    {
        &[
            BrushMaterial::Air,
            BrushMaterial::Water,
            BrushMaterial::Fire,
            BrushMaterial::Earth,
            BrushMaterial::Ice,
            BrushMaterial::Steam,
        ]
    }
}

/// The palette lists every brush exactly once, and distinct brushes paint
/// distinct materials.
pub proof fn lemma_palette_complete(b: BrushMaterial, c: BrushMaterial)
    ensures
        palette().contains(b),
        forall|i: int, j: int|
            0 <= i < j < palette().len() ==> #[trigger] palette()[i] != #[trigger] palette()[j],
        b.spec_to_material() == c.spec_to_material() ==> b == c,
{
    let p = palette();
    match b {
        BrushMaterial::Air => assert(p[0] == b),
        BrushMaterial::Water => assert(p[1] == b),
        BrushMaterial::Fire => assert(p[2] == b),
        BrushMaterial::Earth => assert(p[3] == b),
        BrushMaterial::Ice => assert(p[4] == b),
        BrushMaterial::Steam => assert(p[5] == b),
    }
}

/// Whether a dab of radius `r` centred at `(cx, cy)` covers the grid cell
/// `(x, y)` of a `width` x `height` grid: the cell is inside the grid and
/// within distance `r` of the centre.
pub open spec fn brush_covers(
    x: int,
    y: int,
    cx: int,
    cy: int,
    r: int,
    width: int,
    height: int,
) -> bool {
    &&& r >= 0
    &&& 0 <= x < width
    &&& 0 <= y < height
    &&& dist_sq(x, y, cx, cy) <= r * r
}

/// Row-major order of grid coordinates `(x, y)`: by row, then by column.
pub open spec fn row_major_lt(a: (usize, usize), b: (usize, usize)) -> bool {
    a.1 < b.1 || (a.1 == b.1 && a.0 < b.0)
}

/// The cells painted during one brush stroke, so that dragging over a cell
/// paints it only once per stroke. Cells are recorded by their row-major
/// index in the grid being painted.
pub struct Stroke {
    painted: std::collections::HashSet<usize>,
}

impl Stroke {
    /// Row-major indices of the cells painted so far in this stroke.
    pub closed spec fn painted(&self) -> Set<usize> {
        self.painted@
    }

    /// A stroke that has painted nothing yet.
    pub fn new() -> (s: Stroke)
        ensures
            s.painted() == Set::<usize>::empty(),
    {
        Stroke { painted: std::collections::HashSet::new() }
    }

    /// Ends the stroke: every cell may be painted again.
    pub fn clear(&mut self)
        ensures
            final(self).painted() == Set::<usize>::empty(),
    {
        self.painted.clear();
    }

    /// One dab of a round brush of radius `radius` at `(cx, cy)` on a
    /// `width` x `height` grid. Returns, in row-major order, the covered
    /// cells (see [`brush_covers`]) that this stroke has not painted yet,
    /// and records them as painted.
    pub fn brush_cells(
        &mut self,
        cx: i32,
        cy: i32,
        radius: i32,
        width: usize,
        height: usize,
    ) -> (cells: Vec<(usize, usize)>)
        requires
            radius <= 32767,
            radius >= 0 ==> i32::MIN + radius <= cx <= i32::MAX - radius,
            radius >= 0 ==> i32::MIN + radius <= cy <= i32::MAX - radius,
            width <= i32::MAX,
            height <= i32::MAX,
            width * height <= usize::MAX,
        ensures
            forall|i: int|
                0 <= i < cells@.len() ==> brush_covers(
                    (#[trigger] cells@[i]).0 as int,
                    cells@[i].1 as int,
                    cx as int,
                    cy as int,
                    radius as int,
                    width as int,
                    height as int,
                ) && !old(self).painted().contains(
                    flat_index(width as int, cells@[i].0 as int, cells@[i].1 as int) as usize,
                ),
            forall|x: usize, y: usize|
                brush_covers(
                    x as int,
                    y as int,
                    cx as int,
                    cy as int,
                    radius as int,
                    width as int,
                    height as int,
                ) && !old(self).painted().contains(
                    flat_index(width as int, x as int, y as int) as usize,
                ) ==> #[trigger] cells@.contains((x, y)),
            forall|i: int, j: int|
                0 <= i < j < cells@.len() ==> row_major_lt(#[trigger] cells@[i], #[trigger] cells@[j]),
            forall|k: usize|
                #[trigger] final(self).painted().contains(k) <==> (old(self).painted().contains(k)
                    || exists|i: int|
                    0 <= i < cells@.len() && flat_index(
                        width as int,
                        (#[trigger] cells@[i]).0 as int,
                        cells@[i].1 as int,
                    ) == k),
            forall|x: usize, y: usize|
                brush_covers(
                    x as int,
                    y as int,
                    cx as int,
                    cy as int,
                    radius as int,
                    width as int,
                    height as int,
                ) ==> #[trigger] final(self).painted().contains(
                    flat_index(width as int, x as int, y as int) as usize,
                ),
    {
        let mut cells: Vec<(usize, usize)> = Vec::new();
        if radius < 0 {
            return cells;
        }
        let ghost old_painted = self.painted@;
        proof {
            assert forall|x: usize, y: usize|
                brush_covers(
                    x as int,
                    y as int,
                    cx as int,
                    cy as int,
                    radius as int,
                    width as int,
                    height as int,
                ) && !old_painted.contains(flat_index(width as int, x as int, y as int) as usize)
                    && scanned_before(
                    (x, y),
                    cx as int,
                    cy as int,
                    -radius as int,
                    -radius as int,
                ) implies #[trigger] cells@.contains((x, y)) by {
                Stroke::lemma_cover_box(
                    x as int,
                    y as int,
                    cx as int,
                    cy as int,
                    radius as int,
                    width as int,
                    height as int,
                );
            }
        }
        let mut dy: i32 = -radius;
        while dy <= radius
            invariant
                0 <= radius <= 32767,
                i32::MIN + radius <= cx <= i32::MAX - radius,
                i32::MIN + radius <= cy <= i32::MAX - radius,
                width <= i32::MAX,
                height <= i32::MAX,
                width * height <= usize::MAX,
                -radius <= dy <= radius + 1,
                old_painted == old(self).painted(),
                Stroke::cells_inv(
                    cells@,
                    self.painted@,
                    old_painted,
                    cx as int,
                    cy as int,
                    radius as int,
                    width as int,
                    height as int,
                    dy as int,
                    -radius as int,
                ),
            decreases radius + 1 - dy,
        {
            let mut dx: i32 = -radius;
            while dx <= radius
                invariant
                    0 <= radius <= 32767,
                    i32::MIN + radius <= cx <= i32::MAX - radius,
                    i32::MIN + radius <= cy <= i32::MAX - radius,
                    width <= i32::MAX,
                    height <= i32::MAX,
                    width * height <= usize::MAX,
                    -radius <= dy <= radius,
                    -radius <= dx <= radius + 1,
                    old_painted == old(self).painted(),
                    Stroke::cells_inv(
                        cells@,
                        self.painted@,
                        old_painted,
                        cx as int,
                        cy as int,
                        radius as int,
                        width as int,
                        height as int,
                        dy as int,
                        dx as int,
                    ),
                decreases radius + 1 - dx,
            {
                let ghost cells0 = cells@;
                let ghost painted0 = self.painted@;
                proof {
                    assert(0 <= dx * dx <= 32767 * 32767) by (nonlinear_arith)
                        requires
                            -32767 <= dx <= 32767,
                    ;
                    assert(0 <= dy * dy <= 32767 * 32767) by (nonlinear_arith)
                        requires
                            -32767 <= dy <= 32767,
                    ;
                    assert(0 <= radius * radius <= 32767 * 32767) by (nonlinear_arith)
                        requires
                            0 <= radius <= 32767,
                    ;
                }
                let covered = dx * dx + dy * dy <= radius * radius;
                let x = cx + dx;
                let y = cy + dy;
                if covered && x >= 0 && y >= 0 && x < width as i32 && y < height as i32 {
                    let xu = x as usize;
                    let yu = y as usize;
                    proof {
                        lemma_index_in_range(width as int, height as int, xu as int, yu as int);
                    }
                    let key = yu * width + xu;
                    let fresh = self.painted.insert(key);
                    if fresh {
                        cells.push((xu, yu));
                    }
                    proof {
                        Stroke::lemma_step_visit(
                            cells0,
                            painted0,
                            cells@,
                            self.painted@,
                            old_painted,
                            cx as int,
                            cy as int,
                            radius as int,
                            width as int,
                            height as int,
                            dy as int,
                            dx as int,
                        );
                    }
                } else {
                    proof {
                        assert(dist_sq(x as int, y as int, cx as int, cy as int) == dx * dx + dy * dy);
                        Stroke::lemma_step_skip(
                            cells@,
                            self.painted@,
                            old_painted,
                            cx as int,
                            cy as int,
                            radius as int,
                            width as int,
                            height as int,
                            dy as int,
                            dx as int,
                        );
                    }
                }
                dx = dx + 1;
            }
            proof {
                Stroke::lemma_next_row(
                    cells@,
                    self.painted@,
                    old_painted,
                    cx as int,
                    cy as int,
                    radius as int,
                    width as int,
                    height as int,
                    dy as int,
                );
            }
            dy = dy + 1;
        }
        proof {
            Stroke::lemma_finish(
                cells@,
                self.painted@,
                old_painted,
                cx as int,
                cy as int,
                radius as int,
                width as int,
                height as int,
            );
            assert forall|x: usize, y: usize|
                brush_covers(
                    x as int,
                    y as int,
                    cx as int,
                    cy as int,
                    radius as int,
                    width as int,
                    height as int,
                ) implies #[trigger] self.painted().contains(
                flat_index(width as int, x as int, y as int) as usize,
            ) by {
                let k = flat_index(width as int, x as int, y as int) as usize;
                if !old_painted.contains(k) {
                    assert(cells@.contains((x, y)));
                    let i = choose|i: int| 0 <= i < cells@.len() && cells@[i] == (x, y);
                    lemma_index_in_range(width as int, height as int, x as int, y as int);
                    assert(flat_index(width as int, cells@[i].0 as int, cells@[i].1 as int) == k);
                }
            }
        }
        cells
    }
}

/// Whether grid point `p` comes before the brush offset `(dx, dy)` from
/// `(cx, cy)` in the dab's row-by-row scan.
pub open spec fn scanned_before(p: (usize, usize), cx: int, cy: int, dy: int, dx: int) -> bool {
    (p.1 - cy < dy) || (p.1 - cy == dy && p.0 - cx < dx)
}

impl Stroke {
    /// What a dab has done once the scan has reached offset `(dx, dy)`.
    spec fn cells_inv(
        cells: Seq<(usize, usize)>,
        painted: Set<usize>,
        old_painted: Set<usize>,
        cx: int,
        cy: int,
        r: int,
        w: int,
        h: int,
        dy: int,
        dx: int,
    ) -> bool {
        &&& forall|i: int|
            0 <= i < cells.len() ==> brush_covers(
                (#[trigger] cells[i]).0 as int,
                cells[i].1 as int,
                cx,
                cy,
                r,
                w,
                h,
            ) && !old_painted.contains(flat_index(w, cells[i].0 as int, cells[i].1 as int) as usize)
                && scanned_before(cells[i], cx, cy, dy, dx)
        &&& forall|x: usize, y: usize|
            brush_covers(x as int, y as int, cx, cy, r, w, h) && !old_painted.contains(
                flat_index(w, x as int, y as int) as usize,
            ) && scanned_before((x, y), cx, cy, dy, dx) ==> #[trigger] cells.contains((x, y))
        &&& forall|i: int, j: int|
            0 <= i < j < cells.len() ==> row_major_lt(#[trigger] cells[i], #[trigger] cells[j])
        &&& forall|k: usize|
            #[trigger] painted.contains(k) <==> (old_painted.contains(k) || exists|i: int|
                0 <= i < cells.len() && flat_index(
                    w,
                    (#[trigger] cells[i]).0 as int,
                    cells[i].1 as int,
                ) == k)
    }

    /// A covered point lies within `r` of the centre along each axis.
    proof fn lemma_cover_box(x: int, y: int, cx: int, cy: int, r: int, w: int, h: int)
        requires
            brush_covers(x, y, cx, cy, r, w, h),
        ensures
            -r <= x - cx <= r,
            -r <= y - cy <= r,
    {
        assert(-r <= x - cx <= r) by (nonlinear_arith)
            requires
                r >= 0,
                (x - cx) * (x - cx) + (y - cy) * (y - cy) <= r * r,
        ;
        assert(-r <= y - cy <= r) by (nonlinear_arith)
            requires
                r >= 0,
                (x - cx) * (x - cx) + (y - cy) * (y - cy) <= r * r,
        ;
    }

    proof fn lemma_step_skip(
        cells: Seq<(usize, usize)>,
        painted: Set<usize>,
        old_painted: Set<usize>,
        cx: int,
        cy: int,
        r: int,
        w: int,
        h: int,
        dy: int,
        dx: int,
    )
        requires
            Stroke::cells_inv(cells, painted, old_painted, cx, cy, r, w, h, dy, dx),
            !brush_covers(cx + dx, cy + dy, cx, cy, r, w, h),
        ensures
            Stroke::cells_inv(cells, painted, old_painted, cx, cy, r, w, h, dy, dx + 1),
    {
        assert forall|x: usize, y: usize|
            brush_covers(x as int, y as int, cx, cy, r, w, h) && !old_painted.contains(
                flat_index(w, x as int, y as int) as usize,
            ) && scanned_before((x, y), cx, cy, dy, dx + 1) implies #[trigger] cells.contains(
            (x, y),
        ) by {
            assert(scanned_before((x, y), cx, cy, dy, dx));
        }
    }

    proof fn lemma_step_visit(
        cells0: Seq<(usize, usize)>,
        painted0: Set<usize>,
        cells1: Seq<(usize, usize)>,
        painted1: Set<usize>,
        old_painted: Set<usize>,
        cx: int,
        cy: int,
        r: int,
        w: int,
        h: int,
        dy: int,
        dx: int,
    )
        requires
            Stroke::cells_inv(cells0, painted0, old_painted, cx, cy, r, w, h, dy, dx),
            0 <= w <= usize::MAX,
            0 <= h <= usize::MAX,
            w * h <= usize::MAX,
            brush_covers(cx + dx, cy + dy, cx, cy, r, w, h),
            painted1 == painted0.insert(flat_index(w, cx + dx, cy + dy) as usize),
            cells1 == if painted0.contains(flat_index(w, cx + dx, cy + dy) as usize) {
                cells0
            } else {
                cells0.push(((cx + dx) as usize, (cy + dy) as usize))
            },
        ensures
            Stroke::cells_inv(cells1, painted1, old_painted, cx, cy, r, w, h, dy, dx + 1),
    {
        let x0 = cx + dx;
        let y0 = cy + dy;
        let p: (usize, usize) = (x0 as usize, y0 as usize);
        let key = flat_index(w, x0, y0) as usize;
        lemma_index_in_range(w, h, x0, y0);
        // The current point's index was painted before only if it was
        // already painted when the stroke began.
        assert(painted0.contains(key) <==> old_painted.contains(key)) by {
            if painted0.contains(key) && !old_painted.contains(key) {
                let i = choose|i: int|
                    0 <= i < cells0.len() && flat_index(
                        w,
                        (#[trigger] cells0[i]).0 as int,
                        cells0[i].1 as int,
                    ) == key;
                lemma_index_in_range(w, h, cells0[i].0 as int, cells0[i].1 as int);
                lemma_index_injective(w, cells0[i].0 as int, cells0[i].1 as int, x0, y0);
                assert(scanned_before(cells0[i], cx, cy, dy, dx));
            }
        }
        if !painted0.contains(key) {
            assert forall|i: int| 0 <= i < cells1.len() - 1 implies row_major_lt(
                #[trigger] cells1[i],
                p,
            ) by {
                assert(cells1[i] == cells0[i]);
                assert(scanned_before(cells0[i], cx, cy, dy, dx));
            }
            assert forall|i: int, j: int| 0 <= i < j < cells1.len() implies row_major_lt(
                #[trigger] cells1[i],
                #[trigger] cells1[j],
            ) by {
                if j == cells1.len() - 1 {
                    assert(cells1[j] == p);
                } else {
                    assert(cells1[i] == cells0[i]);
                    assert(cells1[j] == cells0[j]);
                }
            }
            assert forall|i: int| 0 <= i < cells1.len() implies brush_covers(
                (#[trigger] cells1[i]).0 as int,
                cells1[i].1 as int,
                cx,
                cy,
                r,
                w,
                h,
            ) && !old_painted.contains(flat_index(w, cells1[i].0 as int, cells1[i].1 as int) as usize)
                && scanned_before(cells1[i], cx, cy, dy, dx + 1) by {
                if i < cells0.len() {
                    assert(cells1[i] == cells0[i]);
                }
            }
            assert forall|x: usize, y: usize|
                brush_covers(x as int, y as int, cx, cy, r, w, h) && !old_painted.contains(
                    flat_index(w, x as int, y as int) as usize,
                ) && scanned_before((x, y), cx, cy, dy, dx + 1) implies #[trigger] cells1.contains(
                (x, y),
            ) by {
                if x as int == x0 && y as int == y0 {
                    assert(cells1[cells1.len() - 1] == (x, y));
                } else {
                    assert(scanned_before((x, y), cx, cy, dy, dx));
                    assert(cells0.contains((x, y)));
                    let i = choose|i: int| 0 <= i < cells0.len() && cells0[i] == (x, y);
                    assert(cells1[i] == (x, y));
                }
            }
            assert forall|k: usize|
                #[trigger] painted1.contains(k) <==> (old_painted.contains(k) || exists|i: int|
                    0 <= i < cells1.len() && flat_index(
                        w,
                        (#[trigger] cells1[i]).0 as int,
                        cells1[i].1 as int,
                    ) == k) by {
                if painted0.contains(k) && !old_painted.contains(k) {
                    let i = choose|i: int|
                        0 <= i < cells0.len() && flat_index(
                            w,
                            (#[trigger] cells0[i]).0 as int,
                            cells0[i].1 as int,
                        ) == k;
                    assert(cells1[i] == cells0[i]);
                }
                if k == key {
                    assert(cells1[cells1.len() - 1] == p);
                    assert(flat_index(w, cells1[cells1.len() - 1].0 as int, cells1[cells1.len() - 1].1 as int) == k);
                }
                if exists|i: int|
                    0 <= i < cells1.len() && flat_index(
                        w,
                        (#[trigger] cells1[i]).0 as int,
                        cells1[i].1 as int,
                    ) == k {
                    let i = choose|i: int|
                        0 <= i < cells1.len() && flat_index(
                            w,
                            (#[trigger] cells1[i]).0 as int,
                            cells1[i].1 as int,
                        ) == k;
                    if i < cells0.len() {
                        assert(cells1[i] == cells0[i]);
                    }
                }
            }
        } else {
            assert forall|x: usize, y: usize|
                brush_covers(x as int, y as int, cx, cy, r, w, h) && !old_painted.contains(
                    flat_index(w, x as int, y as int) as usize,
                ) && scanned_before((x, y), cx, cy, dy, dx + 1) implies #[trigger] cells1.contains(
                (x, y),
            ) by {
                if x as int == x0 && y as int == y0 {
                    assert(false);
                } else {
                    assert(scanned_before((x, y), cx, cy, dy, dx));
                }
            }
            assert(painted1 =~= painted0);
        }
    }

    proof fn lemma_next_row(
        cells: Seq<(usize, usize)>,
        painted: Set<usize>,
        old_painted: Set<usize>,
        cx: int,
        cy: int,
        r: int,
        w: int,
        h: int,
        dy: int,
    )
        requires
            Stroke::cells_inv(cells, painted, old_painted, cx, cy, r, w, h, dy, r + 1),
        ensures
            Stroke::cells_inv(cells, painted, old_painted, cx, cy, r, w, h, dy + 1, -r),
    {
        assert forall|i: int| 0 <= i < cells.len() implies scanned_before(
            #[trigger] cells[i],
            cx,
            cy,
            dy + 1,
            -r,
        ) by {
            assert(scanned_before(cells[i], cx, cy, dy, r + 1));
        }
        assert forall|x: usize, y: usize|
            brush_covers(x as int, y as int, cx, cy, r, w, h) && !old_painted.contains(
                flat_index(w, x as int, y as int) as usize,
            ) && scanned_before((x, y), cx, cy, dy + 1, -r) implies #[trigger] cells.contains(
            (x, y),
        ) by {
            Stroke::lemma_cover_box(x as int, y as int, cx, cy, r, w, h);
            assert(scanned_before((x, y), cx, cy, dy, r + 1));
        }
    }

    proof fn lemma_finish(
        cells: Seq<(usize, usize)>,
        painted: Set<usize>,
        old_painted: Set<usize>,
        cx: int,
        cy: int,
        r: int,
        w: int,
        h: int,
    )
        requires
            Stroke::cells_inv(cells, painted, old_painted, cx, cy, r, w, h, r + 1, -r),
        ensures
            forall|x: usize, y: usize|
                brush_covers(x as int, y as int, cx, cy, r, w, h) && !old_painted.contains(
                    flat_index(w, x as int, y as int) as usize,
                ) ==> #[trigger] cells.contains((x, y)),
    {
        assert forall|x: usize, y: usize|
            brush_covers(x as int, y as int, cx, cy, r, w, h) && !old_painted.contains(
                flat_index(w, x as int, y as int) as usize,
            ) implies #[trigger] cells.contains((x, y)) by {
            Stroke::lemma_cover_box(x as int, y as int, cx, cy, r, w, h);
            assert(scanned_before((x, y), cx, cy, r + 1, -r));
        }
    }
}

/// Within one stroke a cell is painted at most once: once a dab has
/// painted every cell it covers, a dab that returns only cells covered and
/// not yet painted (as [`Stroke::brush_cells`] does) at the same place
/// returns nothing.
pub proof fn lemma_repeat_dab_paints_nothing(
    painted: Set<usize>,
    cells: Seq<(usize, usize)>,
    cx: int,
    cy: int,
    r: int,
    width: int,
    height: int,
)
    requires
        forall|x: usize, y: usize|
            brush_covers(x as int, y as int, cx, cy, r, width, height) ==> #[trigger] painted.contains(
                flat_index(width, x as int, y as int) as usize,
            ),
        forall|i: int|
            0 <= i < cells.len() ==> brush_covers(
                (#[trigger] cells[i]).0 as int,
                cells[i].1 as int,
                cx,
                cy,
                r,
                width,
                height,
            ) && !painted.contains(flat_index(width, cells[i].0 as int, cells[i].1 as int) as usize),
    ensures
        cells.len() == 0,
{
    if cells.len() > 0 {
        let p = cells[0];
        assert(painted.contains(flat_index(width, p.0 as int, p.1 as int) as usize));
    }
}

/// A dab covers exactly the in-bounds cells within distance `r` of its
/// centre (a negative radius covers nothing): the centre is covered when
/// it is in bounds, cells `r` away along an axis are covered, and cells
/// `r + 1` away are not. Row-major order compares rows first.
pub proof fn lemma_brush_cover_exact(
    x: int,
    y: int,
    cx: int,
    cy: int,
    r: int,
    width: int,
    height: int,
    a: (usize, usize),
    b: (usize, usize),
)
    ensures
        brush_covers(x, y, cx, cy, r, width, height) <==> (r >= 0 && 0 <= x < width && 0 <= y
            < height && (x - cx) * (x - cx) + (y - cy) * (y - cy) <= r * r),
        r >= 0 && 0 <= cx < width && 0 <= cy < height ==> brush_covers(
            cx,
            cy,
            cx,
            cy,
            r,
            width,
            height,
        ),
        r >= 0 && 0 <= cx + r < width && 0 <= cy < height ==> brush_covers(
            cx + r,
            cy,
            cx,
            cy,
            r,
            width,
            height,
        ),
        r >= 0 ==> !brush_covers(cx + r + 1, cy, cx, cy, r, width, height),
        r < 0 ==> !brush_covers(x, y, cx, cy, r, width, height),
        row_major_lt(a, b) <==> (a.1 < b.1 || (a.1 == b.1 && a.0 < b.0)),
{
    if r >= 0 {
        assert((r + 1) * (r + 1) > r * r) by (nonlinear_arith)
            requires
                r >= 0,
        ;
        assert(dist_sq(cx + r + 1, cy, cx, cy) == (r + 1) * (r + 1));
        assert(dist_sq(cx + r, cy, cx, cy) == r * r);
    }
}

} // verus!
