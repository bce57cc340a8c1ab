//! The rectangular cell grid: row-major storage, coordinate arithmetic,
//! bounds tests and the four-neighbour stencil the physics rules read.

use vstd::prelude::*;

verus! {

/// Flat row-major index of the cell at column `x`, row `y`.
pub open spec fn flat_index(width: int, x: int, y: int) -> int {
    y * width + x
}

/// Row-major index arithmetic stays inside the grid: an in-bounds
/// coordinate maps to an index below `width * height`.
pub proof fn lemma_index_in_range(width: int, height: int, x: int, y: int)
    requires
        0 <= x < width,
        0 <= y < height,
    ensures
        0 <= flat_index(width, x, y) < width * height,
{
    assert(0 <= y * width + x < width * height) by (nonlinear_arith)
        requires
            0 <= x < width,
            0 <= y < height,
    ;
}

/// Distinct in-bounds coordinates have distinct row-major indices, and an
/// index determines its coordinate.
pub proof fn lemma_index_injective(width: int, x1: int, y1: int, x2: int, y2: int)
    requires
        0 <= x1 < width,
        0 <= x2 < width,
        0 <= y1,
        0 <= y2,
        flat_index(width, x1, y1) == flat_index(width, x2, y2),
    ensures
        x1 == x2,
        y1 == y2,
{
    assert(y1 == y2) by (nonlinear_arith)
        requires
            0 <= x1 < width,
            0 <= x2 < width,
            0 <= y1,
            0 <= y2,
            y1 * width + x1 == y2 * width + x2,
    {
        if y1 < y2 {
            assert(y1 * width + width <= y2 * width);
        } else if y2 < y1 {
            assert(y2 * width + width <= y1 * width);
        }
    }
}

/// The row-major index of a cell in a grid of the given width, together
/// with the column and row it decodes back to.
pub proof fn lemma_index_decode(width: int, x: int, y: int)
    requires
        0 <= x < width,
        0 <= y,
    ensures
        flat_index(width, x, y) / width == y,
        flat_index(width, x, y) % width == x,
{
    vstd::arithmetic::div_mod::lemma_fundamental_div_mod_converse(
        flat_index(width, x, y),
        width,
        y,
        x,
    );
}

/// Whether `(px, py)` lies in the `w` x `h` rectangle whose top-left
/// corner is `(x, y)`.
pub open spec fn in_rect(px: int, py: int, x: int, y: int, w: int, h: int) -> bool {
    x <= px < x + w && y <= py < y + h
}

/// Squared distance between two grid points.
pub open spec fn dist_sq(ax: int, ay: int, bx: int, by: int) -> int {
    (ax - bx) * (ax - bx) + (ay - by) * (ay - by)
}

/// Whether `(px, py)` lies on the border of the circle of radius `r`
/// around `(cx, cy)`: its Euclidean distance `d` from the centre satisfies
/// `|d - r| < 1`, written without square roots as
/// `d^2 < (r + 1)^2` and, for `r > 0`, `(r - 1)^2 < d^2`.
pub open spec fn on_ring(px: int, py: int, cx: int, cy: int, r: int) -> bool {
    let d2 = dist_sq(px, py, cx, cy);
    d2 < (r + 1) * (r + 1) && (r == 0 || (r - 1) * (r - 1) < d2)
}

/// Indices of the four neighbours of a cell; `None` where the neighbour
/// would lie outside the grid.
#[derive(Debug, Clone, Copy, PartialEq, Eq, Structural)]
pub struct Neighbors {
    /// The cell one row up (`y - 1`).
    pub north: Option<usize>,
    /// The cell one row down (`y + 1`).
    pub south: Option<usize>,
    /// The cell one column right (`x + 1`).
    pub east: Option<usize>,
    /// The cell one column left (`x - 1`).
    pub west: Option<usize>,
}

/// Copies of the four neighbours of a cell; `None` where the neighbour
/// would lie outside the grid.
#[derive(Debug, Clone, Copy)]
pub struct NeighborCells<C> {
    pub north: Option<C>,
    pub south: Option<C>,
    pub east: Option<C>,
    pub west: Option<C>,
}

/// A rectangular grid of cells stored row by row.
pub struct Grid<C> {
    width: usize,
    height: usize,
    cells: Vec<C>,
}

impl<C> Grid<C> {
    pub closed spec fn spec_width(&self) -> usize {
        self.width
    }

    pub closed spec fn spec_height(&self) -> usize {
        self.height
    }

    /// The cells in row-major order.
    pub closed spec fn cells_view(&self) -> Seq<C> {
        self.cells@
    }

    /// Well-formedness: exactly `width * height` cells are stored.
    pub open spec fn wf(&self) -> bool {
        self.cells_view().len() == self.spec_width() * self.spec_height()
    }

    /// The stored cells never number more than `usize::MAX`.
    proof fn lemma_len_bounded(&self)
        ensures
            self.cells_view().len() <= usize::MAX,
    {
        vstd::std_specs::vec::axiom_spec_len(&self.cells);
    }

    /// Whether the (signed) coordinate lies inside the grid.
    pub open spec fn contains(&self, x: int, y: int) -> bool {
        0 <= x < self.spec_width() && 0 <= y < self.spec_height()
    }

    /// The cell at column `x`, row `y`.
    pub open spec fn cell(&self, x: int, y: int) -> C {
        self.cells_view()[flat_index(self.spec_width() as int, x, y)]
    }

    /// The neighbour indices of the in-bounds cell `(x, y)`.
    pub open spec fn neighbors_of(&self, x: int, y: int) -> Neighbors {
        let w = self.spec_width() as int;
        Neighbors {
            north: if y >= 1 {
                Some(flat_index(w, x, y - 1) as usize)
            } else {
                None
            },
            south: if y + 1 < self.spec_height() {
                Some(flat_index(w, x, y + 1) as usize)
            } else {
                None
            },
            east: if x + 1 < w {
                Some(flat_index(w, x + 1, y) as usize)
            } else {
                None
            },
            west: if x >= 1 {
                Some(flat_index(w, x - 1, y) as usize)
            } else {
                None
            },
        }
    }

    /// Creates a `width` x `height` grid with every cell set to `fill`.
    pub fn new(width: usize, height: usize, fill: C) -> (g: Self)
        where
            C: Copy,
        requires
            width * height <= usize::MAX,
        ensures
            g.wf(),
            g.width() == width,
            g.height() == height,
            forall|i: int| 0 <= i < width * height ==> #[trigger] g.cells_view()[i] == fill,
    {
        let count = width * height;
        let mut cells: Vec<C> = Vec::new();
        let mut i: usize = 0;
        while i < count
            invariant
                i <= count,
                cells@.len() == i,
                forall|j: int| 0 <= j < i ==> #[trigger] cells@[j] == fill,
            decreases count - i,
        {
            cells.push(fill);
            i = i + 1;
        }
        Grid { width, height, cells }
    }

    /// Number of columns.
    #[verifier::when_used_as_spec(spec_width)]
    pub fn width(&self) -> (r: usize)
        ensures
            r == self.spec_width(),
    {
        self.width
    }

    /// Number of rows.
    #[verifier::when_used_as_spec(spec_height)]
    pub fn height(&self) -> (r: usize)
        ensures
            r == self.spec_height(),
    {
        self.height
    }

    /// Row-major index of `(x, y)`: `y * width + x`.
    pub fn index(&self, x: usize, y: usize) -> (r: usize)
        requires
            flat_index(self.width() as int, x as int, y as int) <= usize::MAX,
        ensures
            r == flat_index(self.width() as int, x as int, y as int),
    {
        proof {
            assert(0 <= y * self.width) by (nonlinear_arith);
        }
        y * self.width + x
    }

    /// Whether the signed coordinate `(x, y)` lies inside the grid.
    pub fn in_bounds(&self, x: i32, y: i32) -> (r: bool)
        ensures
            r == self.contains(x as int, y as int),
    {
        x >= 0 && y >= 0 && (x as usize) < self.width && (y as usize) < self.height
    }

    /// The cell at `(x, y)`. The coordinate is read through its row-major
    /// index, which must fall inside the stored cells.
    pub fn get(&self, x: usize, y: usize) -> (r: &C)
        requires
            self.wf(),
            flat_index(self.width() as int, x as int, y as int) < self.width() * self.height(),
        ensures
            *r == self.cell(x as int, y as int),
    {
        proof {
            self.lemma_len_bounded();
        }
        let idx = self.index(x, y);
        &self.cells[idx]
    }

    /// All cells in row-major order.
    pub fn cells(&self) -> (r: &[C])
        ensures
            r@ == self.cells_view(),
    {
        self.cells.as_slice()
    }

    /// Overwrites the cell at `(x, y)`; every other cell keeps its value.
    pub fn set(&mut self, x: usize, y: usize, cell: C)
        requires
            old(self).wf(),
            flat_index(old(self).width() as int, x as int, y as int) < old(self).width()
                * old(self).height(),
        ensures
            final(self).wf(),
            final(self).width() == old(self).width(),
            final(self).height() == old(self).height(),
            final(self).cells_view() == old(self).cells_view().update(
                flat_index(old(self).width() as int, x as int, y as int),
                cell,
            ),
    {
        proof {
            self.lemma_len_bounded();
        }
        let idx = self.index(x, y);
        self.cells.set(idx, cell);
    }

    /// Indices of the four neighbours of the in-bounds cell `(x, y)`,
    /// `None` for a neighbour outside the grid.
    pub fn neighbors(&self, x: usize, y: usize) -> (r: Neighbors)
        requires
            self.wf(),
            x < self.width(),
            y < self.height(),
        ensures
            r == self.neighbors_of(x as int, y as int),
    {
        proof {
            self.lemma_len_bounded();
            lemma_index_in_range(self.width as int, self.height as int, x as int, y as int);
        }
        let w = self.width;
        let h = self.height;
        let north = if y >= 1 {
            proof {
                lemma_index_in_range(w as int, h as int, x as int, y - 1);
            }
            Some((y - 1) * w + x)
        } else {
            None
        };
        let south = if y + 1 < h {
            proof {
                lemma_index_in_range(w as int, h as int, x as int, y + 1);
            }
            Some((y + 1) * w + x)
        } else {
            None
        };
        let east = if x + 1 < w {
            Some(y * w + (x + 1))
        } else {
            None
        };
        let west = if x >= 1 {
            Some(y * w + (x - 1))
        } else {
            None
        };
        Neighbors { north, south, east, west }
    }

    /// The four neighbours of the in-bounds cell `(x, y)`, `None` for a
    /// neighbour outside the grid.
    pub fn neighborhood(&self, x: usize, y: usize) -> (r: NeighborCells<C>)
        where
            C: Copy,
        requires
            self.wf(),
            x < self.width(),
            y < self.height(),
        ensures
            r.north == (if y >= 1 {
                Some(self.cell(x as int, y - 1))
            } else {
                None
            }),
            r.south == (if y + 1 < self.height() {
                Some(self.cell(x as int, y + 1))
            } else {
                None
            }),
            r.east == (if x + 1 < self.width() {
                Some(self.cell(x + 1, y as int))
            } else {
                None
            }),
            r.west == (if x >= 1 {
                Some(self.cell(x - 1, y as int))
            } else {
                None
            }),
    {
        let ids = self.neighbors(x, y);
        proof {
            self.lemma_len_bounded();
            if y >= 1 {
                lemma_index_in_range(self.width as int, self.height as int, x as int, y - 1);
            }
            if y + 1 < self.height {
                lemma_index_in_range(self.width as int, self.height as int, x as int, y + 1);
            }
            if x + 1 < self.width {
                lemma_index_in_range(self.width as int, self.height as int, x + 1, y as int);
            }
            if x >= 1 {
                lemma_index_in_range(self.width as int, self.height as int, x - 1, y as int);
            }
        }
        let north = match ids.north {
            Some(i) => Some(self.cells[i]),
            None => None,
        };
        let south = match ids.south {
            Some(i) => Some(self.cells[i]),
            None => None,
        };
        let east = match ids.east {
            Some(i) => Some(self.cells[i]),
            None => None,
        };
        let west = match ids.west {
            Some(i) => Some(self.cells[i]),
            None => None,
        };
        NeighborCells { north, south, east, west }
    }

    /// Sets every in-bounds cell of the `w` x `h` rectangle with top-left
    /// corner `(x, y)` to `value`; the parts of the rectangle outside the
    /// grid are ignored and every other cell keeps its value.
    pub fn fill_rect(&mut self, x: usize, y: usize, w: usize, h: usize, value: C)
        where
            C: Copy,
        requires
            old(self).wf(),
        ensures
            final(self).wf(),
            final(self).width() == old(self).width(),
            final(self).height() == old(self).height(),
            forall|a: int, b: int|
                #![trigger final(self).cell(a, b)]
                old(self).contains(a, b) ==> final(self).cell(a, b) == if in_rect(
                    a,
                    b,
                    x as int,
                    y as int,
                    w as int,
                    h as int,
                ) {
                    value
                } else {
                    old(self).cell(a, b)
                },
    {
        let ghost old_cells = self.cells@;
        let width = self.width;
        let height = self.height;
        if x >= width || y >= height {
            return;
        }
        let x_end = if w <= width - x {
            x + w
        } else {
            width
        };
        let y_end = if h <= height - y {
            y + h
        } else {
            height
        };
        let mut j = y;
        while j < y_end
            invariant
                self.width == width,
                self.height == height,
                self.wf(),
                y <= j <= y_end <= height,
                x <= x_end <= width,
                x_end == (if w <= width - x { x + w } else { width as int }),
                y_end == (if h <= height - y { y + h } else { height as int }),
                old_cells.len() == width * height,
                forall|a: int, b: int|
                    #![trigger self.cells@[flat_index(width as int, a, b)]]
                    0 <= a < width && 0 <= b < height ==> self.cells@[flat_index(
                        width as int,
                        a,
                        b,
                    )] == if x <= a < x_end && y <= b < j {
                        value
                    } else {
                        old_cells[flat_index(width as int, a, b)]
                    },
            decreases y_end - j,
        {
            let mut i = x;
            while i < x_end
                invariant
                    self.width == width,
                    self.height == height,
                    self.wf(),
                    y <= j < y_end <= height,
                    x <= i <= x_end <= width,
                    old_cells.len() == width * height,
                    forall|a: int, b: int|
                        #![trigger self.cells@[flat_index(width as int, a, b)]]
                        0 <= a < width && 0 <= b < height ==> self.cells@[flat_index(
                            width as int,
                            a,
                            b,
                        )] == if (x <= a < x_end && y <= b < j) || (b == j && x <= a < i) {
                            value
                        } else {
                            old_cells[flat_index(width as int, a, b)]
                        },
                decreases x_end - i,
            {
                proof {
                    lemma_index_in_range(width as int, height as int, i as int, j as int);
                    self.lemma_len_bounded();
                }
                let ghost before = self.cells@;
                let idx = j * width + i;
                self.cells.set(idx, value);
                proof {
                    assert forall|a: int, b: int|
                        0 <= a < width && 0 <= b < height implies #[trigger] self.cells@[flat_index(
                        width as int,
                        a,
                        b,
                    )] == if (x <= a < x_end && y <= b < j) || (b == j && x <= a < i + 1) {
                        value
                    } else {
                        old_cells[flat_index(width as int, a, b)]
                    } by {
                        lemma_index_in_range(width as int, height as int, a, b);
                        if flat_index(width as int, a, b) == idx as int {
                            lemma_index_injective(width as int, a, b, i as int, j as int);
                        } else {
                            assert(before[flat_index(width as int, a, b)] == self.cells@[flat_index(width as int, a, b)]);
                        }
                    }
                }
                i = i + 1;
            }
            j = j + 1;
        }
        proof {
            assert forall|a: int, b: int|
                #![trigger self.cell(a, b)]
                old(self).contains(a, b) implies self.cell(a, b) == if in_rect(
                    a,
                    b,
                    x as int,
                    y as int,
                    w as int,
                    h as int,
                ) {
                    value
                } else {
                    old(self).cell(a, b)
                } by {
                assert(self.cells@[flat_index(width as int, a, b)] == self.cell(a, b));
            }
        }
    }

    /// Sets every cell on the border of the circle of radius `r` around
    /// `(cx, cy)` (see [`on_ring`]) to `value`; every other cell keeps its
    /// value.
    pub fn fill_circle_border(&mut self, cx: usize, cy: usize, r: usize, value: C)
        where
            C: Copy,
        requires
            old(self).wf(),
            r < u32::MAX,
        ensures
            final(self).wf(),
            final(self).width() == old(self).width(),
            final(self).height() == old(self).height(),
            forall|a: int, b: int|
                #![trigger final(self).cell(a, b)]
                old(self).contains(a, b) ==> final(self).cell(a, b) == if on_ring(
                    a,
                    b,
                    cx as int,
                    cy as int,
                    r as int,
                ) {
                    value
                } else {
                    old(self).cell(a, b)
                },
    {
        let ghost old_cells = self.cells@;
        let width = self.width;
        let height = self.height;
        let mut j: usize = 0;
        while j < height
            invariant
                self.width == width,
                self.height == height,
                self.wf(),
                j <= height,
                r < u32::MAX,
                old_cells.len() == width * height,
                forall|a: int, b: int|
                    #![trigger self.cells@[flat_index(width as int, a, b)]]
                    0 <= a < width && 0 <= b < height ==> self.cells@[flat_index(
                        width as int,
                        a,
                        b,
                    )] == if b < j && on_ring(a, b, cx as int, cy as int, r as int) {
                        value
                    } else {
                        old_cells[flat_index(width as int, a, b)]
                    },
            decreases height - j,
        {
            let mut i: usize = 0;
            while i < width
                invariant
                    self.width == width,
                    self.height == height,
                    self.wf(),
                    j < height,
                    i <= width,
                    r < u32::MAX,
                    old_cells.len() == width * height,
                    forall|a: int, b: int|
                        #![trigger self.cells@[flat_index(width as int, a, b)]]
                        0 <= a < width && 0 <= b < height ==> self.cells@[flat_index(
                            width as int,
                            a,
                            b,
                        )] == if (b < j || (b == j && a < i)) && on_ring(
                            a,
                            b,
                            cx as int,
                            cy as int,
                            r as int,
                        ) {
                            value
                        } else {
                            old_cells[flat_index(width as int, a, b)]
                        },
                decreases width - i,
            {
                if ring_contains(i, j, cx, cy, r) {
                    proof {
                        lemma_index_in_range(width as int, height as int, i as int, j as int);
                        self.lemma_len_bounded();
                    }
                    let ghost before = self.cells@;
                    let idx = j * width + i;
                    self.cells.set(idx, value);
                    proof {
                        assert forall|a: int, b: int|
                            0 <= a < width && 0 <= b < height implies #[trigger] self.cells@[flat_index(
                            width as int,
                            a,
                            b,
                        )] == if (b < j || (b == j && a < i + 1)) && on_ring(
                            a,
                            b,
                            cx as int,
                            cy as int,
                            r as int,
                        ) {
                            value
                        } else {
                            old_cells[flat_index(width as int, a, b)]
                        } by {
                            lemma_index_in_range(width as int, height as int, a, b);
                            if flat_index(width as int, a, b) == idx as int {
                                lemma_index_injective(width as int, a, b, i as int, j as int);
                            } else {
                                assert(before[flat_index(width as int, a, b)]
                                    == self.cells@[flat_index(width as int, a, b)]);
                            }
                        }
                    }
                }
                i = i + 1;
            }
            j = j + 1;
        }
        proof {
            assert forall|a: int, b: int|
                #![trigger self.cell(a, b)]
                old(self).contains(a, b) implies self.cell(a, b) == if on_ring(
                    a,
                    b,
                    cx as int,
                    cy as int,
                    r as int,
                ) {
                    value
                } else {
                    old(self).cell(a, b)
                } by {
                assert(self.cells@[flat_index(width as int, a, b)] == self.cell(a, b));
            }
        }
    }
}

/// Decides [`on_ring`] for one grid point without overflow.
fn ring_contains(a: usize, b: usize, cx: usize, cy: usize, r: usize) -> (res: bool)
    requires
        r < u32::MAX,
    ensures
        res == on_ring(a as int, b as int, cx as int, cy as int, r as int),
{
    let dx: u128 = if a >= cx {
        (a - cx) as u128
    } else {
        (cx - a) as u128
    };
    let dy: u128 = if b >= cy {
        (b - cy) as u128
    } else {
        (cy - b) as u128
    };
    let r1: u128 = r as u128 + 1;
    proof {
        assert((a - cx) * (a - cx) == dx * dx) by (nonlinear_arith)
            requires
                dx == a - cx || dx == cx - a,
        ;
        assert((b - cy) * (b - cy) == dy * dy) by (nonlinear_arith)
            requires
                dy == b - cy || dy == cy - b,
        ;
        assert(dist_sq(a as int, b as int, cx as int, cy as int) == dx * dx + dy * dy);
    }
    if dx >= r1 || dy >= r1 {
        proof {
            assert(dx * dx + dy * dy >= r1 * r1) by (nonlinear_arith)
                requires
                    dx >= r1 || dy >= r1,
                    r1 >= 1,
            ;
        }
        return false;
    }
    proof {
        assert(dx * dx + dy * dy < 0x4_0000_0000_0000_0000) by (nonlinear_arith)
            requires
                dx < r1,
                dy < r1,
                r1 <= 0x1_0000_0000,
        ;
        assert(r1 * r1 <= 0x1_0000_0000_0000_0000) by (nonlinear_arith)
            requires
                r1 <= 0x1_0000_0000,
        ;
    }
    let d2 = dx * dx + dy * dy;
    if d2 >= r1 * r1 {
        false
    } else if r == 0 {
        true
    } else {
        let rm: u128 = r as u128 - 1;
        proof {
            assert(rm * rm <= r1 * r1) by (nonlinear_arith)
                requires
                    rm <= r1,
            ;
        }
        rm * rm < d2
    }
}

/// The four-neighbour stencil is exact and symmetric: a neighbour is
/// reported exactly when the adjacent coordinate lies inside the grid, it
/// is reported by that coordinate's row-major index, and the neighbour in
/// turn reports the first cell in the opposite direction.
pub proof fn lemma_neighbors_symmetric<C>(g: &Grid<C>, x: int, y: int)
    requires
        g.contains(x, y),
    ensures
        g.neighbors_of(x, y).north is Some <==> g.contains(x, y - 1),
        g.neighbors_of(x, y).south is Some <==> g.contains(x, y + 1),
        g.neighbors_of(x, y).east is Some <==> g.contains(x + 1, y),
        g.neighbors_of(x, y).west is Some <==> g.contains(x - 1, y),
        g.contains(x, y - 1) ==> g.neighbors_of(x, y).north == Some(
            flat_index(g.width() as int, x, y - 1) as usize,
        ) && g.neighbors_of(x, y - 1).south == Some(flat_index(g.width() as int, x, y) as usize),
        g.contains(x, y + 1) ==> g.neighbors_of(x, y).south == Some(
            flat_index(g.width() as int, x, y + 1) as usize,
        ) && g.neighbors_of(x, y + 1).north == Some(flat_index(g.width() as int, x, y) as usize),
        g.contains(x + 1, y) ==> g.neighbors_of(x, y).east == Some(
            flat_index(g.width() as int, x + 1, y) as usize,
        ) && g.neighbors_of(x + 1, y).west == Some(flat_index(g.width() as int, x, y) as usize),
        g.contains(x - 1, y) ==> g.neighbors_of(x, y).west == Some(
            flat_index(g.width() as int, x - 1, y) as usize,
        ) && g.neighbors_of(x - 1, y).east == Some(flat_index(g.width() as int, x, y) as usize),
{
}

/// A read gives back what a write wrote, and a write to one cell leaves
/// every other cell as it was: stated over the grids before and after
/// [`Grid::set`] at `(x, y)`.
pub proof fn lemma_read_after_write<C>(
    before: &Grid<C>,
    after: &Grid<C>,
    x: int,
    y: int,
    v: C,
    a: int,
    b: int,
)
    requires
        before.wf(),
        before.contains(x, y),
        before.contains(a, b),
        after.width() == before.width(),
        after.height() == before.height(),
        after.cells_view() == before.cells_view().update(
            flat_index(before.width() as int, x, y),
            v,
        ),
    ensures
        after.cell(x, y) == v,
        (a, b) != (x, y) ==> after.cell(a, b) == before.cell(a, b),
{
    let w = before.width() as int;
    let h = before.height() as int;
    lemma_index_in_range(w, h, x, y);
    lemma_index_in_range(w, h, a, b);
    if flat_index(w, a, b) == flat_index(w, x, y) {
        lemma_index_injective(w, a, b, x, y);
    }
}

/// A rectangle covers exactly the columns `x..x + w` and the rows
/// `y..y + h`, whatever the proportions: transposing the point and the
/// rectangle (swapping columns with rows and `w` with `h`) keeps
/// membership.
pub proof fn lemma_in_rect_bounds(px: int, py: int, x: int, y: int, w: int, h: int)
    ensures
        in_rect(px, py, x, y, w, h) <==> (x <= px && px < x + w && y <= py && py < y + h),
        in_rect(px, py, x, y, w, h) == in_rect(py, px, y, x, h, w),
        w > 0 && h > 0 ==> in_rect(x, y, x, y, w, h) && in_rect(x + w - 1, y + h - 1, x, y, w, h),
{
}

/// The ring of radius `r` holds exactly the points whose squared distance
/// `d2` from the centre satisfies `d2 < (r + 1)^2` and, for `r > 0`,
/// `(r - 1)^2 < d2`: the integer form of `|d - r| < 1`. So the centre is
/// on no ring of radius at least 1, and on an axis through the centre the
/// point at distance `d` is on the ring exactly when `d == r`.
pub proof fn lemma_ring_exact(px: int, py: int, cx: int, cy: int, r: int, d: int)
    requires
        r >= 0,
        d >= 0,
    ensures
        on_ring(px, py, cx, cy, r) <==> ({
            let d2 = (px - cx) * (px - cx) + (py - cy) * (py - cy);
            d2 < (r + 1) * (r + 1) && (r == 0 || (r - 1) * (r - 1) < d2)
        }),
        r > 0 && on_ring(px, py, cx, cy, r) ==> (r - 1) * (r - 1) < (px - cx) * (px - cx) + (py
            - cy) * (py - cy),
        r >= 1 ==> !on_ring(cx, cy, cx, cy, r),
        on_ring(cx + d, cy, cx, cy, r) <==> d == r,
        on_ring(cx, cy + d, cx, cy, r) <==> d == r,
        on_ring(cx - d, cy, cx, cy, r) <==> d == r,
{
    assert((d * d < (r + 1) * (r + 1) && (r == 0 || (r - 1) * (r - 1) < d * d)) <==> d == r)
        by (nonlinear_arith)
        requires
            r >= 0,
            d >= 0,
    {
        if d < r {
            assert(d * d <= (r - 1) * (r - 1));
        } else if d > r {
            assert(d * d >= (r + 1) * (r + 1));
        }
    }
    assert(dist_sq(cx + d, cy, cx, cy) == d * d);
    assert(dist_sq(cx, cy + d, cx, cy) == d * d);
    assert(dist_sq(cx - d, cy, cx, cy) == d * d) by (nonlinear_arith);
}

/// Cell `(x, y)` is stored at `y * width + x`, and the squared distance is
/// the sum of the squared coordinate differences, symmetric in its points.
pub proof fn lemma_layout_arith(width: int, x: int, y: int, bx: int, by: int)
    ensures
        flat_index(width, x, y) == y * width + x,
        flat_index(width, x + 1, y) == flat_index(width, x, y) + 1,
        flat_index(width, x, y + 1) == flat_index(width, x, y) + width,
        dist_sq(x, y, bx, by) == (x - bx) * (x - bx) + (y - by) * (y - by),
        dist_sq(x, y, bx, by) == dist_sq(bx, by, x, y),
        dist_sq(x, y, x, y) == 0,
{
    assert(flat_index(width, x, y + 1) == flat_index(width, x, y) + width) by (nonlinear_arith);
    assert(dist_sq(x, y, bx, by) == dist_sq(bx, by, x, y)) by (nonlinear_arith);
}

} // verus!
