//! Provides hardcoded test scenarios.
//!
//! Each scenario lays out the materials of a grid for testing or
//! demonstration purposes; the caller turns each material into a cell with
//! its physical defaults and marks the non-inert ones active.

use vstd::prelude::*;

use crate::grid::{in_rect, on_ring, Grid};
use crate::material::Material;
use crate::scheduler::{CellActivity, Scheduler};

verus! {

/// Centre column of the dome.
pub const DOME_CENTER_X: usize = 60;

/// Centre row of the dome.
pub const DOME_CENTER_Y: usize = 60;

/// Radius of the dome's earth border.
pub const DOME_RADIUS: usize = 35;

/// The material that the dome-test scenario puts at `(x, y)`: the water
/// pocket over the fire source over the earth border over air.
pub open spec fn dome_material(x: int, y: int) -> Material {
    if in_rect(x, y, 59, 39, 3, 3) {
        Material::Water
    } else if in_rect(x, y, 59, 61, 3, 3) {
        Material::Fire
    } else if on_ring(x, y, DOME_CENTER_X as int, DOME_CENTER_Y as int, DOME_RADIUS as int) {
        Material::Earth
    } else {
        Material::Air
    }
}

/// Builds the dome-test scenario: an earth dome enclosing fire and water.
///
/// Layout on a 120x120 grid (smaller grids are clipped):
/// - Earth circle border at centre (60, 60), radius 35
/// - 3x3 fire block at (59..62, 61..64): heat source near the dome floor
/// - 3x3 water block at (59..62, 39..42): suspended above the fire
/// - Air everywhere else
///
/// Every cell that is not inert (see [`Material::is_inert`]) is to be
/// marked active so the scheduler picks it up on the initial seed pass.
pub fn dome_test(grid: &mut Grid<Material>)
    requires
        old(grid).wf(),
    ensures
        final(grid).wf(),
        final(grid).width() == old(grid).width(),
        final(grid).height() == old(grid).height(),
        forall|x: int, y: int|
            #![trigger final(grid).cell(x, y)]
            old(grid).contains(x, y) ==> final(grid).cell(x, y) == dome_material(x, y),
{
    let ghost g0 = *grid;
    // 1. Fill the entire grid with air.
    let w = grid.width();
    let h = grid.height();
    grid.fill_rect(0, 0, w, h, Material::Air);
    let ghost g1 = *grid;
    // 2. Draw the earth dome border.
    grid.fill_circle_border(DOME_CENTER_X, DOME_CENTER_Y, DOME_RADIUS, Material::Earth);
    let ghost g2 = *grid;
    // 3. Place the fire source (3x3 block centred at (60, 62)).
    grid.fill_rect(59, 61, 3, 3, Material::Fire);
    let ghost g3 = *grid;
    // 4. Place the water pocket (3x3 block centred at (60, 40)).
    grid.fill_rect(59, 39, 3, 3, Material::Water);
    proof {
        assert forall|x: int, y: int|
            #![trigger grid.cell(x, y)]
            g0.contains(x, y) implies grid.cell(x, y) == dome_material(x, y) by {
            assert(g1.cell(x, y) == Material::Air);
            assert(g2.contains(x, y));
            assert(g3.contains(x, y));
        }
    }
}

/// Seeds the scheduler from the grid's cells; a thin wrapper so callers
/// don't need to know about [`Scheduler::seed_from_grid`] directly.
pub fn seed_scenario(scheduler: &mut Scheduler, grid: &Grid<CellActivity>)
    requires
        old(scheduler).wf(),
        grid.wf(),
        grid.width() * grid.height() <= old(scheduler).flags().len(),
    ensures
        final(scheduler).wf(),
        final(scheduler).flags().len() == old(scheduler).flags().len(),
        forall|k: int|
            0 <= k < old(scheduler).flags().len() ==> #[trigger] final(scheduler).flags()[k] == (
            old(scheduler).flags()[k] || (k < grid.cells_view().len()
                && crate::scheduler::seeds(grid.cells_view()[k]))),
        forall|e: crate::scheduler::Entry| #[trigger]
            final(scheduler).entries().contains(e) <==> (old(scheduler).entries().contains(e) || (
            (e.1 as int) < grid.cells_view().len() && !old(scheduler).flags()[e.1 as int]
                && crate::scheduler::seeds(grid.cells_view()[e.1 as int]) && e.0
                == crate::priority::spec_priority_key(grid.cells_view()[e.1 as int].score_bits))),
{
    scheduler.seed_from_grid(grid);
}

/// The dome layout by region: the water pocket is the 3x3 block at columns
/// 59..62, rows 39..42; the fire block the 3x3 block at columns 59..62,
/// rows 61..64; the earth border is the ring of radius 35 around (60, 60);
/// everything else is air. In particular the dome's centre is air, the
/// border crosses the vertical axis at rows 25 and 95, and the fire and
/// water lie inside the border.
pub proof fn lemma_dome_regions(x: int, y: int)
    ensures
        59 <= x < 62 && 39 <= y < 42 ==> dome_material(x, y) == Material::Water,
        59 <= x < 62 && 61 <= y < 64 ==> dome_material(x, y) == Material::Fire,
        !(59 <= x < 62 && 39 <= y < 42) && !(59 <= x < 62 && 61 <= y < 64) ==> (dome_material(
            x,
            y,
        ) == Material::Earth <==> on_ring(x, y, 60, 60, 35)),
        dome_material(x, y) == Material::Air || dome_material(x, y) == Material::Water
            || dome_material(x, y) == Material::Fire || dome_material(x, y) == Material::Earth,
        dome_material(60, 60) == Material::Air,
        dome_material(60, 25) == Material::Earth,
        dome_material(60, 95) == Material::Earth,
        dome_material(60, 40) == Material::Water,
        dome_material(60, 62) == Material::Fire,
{
    crate::grid::lemma_ring_exact(60, 25, 60, 60, 35, 35);
    crate::grid::lemma_ring_exact(60, 95, 60, 60, 35, 35);
    crate::grid::lemma_ring_exact(60, 60, 60, 60, 35, 0);
}

} // verus!
