use crucible::scenario::{dome_test, seed_scenario, DOME_CENTER_X, DOME_CENTER_Y, DOME_RADIUS};
use crucible::scheduler::{CellActivity, Scheduler};
use crucible::{Grid, Material};

fn expected(x: usize, y: usize) -> Material {
    if (59..62).contains(&x) && (39..42).contains(&y) {
        return Material::Water;
    }
    if (59..62).contains(&x) && (61..64).contains(&y) {
        return Material::Fire;
    }
    let dx = x as f32 - DOME_CENTER_X as f32;
    let dy = y as f32 - DOME_CENTER_Y as f32;
    let d = (dx * dx + dy * dy).sqrt();
    if (d - DOME_RADIUS as f32).abs() < 1.0 {
        Material::Earth
    } else {
        Material::Air
    }
}

#[test]
fn dome_layout_on_full_grid() {
    let mut g = Grid::new(120, 120, Material::Vacuum);
    dome_test(&mut g);
    for y in 0..120 {
        for x in 0..120 {
            assert_eq!(*g.get(x, y), expected(x, y), "({}, {})", x, y);
        }
    }
    assert_eq!(*g.get(60, 40), Material::Water);
    assert_eq!(*g.get(60, 62), Material::Fire);
    assert_eq!(*g.get(60, 25), Material::Earth);
    assert_eq!(*g.get(95, 60), Material::Earth);
    assert_eq!(*g.get(60, 60), Material::Air);
    assert_eq!(*g.get(0, 0), Material::Air);
}

#[test]
fn dome_layout_is_clipped_on_small_grid() {
    let mut g = Grid::new(62, 41, Material::Lava);
    dome_test(&mut g);
    assert_eq!(*g.get(61, 40), Material::Water);
    assert_eq!(*g.get(59, 39), Material::Water);
    assert_eq!(*g.get(0, 0), Material::Air);
    assert_eq!(*g.get(60, 25), Material::Earth);
    assert!(g.cells().iter().all(|m| *m != Material::Lava && *m != Material::Fire));
}

#[test]
fn dome_layout_active_cells_are_the_non_inert_ones() {
    let mut g = Grid::new(120, 120, Material::Air);
    dome_test(&mut g);
    let active = g.cells().iter().filter(|m| !m.is_inert()).count();
    let earth = g.cells().iter().filter(|m| **m == Material::Earth).count();
    assert_eq!(active + earth, 120 * 120);
}

#[test]
fn seed_scenario_enqueues_active_cells() {
    let mut g = Grid::new(2, 2, CellActivity { material: Material::Air, score_bits: 0.0f32.to_bits() });
    g.set(1, 0, CellActivity { material: Material::Fire, score_bits: 98.0f32.to_bits() });
    g.set(0, 1, CellActivity { material: Material::Earth, score_bits: 98.0f32.to_bits() });
    let mut s = Scheduler::new(4);
    seed_scenario(&mut s, &g);
    assert_eq!(s.drain_batch(4), vec![1]);
}
