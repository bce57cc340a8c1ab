use crucible::{Grid, Material, Neighbors};

#[test]
fn new_grid_is_filled_and_sized() {
    let g = Grid::new(4, 3, Material::Air);
    assert_eq!(g.width(), 4);
    assert_eq!(g.height(), 3);
    assert_eq!(g.cells().len(), 12);
    assert!(g.cells().iter().all(|m| *m == Material::Air));
}

#[test]
fn index_is_row_major() {
    let g = Grid::new(5, 4, 0u8);
    assert_eq!(g.index(0, 0), 0);
    assert_eq!(g.index(4, 0), 4);
    assert_eq!(g.index(0, 1), 5);
    assert_eq!(g.index(3, 2), 13);
}

#[test]
fn in_bounds_rejects_negative_and_far_coordinates() {
    let g = Grid::new(5, 4, 0u8);
    assert!(g.in_bounds(0, 0));
    assert!(g.in_bounds(4, 3));
    assert!(!g.in_bounds(-1, 0));
    assert!(!g.in_bounds(0, -1));
    assert!(!g.in_bounds(5, 0));
    assert!(!g.in_bounds(0, 4));
}

#[test]
fn set_then_get_reads_back_and_leaves_others() {
    let mut g = Grid::new(3, 3, 0u32);
    g.set(1, 2, 7);
    assert_eq!(*g.get(1, 2), 7);
    assert_eq!(g.cells()[2 * 3 + 1], 7);
    let others: u32 = g.cells().iter().sum();
    assert_eq!(others, 7);
}

#[test]
fn neighbors_at_corner_and_centre() {
    let g = Grid::new(3, 3, 0u8);
    assert_eq!(
        g.neighbors(0, 0),
        Neighbors { north: None, south: Some(3), east: Some(1), west: None }
    );
    assert_eq!(
        g.neighbors(1, 1),
        Neighbors { north: Some(1), south: Some(7), east: Some(5), west: Some(3) }
    );
    assert_eq!(
        g.neighbors(2, 2),
        Neighbors { north: Some(5), south: None, east: None, west: Some(7) }
    );
}

#[test]
fn neighbors_are_symmetric() {
    let g = Grid::new(4, 5, 0u8);
    for y in 0..5 {
        for x in 0..4 {
            let here = g.index(x, y);
            let n = g.neighbors(x, y);
            if let Some(i) = n.north {
                assert_eq!(g.neighbors(i % 4, i / 4).south, Some(here));
            }
            if let Some(i) = n.south {
                assert_eq!(g.neighbors(i % 4, i / 4).north, Some(here));
            }
            if let Some(i) = n.east {
                assert_eq!(g.neighbors(i % 4, i / 4).west, Some(here));
            }
            if let Some(i) = n.west {
                assert_eq!(g.neighbors(i % 4, i / 4).east, Some(here));
            }
        }
    }
}

#[test]
fn fill_rect_clips_to_the_grid() {
    let mut g = Grid::new(4, 4, Material::Air);
    g.fill_rect(2, 1, 5, 2, Material::Earth);
    for y in 0..4 {
        for x in 0..4 {
            let expect = if x >= 2 && (1..3).contains(&y) { Material::Earth } else { Material::Air };
            assert_eq!(*g.get(x, y), expect, "({}, {})", x, y);
        }
    }
}

#[test]
fn fill_rect_outside_changes_nothing() {
    let mut g = Grid::new(3, 3, 1u8);
    g.fill_rect(3, 0, 2, 2, 9);
    g.fill_rect(0, 5, 2, 2, 9);
    g.fill_rect(0, 0, 0, 3, 9);
    assert!(g.cells().iter().all(|c| *c == 1));
}

#[test]
fn circle_border_matches_distance_test() {
    let (cx, cy, r) = (20usize, 18usize, 11usize);
    let mut g = Grid::new(40, 35, false);
    g.fill_circle_border(cx, cy, r, true);
    for y in 0..35 {
        for x in 0..40 {
            let dx = x as f32 - cx as f32;
            let dy = y as f32 - cy as f32;
            let d = (dx * dx + dy * dy).sqrt();
            assert_eq!(*g.get(x, y), (d - r as f32).abs() < 1.0, "({}, {})", x, y);
        }
    }
}

#[test]
fn circle_of_radius_zero_is_its_centre() {
    let mut g = Grid::new(5, 5, false);
    g.fill_circle_border(2, 2, 0, true);
    let marked: Vec<usize> = (0..25).filter(|i| g.cells()[*i]).collect();
    assert_eq!(marked, vec![12]);
}

#[test]
fn neighborhood_copies_adjacent_cells() {
    let mut g = Grid::new(3, 2, 0u32);
    for (i, v) in [10u32, 11, 12, 20, 21, 22].iter().enumerate() {
        g.set(i % 3, i / 3, *v);
    }
    let n = g.neighborhood(1, 0);
    assert_eq!((n.north, n.south, n.east, n.west), (None, Some(21), Some(12), Some(10)));
    let n = g.neighborhood(2, 1);
    assert_eq!((n.north, n.south, n.east, n.west), (Some(12), None, None, Some(21)));
}
