use crucible::brush::{BrushMaterial, Stroke};
use crucible::Material;

#[test]
fn brushes_map_to_materials() {
    assert_eq!(BrushMaterial::Air.to_material(), Material::Air);
    assert_eq!(BrushMaterial::Water.to_material(), Material::Water);
    assert_eq!(BrushMaterial::Fire.to_material(), Material::Fire);
    assert_eq!(BrushMaterial::Earth.to_material(), Material::Earth);
    assert_eq!(BrushMaterial::Ice.to_material(), Material::Ice);
    assert_eq!(BrushMaterial::Steam.to_material(), Material::Steam);
}

#[test]
fn palette_lists_every_brush_with_its_label() {
    let labels: Vec<&str> = BrushMaterial::all().iter().map(|b| b.label()).collect();
    assert_eq!(labels, vec!["Air", "Water", "Fire", "Earth", "Ice", "Steam"]);
}

fn reference_disk(cx: i32, cy: i32, r: i32, w: usize, h: usize) -> Vec<(usize, usize)> {
    let mut out = Vec::new();
    for dy in -r..=r {
        for dx in -r..=r {
            if dx * dx + dy * dy > r * r {
                continue;
            }
            let x = cx + dx;
            let y = cy + dy;
            if x < 0 || y < 0 || x >= w as i32 || y >= h as i32 {
                continue;
            }
            out.push((x as usize, y as usize));
        }
    }
    out
}

#[test]
fn dab_covers_the_clipped_disk_in_row_major_order() {
    let mut s = Stroke::new();
    let cells = s.brush_cells(1, 2, 2, 6, 5);
    assert_eq!(cells, reference_disk(1, 2, 2, 6, 5));
    assert_eq!(cells.len(), 12);
    assert_eq!(cells[0], (1, 0));
}

#[test]
fn stroke_paints_each_cell_once() {
    let mut s = Stroke::new();
    let first = s.brush_cells(3, 3, 1, 10, 10);
    assert_eq!(first, vec![(3, 2), (2, 3), (3, 3), (4, 3), (3, 4)]);
    assert!(s.brush_cells(3, 3, 1, 10, 10).is_empty());
    let second = s.brush_cells(4, 3, 1, 10, 10);
    assert_eq!(second, vec![(4, 2), (5, 3), (4, 4)]);
    s.clear();
    assert_eq!(s.brush_cells(3, 3, 0, 10, 10), vec![(3, 3)]);
}

#[test]
fn negative_radius_paints_nothing() {
    let mut s = Stroke::new();
    assert!(s.brush_cells(3, 3, -1, 10, 10).is_empty());
}
