use crucible::Material;

const ALL: [Material; 8] = [
    Material::Vacuum,
    Material::Air,
    Material::Earth,
    Material::Fire,
    Material::Water,
    Material::Steam,
    Material::Ice,
    Material::Lava,
];

#[test]
fn gases_are_vacuum_air_fire_steam() {
    let gases: Vec<Material> = ALL.iter().copied().filter(|m| m.is_gas()).collect();
    assert_eq!(
        gases,
        vec![Material::Vacuum, Material::Air, Material::Fire, Material::Steam]
    );
}

#[test]
fn liquids_are_water_and_lava() {
    let liquids: Vec<Material> = ALL.iter().copied().filter(|m| m.is_liquid()).collect();
    assert_eq!(liquids, vec![Material::Water, Material::Lava]);
}

#[test]
fn no_material_is_gas_and_liquid() {
    for m in ALL {
        assert!(!(m.is_gas() && m.is_liquid()), "{:?}", m);
    }
}

#[test]
fn inert_materials_are_earth_and_vacuum() {
    let inert: Vec<Material> = ALL.iter().copied().filter(|m| m.is_inert()).collect();
    assert_eq!(inert, vec![Material::Vacuum, Material::Earth]);
}
