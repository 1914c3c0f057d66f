use godot_tileset::config::{TerrainConfig, TerrainSetConfig};
use godot_tileset::resource::PeeringBit;
use godot_tileset::terrain::{
    find_terrain, get_terrain_combination, sides_to_peering_bit, TerrainId,
};

fn id(terrain_set: usize, terrain: usize) -> TerrainId {
    TerrainId { terrain_set, terrain }
}

fn set(names: &[&str]) -> TerrainSetConfig {
    TerrainSetConfig {
        terrains: names.iter().map(|name| TerrainConfig { name: name.as_bytes().to_vec() }).collect(),
    }
}

#[test]
fn corner_without_other_terrains_has_the_tile_alone() {
    let c = id(0, 1);
    assert_eq!(get_terrain_combination(c, None, None), vec![c]);
    assert_eq!(get_terrain_combination(c, Some(c), None), vec![c]);
    assert_eq!(get_terrain_combination(c, None, Some(c)), vec![c]);
    assert_eq!(get_terrain_combination(c, Some(c), Some(c)), vec![c]);
}

#[test]
fn corner_with_one_other_side() {
    let c = id(0, 1);
    let o = id(0, 2);
    assert_eq!(get_terrain_combination(c, Some(o), None), vec![c, o]);
    assert_eq!(get_terrain_combination(c, None, Some(o)), vec![c, o]);
}

#[test]
fn corner_with_two_sides_keeps_both() {
    let c = id(0, 1);
    let a = id(0, 2);
    let b = id(0, 3);
    assert_eq!(get_terrain_combination(c, Some(a), Some(b)), vec![c, a, b]);
    assert_eq!(get_terrain_combination(c, Some(a), Some(a)), vec![c, a, a]);
    assert_eq!(get_terrain_combination(c, Some(c), Some(b)), vec![c, c, b]);
    assert_eq!(get_terrain_combination(c, Some(a), Some(c)), vec![c, a, c]);
    assert_eq!(get_terrain_combination(c, Some(id(1, 1)), None), vec![c, id(1, 1)]);
}

#[test]
fn terrain_is_found_by_its_name() {
    let sets = vec![set(&["Grass", "Sand"]), set(&[]), set(&["Water", "Sand", "Water"])];
    assert_eq!(find_terrain(b"Grass", &sets), Some(id(0, 0)));
    assert_eq!(find_terrain(b"Sand", &sets), Some(id(0, 1)));
    assert_eq!(find_terrain(b"Water", &sets), Some(id(2, 0)));
    assert_eq!(find_terrain(b"Rock", &sets), None);
    assert_eq!(find_terrain(b"grass", &sets), None);
    assert_eq!(find_terrain(b"", &sets), None);
    assert_eq!(find_terrain(b"Grass", &Vec::new()), None);
}

#[test]
fn sides_are_given_clockwise_from_the_top_left() {
    let sides = [Some(id(0, 10)), Some(id(0, 11)), None, Some(id(0, 13)), None, Some(id(9, 15))];
    assert_eq!(
        sides_to_peering_bit(&sides),
        PeeringBit {
            top_left_side: Some(10),
            top_side: Some(11),
            top_right_side: None,
            bottom_right_side: Some(13),
            bottom_side: None,
            bottom_left_side: Some(15),
        }
    );
    assert_eq!(sides_to_peering_bit(&[None; 6]), PeeringBit::default());
}

#[test]
fn terrain_index_keeps_its_low_bits() {
    let sides = [Some(id(0, 4294967296 + 5)), None, None, None, None, None];
    assert_eq!(sides_to_peering_bit(&sides).top_left_side, Some(5));
}
