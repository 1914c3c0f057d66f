use godot_tileset::config::{TerrainConfig, TerrainSetConfig};
use godot_tileset::images::{
    image_is_used, is_blank, terrain_names, terrains_of_image, ImageError,
};
use godot_tileset::terrain::TerrainId;

fn id(terrain_set: usize, terrain: usize) -> TerrainId {
    TerrainId { terrain_set, terrain }
}

fn sets() -> Vec<TerrainSetConfig> {
    let set = |names: &[&str]| TerrainSetConfig {
        terrains: names.iter().map(|n| TerrainConfig { name: n.as_bytes().to_vec() }).collect(),
    };
    vec![set(&["Grass", "Sand", "Deep Water"]), set(&["Rock"])]
}

fn names(list: &[&str]) -> Vec<Vec<u8>> {
    list.iter().map(|n| n.as_bytes().to_vec()).collect()
}

#[test]
fn names_stand_between_hyphens() {
    assert_eq!(terrain_names(b"Grass"), Ok(names(&["Grass"])));
    assert_eq!(terrain_names(b"Grass-Sand"), Ok(names(&["Grass", "Sand"])));
    assert_eq!(terrain_names(b"Grass-Sand-Rock"), Ok(names(&["Grass", "Sand", "Rock"])));
    assert_eq!(terrain_names(b""), Ok(names(&[""])));
    assert_eq!(terrain_names(b"-"), Ok(names(&["", ""])));
    assert_eq!(terrain_names(b"a--b"), Ok(names(&["a", "", "b"])));
}

#[test]
fn white_space_around_a_name_is_no_part_of_it() {
    assert_eq!(terrain_names(b" Grass - Deep Water\t"), Ok(names(&["Grass", "Deep Water"])));
    assert_eq!(terrain_names(b"  \n "), Ok(names(&[""])));
    assert_eq!(terrain_names(b"a - \x0b\x0c\r - b "), Ok(names(&["a", "", "b"])));
    assert!(is_blank(b' ') && is_blank(b'\t') && is_blank(b'\r') && is_blank(11) && is_blank(12));
    assert!(!is_blank(b'a') && !is_blank(0) && !is_blank(8) && !is_blank(14) && !is_blank(160));
}

#[test]
fn more_than_three_names_are_refused() {
    assert_eq!(terrain_names(b"a-b-c-d"), Err(ImageError::TooManyTerrains));
    assert_eq!(terrain_names(b"a-b-c-"), Err(ImageError::TooManyTerrains));
    assert_eq!(terrain_names(b"----"), Err(ImageError::TooManyTerrains));
}

#[test]
fn terrains_are_found_by_the_names_of_the_file() {
    assert_eq!(terrains_of_image(b"Grass", &sets()), Ok(Some(vec![id(0, 0)])));
    assert_eq!(terrains_of_image(b"Sand-Grass", &sets()), Ok(Some(vec![id(0, 1), id(0, 0)])));
    assert_eq!(
        terrains_of_image(b"Deep Water - Rock-Sand", &sets()),
        Ok(Some(vec![id(0, 2), id(1, 0), id(0, 1)]))
    );
}

#[test]
fn mask_and_other_scripts_are_no_drawings_of_terrains() {
    assert_eq!(terrains_of_image(b"mask", &sets()), Ok(None));
    assert_eq!(terrains_of_image("Grün".as_bytes(), &sets()), Ok(None));
    assert_eq!(terrains_of_image(b"Mask", &sets()), Err(ImageError::UnknownTerrain { part: 0 }));
}

#[test]
fn unknown_names_are_refused() {
    assert_eq!(terrains_of_image(b"Snow", &sets()), Err(ImageError::UnknownTerrain { part: 0 }));
    assert_eq!(terrains_of_image(b"Grass-Snow", &sets()), Err(ImageError::UnknownTerrain {
        part: 1
    }));
    assert_eq!(terrains_of_image(b"Grass-Sand-", &sets()), Err(ImageError::UnknownTerrain {
        part: 2
    }));
    assert_eq!(terrains_of_image(b"Snow-Ice-Grass", &sets()), Err(ImageError::UnknownTerrain {
        part: 0
    }));
    assert_eq!(terrains_of_image(b"a-b-c-d", &sets()), Err(ImageError::TooManyTerrains));
    assert_eq!(terrains_of_image(b"Grass", &Vec::new()), Err(ImageError::UnknownTerrain {
        part: 0
    }));
}

#[test]
fn drawing_has_the_size_of_its_parts() {
    assert_eq!(image_is_used(&vec![id(0, 0)], [16, 64], [16, 16]), Ok(true));
    assert_eq!(image_is_used(&vec![id(0, 0), id(0, 1)], [16, 64], [16, 16]), Ok(true));
    assert_eq!(image_is_used(&vec![id(0, 0), id(0, 1), id(0, 2)], [16, 32], [16, 16]), Ok(true));
    assert_eq!(image_is_used(&vec![id(0, 0)], [8, 20], [8, 5]), Ok(true));
}

#[test]
fn drawing_of_another_size_is_refused() {
    let wrong = |expected_height: u64| {
        Err(ImageError::WrongSize { expected_width: 16, expected_height })
    };
    assert_eq!(image_is_used(&vec![id(0, 0)], [16, 32], [16, 16]), wrong(64));
    assert_eq!(image_is_used(&vec![id(0, 0)], [32, 64], [16, 16]), wrong(64));
    assert_eq!(image_is_used(&vec![id(0, 0), id(0, 1), id(0, 2)], [16, 64], [16, 16]), wrong(32));
    assert_eq!(
        image_is_used(&vec![id(0, 0)], [16, 0], [16, 1073741824]),
        wrong(4294967296)
    );
}

#[test]
fn drawing_for_terrains_of_different_sets_is_not_used() {
    assert_eq!(image_is_used(&vec![id(0, 0), id(1, 0)], [16, 64], [16, 16]), Ok(false));
    assert_eq!(image_is_used(&vec![id(0, 0), id(1, 0)], [1, 1], [16, 16]), Ok(false));
    assert_eq!(image_is_used(&vec![id(0, 0), id(0, 1), id(1, 0)], [16, 32], [16, 16]), Ok(false));
    assert_eq!(image_is_used(&vec![id(1, 0), id(0, 1), id(1, 0)], [16, 32], [16, 16]), Ok(false));
}
