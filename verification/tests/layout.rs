use godot_tileset::layout::{layout_tiles, sheet_side, TerrainPlacement};
use godot_tileset::resource::{PeeringBit, Tile};
use godot_tileset::terrain::TerrainId;
use godot_tileset::value::Vector2i;

fn placement(terrain_set: usize, terrain: usize) -> TerrainPlacement {
    TerrainPlacement {
        terrain: TerrainId { terrain_set, terrain },
        terrains_peering_bit: PeeringBit { top_side: Some(terrain as u32), ..PeeringBit::default() },
    }
}

fn fixed(x: i64, y: i64) -> Tile {
    Tile {
        position: Vector2i { x, y },
        terrain_set: None,
        terrain: None,
        terrains_peering_bit: PeeringBit::default(),
    }
}

fn made(x: i64, y: i64, terrain_set: u32, terrain: u32) -> Tile {
    Tile {
        position: Vector2i { x, y },
        terrain_set: Some(terrain_set),
        terrain: Some(terrain),
        terrains_peering_bit: PeeringBit { top_side: Some(terrain), ..PeeringBit::default() },
    }
}

#[test]
fn sheet_holds_each_tile_in_its_cell() {
    assert_eq!(sheet_side(&vec![[0, 0]], [16, 16], 1), Some(16));
    assert_eq!(sheet_side(&vec![[3, 0]], [16, 16], 1), Some(64));
    assert_eq!(sheet_side(&vec![[0, 0], [1, 2]], [16, 8], 2), Some(32));
    assert_eq!(sheet_side(&vec![[0, 4], [1, 2]], [16, 8], 2), Some(40));
}

#[test]
fn sheet_grows_until_it_has_cells_for_all_tiles() {
    assert_eq!(sheet_side(&Vec::new(), [16, 16], 0), Some(0));
    assert_eq!(sheet_side(&Vec::new(), [16, 16], 1), Some(16));
    assert_eq!(sheet_side(&Vec::new(), [16, 16], 4), Some(32));
    assert_eq!(sheet_side(&Vec::new(), [16, 16], 5), Some(48));
    assert_eq!(sheet_side(&vec![[0, 0]], [16, 16], 10), Some(64));
    // columns of 10, rows of 4, grown by 10 at a time: 10 has 1 * 2 cells, 20 has 2 * 5
    assert_eq!(sheet_side(&Vec::new(), [10, 4], 3), Some(20));
    assert_eq!(sheet_side(&Vec::new(), [10, 4], 2), Some(10));
}

#[test]
fn sheet_without_a_side() {
    assert_eq!(sheet_side(&vec![[0, 0]], [0, 16], 1), None);
    assert_eq!(sheet_side(&vec![[0, 0]], [16, 0], 1), None);
    assert_eq!(sheet_side(&vec![[u32::MAX, 0]], [2, 2], 1), None);
    assert_eq!(sheet_side(&Vec::new(), [u32::MAX, u32::MAX], 2), None);
    assert_eq!(sheet_side(&Vec::new(), [u32::MAX, u32::MAX], 1), Some(u32::MAX));
    assert_eq!(sheet_side(&Vec::new(), [u32::MAX, 1], 2), Some(u32::MAX));
}

#[test]
fn tiles_made_of_terrains_take_the_free_cells_row_by_row() {
    let positions = vec![[1u32, 0u32], [0, 1]];
    let placements = vec![placement(0, 1), placement(0, 2), placement(1, 3)];
    assert_eq!(
        layout_tiles(&positions, &placements, 3, 2),
        vec![
            fixed(1, 0),
            fixed(0, 1),
            made(0, 0, 0, 1),
            made(2, 0, 0, 2),
            made(1, 1, 1, 3),
        ]
    );
}

#[test]
fn tile_without_a_free_cell_is_left_out() {
    let positions = vec![[0u32, 0u32]];
    let placements = vec![placement(0, 1), placement(0, 2)];
    assert_eq!(layout_tiles(&positions, &placements, 2, 1), vec![fixed(0, 0), made(1, 0, 0, 1)]);
    assert_eq!(layout_tiles(&positions, &placements, 0, 5), vec![fixed(0, 0)]);
    assert_eq!(layout_tiles(&positions, &placements, 1, 1), vec![fixed(0, 0)]);
}

#[test]
fn fixed_tiles_keep_their_order_and_their_cells() {
    let positions = vec![[5u32, 5u32], [0, 0], [5, 5]];
    assert_eq!(
        layout_tiles(&positions, &Vec::new(), 2, 2),
        vec![fixed(5, 5), fixed(0, 0), fixed(5, 5)]
    );
    assert_eq!(layout_tiles(&Vec::new(), &Vec::new(), 4, 4), Vec::<Tile>::new());
}

#[test]
fn sheet_and_layout_together() {
    let positions = vec![[0u32, 0u32]];
    let placements: Vec<TerrainPlacement> = (0..7).map(|i| placement(0, i)).collect();
    let side = sheet_side(&positions, [16, 16], 8).unwrap();
    assert_eq!(side, 48);
    let layout = layout_tiles(&positions, &placements, side / 16, side / 16);
    assert_eq!(layout.len(), 8);
    assert_eq!(layout[1], made(1, 0, 0, 0));
    assert_eq!(layout[3], made(0, 1, 0, 2));
    assert_eq!(layout[7], made(1, 2, 0, 6));
}
