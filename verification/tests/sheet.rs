use godot_tileset::picture::Picture;
use godot_tileset::resource::{PeeringBit, Tile};
use godot_tileset::terrain::{CornerError, TerrainId};
use godot_tileset::tiles::{
    generate_combinations, mask_color, write_tile_set_image, FixedTile, SheetError, TerrainImage,
    TerrainTile, TileError,
};
use godot_tileset::value::Vector2i;

const RED: u32 = 0xff0000ff;
const GREEN: u32 = 0x00ff00ff;
const BLUE: u32 = 0x0000ffff;
const CYAN: u32 = 0x00ffffff;
const MAGENTA: u32 = 0xff00ffff;
const YELLOW: u32 = 0xffff00ff;

fn id(terrain_set: usize, terrain: usize) -> TerrainId {
    TerrainId { terrain_set, terrain }
}

fn picture(width: u32, height: u32, pixels: &[u32]) -> Picture {
    Picture::from_pixels(width, height, pixels.to_vec()).unwrap()
}

fn filled(width: u32, height: u32, pixel: u32) -> Picture {
    picture(width, height, &vec![pixel; (width * height) as usize])
}

/// A mask of three columns and two rows, one pixel for each side.
fn mask() -> Picture {
    picture(3, 2, &[RED, GREEN, BLUE, CYAN, MAGENTA, YELLOW])
}

/// The drawing of a terrain alone: four parts of the size of the mask, the pixels of
/// the part `n` being `base + n`.
fn drawing(base: u32) -> Picture {
    let mut pixels = Vec::new();
    for part in 0..4 {
        pixels.extend(vec![base + part; 6]);
    }
    picture(3, 8, &pixels)
}

#[test]
fn sides_are_marked_by_six_colours() {
    assert_eq!(
        (0..6).map(mask_color).collect::<Vec<u32>>(),
        vec![RED, GREEN, BLUE, CYAN, MAGENTA, YELLOW]
    );
}

#[test]
fn tiles_of_one_terrain() {
    let a = id(0, 0);
    let images = vec![TerrainImage { combination: vec![a], image: drawing(100) }];
    let tiles = generate_combinations(&vec![a], &images, &mask()).unwrap();
    assert_eq!(tiles.len(), 64);
    assert_eq!(
        tiles[0],
        TerrainTile { terrain: a, terrains_peering_bit: PeeringBit::default(), image: filled(3, 2, 100) }
    );
    assert_eq!(tiles[63].image, filled(3, 2, 103));
    assert_eq!(
        tiles[63].terrains_peering_bit,
        PeeringBit {
            bottom_right_side: Some(0),
            bottom_side: Some(0),
            bottom_left_side: Some(0),
            top_left_side: Some(0),
            top_side: Some(0),
            top_right_side: Some(0),
        }
    );
    // the last side alone has the terrain: the sides before it and it are drawn
    assert_eq!(tiles[1].terrains_peering_bit.bottom_left_side, Some(0));
    assert_eq!(tiles[1].terrains_peering_bit.top_left_side, None);
    assert_eq!(tiles[1].image, picture(3, 2, &[100, 100, 100, 100, 102, 102]));
    // the first side alone: drawn at the last side and at the first
    assert_eq!(tiles[32].terrains_peering_bit.top_left_side, Some(0));
    assert_eq!(tiles[32].image, picture(3, 2, &[101, 100, 100, 100, 100, 101]));
    // the first two sides
    assert_eq!(tiles[48].image, picture(3, 2, &[103, 102, 100, 100, 100, 101]));
}

#[test]
fn tiles_need_the_drawing_of_their_terrain() {
    let a = id(0, 0);
    let b = id(0, 1);
    let images = vec![TerrainImage { combination: vec![b], image: drawing(0) }];
    assert_eq!(generate_combinations(&vec![a], &images, &mask()), Err(TileError::NoCenterImage));
    assert_eq!(
        generate_combinations(&vec![a], &Vec::new(), &mask()),
        Err(TileError::NoCenterImage)
    );
}

#[test]
fn drawing_must_fit_a_tile() {
    let a = id(0, 0);
    let low = vec![TerrainImage { combination: vec![a], image: filled(3, 1, 5) }];
    assert_eq!(generate_combinations(&vec![a], &low, &mask()), Err(TileError::NoRoom));
    let wide = vec![TerrainImage { combination: vec![a], image: filled(4, 8, 5) }];
    assert_eq!(generate_combinations(&vec![a], &wide, &mask()), Err(TileError::NoRoom));
    let short = vec![TerrainImage { combination: vec![a], image: filled(3, 4, 5) }];
    assert_eq!(
        generate_combinations(&vec![a], &short, &mask()),
        Err(TileError::NoPart { side: 4 })
    );
}

#[test]
fn narrow_drawing_is_painted_pixel_by_pixel() {
    let a = id(0, 0);
    let images = vec![TerrainImage { combination: vec![a], image: filled(2, 8, 9) }];
    let tiles = generate_combinations(&vec![a], &images, &mask()).unwrap();
    assert_eq!(tiles[0].image, picture(3, 2, &[9, 9, 0, 9, 9, 0]));
    assert_eq!(tiles[63].image, picture(3, 2, &[9, 9, 9, 9, 9, 0]));
}

#[test]
fn tiles_with_another_terrain_are_not_made() {
    let a = id(0, 0);
    let b = id(0, 1);
    let images = vec![
        TerrainImage { combination: vec![a], image: drawing(0) },
        TerrainImage { combination: vec![a, b], image: drawing(10) },
    ];
    assert_eq!(
        generate_combinations(&vec![a, b], &images, &mask()),
        Err(TileError::Corner(CornerError::Unsupported { side: 4 }))
    );
    let alone = vec![TerrainImage { combination: vec![a], image: drawing(0) }];
    assert_eq!(
        generate_combinations(&vec![a, b], &alone, &mask()),
        Err(TileError::Corner(CornerError::NoImage { side: 4 }))
    );
}

fn terrain_tile(terrain: usize, pixel: u32) -> TerrainTile {
    TerrainTile {
        terrain: id(1, terrain),
        terrains_peering_bit: PeeringBit { top_side: Some(7), ..PeeringBit::default() },
        image: filled(2, 2, pixel),
    }
}

#[test]
fn sheet_holds_every_tile_in_its_cell() {
    let tiles = vec![FixedTile { position: [1, 0], image: filled(2, 2, 1) }];
    let terrain_tiles = vec![terrain_tile(4, 2), terrain_tile(5, 3)];
    let (sheet, layout) = write_tile_set_image(&tiles, &terrain_tiles, [2, 2]).unwrap();
    assert_eq!(
        sheet,
        picture(4, 4, &[2, 2, 1, 1, 2, 2, 1, 1, 3, 3, 0, 0, 3, 3, 0, 0])
    );
    let made = |x: i64, y: i64, terrain: u32| Tile {
        position: Vector2i { x, y },
        terrain_set: Some(1),
        terrain: Some(terrain),
        terrains_peering_bit: PeeringBit { top_side: Some(7), ..PeeringBit::default() },
    };
    assert_eq!(
        layout,
        vec![
            Tile {
                position: Vector2i { x: 1, y: 0 },
                terrain_set: None,
                terrain: None,
                terrains_peering_bit: PeeringBit::default(),
            },
            made(0, 0, 4),
            made(0, 1, 5),
        ]
    );
}

#[test]
fn sheet_without_tiles_is_empty() {
    let (sheet, layout) = write_tile_set_image(&Vec::new(), &Vec::new(), [16, 16]).unwrap();
    assert_eq!(sheet, picture(0, 0, &[]));
    assert!(layout.is_empty());
}

#[test]
fn sheet_of_tiles_without_size_is_not_made() {
    let tiles = vec![FixedTile { position: [0, 0], image: filled(0, 2, 1) }];
    assert_eq!(write_tile_set_image(&tiles, &Vec::new(), [0, 2]), Err(SheetError::NoSide));
    let far = vec![FixedTile { position: [u32::MAX, 0], image: filled(2, 2, 1) }];
    assert_eq!(write_tile_set_image(&far, &Vec::new(), [2, 2]), Err(SheetError::NoSide));
}

#[test]
fn tile_must_fit_its_cell() {
    let tiles = vec![
        FixedTile { position: [0, 0], image: filled(2, 2, 1) },
        FixedTile { position: [1, 1], image: filled(3, 2, 1) },
    ];
    assert_eq!(
        write_tile_set_image(&tiles, &Vec::new(), [2, 2]),
        Err(SheetError::NoRoom { tile: 1 })
    );
    let terrain_tiles = vec![terrain_tile(0, 2), terrain_tile(1, 3), terrain_tile(2, 4)];
    let mut large = terrain_tiles.clone();
    large[2].image = filled(2, 3, 4);
    let fixed = vec![FixedTile { position: [0, 0], image: filled(2, 2, 1) }];
    assert!(write_tile_set_image(&fixed, &terrain_tiles, [2, 2]).is_ok());
    assert_eq!(
        write_tile_set_image(&fixed, &large, [2, 2]),
        Err(SheetError::NoRoom { tile: 3 })
    );
}

#[test]
fn small_picture_lies_in_the_corner_of_its_cell() {
    let tiles = vec![FixedTile { position: [1, 1], image: filled(1, 1, 8) }];
    let (sheet, _) = write_tile_set_image(&tiles, &Vec::new(), [2, 2]).unwrap();
    assert_eq!(
        sheet,
        picture(4, 4, &[0, 0, 0, 0, 0, 0, 0, 0, 0, 0, 8, 0, 0, 0, 0, 0])
    );
}
