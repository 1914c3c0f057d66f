use godot_tileset::terrain::{side_assignments, tile_corner, Corner, CornerError, TerrainId};

fn tile_corners(
    images: &Vec<Vec<TerrainId>>,
    center: TerrainId,
    sides: &[Option<TerrainId>; 6],
) -> Result<Vec<Corner>, CornerError> {
    (0..6).map(|i| tile_corner(images, center, sides[i], sides[(i + 1) % 6], i)).collect()
}

fn id(terrain_set: usize, terrain: usize) -> TerrainId {
    TerrainId { terrain_set, terrain }
}

#[test]
fn without_terrains_no_side_has_one() {
    assert_eq!(side_assignments(&Vec::new()), vec![vec![None; 6]]);
}

#[test]
fn each_side_has_no_terrain_or_one_of_the_given() {
    let a = id(0, 0);
    let all = side_assignments(&vec![a]);
    assert_eq!(all.len(), 64);
    assert_eq!(all[0], vec![None, None, None, None, None, None]);
    assert_eq!(all[1], vec![None, None, None, None, None, Some(a)]);
    assert_eq!(all[2], vec![None, None, None, None, Some(a), None]);
    assert_eq!(all[63], vec![Some(a); 6]);
    for (i, sides) in all.iter().enumerate() {
        for (bit, side) in sides.iter().rev().enumerate() {
            assert_eq!(side.is_some(), (i >> bit) & 1 == 1);
        }
    }
}

#[test]
fn sides_take_the_terrains_in_their_order() {
    let a = id(0, 0);
    let b = id(0, 1);
    let all = side_assignments(&vec![a, b]);
    assert_eq!(all.len(), 729);
    assert_eq!(all[1], vec![None, None, None, None, None, Some(a)]);
    assert_eq!(all[2], vec![None, None, None, None, None, Some(b)]);
    assert_eq!(all[3], vec![None, None, None, None, Some(a), None]);
    assert_eq!(all[728], vec![Some(b); 6]);
    assert!(all.iter().all(|sides| sides.len() == 6));
}

#[test]
fn corners_of_a_tile_of_one_terrain() {
    let a = id(0, 0);
    let images = vec![vec![id(0, 1)], vec![a]];
    assert_eq!(tile_corners(&images, a, &[None; 6]), Ok(vec![None; 6]));
    assert_eq!(
        tile_corners(&images, a, &[Some(a); 6]),
        Ok(vec![Some((1, 3)); 6])
    );
    assert_eq!(
        tile_corners(&images, a, &[Some(a), None, None, Some(a), Some(a), None]),
        Ok(vec![Some((1, 1)), None, Some((1, 2)), Some((1, 3)), Some((1, 1)), Some((1, 1))])
    );
    assert_eq!(
        tile_corners(&images, a, &[None, Some(a), None, None, None, None]),
        Ok(vec![Some((1, 2)), Some((1, 2)), None, None, None, None])
    );
}

#[test]
fn corner_without_image_fails_the_tile() {
    let a = id(0, 0);
    let b = id(0, 1);
    assert_eq!(tile_corners(&Vec::new(), a, &[None; 6]), Err(CornerError::NoImage { side: 0 }));
    let images = vec![vec![a]];
    assert_eq!(
        tile_corners(&images, a, &[None, None, Some(b), None, None, None]),
        Err(CornerError::NoImage { side: 1 })
    );
    assert_eq!(
        tile_corners(&images, a, &[None, None, None, None, None, Some(b)]),
        Err(CornerError::NoImage { side: 4 })
    );
}

#[test]
fn corner_with_another_terrain_is_not_drawn() {
    let a = id(0, 0);
    let b = id(0, 1);
    let images = vec![vec![a], vec![a, b], vec![a, b, b]];
    assert_eq!(
        tile_corners(&images, a, &[None, Some(b), None, None, None, None]),
        Err(CornerError::Unsupported { side: 0 })
    );
    assert_eq!(
        tile_corners(&images, a, &[Some(a), Some(a), Some(a), Some(b), Some(b), Some(a)]),
        Err(CornerError::NoImage { side: 2 })
    );
    assert_eq!(
        tile_corners(&images, a, &[Some(a), Some(a), None, Some(b), Some(b), Some(a)]),
        Err(CornerError::Unsupported { side: 2 })
    );
}
