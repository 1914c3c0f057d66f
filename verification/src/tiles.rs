//! The tiles that are made of terrains, and the sheet that holds all tiles.

use vstd::prelude::*;
use crate::document::lemma_deep_view_prefix;
use crate::layout::{is_sheet_side, layout_tiles, sheet_side, sheet_tiles, TerrainPlacement};
use crate::picture::{Picture, PictureView};
use crate::resource::{PeeringBit, Tile};
use crate::terrain::{
    all_sides, corner_of, find_image_for_combination, image_position, side_assignments,
    side_terrain, sides_to_peering_bit, tile_corner, CornerError, TerrainId,
};

verus! {

/// A drawing of terrains: the terrains that it is for, the terrain of the tile first,
/// and its picture, which holds the parts of the drawing one below the other.
#[derive(Clone, Debug, PartialEq, Eq)]
pub struct TerrainImage {
    pub combination: Vec<TerrainId>,
    pub image: Picture,
}

pub struct TerrainImageView {
    pub combination: Seq<TerrainId>,
    pub image: PictureView,
}

impl View for TerrainImage {
    type V = TerrainImageView;

    open spec fn view(&self) -> TerrainImageView {
        TerrainImageView { combination: self.combination@, image: self.image@ }
    }
}

impl DeepView for TerrainImage {
    type V = TerrainImageView;

    open spec fn deep_view(&self) -> TerrainImageView {
        self@
    }
}

/// A tile that is made of terrains: the terrain of the tile, the terrains of its sides,
/// and its picture.
#[derive(Clone, Debug, PartialEq, Eq)]
pub struct TerrainTile {
    pub terrain: TerrainId,
    pub terrains_peering_bit: PeeringBit,
    pub image: Picture,
}

pub struct TerrainTileView {
    pub terrain: TerrainId,
    pub terrains_peering_bit: PeeringBit,
    pub image: PictureView,
}

impl View for TerrainTile {
    type V = TerrainTileView;

    open spec fn view(&self) -> TerrainTileView {
        TerrainTileView {
            terrain: self.terrain,
            terrains_peering_bit: self.terrains_peering_bit,
            image: self.image@,
        }
    }
}

impl DeepView for TerrainTile {
    type V = TerrainTileView;

    open spec fn deep_view(&self) -> TerrainTileView {
        self@
    }
}

/// Why the tiles of a combination of terrains cannot be made.
#[derive(Clone, Copy, Debug, PartialEq, Eq, Structural)]
pub enum TileError {
    /// There is no drawing for the terrain of the tile alone.
    NoCenterImage,
    /// The drawing for the terrain of the tile does not fit a tile: it is wider than
    /// the mask, or less high.
    NoRoom,
    /// A tile is larger than a picture can be.
    TooLarge,
    /// A corner of a tile cannot be drawn.
    Corner(CornerError),
    /// The drawing for the side `side` has not the part that is to be drawn.
    NoPart { side: usize },
}

/// The colour of the mask that marks the side `index` of a tile: red, green, blue, cyan,
/// magenta, yellow, clockwise from the top left, not transparent.
pub open spec fn mask_color_of(index: int) -> u32 {
    if index == 0 {
        0xff00_00ffu32
    } else if index == 1 {
        0x00ff_00ffu32
    } else if index == 2 {
        0x0000_ffffu32
    } else if index == 3 {
        0x00ff_ffffu32
    } else if index == 4 {
        0xff00_ffffu32
    } else {
        0xffff_00ffu32
    }
}

/// The colour of the mask that marks the side `index` of a tile.
pub fn mask_color(index: usize) -> (color: u32)
    requires
        index < 6,
    ensures
        color == mask_color_of(index as int),
{
    if index == 0 {
        0xff00_00ff
    } else if index == 1 {
        0x00ff_00ff
    } else if index == 2 {
        0x0000_ffff
    } else if index == 3 {
        0x00ff_ffff
    } else if index == 4 {
        0xff00_ffff
    } else {
        0xffff_00ff
    }
}

/// The terrains for which the images are drawn.
pub open spec fn drawn_for(images: Seq<TerrainImageView>) -> Seq<Seq<TerrainId>> {
    Seq::new(images.len(), |i: int| images[i].combination)
}

/// A picture of the given size with every channel of every pixel zero.
pub open spec fn blank(width: nat, height: nat) -> PictureView {
    PictureView { width, height, pixels: Seq::new(width * height, |k: int| 0u32) }
}

/// The picture of a tile after its first `count` sides are painted: at each side, the
/// part of the image for the corner is painted where the mask has the colour of the side.
pub open spec fn painted_sides(
    images: Seq<TerrainImageView>,
    mask: PictureView,
    center: TerrainId,
    sides: Seq<Option<TerrainId>>,
    start: PictureView,
    count: int,
) -> Result<PictureView, TileError>
    decreases count,
{
    if count <= 0 {
        Ok(start)
    } else {
        let index = count - 1;
        match painted_sides(images, mask, center, sides, start, index) {
            Err(e) => Err(e),
            Ok(picture) => match corner_of(
                drawn_for(images),
                center,
                sides[index],
                sides[count % 6],
                index as usize,
            ) {
                Err(e) => Err(TileError::Corner(e)),
                Ok(None) => Ok(picture),
                Ok(Some((place, part))) => {
                    let image = images[place as int].image;
                    if mask.height * part + mask.height <= image.height {
                        Ok(
                            picture.painted(
                                image.rows(mask.height * part, mask.height as int).pixels,
                                mask.pixels,
                                mask_color_of(index),
                            ),
                        )
                    } else {
                        Err(TileError::NoPart { side: index as usize })
                    }
                },
            },
        }
    }
}

/// The picture of the tile with the terrains `sides` at its sides: a picture of the
/// size of the mask, on it the drawing `base` of the tile without neighbours, and on that
/// the six sides.
pub open spec fn tile_picture(
    images: Seq<TerrainImageView>,
    mask: PictureView,
    center: TerrainId,
    sides: Seq<Option<TerrainId>>,
    base: PictureView,
) -> Result<PictureView, TileError> {
    if mask.width * mask.height * 4 > usize::MAX {
        Err(TileError::TooLarge)
    } else if !blank(mask.width, mask.height).holds(base, 0, 0) {
        Err(TileError::NoRoom)
    } else {
        painted_sides(
            images,
            mask,
            center,
            sides,
            blank(mask.width, mask.height).pasted(base, 0, 0),
            6,
        )
    }
}

/// The neighbour terrains that the resource file holds for the sides `sides`.
pub open spec fn peering_bit_of(sides: Seq<Option<TerrainId>>) -> PeeringBit {
    PeeringBit {
        top_left_side: side_terrain(sides[0]),
        top_side: side_terrain(sides[1]),
        top_right_side: side_terrain(sides[2]),
        bottom_right_side: side_terrain(sides[3]),
        bottom_side: side_terrain(sides[4]),
        bottom_left_side: side_terrain(sides[5]),
    }
}

/// The tiles for the first `count` of the ways to give terrains to the sides.
pub open spec fn tiles_for(
    images: Seq<TerrainImageView>,
    mask: PictureView,
    center: TerrainId,
    base: PictureView,
    assignments: Seq<Seq<Option<TerrainId>>>,
    count: int,
) -> Result<Seq<TerrainTileView>, TileError>
    decreases count,
{
    if count <= 0 {
        Ok(Seq::empty())
    } else {
        match tiles_for(images, mask, center, base, assignments, count - 1) {
            Err(e) => Err(e),
            Ok(tiles) => match tile_picture(images, mask, center, assignments[count - 1], base) {
                Err(e) => Err(e),
                Ok(image) => Ok(
                    tiles.push(
                        TerrainTileView {
                            terrain: center,
                            terrains_peering_bit: peering_bit_of(assignments[count - 1]),
                            image,
                        },
                    ),
                ),
            },
        }
    }
}

/// The tiles of a combination of terrains: one for each way to give each side of the
/// tile no terrain or one of the terrains. The terrain of the tile is the first of the
/// combination; its drawing without neighbours is the top of the image that is drawn
/// for this terrain alone.
pub open spec fn generated_tiles(
    terrains: Seq<TerrainId>,
    images: Seq<TerrainImageView>,
    mask: PictureView,
) -> Result<Seq<TerrainTileView>, TileError> {
    let center = terrains[0];
    match image_position(drawn_for(images), seq![center], 0) {
        None => Err(TileError::NoCenterImage),
        Some(place) => {
            let main = images[place].image;
            if mask.height > main.height {
                Err(TileError::NoRoom)
            } else {
                let assignments = all_sides(terrains);
                tiles_for(
                    images,
                    mask,
                    center,
                    main.rows(0, mask.height as int),
                    assignments,
                    assignments.len() as int,
                )
            }
        },
    }
}

/// Whether every image has a well-formed picture.
pub open spec fn pictures_well_formed(images: Seq<TerrainImageView>) -> bool {
    forall|i: int| 0 <= i < images.len() ==> (#[trigger] images[i]).image.well_formed()
}

/// A failure fails all that follows.
proof fn lemma_painted_sides_fail(
    images: Seq<TerrainImageView>,
    mask: PictureView,
    center: TerrainId,
    sides: Seq<Option<TerrainId>>,
    start: PictureView,
    failed: int,
    count: int,
)
    requires
        0 <= failed <= count,
        painted_sides(images, mask, center, sides, start, failed) is Err,
    ensures
        painted_sides(images, mask, center, sides, start, count) == painted_sides(
            images,
            mask,
            center,
            sides,
            start,
            failed,
        ),
    decreases count - failed,
{
    if failed < count {
        lemma_painted_sides_fail(images, mask, center, sides, start, failed, count - 1);
    }
}

/// A failure fails all that follows.
proof fn lemma_tiles_for_fail(
    images: Seq<TerrainImageView>,
    mask: PictureView,
    center: TerrainId,
    base: PictureView,
    assignments: Seq<Seq<Option<TerrainId>>>,
    failed: int,
    count: int,
)
    requires
        0 <= failed <= count,
        tiles_for(images, mask, center, base, assignments, failed) is Err,
    ensures
        tiles_for(images, mask, center, base, assignments, count) == tiles_for(
            images,
            mask,
            center,
            base,
            assignments,
            failed,
        ),
    decreases count - failed,
{
    if failed < count {
        lemma_tiles_for_fail(images, mask, center, base, assignments, failed, count - 1);
    }
}

/// The terrains for which the images are drawn, image by image.
fn combinations_of_images(images: &Vec<TerrainImage>) -> (drawn: Vec<Vec<TerrainId>>)
    ensures
        drawn.deep_view() == drawn_for(images.deep_view()),
        drawn@.len() == images@.len(),
{
    let mut drawn: Vec<Vec<TerrainId>> = Vec::new();
    let mut i: usize = 0;
    proof {
        lemma_deep_view_prefix(*images, 0);
    }
    while i < images.len()
        invariant
            i <= images.len(),
            drawn@.len() == i,
            forall|k: int| 0 <= k < i ==> (#[trigger] drawn@[k])@ == images@[k].combination@,
        decreases images.len() - i,
    {
        let mut combination: Vec<TerrainId> = Vec::new();
        let mut a: usize = 0;
        while a < images[i].combination.len()
            invariant
                i < images.len(),
                a <= images@[i as int].combination@.len(),
                combination@ == images@[i as int].combination@.take(a as int),
            decreases images@[i as int].combination@.len() - a,
        {
            combination.push(images[i].combination[a]);
            assert(combination@ =~= images@[i as int].combination@.take(a + 1));
            a = a + 1;
        }
        assert(combination@ =~= images@[i as int].combination@);
        drawn.push(combination);
        i = i + 1;
    }
    proof {
        lemma_deep_view_prefix(drawn, 0);
        assert forall|k: int| 0 <= k < drawn@.len() implies #[trigger] drawn.deep_view()[k]
            == drawn_for(images.deep_view())[k] by {
            assert(drawn@[k].deep_view() =~= drawn@[k]@);
            assert(images.deep_view()[k] == images@[k]@);
        }
        assert(drawn.deep_view() =~= drawn_for(images.deep_view()));
    }
    drawn
}

/// The picture of the tile with the terrains `sides` at its sides.
fn compose_tile(
    images: &Vec<TerrainImage>,
    drawn: &Vec<Vec<TerrainId>>,
    mask: &Picture,
    center: TerrainId,
    sides: &Vec<Option<TerrainId>>,
    base: &Picture,
) -> (r: Result<Picture, TileError>)
    requires
        sides@.len() == 6,
        drawn.deep_view() == drawn_for(images.deep_view()),
        drawn@.len() == images@.len(),
        pictures_well_formed(images.deep_view()),
        mask.well_formed(),
        base.well_formed(),
    ensures
        match tile_picture(images.deep_view(), mask@, center, sides@, base@) {
            Ok(picture) => r matches Ok(p) && p@ == picture && p.well_formed(),
            Err(e) => r == Err::<Picture, TileError>(e),
        },
{
    let mut image = match Picture::new(mask.width(), mask.height()) {
        None => {
            return Err(TileError::TooLarge);
        },
        Some(image) => image,
    };
    assert(image@ == blank(mask@.width, mask@.height)) by {
        assert(image@.pixels =~= blank(mask@.width, mask@.height).pixels);
    }
    if !image.copy_from(base, 0, 0) {
        return Err(TileError::NoRoom);
    }
    let ghost start = image@;
    let ghost all = images.deep_view();
    proof {
        lemma_deep_view_prefix(*images, 0);
    }
    let mut index: usize = 0;
    while index < 6
        invariant
            index <= 6,
            sides@.len() == 6,
            all == images.deep_view(),
            all.len() == images@.len(),
            forall|i: int| 0 <= i < images@.len() ==> all[i] == #[trigger] images@[i]@,
            drawn.deep_view() == drawn_for(all),
            drawn@.len() == images@.len(),
            pictures_well_formed(all),
            mask.well_formed(),
            image.well_formed(),
            mask@.width * mask@.height * 4 <= usize::MAX,
            blank(mask@.width, mask@.height).holds(base@, 0, 0),
            start == blank(mask@.width, mask@.height).pasted(base@, 0, 0),
            painted_sides(all, mask@, center, sides@, start, index as int) == Ok::<
                PictureView,
                TileError,
            >(image@),
        decreases 6 - index,
    {
        let corner = tile_corner(drawn, center, sides[index], sides[(index + 1) % 6], index);
        match corner {
            Err(e) => {
                proof {
                    lemma_painted_sides_fail(all, mask@, center, sides@, start, index + 1, 6);
                }
                return Err(TileError::Corner(e));
            },
            Ok(None) => {},
            Ok(Some((place, part))) => {
                let drawing = &images[place].image;
                assert(all[place as int] == images@[place as int]@);
                assert(all[place as int].image.well_formed());
                let height = mask.height();
                assert(height * part <= 0xffff_ffff * 3) by (nonlinear_arith)
                    requires
                        0 <= height <= 0xffff_ffff,
                        0 <= part <= 3,
                ;
                let top: u64 = height as u64 * part as u64;
                let source = if top + height as u64 <= drawing.height() as u64 {
                    drawing.rows(top as u32, height)
                } else {
                    None
                };
                match source {
                    None => {
                        proof {
                            lemma_painted_sides_fail(
                                all,
                                mask@,
                                center,
                                sides@,
                                start,
                                index + 1,
                                6,
                            );
                        }
                        return Err(TileError::NoPart { side: index });
                    },
                    Some(source) => {
                        image.paint_masked(&source, mask, mask_color(index));
                    },
                }
            },
        }
        index = index + 1;
    }
    Ok(image)
}

/// Makes the tiles of a combination of terrains: one for each way to give each side of
/// the tile no terrain or one of the terrains of the combination. The terrain of the tile
/// is the first of the combination.
pub fn generate_combinations(
    terrains: &Vec<TerrainId>,
    images: &Vec<TerrainImage>,
    mask_image: &Picture,
) -> (r: Result<Vec<TerrainTile>, TileError>)
    requires
        1 <= terrains@.len() < usize::MAX,
        pictures_well_formed(images.deep_view()),
        mask_image.well_formed(),
    ensures
        match generated_tiles(terrains@, images.deep_view(), mask_image@) {
            Ok(tiles) => r matches Ok(v) && v.deep_view() == tiles,
            Err(e) => r == Err::<Vec<TerrainTile>, TileError>(e),
        },
        r matches Ok(v) ==> forall|k: int|
            0 <= k < v@.len() ==> (#[trigger] v@[k]).image.well_formed(),
{
    let center_terrain = terrains[0];
    let drawn = combinations_of_images(images);
    let mut alone: Vec<TerrainId> = Vec::new();
    alone.push(center_terrain);
    assert(alone@ =~= seq![center_terrain]);
    proof {
        lemma_deep_view_prefix(*images, 0);
    }
    let place = match find_image_for_combination(&drawn, &alone) {
        None => {
            return Err(TileError::NoCenterImage);
        },
        Some((place, _)) => place,
    };
    let main_image = &images[place].image;
    assert(images.deep_view()[place as int] == images@[place as int]@);
    assert(images.deep_view()[place as int].image.well_formed());
    let none_image = match main_image.rows(0, mask_image.height()) {
        None => {
            return Err(TileError::NoRoom);
        },
        Some(none_image) => none_image,
    };
    let assignments = side_assignments(terrains);
    let ghost all = all_sides(terrains@);
    let ghost goal = tiles_for(
        images.deep_view(),
        mask_image@,
        center_terrain,
        none_image@,
        all,
        all.len() as int,
    );
    let mut tiles: Vec<TerrainTile> = Vec::new();
    proof {
        lemma_deep_view_prefix(tiles, 0);
        assert(tiles.deep_view() =~= Seq::empty());
        assert(generated_tiles(terrains@, images.deep_view(), mask_image@) == goal);
    }
    let mut m: usize = 0;
    while m < assignments.len()
        invariant
            m <= assignments.len(),
            assignments@.len() == all.len(),
            forall|i: int| 0 <= i < assignments@.len() ==> (#[trigger] assignments@[i])@ == all[i],
            forall|i: int| 0 <= i < assignments@.len() ==> (#[trigger] assignments@[i])@.len() == 6,
            drawn.deep_view() == drawn_for(images.deep_view()),
            drawn@.len() == images@.len(),
            pictures_well_formed(images.deep_view()),
            mask_image.well_formed(),
            none_image.well_formed(),
            goal == tiles_for(
                images.deep_view(),
                mask_image@,
                center_terrain,
                none_image@,
                all,
                all.len() as int,
            ),
            generated_tiles(terrains@, images.deep_view(), mask_image@) == goal,
            tiles_for(images.deep_view(), mask_image@, center_terrain, none_image@, all, m as int)
                == Ok::<Seq<TerrainTileView>, TileError>(tiles.deep_view()),
            forall|k: int| 0 <= k < tiles@.len() ==> (#[trigger] tiles@[k]).image.well_formed(),
        decreases assignments.len() - m,
    {
        let sides = &assignments[m];
        assert(sides@ == all[m as int]);
        let image = match compose_tile(
            images,
            &drawn,
            mask_image,
            center_terrain,
            sides,
            &none_image,
        ) {
            Err(e) => {
                proof {
                    lemma_tiles_for_fail(
                        images.deep_view(),
                        mask_image@,
                        center_terrain,
                        none_image@,
                        all,
                        m + 1,
                        all.len() as int,
                    );
                }
                return Err(e);
            },
            Ok(image) => image,
        };
        let tile = TerrainTile {
            terrain: center_terrain,
            terrains_peering_bit: sides_to_peering_bit(sides.as_slice()),
            image,
        };
        let ghost before = tiles;
        tiles.push(tile);
        proof {
            crate::document::lemma_deep_view_push(before, tiles, tile);
        }
        m = m + 1;
    }
    Ok(tiles)
}


/// A tile that is drawn by hand: the cell of the sheet that it is drawn for, and its
/// picture.
#[derive(Clone, Debug, PartialEq, Eq)]
pub struct FixedTile {
    pub position: [u32; 2],
    pub image: Picture,
}

/// Why the tile sheet cannot be made.
#[derive(Clone, Copy, Debug, PartialEq, Eq, Structural)]
pub enum SheetError {
    /// There are more tiles than can be counted in 32 bits.
    TooManyTiles,
    /// The tiles have no width or no height, or the sheet would be wider than a
    /// picture can be.
    NoSide,
    /// The sheet is larger than a picture can be.
    TooLarge,
    /// The picture of the tile at `tile` of the sheet does not fit its cell.
    NoRoom { tile: usize },
}

/// The cells of the tiles that are drawn by hand.
pub open spec fn positions_of(tiles: Seq<FixedTile>) -> Seq<[u32; 2]> {
    Seq::new(tiles.len(), |i: int| tiles[i].position)
}

/// The tiles that are made of terrains, without their pictures.
pub open spec fn placements_of(tiles: Seq<TerrainTile>) -> Seq<TerrainPlacement> {
    Seq::new(
        tiles.len(),
        |i: int|
            TerrainPlacement {
                terrain: tiles[i].terrain,
                terrains_peering_bit: tiles[i].terrains_peering_bit,
            },
    )
}

/// The picture of the tile at `k` of the sheet: first come the tiles that are drawn by
/// hand, then the tiles that are made of terrains.
pub open spec fn picture_at(tiles: Seq<FixedTile>, terrain_tiles: Seq<TerrainTile>, k: int)
    -> PictureView {
    if k < tiles.len() {
        tiles[k].image@
    } else {
        terrain_tiles[k - tiles.len()].image@
    }
}

/// The sheet with the pictures of its first `count` tiles pasted, each into the cell
/// that the layout names.
pub open spec fn pasted_tiles(
    start: PictureView,
    tiles: Seq<FixedTile>,
    terrain_tiles: Seq<TerrainTile>,
    layout: Seq<Tile>,
    tile_size: [u32; 2],
    count: int,
) -> Result<PictureView, SheetError>
    decreases count,
{
    if count <= 0 {
        Ok(start)
    } else {
        let k = count - 1;
        match pasted_tiles(start, tiles, terrain_tiles, layout, tile_size, k) {
            Err(e) => Err(e),
            Ok(sheet) => {
                let x = layout[k].position.x * tile_size[0];
                let y = layout[k].position.y * tile_size[1];
                let picture = picture_at(tiles, terrain_tiles, k);
                if 0 <= x <= u32::MAX && 0 <= y <= u32::MAX && sheet.holds(picture, x, y) {
                    Ok(sheet.pasted(picture, x, y))
                } else {
                    Err(SheetError::NoRoom { tile: k as usize })
                }
            },
        }
    }
}

/// A failure fails all that follows.
proof fn lemma_pasted_tiles_fail(
    start: PictureView,
    tiles: Seq<FixedTile>,
    terrain_tiles: Seq<TerrainTile>,
    layout: Seq<Tile>,
    tile_size: [u32; 2],
    failed: int,
    count: int,
)
    requires
        0 <= failed <= count,
        pasted_tiles(start, tiles, terrain_tiles, layout, tile_size, failed) is Err,
    ensures
        pasted_tiles(start, tiles, terrain_tiles, layout, tile_size, count) == pasted_tiles(
            start,
            tiles,
            terrain_tiles,
            layout,
            tile_size,
            failed,
        ),
    decreases count - failed,
{
    if failed < count {
        lemma_pasted_tiles_fail(start, tiles, terrain_tiles, layout, tile_size, failed, count - 1);
    }
}

/// The tile sheet of side `side` and its tiles: the layout gives every tile its cell, and
/// the sheet holds the picture of every tile of the layout in its cell.
pub open spec fn sheet_of_side(
    side: int,
    tiles: Seq<FixedTile>,
    terrain_tiles: Seq<TerrainTile>,
    tile_size: [u32; 2],
) -> Result<(PictureView, Seq<Tile>), SheetError> {
    let layout = sheet_tiles(
        positions_of(tiles),
        placements_of(terrain_tiles),
        (side / (tile_size[0] as int)) as u32,
        (side / (tile_size[1] as int)) as u32,
    );
    if side * side * 4 > usize::MAX {
        Err(SheetError::TooLarge)
    } else {
        match pasted_tiles(
            blank(side as nat, side as nat),
            tiles,
            terrain_tiles,
            layout,
            tile_size,
            layout.len() as int,
        ) {
            Err(e) => Err(e),
            Ok(sheet) => Ok((sheet, layout)),
        }
    }
}

/// Whether `side` is the side of the sheet of the tiles, and fits in 32 bits.
pub open spec fn is_side_of_sheet(
    side: int,
    tiles: Seq<FixedTile>,
    terrain_tiles: Seq<TerrainTile>,
    tile_size: [u32; 2],
) -> bool {
    &&& tile_size[0] > 0
    &&& tile_size[1] > 0
    &&& side <= u32::MAX
    &&& is_sheet_side(
        side,
        positions_of(tiles),
        tile_size,
        (tiles.len() + terrain_tiles.len()) as int,
    )
}

/// Whether `r` is the outcome `outcome`.
pub open spec fn is_outcome(
    r: Result<(Picture, Vec<Tile>), SheetError>,
    outcome: Result<(PictureView, Seq<Tile>), SheetError>,
) -> bool {
    match outcome {
        Ok((sheet, layout)) => r matches Ok((picture, tiles)) && picture@ == sheet && tiles@
            == layout && picture.well_formed(),
        Err(e) => r == Err::<(Picture, Vec<Tile>), SheetError>(e),
    }
}

/// Makes the tile sheet: a square picture with a cell of `tile_size` for every tile,
/// and the tiles as the resource file names them. The tiles that are drawn by hand lie
/// in their cells; the tiles that are made of terrains take the free cells row by row.
///
/// The side of the sheet is the least that is large enough for the cells of the tiles
/// that are drawn by hand and has a cell for every tile. There is no sheet for more tiles
/// than 32 bits count, for tiles without width or height, and where the side does not
/// fit in 32 bits.
pub fn write_tile_set_image(
    tiles: &Vec<FixedTile>,
    terrain_tiles: &Vec<TerrainTile>,
    tile_size: [u32; 2],
) -> (r: Result<(Picture, Vec<Tile>), SheetError>)
    requires
        forall|i: int| 0 <= i < tiles@.len() ==> (#[trigger] tiles@[i]).image.well_formed(),
        forall|i: int|
            0 <= i < terrain_tiles@.len() ==> (#[trigger] terrain_tiles@[i]).image.well_formed(),
    ensures
        tiles@.len() + terrain_tiles@.len() > u32::MAX ==> r == Err::<
            (Picture, Vec<Tile>),
            SheetError,
        >(SheetError::TooManyTiles),
        tiles@.len() + terrain_tiles@.len() <= u32::MAX ==> {
            &&& forall|side: int| #[trigger]
                is_side_of_sheet(side, tiles@, terrain_tiles@, tile_size) ==> is_outcome(
                    r,
                    sheet_of_side(side, tiles@, terrain_tiles@, tile_size),
                )
            &&& (forall|side: int| !#[trigger] is_side_of_sheet(
                side,
                tiles@,
                terrain_tiles@,
                tile_size,
            )) ==> r == Err::<(Picture, Vec<Tile>), SheetError>(SheetError::NoSide)
        },
{
    if tiles.len() > 0xffff_ffff || terrain_tiles.len() > 0xffff_ffff {
        return Err(SheetError::TooManyTiles);
    }
    let total: u64 = tiles.len() as u64 + terrain_tiles.len() as u64;
    if total > 0xffff_ffff {
        return Err(SheetError::TooManyTiles);
    }
    let mut positions: Vec<[u32; 2]> = Vec::new();
    let mut i: usize = 0;
    while i < tiles.len()
        invariant
            i <= tiles.len(),
            positions@ == positions_of(tiles@).take(i as int),
        decreases tiles.len() - i,
    {
        positions.push(tiles[i].position);
        assert(positions@ =~= positions_of(tiles@).take(i + 1));
        i = i + 1;
    }
    assert(positions@ =~= positions_of(tiles@));
    let mut placements: Vec<TerrainPlacement> = Vec::new();
    let mut j: usize = 0;
    while j < terrain_tiles.len()
        invariant
            j <= terrain_tiles.len(),
            placements@ == placements_of(terrain_tiles@).take(j as int),
        decreases terrain_tiles.len() - j,
    {
        placements.push(
            TerrainPlacement {
                terrain: terrain_tiles[j].terrain,
                terrains_peering_bit: terrain_tiles[j].terrains_peering_bit,
            },
        );
        assert(placements@ =~= placements_of(terrain_tiles@).take(j + 1));
        j = j + 1;
    }
    assert(placements@ =~= placements_of(terrain_tiles@));
    let image_size = match sheet_side(&positions, tile_size, total as u32) {
        None => {
            return Err(SheetError::NoSide);
        },
        Some(image_size) => image_size,
    };
    proof {
        assert forall|side: int| #[trigger]
            is_side_of_sheet(side, tiles@, terrain_tiles@, tile_size) implies side
            == image_size by {
            crate::layout::lemma_sheet_side_unique(
                side,
                image_size as int,
                positions@,
                tile_size,
                total as int,
            );
        }
        assert(is_side_of_sheet(image_size as int, tiles@, terrain_tiles@, tile_size));
    }
    let ghost outcome = sheet_of_side(image_size as int, tiles@, terrain_tiles@, tile_size);
    let layout = layout_tiles(
        &positions,
        &placements,
        image_size / tile_size[0],
        image_size / tile_size[1],
    );
    let mut image = match Picture::new(image_size, image_size) {
        None => {
            return Err(SheetError::TooLarge);
        },
        Some(image) => image,
    };
    let ghost start = image@;
    assert(start == blank(image_size as nat, image_size as nat)) by {
        assert(start.pixels =~= blank(image_size as nat, image_size as nat).pixels);
    }
    let mut k: usize = 0;
    while k < layout.len()
        invariant
            k <= layout.len(),
            image.well_formed(),
            image@.width == image_size,
            image@.height == image_size,
            tile_size[0] > 0,
            tile_size[1] > 0,
            forall|i: int| 0 <= i < tiles@.len() ==> (#[trigger] tiles@[i]).image.well_formed(),
            forall|i: int|
                0 <= i < terrain_tiles@.len() ==> (
                #[trigger] terrain_tiles@[i]).image.well_formed(),
            layout@.len() <= tiles@.len() + terrain_tiles@.len(),
            tiles@.len() + terrain_tiles@.len() <= u32::MAX,
            forall|side: int| #[trigger]
                is_side_of_sheet(side, tiles@, terrain_tiles@, tile_size) ==> side == image_size,
            is_side_of_sheet(image_size as int, tiles@, terrain_tiles@, tile_size),
            outcome == sheet_of_side(image_size as int, tiles@, terrain_tiles@, tile_size),
            outcome == (match pasted_tiles(
                start,
                tiles@,
                terrain_tiles@,
                layout@,
                tile_size,
                layout@.len() as int,
            ) {
                Err(e) => Err::<(PictureView, Seq<Tile>), SheetError>(e),
                Ok(sheet) => Ok::<(PictureView, Seq<Tile>), SheetError>((sheet, layout@)),
            }),
            pasted_tiles(start, tiles@, terrain_tiles@, layout@, tile_size, k as int) == Ok::<
                PictureView,
                SheetError,
            >(image@),
        decreases layout.len() - k,
    {
        let picture = if k < tiles.len() {
            &tiles[k].image
        } else {
            &terrain_tiles[k - tiles.len()].image
        };
        assert(picture@ == picture_at(tiles@, terrain_tiles@, k as int));
        let cell = layout[k].position;
        let fits = cell.x >= 0 && cell.x <= 0xffff_ffff && cell.y >= 0 && cell.y <= 0xffff_ffff;
        let mut done = false;
        if fits {
            assert(cell.x * tile_size[0] <= 0xffff_ffff * 0xffff_ffff) by (nonlinear_arith)
                requires
                    0 <= cell.x <= 0xffff_ffff,
                    0 <= tile_size[0] <= 0xffff_ffff,
            ;
            assert(cell.y * tile_size[1] <= 0xffff_ffff * 0xffff_ffff) by (nonlinear_arith)
                requires
                    0 <= cell.y <= 0xffff_ffff,
                    0 <= tile_size[1] <= 0xffff_ffff,
            ;
            assert(0 <= cell.x * tile_size[0] && 0 <= cell.y * tile_size[1]) by (nonlinear_arith)
                requires
                    0 <= cell.x,
                    0 <= cell.y,
                    0 <= tile_size[0],
                    0 <= tile_size[1],
            ;
            let x: u64 = cell.x as u64 * tile_size[0] as u64;
            let y: u64 = cell.y as u64 * tile_size[1] as u64;
            if x <= 0xffff_ffff && y <= 0xffff_ffff {
                done = image.copy_from(picture, x as u32, y as u32);
            }
        } else {
            proof {
                let x = cell.x * tile_size[0];
                let y = cell.y * tile_size[1];
                let w = tile_size[0] as int;
                let h = tile_size[1] as int;
                if 0 <= x <= u32::MAX && 0 <= y <= u32::MAX && image@.holds(picture@, x, y) {
                    assert(cell.x < 0 || cell.x > 0xffff_ffff || cell.y < 0 || cell.y
                        > 0xffff_ffff);
                    assert(false) by (nonlinear_arith)
                        requires
                            cell.x < 0 || cell.x > 0xffff_ffff || cell.y < 0 || cell.y
                                > 0xffff_ffff,
                            0 <= cell.x * w <= 0xffff_ffff,
                            0 <= cell.y * h <= 0xffff_ffff,
                            cell.x * w + picture@.width <= image_size,
                            cell.y * h + picture@.height <= image_size,
                            0 <= w,
                            0 <= h,
                            image_size <= 0xffff_ffff,
                            w > 0 && h > 0,
                    ;
                }
            }
        }
        if !done {
            proof {
                lemma_pasted_tiles_fail(
                    start,
                    tiles@,
                    terrain_tiles@,
                    layout@,
                    tile_size,
                    k + 1,
                    layout@.len() as int,
                );
            }
            return Err(SheetError::NoRoom { tile: k });
        }
        k = k + 1;
    }
    Ok((image, layout))
}

} // verus!
