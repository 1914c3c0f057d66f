//! The tile sheet: how large it is and which cell holds which tile.

use vstd::prelude::*;
use crate::resource::{PeeringBit, Tile};
use crate::terrain::TerrainId;
use crate::value::Vector2i;

verus! {

/// A tile that is made of terrains: the terrain of the tile and those of its sides.
#[derive(Clone, Copy, Debug, PartialEq, Eq)]
pub struct TerrainPlacement {
    pub terrain: TerrainId,
    pub terrains_peering_bit: PeeringBit,
}

/// The side that a square sheet needs for a tile in the cell at `position`: its cell
/// must lie inside the sheet.
pub open spec fn side_for(position: [u32; 2], tile_size: [u32; 2]) -> int {
    let across = (position[0] + 1) * tile_size[0];
    let down = (position[1] + 1) * tile_size[1];
    if across >= down {
        across
    } else {
        down
    }
}

/// The side that a square sheet needs for the first `count` tiles.
pub open spec fn side_for_all(positions: Seq<[u32; 2]>, tile_size: [u32; 2], count: int) -> int
    decreases count,
{
    if count <= 0 {
        0
    } else {
        let before = side_for_all(positions, tile_size, count - 1);
        let this = side_for(positions[count - 1], tile_size);
        if before >= this {
            before
        } else {
            this
        }
    }
}

/// How many whole cells a square sheet of side `side` has.
pub open spec fn cells(side: int, tile_size: [u32; 2]) -> int {
    (side / (tile_size[0] as int)) * (side / (tile_size[1] as int))
}

/// By how much the sheet grows at a time: the longer side of a tile.
pub open spec fn growth(tile_size: [u32; 2]) -> int {
    if tile_size[0] >= tile_size[1] {
        tile_size[0] as int
    } else {
        tile_size[1] as int
    }
}

/// Whether `side` is the side of the sheet: the side that the tiles with a fixed cell
/// need, grown step by step until the sheet has `total` cells, and not further.
pub open spec fn is_sheet_side(
    side: int,
    positions: Seq<[u32; 2]>,
    tile_size: [u32; 2],
    total: int,
) -> bool {
    let least = side_for_all(positions, tile_size, positions.len() as int);
    let step = growth(tile_size);
    exists|steps: int|
        {
            &&& 0 <= steps
            &&& side == least + #[trigger] (steps * step)
            &&& cells(side, tile_size) >= total
            &&& forall|fewer: int|
                0 <= fewer < steps ==> cells(least + #[trigger] (fewer * step), tile_size) < total
        }
}

/// Where the sheet has too few cells after fewer than `tried` steps of growth, its side
/// has grown by `tried` steps at least.
pub proof fn lemma_sheet_side_grows(
    side: int,
    positions: Seq<[u32; 2]>,
    tile_size: [u32; 2],
    total: int,
    tried: int,
)
    requires
        is_sheet_side(side, positions, tile_size, total),
        0 <= tried,
        forall|fewer: int|
            0 <= fewer < tried ==> cells(
                side_for_all(positions, tile_size, positions.len() as int) + #[trigger] (fewer
                    * growth(tile_size)),
                tile_size,
            ) < total,
    ensures
        side >= side_for_all(positions, tile_size, positions.len() as int) + tried * growth(
            tile_size,
        ),
{
    let least = side_for_all(positions, tile_size, positions.len() as int);
    let step = growth(tile_size);
    let steps = choose|steps: int|
        {
            &&& 0 <= steps
            &&& side == least + #[trigger] (steps * step)
            &&& cells(side, tile_size) >= total
            &&& forall|fewer: int|
                0 <= fewer < steps ==> cells(least + #[trigger] (fewer * step), tile_size) < total
        };
    if steps < tried {
        assert(cells(least + steps * step, tile_size) < total);
    }
    assert(steps * step >= tried * step) by (nonlinear_arith)
        requires
            steps >= tried,
            step >= 0,
    ;
}

/// A sheet has one side.
pub proof fn lemma_sheet_side_unique(
    side: int,
    other: int,
    positions: Seq<[u32; 2]>,
    tile_size: [u32; 2],
    total: int,
)
    requires
        is_sheet_side(side, positions, tile_size, total),
        is_sheet_side(other, positions, tile_size, total),
    ensures
        side == other,
{
    let least = side_for_all(positions, tile_size, positions.len() as int);
    let step = growth(tile_size);
    let a = choose|steps: int|
        {
            &&& 0 <= steps
            &&& side == least + #[trigger] (steps * step)
            &&& cells(side, tile_size) >= total
            &&& forall|fewer: int|
                0 <= fewer < steps ==> cells(least + #[trigger] (fewer * step), tile_size) < total
        };
    let b = choose|steps: int|
        {
            &&& 0 <= steps
            &&& other == least + #[trigger] (steps * step)
            &&& cells(other, tile_size) >= total
            &&& forall|fewer: int|
                0 <= fewer < steps ==> cells(least + #[trigger] (fewer * step), tile_size) < total
        };
    if a < b {
        assert(cells(least + a * step, tile_size) < total);
    }
    if b < a {
        assert(cells(least + b * step, tile_size) < total);
    }
}

/// The side of the square tile sheet for tiles of `tile_size`: large enough for each
/// tile in `positions` to lie in its cell, and for `total_tiles` cells in all. `None` for
/// tiles without width or height, and where the side does not fit in 32 bits.
pub fn sheet_side(positions: &Vec<[u32; 2]>, tile_size: [u32; 2], total_tiles: u32) -> (r: Option<
    u32,
>)
    ensures
        r matches Some(side) ==> tile_size[0] > 0 && tile_size[1] > 0 && is_sheet_side(
            side as int,
            positions@,
            tile_size,
            total_tiles as int,
        ),
        r is None ==> tile_size[0] == 0 || tile_size[1] == 0 || forall|side: int|
            is_sheet_side(side, positions@, tile_size, total_tiles as int) ==> side > 0xffff_ffff,
{
    let width: u64 = tile_size[0] as u64;
    let height: u64 = tile_size[1] as u64;
    if width == 0 || height == 0 {
        return None;
    }
    let mut least: u64 = 0;
    let mut i: usize = 0;
    while i < positions.len()
        invariant
            i <= positions.len(),
            width == tile_size[0],
            height == tile_size[1],
            least == side_for_all(positions@, tile_size, i as int),
            least <= 0x1_0000_0000 * 0xffff_ffff,
        decreases positions.len() - i,
    {
        let x: u64 = positions[i][0] as u64;
        let y: u64 = positions[i][1] as u64;
        assert((x + 1) * width <= 0x1_0000_0000 * 0xffff_ffff) by (nonlinear_arith)
            requires
                x + 1 <= 0x1_0000_0000,
                width <= 0xffff_ffff,
        ;
        assert((y + 1) * height <= 0x1_0000_0000 * 0xffff_ffff) by (nonlinear_arith)
            requires
                y + 1 <= 0x1_0000_0000,
                height <= 0xffff_ffff,
        ;
        let across: u64 = (x + 1) * width;
        let down: u64 = (y + 1) * height;
        let this: u64 = if across >= down { across } else { down };
        if this > least {
            least = this;
        }
        i = i + 1;
    }
    let step: u64 = if width >= height { width } else { height };
    let limit: u64 = 0xffff_ffff;
    if least > limit {
        proof {
            assert forall|side: int|
                is_sheet_side(side, positions@, tile_size, total_tiles as int) implies side
                > 0xffff_ffff by {
                lemma_sheet_side_grows(side, positions@, tile_size, total_tiles as int, 0);
            }
        }
        return None;
    }
    let mut side: u64 = least;
    let ghost mut steps: int = 0;
    assert(0 * (step as int) == 0) by (nonlinear_arith);
    loop
        invariant
            width == tile_size[0],
            height == tile_size[1],
            width > 0,
            height > 0,
            step == growth(tile_size),
            step > 0,
            limit == 0xffff_ffff,
            least == side_for_all(positions@, tile_size, positions@.len() as int),
            0 <= steps,
            side == least + steps * step,
            side <= limit,
            forall|fewer: int|
                0 <= fewer < steps ==> cells(least + #[trigger] (fewer * step), tile_size)
                    < total_tiles,
        decreases limit - side,
    {
        let columns: u64 = side / width;
        let rows: u64 = side / height;
        assert(columns * rows <= 0xffff_ffff * 0xffff_ffff) by (nonlinear_arith)
            requires
                columns <= 0xffff_ffff,
                rows <= 0xffff_ffff,
        ;
        if columns * rows >= total_tiles as u64 {
            assert(is_sheet_side(side as int, positions@, tile_size, total_tiles as int));
            return Some(side as u32);
        }
        if side > limit - step {
            proof {
                assert forall|other: int|
                    is_sheet_side(other, positions@, tile_size, total_tiles as int) implies other
                    > 0xffff_ffff by {
                    assert(cells(least + steps * step, tile_size) < total_tiles);
                    assert((steps + 1) * step == steps * step + step) by (nonlinear_arith);
                    lemma_sheet_side_grows(
                        other,
                        positions@,
                        tile_size,
                        total_tiles as int,
                        steps + 1,
                    );
                }
            }
            return None;
        }
        proof {
            assert((steps + 1) * step == steps * step + step) by (nonlinear_arith);
            steps = steps + 1;
        }
        side = side + step;
    }
}

/// Whether a tile has its fixed cell at `cell`.
pub open spec fn is_taken(positions: Seq<[u32; 2]>, cell: [u32; 2]) -> bool {
    exists|i: int| 0 <= i < positions.len() && #[trigger] positions[i] == cell
}

/// The free cells among the first `count` cells of the row at `y`, from left to right.
pub open spec fn free_in_row(positions: Seq<[u32; 2]>, y: u32, count: int) -> Seq<[u32; 2]>
    decreases count,
{
    if count <= 0 {
        Seq::empty()
    } else {
        let before = free_in_row(positions, y, count - 1);
        let cell = [(count - 1) as u32, y];
        if is_taken(positions, cell) {
            before
        } else {
            before.push(cell)
        }
    }
}

/// The free cells of the first `count` rows of a sheet with `columns` columns, row by
/// row.
pub open spec fn free_cells(positions: Seq<[u32; 2]>, columns: u32, count: int) -> Seq<[u32; 2]>
    decreases count,
{
    if count <= 0 {
        Seq::empty()
    } else {
        free_cells(positions, columns, count - 1) + free_in_row(
            positions,
            (count - 1) as u32,
            columns as int,
        )
    }
}

/// A tile that is drawn by hand, in the cell that its drawing names.
pub open spec fn fixed_tile(position: [u32; 2]) -> Tile {
    Tile {
        position: Vector2i { x: position[0] as i64, y: position[1] as i64 },
        terrain_set: None,
        terrain: None,
        terrains_peering_bit: PeeringBit::empty(),
    }
}

/// A tile that is made of terrains, in the cell `cell`.
pub open spec fn terrain_tile(cell: [u32; 2], placement: TerrainPlacement) -> Tile {
    Tile {
        position: Vector2i { x: cell[0] as i64, y: cell[1] as i64 },
        terrain_set: Some(placement.terrain.terrain_set as u32),
        terrain: Some(placement.terrain.terrain as u32),
        terrains_peering_bit: placement.terrains_peering_bit,
    }
}

pub open spec fn fixed_tiles(positions: Seq<[u32; 2]>) -> Seq<Tile> {
    Seq::new(positions.len(), |i: int| fixed_tile(positions[i]))
}

/// The first `count` tiles made of terrains, each in its free cell.
pub open spec fn terrain_tiles(free: Seq<[u32; 2]>, placements: Seq<TerrainPlacement>, count: int)
    -> Seq<Tile> {
    Seq::new(count as nat, |i: int| terrain_tile(free[i], placements[i]))
}

pub open spec fn least(a: int, b: int) -> int {
    if a <= b {
        a
    } else {
        b
    }
}

/// The tiles of a sheet of `columns` columns and `rows` rows: first the tiles that are
/// drawn by hand, each in its cell; then the tiles made of terrains, which take the free
/// cells row by row. A tile for which no free cell is left is not in the sheet.
pub open spec fn sheet_tiles(
    positions: Seq<[u32; 2]>,
    placements: Seq<TerrainPlacement>,
    columns: u32,
    rows: u32,
) -> Seq<Tile> {
    let free = free_cells(positions, columns, rows as int);
    fixed_tiles(positions) + terrain_tiles(
        free,
        placements,
        least(free.len() as int, placements.len() as int),
    )
}

/// Whether a tile has its fixed cell at `cell`.
fn taken(positions: &Vec<[u32; 2]>, cell: [u32; 2]) -> (r: bool)
    ensures
        r == is_taken(positions@, cell),
{
    let mut i: usize = 0;
    while i < positions.len()
        invariant
            i <= positions.len(),
            forall|k: int| 0 <= k < i ==> #[trigger] positions@[k] != cell,
        decreases positions.len() - i,
    {
        let at = positions[i];
        if at[0] == cell[0] && at[1] == cell[1] {
            assert(at@ =~= cell@);
            assert(positions@[i as int] == cell);
            return true;
        }
        assert(positions@[i as int] != cell);
        i = i + 1;
    }
    false
}

/// The tiles of the sheet, in the order in which the resource file names them.
pub fn layout_tiles(
    positions: &Vec<[u32; 2]>,
    placements: &Vec<TerrainPlacement>,
    columns: u32,
    rows: u32,
) -> (layout: Vec<Tile>)
    ensures
        layout@ == sheet_tiles(positions@, placements@, columns, rows),
{
    let mut layout: Vec<Tile> = Vec::new();
    let mut i: usize = 0;
    while i < positions.len()
        invariant
            i <= positions.len(),
            layout@ == fixed_tiles(positions@).take(i as int),
        decreases positions.len() - i,
    {
        let at = positions[i];
        layout.push(
            Tile {
                position: Vector2i { x: at[0] as i64, y: at[1] as i64 },
                terrain_set: None,
                terrain: None,
                terrains_peering_bit: PeeringBit::default(),
            },
        );
        assert(layout@ =~= fixed_tiles(positions@).take(i + 1));
        i = i + 1;
    }
    assert(fixed_tiles(positions@).take(i as int) =~= fixed_tiles(positions@));
    let ghost fixed = layout@;
    let mut placed: usize = 0;
    let ghost mut free: Seq<[u32; 2]> = Seq::empty();
    let mut y: u32 = 0;
    while y < rows
        invariant
            y <= rows,
            fixed == fixed_tiles(positions@),
            free == free_cells(positions@, columns, y as int),
            placed == least(free.len() as int, placements@.len() as int),
            layout@ == fixed + terrain_tiles(free, placements@, placed as int),
        decreases rows - y,
    {
        let ghost before = free;
        let mut x: u32 = 0;
        while x < columns
            invariant
                x <= columns,
                y < rows,
                fixed == fixed_tiles(positions@),
                before == free_cells(positions@, columns, y as int),
                free == before + free_in_row(positions@, y, x as int),
                placed == least(free.len() as int, placements@.len() as int),
                layout@ == fixed + terrain_tiles(free, placements@, placed as int),
            decreases columns - x,
        {
            let cell: [u32; 2] = [x, y];
            if !taken(positions, cell) {
                let ghost longer = free.push(cell);
                if placed < placements.len() {
                    let placement = placements[placed];
                    layout.push(
                        Tile {
                            position: Vector2i { x: x as i64, y: y as i64 },
                            terrain_set: Some(
                                #[verifier::truncate]
                                (placement.terrain.terrain_set as u32),
                            ),
                            terrain: Some(#[verifier::truncate] (placement.terrain.terrain as u32)),
                            terrains_peering_bit: placement.terrains_peering_bit,
                        },
                    );
                    assert(layout@ =~= fixed + terrain_tiles(longer, placements@, placed + 1));
                    placed = placed + 1;
                } else {
                    assert(terrain_tiles(longer, placements@, placed as int) =~= terrain_tiles(
                        free,
                        placements@,
                        placed as int,
                    ));
                }
                proof {
                    free = longer;
                    assert(free =~= before + free_in_row(positions@, y, x + 1));
                }
            } else {
                assert(free =~= before + free_in_row(positions@, y, x + 1));
            }
            x = x + 1;
        }
        y = y + 1;
    }
    layout
}

} // verus!
