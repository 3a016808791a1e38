use vstd::prelude::*;

use crate::data::{create_entity, is_created, EntityType};
use crate::entities::{Entity, EntityId, Team};
use crate::grid::{in_bounds, valid_dimensions, CellRect, Grid, GridCell};
use crate::random::{new_thread_rng, random_ratio};
use rand::rngs::ThreadRng;

verus! {

/// The picture drawn on a quarter of a cell: ground, or a piece of water whose edges follow
/// the land around it.
#[derive(Debug, Copy, Clone, PartialEq, Eq, Structural)]
pub enum TileId {
    Ground,
    WaterCenter,
    WaterEdgeNorth,
    WaterCornerNE,
    WaterEdgeEast,
    WaterCornerSE,
    WaterEdgeSouth,
    WaterCornerSW,
    WaterEdgeWest,
    WaterCornerNW,
    WaterConcaveNE,
    WaterConcaveSE,
    WaterConcaveSW,
    WaterConcaveNW,
}

impl GridCell for TileId {
    open spec fn spec_empty() -> Self {
        TileId::Ground
    }

    fn empty() -> (cell: Self) {
        TileId::Ground
    }
}

/// The kinds of maps that can be created without a map file.
#[derive(Debug, Copy, Clone, PartialEq, Eq, Structural)]
pub enum MapType {
    Empty,
    Small,
    Medium,
    LoadTest,
    Spectator,
}

/// Where a map comes from: a kind of map, or the path of a map file.
pub enum MapConfig {
    Type(MapType),
    FromFile(String),
}

/// What a game starts from: the size of the world, its entities, which cells are water, and
/// the tiles to draw.
pub struct WorldInitData {
    pub dimensions: [u32; 2],
    pub entities: Vec<Entity>,
    pub water_grid: Grid<bool>,
    pub tile_grid: Grid<TileId>,
}

/// Where the line that starts at `start` ends: at the first newline from `start` on, or at
/// the end of the text.
pub open spec fn line_end(bytes: Seq<u8>, start: int) -> int
    decreases bytes.len() - start,
{
    if start < 0 || start >= bytes.len() {
        bytes.len() as int
    } else if bytes[start] == 10u8 {
        start
    } else {
        line_end(bytes, start + 1)
    }
}

/// A line ends at or after its start, at a newline or at the end of the text, with no
/// newline before.
pub proof fn lemma_line_end(bytes: Seq<u8>, start: int)
    requires
        0 <= start <= bytes.len(),
    ensures
        start <= line_end(bytes, start) <= bytes.len(),
        line_end(bytes, start) < bytes.len() ==> bytes[line_end(bytes, start)] == 10u8,
        forall|i: int| start <= i < line_end(bytes, start) ==> bytes[i] != 10u8,
    decreases bytes.len() - start,
{
    if start < bytes.len() && bytes[start] != 10u8 {
        lemma_line_end(bytes, start + 1);
    }
}

/// The lines of a text from `start` on: split at newlines, a carriage return before a
/// newline dropped, and no empty line after a final newline.
pub open spec fn lines_from(bytes: Seq<u8>, start: int) -> Seq<Seq<u8>>
    decreases bytes.len() + 1 - start,
    via lines_from_decreases
{
    if start < 0 || start >= bytes.len() {
        Seq::empty()
    } else {
        let end = line_end(bytes, start);
        let raw = bytes.subrange(start, end);
        let line = if end < bytes.len() && raw.len() > 0 && raw.last() == 13u8 {
            raw.drop_last()
        } else {
            raw
        };
        seq![line] + lines_from(bytes, end + 1)
    }
}

#[via_fn]
proof fn lines_from_decreases(bytes: Seq<u8>, start: int) {
    if 0 <= start < bytes.len() {
        lemma_line_end(bytes, start);
    }
}

/// The rows of a map text.
pub open spec fn map_rows(bytes: Seq<u8>) -> Seq<Seq<u8>> {
    lines_from(bytes, 0)
}

/// The width of the map in a map text: its rows without the border on each side.
pub open spec fn map_width(bytes: Seq<u8>) -> int {
    map_rows(bytes)[0].len() - 2
}

/// The height of the map in a map text: its rows without the border rows.
pub open spec fn map_height(bytes: Seq<u8>) -> int {
    map_rows(bytes).len() - 2
}

/// What a map text must be: at least two rows, all as long as the first, which holds at
/// least the two border columns, and a size whose tile grid can be allocated.
pub open spec fn map_text_ok(bytes: Seq<u8>) -> bool {
    let rows = map_rows(bytes);
    &&& rows.len() >= 2
    &&& rows[0].len() >= 2
    &&& forall|r: int| 0 <= r < rows.len() ==> (#[trigger] rows[r]).len() == rows[0].len()
    &&& 2 * map_width(bytes) <= u32::MAX
    &&& 2 * map_height(bytes) <= u32::MAX
    &&& valid_dimensions([(2 * map_width(bytes)) as u32, (2 * map_height(bytes)) as u32])
}

/// The entity that a character of a map text places: a tech lab of the player or of the
/// first enemy, or a fuel rift.
pub open spec fn map_symbol(c: u8) -> Option<(EntityType, Team)> {
    if c == '1' as u8 {
        Some((EntityType::TechLab, Team::Player))
    } else if c == '2' as u8 {
        Some((EntityType::TechLab, Team::Enemy1))
    } else if c == 'R' as u8 {
        Some((EntityType::FuelRift, Team::Neutral))
    } else {
        None
    }
}

/// The entities that the cells of a map placed before `[x, y]` (column by column, each from
/// the top) put on the map, with their positions.
pub open spec fn placements_before(rows: Seq<Seq<u8>>, h: nat, x: nat, y: nat) -> Seq<(EntityType, [u32; 2], Team)>
    decreases x, y,
{
    if y == 0 {
        if x == 0 {
            Seq::empty()
        } else {
            placements_before(rows, h, (x - 1) as nat, h)
        }
    } else {
        let prev = placements_before(rows, h, x, (y - 1) as nat);
        match map_symbol(rows[y as int][x + 1int]) {
            Some((entity_type, team)) => prev.push((entity_type, [x as u32, (y - 1) as u32], team)),
            None => prev,
        }
    }
}

proof fn lemma_placements_len(rows: Seq<Seq<u8>>, h: nat, x: nat, y: nat)
    requires
        y <= h,
    ensures
        placements_before(rows, h, x, y).len() <= x * h + y,
    decreases x, y,
{
    if y == 0 {
        if x > 0 {
            lemma_placements_len(rows, h, (x - 1) as nat, h);
            assert((x - 1) * h + h == x * h) by (nonlinear_arith);
        }
    } else {
        lemma_placements_len(rows, h, x, (y - 1) as nat);
    }
}

/// Where the rows of a text lie: the start and the length of each line.
fn split_lines(bytes: &[u8]) -> (bounds: Vec<(usize, usize)>)
    ensures
        bounds@.len() == map_rows(bytes@).len(),
        forall|r: int| 0 <= r < bounds@.len() ==> {
            &&& (#[trigger] bounds@[r]).0 + bounds@[r].1 <= bytes@.len()
            &&& map_rows(bytes@)[r] == bytes@.subrange(bounds@[r].0 as int, bounds@[r].0 + bounds@[r].1)
        },
{
    let n = bytes.len();
    let mut bounds: Vec<(usize, usize)> = Vec::new();
    let mut pos: usize = 0;
    while pos < n
        invariant
            n == bytes@.len(),
            pos <= n,
            forall|r: int| 0 <= r < bounds@.len() ==> (#[trigger] bounds@[r]).0 + bounds@[r].1 <= n,
            map_rows(bytes@) == Seq::new(
                bounds@.len(),
                |r: int| bytes@.subrange(bounds@[r].0 as int, bounds@[r].0 + bounds@[r].1),
            ) + lines_from(bytes@, pos as int),
        decreases n - pos,
    {
        let mut end = pos;
        while end < n && bytes[end] != 10u8
            invariant
                n == bytes@.len(),
                pos <= end <= n,
                pos < n,
                line_end(bytes@, pos as int) == line_end(bytes@, end as int),
            decreases n - end,
        {
            end = end + 1;
        }
        proof {
            lemma_line_end(bytes@, pos as int);
        }
        let mut len = end - pos;
        if end < n && len > 0 && bytes[end - 1] == 13u8 {
            len = len - 1;
        }
        let ghost old_bounds = bounds@;
        bounds.push((pos, len));
        proof {
            let b = bytes@;
            let raw = b.subrange(pos as int, end as int);
            assert(lines_from(b, pos as int) == seq![b.subrange(pos as int, pos + len)] + lines_from(b, end + 1)) by {
                if end < n && raw.len() > 0 && raw.last() == 13u8 {
                    assert(raw.drop_last() =~= b.subrange(pos as int, pos + len));
                } else {
                    assert(raw =~= b.subrange(pos as int, pos + len));
                }
            }
            let before_rows = Seq::new(
                old_bounds.len(),
                |r: int| b.subrange(old_bounds[r].0 as int, old_bounds[r].0 + old_bounds[r].1),
            );
            let after_rows = Seq::new(
                bounds@.len(),
                |r: int| b.subrange(bounds@[r].0 as int, bounds@[r].0 + bounds@[r].1),
            );
            assert(after_rows =~= before_rows.push(b.subrange(pos as int, pos + len)));
            if end < n {
                assert(map_rows(b) =~= after_rows + lines_from(b, end + 1));
            } else {
                assert(lines_from(b, end + 1) =~= Seq::<Seq<u8>>::empty());
                assert(map_rows(b) =~= after_rows + lines_from(b, n as int));
            }
        }
        pos = if end < n {
            end + 1
        } else {
            n
        };
    }
    proof {
        assert(lines_from(bytes@, pos as int) =~= Seq::<Seq<u8>>::empty());
    }
    bounds
}

/// Whether `[x, y]` is a cell of the water grid that holds land.
pub open spec fn land_at(water_grid: Grid<bool>, x: int, y: int) -> bool {
    &&& 0 <= x <= u32::MAX
    &&& 0 <= y <= u32::MAX
    &&& water_grid.cell([x as u32, y as u32]) == Some(false)
}

/// Whether `[x, y]` is a cell of the water grid that holds water.
pub open spec fn water_at(water_grid: Grid<bool>, x: int, y: int) -> bool {
    &&& 0 <= x <= u32::MAX
    &&& 0 <= y <= u32::MAX
    &&& water_grid.cell([x as u32, y as u32]) == Some(true)
}

/// The tile of one corner of a water cell, from the land on its two sides and on the
/// diagonal between them: a corner when both sides are land, an edge when one is, a concave
/// corner when only the diagonal is, and open water otherwise.
pub open spec fn corner_tile(
    side_a: bool,
    side_b: bool,
    diagonal: bool,
    corner: TileId,
    edge_a: TileId,
    edge_b: TileId,
    concave: TileId,
) -> TileId {
    if side_a && side_b {
        corner
    } else if side_a {
        edge_a
    } else if side_b {
        edge_b
    } else if diagonal {
        concave
    } else {
        TileId::WaterCenter
    }
}

/// The tile at `[tx, ty]` of the tile grid, which has two by two tiles per cell of the
/// water grid.
pub open spec fn spec_tile(water_grid: Grid<bool>, tx: int, ty: int) -> TileId {
    let x = tx / 2;
    let y = ty / 2;
    let n = land_at(water_grid, x, y - 1);
    let ne = land_at(water_grid, x + 1, y - 1);
    let e = land_at(water_grid, x + 1, y);
    let se = land_at(water_grid, x + 1, y + 1);
    let s = land_at(water_grid, x, y + 1);
    let sw = land_at(water_grid, x - 1, y + 1);
    let w = land_at(water_grid, x - 1, y);
    let nw = land_at(water_grid, x - 1, y - 1);
    if !water_at(water_grid, x, y) {
        TileId::Ground
    } else if tx % 2 == 1 && ty % 2 == 0 {
        corner_tile(n, e, ne, TileId::WaterCornerNE, TileId::WaterEdgeNorth, TileId::WaterEdgeEast, TileId::WaterConcaveNE)
    } else if tx % 2 == 1 {
        corner_tile(s, e, se, TileId::WaterCornerSE, TileId::WaterEdgeSouth, TileId::WaterEdgeEast, TileId::WaterConcaveSE)
    } else if ty % 2 == 1 {
        corner_tile(s, w, sw, TileId::WaterCornerSW, TileId::WaterEdgeSouth, TileId::WaterEdgeWest, TileId::WaterConcaveSW)
    } else {
        corner_tile(n, w, nw, TileId::WaterCornerNW, TileId::WaterEdgeNorth, TileId::WaterEdgeWest, TileId::WaterConcaveNW)
    }
}

/// Whether a tile shows land to the east of its water: an east edge or an eastern corner.
pub open spec fn shows_land_east(tile: TileId) -> bool {
    tile == TileId::WaterEdgeEast || tile == TileId::WaterCornerNE || tile == TileId::WaterCornerSE
}

/// Whether a tile shows land to the west of its water.
pub open spec fn shows_land_west(tile: TileId) -> bool {
    tile == TileId::WaterEdgeWest || tile == TileId::WaterCornerNW || tile == TileId::WaterCornerSW
}

/// Whether a tile shows land to the north of its water.
pub open spec fn shows_land_north(tile: TileId) -> bool {
    tile == TileId::WaterEdgeNorth || tile == TileId::WaterCornerNE || tile == TileId::WaterCornerNW
}

/// Whether a tile shows land to the south of its water.
pub open spec fn shows_land_south(tile: TileId) -> bool {
    tile == TileId::WaterEdgeSouth || tile == TileId::WaterCornerSE || tile == TileId::WaterCornerSW
}

/// The diagonal on which a concave corner tile shows land, as steps in x and y.
pub open spec fn concave_diagonal(tile: TileId) -> Option<(int, int)> {
    match tile {
        TileId::WaterConcaveNE => Some((1, -1)),
        TileId::WaterConcaveSE => Some((1, 1)),
        TileId::WaterConcaveSW => Some((-1, 1)),
        TileId::WaterConcaveNW => Some((-1, -1)),
        _ => None,
    }
}

/// Every tile of the tile grid made for a water grid faces the land around the quarter of
/// the cell it covers (two by two tiles per cell). A land cell is all
/// ground. A quarter of a water cell touches one horizontal side (east for the right half,
/// west for the left) and one vertical side (north for the top half, south for the bottom):
/// its tile shows land on a side exactly when that side is one the quarter touches and holds
/// land, shows a concave corner exactly when neither touched side holds land but the cell on
/// the diagonal between them does, and is open water when there is no land around it.
pub proof fn law_tiles_face_the_land(tile_grid: Grid<TileId>, water_grid: Grid<bool>, p: [u32; 2])
    requires
        tiles_match(tile_grid, water_grid),
        in_bounds(tile_grid.spec_dimensions(), p),
    ensures
        tile_grid.cell(p) is Some,
        ({
            let tile = tile_grid.cell(p)->Some_0;
            let tx = p[0] as int;
            let ty = p[1] as int;
            let x = tx / 2;
            let y = ty / 2;
            let dx: int = if tx % 2 == 1 { 1 } else { -1 };
            let dy: int = if ty % 2 == 0 { -1 } else { 1 };
            let side_x = land_at(water_grid, x + dx, y);
            let side_y = land_at(water_grid, x, y + dy);
            let diagonal = land_at(water_grid, x + dx, y + dy);
            &&& (tile == TileId::Ground) == !water_at(water_grid, x, y)
            &&& water_at(water_grid, x, y) ==> {
                &&& shows_land_east(tile) == (dx == 1 && side_x)
                &&& shows_land_west(tile) == (dx == -1 && side_x)
                &&& shows_land_north(tile) == (dy == -1 && side_y)
                &&& shows_land_south(tile) == (dy == 1 && side_y)
                &&& (concave_diagonal(tile) is Some) == (!side_x && !side_y && diagonal)
                &&& concave_diagonal(tile) matches Some(d) ==> d == (dx, dy)
                &&& (tile == TileId::WaterCenter) == (!side_x && !side_y && !diagonal)
            }
        }),
{
    assert(tile_grid.cell(p) == Some(spec_tile(water_grid, p[0] as int, p[1] as int)));
}

/// What the tile grid of a water grid needs: doubled dimensions that can be allocated.
pub open spec fn tile_dimensions_ok(dimensions: [u32; 2]) -> bool {
    &&& 2 * dimensions[0] <= u32::MAX
    &&& 2 * dimensions[1] <= u32::MAX
    &&& valid_dimensions([(2 * dimensions[0]) as u32, (2 * dimensions[1]) as u32])
}

/// Whether the cell at `[x, y]` is land.
fn is_land(water_grid: &Grid<bool>, x: u32, y: u32) -> (land: bool)
    requires
        water_grid.wf(),
    ensures
        land == land_at(*water_grid, x as int, y as int),
{
    match water_grid.get(&[x, y]) {
        Some(water) => !water,
        None => false,
    }
}

/// The tiles drawn for a water grid: two by two tiles per cell; land is ground, and each
/// quarter of a water cell is picked from the land next to that corner.
#[verifier::rlimit(40)]
pub fn create_tile_grid(water_grid: &Grid<bool>) -> (tile_grid: Grid<TileId>)
    requires
        water_grid.wf(),
        tile_dimensions_ok(water_grid.spec_dimensions()),
    ensures
        tiles_match(tile_grid, *water_grid),
{
    let dims = water_grid.dimensions();
    let w = dims[0];
    let h = dims[1];
    let tile_dims = [w * 2, h * 2];
    let mut tile_grid: Grid<TileId> = Grid::new(tile_dims);
    let mut x: u32 = 0;
    while x < w
        invariant
            water_grid.wf(),
            tile_grid.wf(),
            dims == water_grid.spec_dimensions(),
            w == dims[0],
            h == dims[1],
            tile_dims == [(2 * w) as u32, (2 * h) as u32],
            2 * w <= u32::MAX,
            2 * h <= u32::MAX,
            tile_grid.spec_dimensions() == tile_dims,
            x <= w,
            forall|p: [u32; 2]| in_bounds(tile_dims, p) ==> #[trigger] tile_grid.cell(p) == if p[0]
                / 2 < x {
                Some(spec_tile(*water_grid, p[0] as int, p[1] as int))
            } else {
                Some(TileId::Ground)
            },
        decreases w - x,
    {
        let mut y: u32 = 0;
        while y < h
            invariant
                water_grid.wf(),
                tile_grid.wf(),
                dims == water_grid.spec_dimensions(),
                w == dims[0],
                h == dims[1],
                tile_dims == [(2 * w) as u32, (2 * h) as u32],
                2 * w <= u32::MAX,
                2 * h <= u32::MAX,
                tile_grid.spec_dimensions() == tile_dims,
                x < w,
                y <= h,
                forall|p: [u32; 2]| in_bounds(tile_dims, p) ==> #[trigger] tile_grid.cell(p) == if p[0]
                    / 2 < x || (p[0] / 2 == x && p[1] / 2 < y) {
                    Some(spec_tile(*water_grid, p[0] as int, p[1] as int))
                } else {
                    Some(TileId::Ground)
                },
            decreases h - y,
        {
            let ghost before = tile_grid;
            let is_water = match water_grid.get(&[x, y]) {
                Some(water) => water,
                None => false,
            };
            if is_water {
                let land_n = y > 0 && is_land(water_grid, x, y - 1);
                let land_ne = x + 1 < w && y > 0 && is_land(water_grid, x + 1, y - 1);
                let land_e = x + 1 < w && is_land(water_grid, x + 1, y);
                let land_se = x + 1 < w && y + 1 < h && is_land(water_grid, x + 1, y + 1);
                let land_s = y + 1 < h && is_land(water_grid, x, y + 1);
                let land_sw = x > 0 && y + 1 < h && is_land(water_grid, x - 1, y + 1);
                let land_w = x > 0 && is_land(water_grid, x - 1, y);
                let land_nw = x > 0 && y > 0 && is_land(water_grid, x - 1, y - 1);
                proof {
                    let g = *water_grid;
                    if y > 0 {
                        g.lemma_cell_in_bounds([(x + 1) as u32, (y - 1) as u32]);
                    }
                    g.lemma_cell_in_bounds([(x + 1) as u32, (y + 1) as u32]);
                    g.lemma_cell_in_bounds([x, (y + 1) as u32]);
                    if x > 0 {
                        g.lemma_cell_in_bounds([(x - 1) as u32, (y + 1) as u32]);
                    }
                    g.lemma_cell_in_bounds([(x + 1) as u32, y]);
                    assert(land_n == land_at(g, x as int, y - 1));
                    assert(land_ne == land_at(g, x + 1, y - 1));
                    assert(land_e == land_at(g, x + 1, y as int));
                    assert(land_se == land_at(g, x + 1, y + 1));
                    assert(land_s == land_at(g, x as int, y + 1));
                    assert(land_sw == land_at(g, x - 1, y + 1));
                    assert(land_w == land_at(g, x - 1, y as int));
                    assert(land_nw == land_at(g, x - 1, y - 1));
                }
                let topright = if land_n && land_e {
                    TileId::WaterCornerNE
                } else if land_n {
                    TileId::WaterEdgeNorth
                } else if land_e {
                    TileId::WaterEdgeEast
                } else if land_ne {
                    TileId::WaterConcaveNE
                } else {
                    TileId::WaterCenter
                };
                tile_grid.set([x * 2 + 1, y * 2], topright);
                let botright = if land_s && land_e {
                    TileId::WaterCornerSE
                } else if land_s {
                    TileId::WaterEdgeSouth
                } else if land_e {
                    TileId::WaterEdgeEast
                } else if land_se {
                    TileId::WaterConcaveSE
                } else {
                    TileId::WaterCenter
                };
                tile_grid.set([x * 2 + 1, y * 2 + 1], botright);
                let botleft = if land_s && land_w {
                    TileId::WaterCornerSW
                } else if land_s {
                    TileId::WaterEdgeSouth
                } else if land_w {
                    TileId::WaterEdgeWest
                } else if land_sw {
                    TileId::WaterConcaveSW
                } else {
                    TileId::WaterCenter
                };
                tile_grid.set([x * 2, y * 2 + 1], botleft);
                let topleft = if land_n && land_w {
                    TileId::WaterCornerNW
                } else if land_n {
                    TileId::WaterEdgeNorth
                } else if land_w {
                    TileId::WaterEdgeWest
                } else if land_nw {
                    TileId::WaterConcaveNW
                } else {
                    TileId::WaterCenter
                };
                tile_grid.set([x * 2, y * 2], topleft);
                proof {
                    assert(water_at(*water_grid, x as int, y as int));
                }
            } else {
                tile_grid.set_area(CellRect { position: [x * 2, y * 2], size: [2, 2] }, TileId::Ground);
                proof {
                    water_grid.lemma_cell_in_bounds([x, y]);
                    assert(!water_at(*water_grid, x as int, y as int));
                }
            }
            proof {
                assert forall|p: [u32; 2]| in_bounds(tile_dims, p) implies #[trigger] tile_grid.cell(p)
                    == if p[0] / 2 < x || (p[0] / 2 == x && p[1] / 2 < y + 1) {
                    Some(spec_tile(*water_grid, p[0] as int, p[1] as int))
                } else {
                    Some(TileId::Ground)
                } by {
                    if p[0] / 2 == x && p[1] / 2 == y {
                        assert(p[0] == 2 * x || p[0] == 2 * x + 1);
                        assert(p[1] == 2 * y || p[1] == 2 * y + 1);
                        if p[0] == 2 * x && p[1] == 2 * y {
                            assert(p =~= [(x * 2) as u32, (y * 2) as u32]);
                        } else if p[0] == 2 * x {
                            assert(p =~= [(x * 2) as u32, (y * 2 + 1) as u32]);
                        } else if p[1] == 2 * y {
                            assert(p =~= [(x * 2 + 1) as u32, (y * 2) as u32]);
                        } else {
                            assert(p =~= [(x * 2 + 1) as u32, (y * 2 + 1) as u32]);
                        }
                    } else {
                        assert(tile_grid.cell(p) == before.cell(p));
                    }
                }
            }
            y = y + 1;
        }
        proof {
            assert forall|p: [u32; 2]| in_bounds(tile_dims, p) implies #[trigger] tile_grid.cell(p) == if p[0]
                / 2 < x + 1 {
                Some(spec_tile(*water_grid, p[0] as int, p[1] as int))
            } else {
                Some(TileId::Ground)
            } by {
                if p[0] / 2 == x {
                    assert(p[1] / 2 < h);
                }
            }
        }
        x = x + 1;
    }
    tile_grid
}

} // verus!

verus! {

/// Whether the entities are created, with ids counted from one, at the given placements.
pub open spec fn entities_placed(entities: Seq<Entity>, placements: Seq<(EntityType, [u32; 2], Team)>) -> bool {
    &&& entities.len() == placements.len()
    &&& forall|i: int| 0 <= i < entities.len() ==> is_created(
        #[trigger] entities[i],
        EntityId((i + 1) as usize),
        placements[i].0,
        placements[i].1,
        placements[i].2,
    )
}

/// What a map read from a text is: the map's size, water where the text has `W`, the tiles
/// of that water, and the entities of the symbols, column by column.
pub open spec fn loaded_from_text(data: WorldInitData, bytes: Seq<u8>) -> bool {
    let rows = map_rows(bytes);
    let w = map_width(bytes);
    let h = map_height(bytes);
    &&& data.dimensions == [w as u32, h as u32]
    &&& data.water_grid.wf()
    &&& data.water_grid.spec_dimensions() == data.dimensions
    &&& forall|p: [u32; 2]| in_bounds(data.dimensions, p) ==> #[trigger] data.water_grid.cell(p) == Some(
        rows[p[1] + 1][p[0] + 1] == 'W' as u8,
    )
    &&& tiles_match(data.tile_grid, data.water_grid)
    &&& entities_placed(data.entities@, placements_before(rows, h as nat, w as nat, 0))
}

/// Whether a map text can be read as a map (see `map_text_ok`): at least two rows, all as long
/// as the first, which holds at least the two border columns, and a size whose tile grid
/// can be allocated.
pub fn map_text_is_ok(map: &String) -> (ok: bool)
    ensures
        ok == map_text_ok(vstd::utf8::encode_utf8(map@)),
{
    let s = map.as_str();
    let bytes = s.as_bytes();
    let ghost text = bytes@;
    proof {
        assert(s@ == map@);
        assert(text == vstd::utf8::encode_utf8(map@));
    }
    let rows = split_lines(bytes);
    let ghost spec_rows = map_rows(text);
    if rows.len() < 2 {
        return false;
    }
    let first = rows[0].1;
    if first < 2 {
        return false;
    }
    let n = rows.len();
    let mut r: usize = 0;
    while r < n
        invariant
            n == rows@.len(),
            n == spec_rows.len(),
            n >= 2,
            first >= 2,
            text == vstd::utf8::encode_utf8(map@),
            spec_rows == map_rows(text),
            r <= n,
            first == spec_rows[0].len(),
            forall|q: int| 0 <= q < rows@.len() ==> (#[trigger] rows@[q]).1 == spec_rows[q].len(),
            forall|q: int| 0 <= q < r ==> (#[trigger] spec_rows[q]).len() == first,
        decreases n - r,
    {
        if rows[r].1 != first {
            return false;
        }
        r = r + 1;
    }
    let w: u128 = (first - 2) as u128;
    let h: u128 = (n - 2) as u128;
    proof {
        assert(w == map_width(text));
        assert(h == map_height(text));
    }
    if w > 0x7fff_ffff || h > 0x7fff_ffff {
        return false;
    }
    proof {
        assert((2 * w) * (2 * h) <= 0x4_0000_0000_0000_0000) by (nonlinear_arith)
            requires
                w <= 0x7fff_ffff,
                h <= 0x7fff_ffff,
        ;
    }
    let tiles = (2 * w) * (2 * h);
    proof {
        let dims = [(2 * map_width(text)) as u32, (2 * map_height(text)) as u32];
        assert(dims[0] == 2 * w && dims[1] == 2 * h);
        assert(valid_dimensions(dims) == (tiles <= u32::MAX));
    }
    tiles <= 0xffff_ffff
}

impl WorldInitData {
    /// Reads a map from the text of a map file. The text is framed by a border: its first
    /// and last rows and columns hold no cells. Inside, `W` is water, `1` a tech lab of the
    /// player, `2` a tech lab of the first enemy and `R` a fuel rift placed at that cell.
    pub fn load_from_file_contents(map: String) -> (data: Self)
        requires
            map_text_ok(vstd::utf8::encode_utf8(map@)),
        ensures
            loaded_from_text(data, vstd::utf8::encode_utf8(map@)),
    {
        let bytes = map.as_str().as_bytes();
        let ghost text = bytes@;
        let n = bytes.len();
        let rows = split_lines(bytes);
        let ghost spec_rows = map_rows(text);
        let w_usize = rows[0].1 - 2;
        let h_usize = rows.len() - 2;
        let w = w_usize as u32;
        let h = h_usize as u32;
        proof {
            assert(rows@[0].1 == spec_rows[0].len());
            assert(valid_dimensions([w, h])) by (nonlinear_arith)
                requires
                    (2 * w) * (2 * h) <= u32::MAX,
            ;
            assert(w * h <= u32::MAX / 4) by (nonlinear_arith)
                requires
                    (2 * w) * (2 * h) <= u32::MAX,
            ;
        }
        let mut entities: Vec<Entity> = Vec::new();
        let mut water_grid: Grid<bool> = Grid::new([w, h]);
        let mut x: u32 = 0;
        while x < w
            invariant
                text == bytes@,
                n == text.len(),
                spec_rows == map_rows(text),
                map_text_ok(text),
                rows@.len() == spec_rows.len(),
                forall|r: int| 0 <= r < rows@.len() ==> {
                    &&& (#[trigger] rows@[r]).0 + rows@[r].1 <= text.len()
                    &&& spec_rows[r] == text.subrange(rows@[r].0 as int, rows@[r].0 + rows@[r].1)
                },
                w == map_width(text),
                h == map_height(text),
                w * h <= u32::MAX / 4,
                x <= w,
                water_grid.wf(),
                water_grid.spec_dimensions() == [w, h],
                forall|p: [u32; 2]| in_bounds([w, h], p) ==> #[trigger] water_grid.cell(p) == Some(
                    p[0] < x && spec_rows[p[1] + 1][p[0] + 1] == 'W' as u8,
                ),
                entities_placed(entities@, placements_before(spec_rows, h as nat, x as nat, 0)),
            decreases w - x,
        {
            let mut y: u32 = 0;
            while y < h
                invariant
                    text == bytes@,
                    n == text.len(),
                    spec_rows == map_rows(text),
                    map_text_ok(text),
                    rows@.len() == spec_rows.len(),
                    forall|r: int| 0 <= r < rows@.len() ==> {
                        &&& (#[trigger] rows@[r]).0 + rows@[r].1 <= text.len()
                        &&& spec_rows[r] == text.subrange(rows@[r].0 as int, rows@[r].0 + rows@[r].1)
                    },
                    w == map_width(text),
                    h == map_height(text),
                    w * h <= u32::MAX / 4,
                    x < w,
                    y <= h,
                    water_grid.wf(),
                    water_grid.spec_dimensions() == [w, h],
                    forall|p: [u32; 2]| in_bounds([w, h], p) ==> #[trigger] water_grid.cell(p) == Some(
                        (p[0] < x || (p[0] == x && p[1] < y)) && spec_rows[p[1] + 1][p[0] + 1] == 'W' as u8,
                    ),
                    entities_placed(entities@, placements_before(spec_rows, h as nat, x as nat, y as nat)),
                decreases h - y,
            {
                let row = rows[(y + 1) as usize];
                proof {
                    assert(spec_rows[y + 1].len() == spec_rows[0].len());
                    assert(rows@[y + 1] == row);
                    assert(spec_rows[y + 1] == text.subrange(row.0 as int, row.0 + row.1));
                    assert(row.1 == spec_rows[y + 1].len());
                    assert(row.1 == w + 2);
                }
                let c = bytes[row.0 + x as usize + 1];
                proof {
                    assert(c == spec_rows[y + 1][x + 1]);
                    lemma_placements_len(spec_rows, h as nat, x as nat, y as nat);
                    assert(x * h + y + 1 <= w * h) by (nonlinear_arith)
                        requires
                            x < w,
                            y < h,
                    ;
                }
                let ghost before_grid = water_grid;
                let ghost before_entities = entities@;
                let next_id = EntityId(entities.len() + 1);
                if c == 'W' as u8 {
                    water_grid.set([x, y], true);
                } else if c == '1' as u8 {
                    entities.push(create_entity(next_id, EntityType::TechLab, [x, y], Team::Player));
                } else if c == '2' as u8 {
                    entities.push(create_entity(next_id, EntityType::TechLab, [x, y], Team::Enemy1));
                } else if c == 'R' as u8 {
                    entities.push(create_entity(next_id, EntityType::FuelRift, [x, y], Team::Neutral));
                }
                proof {
                    assert forall|p: [u32; 2]| in_bounds([w, h], p) implies #[trigger] water_grid.cell(p) == Some(
                        (p[0] < x || (p[0] == x && p[1] < y + 1)) && spec_rows[p[1] + 1][p[0] + 1] == 'W' as u8,
                    ) by {
                        if p[0] == x && p[1] == y {
                            assert(p =~= [x, y]);
                        } else {
                            assert(water_grid.cell(p) == before_grid.cell(p));
                        }
                    }
                    let pl = placements_before(spec_rows, h as nat, x as nat, (y + 1) as nat);
                    assert(pl == match map_symbol(spec_rows[(y + 1) as int][x + 1int]) {
                        Some((entity_type, team)) => placements_before(spec_rows, h as nat, x as nat, y as nat).push((entity_type, [x, y], team)),
                        None => placements_before(spec_rows, h as nat, x as nat, y as nat),
                    });
                    assert forall|i: int| 0 <= i < entities@.len() implies is_created(
                        #[trigger] entities@[i],
                        EntityId((i + 1) as usize),
                        pl[i].0,
                        pl[i].1,
                        pl[i].2,
                    ) by {
                        if i < before_entities.len() {
                            assert(entities@[i] == before_entities[i]);
                        }
                    }
                }
                y = y + 1;
            }
            x = x + 1;
        }
        proof {
            assert forall|p: [u32; 2]| in_bounds([w, h], p) implies #[trigger] water_grid.cell(p) == Some(
                spec_rows[p[1] + 1][p[0] + 1] == 'W' as u8,
            ) by {
            }
            assert((2 * w) as u32 == 2 * w);
        }
        let tile_grid = create_tile_grid(&water_grid);
        WorldInitData { dimensions: [w, h], entities, water_grid, tile_grid }
    }
}

} // verus!

verus! {

/// The size of the world of each kind of map.
pub open spec fn map_dimensions(map_type: MapType) -> [u32; 2] {
    match map_type {
        MapType::LoadTest => [100, 100],
        _ => [30, 20],
    }
}

/// Whether a cell of a created map may be water: every fourth column, two cells out of three.
pub open spec fn water_candidate(x: int, y: int) -> bool {
    x % 4 == 0 && y % 3 < 2
}

/// The entities that each kind of map starts with, before those on water are taken out:
/// the player's (except when spectating), a fuel rift, and the enemies of the map.
pub open spec fn fixed_placements(map_type: MapType) -> Seq<(EntityType, [u32; 2], Team)> {
    let player = if map_type != MapType::Spectator {
        seq![
            (EntityType::Engineer, [6u32, 2u32], Team::Player),
            (EntityType::Enforcer, [8u32, 2u32], Team::Player),
            (EntityType::TechLab, [1u32, 6u32], Team::Player),
        ]
    } else {
        Seq::empty()
    };
    let rift = seq![(EntityType::FuelRift, [6u32, 4u32], Team::Neutral)];
    let others = match map_type {
        MapType::Small => seq![
            (EntityType::Enforcer, [7u32, 7u32], Team::Enemy1),
            (EntityType::TechLab, [1u32, 2u32], Team::Enemy1),
        ],
        MapType::Medium => seq![
            (EntityType::Engineer, [5u32, 2u32], Team::Enemy1),
            (EntityType::Engineer, [3u32, 0u32], Team::Enemy1),
            (EntityType::Engineer, [0u32, 4u32], Team::Enemy1),
            (EntityType::Engineer, [3u32, 4u32], Team::Enemy1),
            (EntityType::TechLab, [8u32, 4u32], Team::Enemy1),
        ],
        MapType::Spectator => seq![
            (EntityType::Engineer, [5u32, 2u32], Team::Enemy1),
            (EntityType::Engineer, [5u32, 4u32], Team::Enemy2),
        ],
        _ => Seq::empty(),
    };
    player + rift + others
}

/// What the randomly placed units of a load test are: engineers and enforcers of the player
/// or of the first enemy, from the sixth row and column on, at most one per cell, row by row.
pub open spec fn load_test_placements_ok(extra: Seq<(EntityType, [u32; 2], Team)>) -> bool {
    &&& forall|i: int| 0 <= i < extra.len() ==> {
        &&& 5 <= (#[trigger] extra[i]).1[0] < 100
        &&& 5 <= extra[i].1[1] < 100
        &&& (extra[i].0 == EntityType::Engineer || extra[i].0 == EntityType::Enforcer)
        &&& (extra[i].2 == Team::Player || extra[i].2 == Team::Enemy1)
    }
    &&& forall|i: int, j: int| 0 <= i < j < extra.len() ==> {
        ||| (#[trigger] extra[i]).1[1] < (#[trigger] extra[j]).1[1]
        ||| (extra[i].1[1] == extra[j].1[1] && extra[i].1[0] < extra[j].1[0])
    }
}

/// Whether some cell of `rect` is water.
pub open spec fn covers_water(water_grid: Grid<bool>, rect: CellRect) -> bool {
    exists|cell: [u32; 2]| #[trigger] rect.spec_contains(cell) && water_grid.cell(cell) == Some(true)
}

/// The cells that an entity of this type at this position covers.
pub open spec fn placement_rect(entity_type: EntityType, position: [u32; 2]) -> CellRect {
    CellRect { position, size: crate::data::spec_entity_size(entity_type) }
}

/// The indices of the first `n` placements that are not on water, in order.
pub open spec fn dry_indices(
    placements: Seq<(EntityType, [u32; 2], Team)>,
    water_grid: Grid<bool>,
    n: nat,
) -> Seq<int>
    decreases n,
{
    if n == 0 {
        Seq::empty()
    } else {
        let rest = dry_indices(placements, water_grid, (n - 1) as nat);
        let p = placements[n - 1];
        if covers_water(water_grid, placement_rect(p.0, p.1)) {
            rest
        } else {
            rest.push(n - 1)
        }
    }
}

/// Whether the entities are those created at the placements (with ids counted from one)
/// that are not on water, in order.
pub open spec fn entities_kept(
    entities: Seq<Entity>,
    placements: Seq<(EntityType, [u32; 2], Team)>,
    water_grid: Grid<bool>,
) -> bool {
    let kept = dry_indices(placements, water_grid, placements.len());
    &&& entities.len() == kept.len()
    &&& forall|i: int| 0 <= i < entities.len() ==> is_created(
        #[trigger] entities[i],
        EntityId((kept[i] + 1) as usize),
        placements[kept[i]].0,
        placements[kept[i]].1,
        placements[kept[i]].2,
    )
}

/// Whether some cell of `rect` is water.
fn rect_has_water(water_grid: &Grid<bool>, rect: CellRect) -> (wet: bool)
    requires
        water_grid.wf(),
        rect.position[0] + rect.size[0] <= u32::MAX,
        rect.position[1] + rect.size[1] <= u32::MAX,
    ensures
        wet == covers_water(*water_grid, rect),
{
    let x_end = rect.position[0] + rect.size[0];
    let y_end = rect.position[1] + rect.size[1];
    let mut x = rect.position[0];
    while x < x_end
        invariant
            water_grid.wf(),
            rect.position[0] <= x <= x_end,
            x_end == rect.position[0] + rect.size[0],
            y_end == rect.position[1] + rect.size[1],
            forall|cell: [u32; 2]| rect.spec_contains(cell) && cell[0] < x ==> #[trigger] water_grid.cell(cell) != Some(true),
        decreases x_end - x,
    {
        let mut y = rect.position[1];
        while y < y_end
            invariant
                water_grid.wf(),
                rect.position[0] <= x < x_end,
                rect.position[1] <= y <= y_end,
                x_end == rect.position[0] + rect.size[0],
                y_end == rect.position[1] + rect.size[1],
                forall|cell: [u32; 2]| rect.spec_contains(cell) && (cell[0] < x || (cell[0] == x && cell[1] < y)) ==> #[trigger] water_grid.cell(cell) != Some(true),
            decreases y_end - y,
        {
            match water_grid.get(&[x, y]) {
                Some(true) => {
                    assert(rect.spec_contains([x, y]));
                    return true;
                },
                _ => {},
            }
            proof {
                assert forall|cell: [u32; 2]| rect.spec_contains(cell) && (cell[0] < x || (cell[0] == x && cell[1] < y + 1)) implies #[trigger] water_grid.cell(cell) != Some(true) by {
                    if cell[0] == x && cell[1] == y {
                        assert(cell =~= [x, y]);
                    }
                }
            }
            y = y + 1;
        }
        x = x + 1;
    }
    false
}


/// Creates an entity at a placement, with the next id, and adds it to the list.
fn push_created(
    entities: &mut Vec<Entity>,
    Ghost(placements): Ghost<Seq<(EntityType, [u32; 2], Team)>>,
    entity_type: EntityType,
    position: [u32; 2],
    team: Team,
)
    requires
        entities_placed(old(entities)@, placements),
        old(entities)@.len() < 1_000_000,
    ensures
        entities_placed(final(entities)@, placements.push((entity_type, position, team))),
{
    let id = EntityId(entities.len() + 1);
    let ghost before = entities@;
    entities.push(create_entity(id, entity_type, position, team));
    proof {
        let pl = placements.push((entity_type, position, team));
        assert forall|i: int| 0 <= i < entities@.len() implies is_created(
            #[trigger] entities@[i],
            EntityId((i + 1) as usize),
            pl[i].0,
            pl[i].1,
            pl[i].2,
        ) by {
            if i < before.len() {
                assert(entities@[i] == before[i]);
            }
        }
    }
}

/// The entities that a kind of map starts with, before those on water are taken out.
fn fixed_entities(map_type: MapType) -> (entities: Vec<Entity>)
    ensures
        entities_placed(entities@, fixed_placements(map_type)),
{
    let mut entities: Vec<Entity> = Vec::new();
    let ghost mut pl: Seq<(EntityType, [u32; 2], Team)> = Seq::empty();
    match map_type {
        MapType::Spectator => {},
        _ => {
            push_created(&mut entities, Ghost(pl), EntityType::Engineer, [6, 2], Team::Player);
            proof { pl = pl.push((EntityType::Engineer, [6u32, 2u32], Team::Player)); }
            push_created(&mut entities, Ghost(pl), EntityType::Enforcer, [8, 2], Team::Player);
            proof { pl = pl.push((EntityType::Enforcer, [8u32, 2u32], Team::Player)); }
            push_created(&mut entities, Ghost(pl), EntityType::TechLab, [1, 6], Team::Player);
            proof { pl = pl.push((EntityType::TechLab, [1u32, 6u32], Team::Player)); }
        },
    }
    push_created(&mut entities, Ghost(pl), EntityType::FuelRift, [6, 4], Team::Neutral);
    proof { pl = pl.push((EntityType::FuelRift, [6u32, 4u32], Team::Neutral)); }
    match map_type {
        MapType::Small => {
            push_created(&mut entities, Ghost(pl), EntityType::Enforcer, [7, 7], Team::Enemy1);
            proof { pl = pl.push((EntityType::Enforcer, [7u32, 7u32], Team::Enemy1)); }
            push_created(&mut entities, Ghost(pl), EntityType::TechLab, [1, 2], Team::Enemy1);
            proof { pl = pl.push((EntityType::TechLab, [1u32, 2u32], Team::Enemy1)); }
        },
        MapType::Medium => {
            push_created(&mut entities, Ghost(pl), EntityType::Engineer, [5, 2], Team::Enemy1);
            proof { pl = pl.push((EntityType::Engineer, [5u32, 2u32], Team::Enemy1)); }
            push_created(&mut entities, Ghost(pl), EntityType::Engineer, [3, 0], Team::Enemy1);
            proof { pl = pl.push((EntityType::Engineer, [3u32, 0u32], Team::Enemy1)); }
            push_created(&mut entities, Ghost(pl), EntityType::Engineer, [0, 4], Team::Enemy1);
            proof { pl = pl.push((EntityType::Engineer, [0u32, 4u32], Team::Enemy1)); }
            push_created(&mut entities, Ghost(pl), EntityType::Engineer, [3, 4], Team::Enemy1);
            proof { pl = pl.push((EntityType::Engineer, [3u32, 4u32], Team::Enemy1)); }
            push_created(&mut entities, Ghost(pl), EntityType::TechLab, [8, 4], Team::Enemy1);
            proof { pl = pl.push((EntityType::TechLab, [8u32, 4u32], Team::Enemy1)); }
        },
        MapType::Spectator => {
            push_created(&mut entities, Ghost(pl), EntityType::Engineer, [5, 2], Team::Enemy1);
            proof { pl = pl.push((EntityType::Engineer, [5u32, 2u32], Team::Enemy1)); }
            push_created(&mut entities, Ghost(pl), EntityType::Engineer, [5, 4], Team::Enemy2);
            proof { pl = pl.push((EntityType::Engineer, [5u32, 4u32], Team::Enemy2)); }
        },
        _ => {},
    }
    proof {
        assert(pl =~= fixed_placements(map_type));
    }
    entities
}

/// A water grid for a created map: each cell that may be water is water with a chance of
/// four in five.
fn random_water_grid(rng: &mut ThreadRng, dimensions: [u32; 2]) -> (water_grid: Grid<bool>)
    requires
        valid_dimensions(dimensions),
    ensures
        water_grid.wf(),
        water_grid.spec_dimensions() == dimensions,
        forall|p: [u32; 2]| #[trigger] water_grid.cell(p) == Some(true) ==> water_candidate(p[0] as int, p[1] as int),
{
    let mut water_grid: Grid<bool> = Grid::new(dimensions);
    let mut x: u32 = 0;
    while x < dimensions[0]
        invariant
            water_grid.wf(),
            water_grid.spec_dimensions() == dimensions,
            forall|p: [u32; 2]| #[trigger] water_grid.cell(p) == Some(true) ==> water_candidate(p[0] as int, p[1] as int),
        decreases dimensions[0] - x,
    {
        let mut y: u32 = 0;
        while y < dimensions[1]
            invariant
                water_grid.wf(),
                water_grid.spec_dimensions() == dimensions,
                x < dimensions[0],
                forall|p: [u32; 2]| #[trigger] water_grid.cell(p) == Some(true) ==> water_candidate(p[0] as int, p[1] as int),
            decreases dimensions[1] - y,
        {
            let water_cell = x % 4 == 0 && y % 3 < 2;
            if water_cell && random_ratio(rng, 4, 5) {
                water_grid.set([x, y], true);
            }
            y = y + 1;
        }
        x = x + 1;
    }
    water_grid
}

/// Places the units of a load test: each cell from the sixth row and column on gets, with a
/// chance of one in five, an engineer or an enforcer (even chances) of the player or of
/// the first enemy (even chances). Returns their placements, row by row.
fn random_load_test_units(rng: &mut ThreadRng) -> (extra: Vec<(EntityType, [u32; 2], Team)>)
    ensures
        load_test_placements_ok(extra@),
        extra@.len() <= 95 * 95,
{
    let mut extra: Vec<(EntityType, [u32; 2], Team)> = Vec::new();
    let mut y: u32 = 5;
    while y < 100
        invariant
            5 <= y <= 100,
            load_test_placements_ok(extra@),
            forall|i: int| 0 <= i < extra@.len() ==> (#[trigger] extra@[i]).1[1] < y,
            extra@.len() <= (y - 5) * 95,
        decreases 100 - y,
    {
        let mut x: u32 = 5;
        while x < 100
            invariant
                5 <= y < 100,
                5 <= x <= 100,
                load_test_placements_ok(extra@),
                forall|i: int| 0 <= i < extra@.len() ==> {
                    ||| (#[trigger] extra@[i]).1[1] < y
                    ||| (extra@[i].1[1] == y && extra@[i].1[0] < x)
                },
                extra@.len() <= (y - 5) * 95 + (x - 5),
            decreases 100 - x,
        {
            if random_ratio(rng, 1, 5) {
                let team = if random_ratio(rng, 1, 2) {
                    Team::Player
                } else {
                    Team::Enemy1
                };
                let entity_type = if random_ratio(rng, 1, 2) {
                    EntityType::Engineer
                } else {
                    EntityType::Enforcer
                };
                extra.push((entity_type, [x, y], team));
            }
            x = x + 1;
        }
        y = y + 1;
    }
    extra
}

/// Adds an entity for each of `extra`, with ids that go on from those in the list.
fn push_all_created(
    entities: &mut Vec<Entity>,
    Ghost(placements): Ghost<Seq<(EntityType, [u32; 2], Team)>>,
    extra: &Vec<(EntityType, [u32; 2], Team)>,
)
    requires
        entities_placed(old(entities)@, placements),
        old(entities)@.len() + extra@.len() < 1_000_000,
    ensures
        entities_placed(final(entities)@, placements + extra@),
{
    let n = extra.len();
    let ghost start_len = entities@.len();
    let mut k: usize = 0;
    proof {
        assert(placements + extra@.take(0) =~= placements);
    }
    while k < n
        invariant
            n == extra@.len(),
            k <= n,
            entities_placed(entities@, placements + extra@.take(k as int)),
            entities@.len() == start_len + k,
            start_len + n < 1_000_000,
        decreases n - k,
    {
        let (entity_type, position, team) = extra[k];
        push_created(entities, Ghost(placements + extra@.take(k as int)), entity_type, position, team);
        proof {
            assert((placements + extra@.take(k as int)).push(extra@[k as int]) =~= placements + extra@.take(k + 1));
        }
        k = k + 1;
    }
    proof {
        assert(extra@.take(n as int) =~= extra@);
    }
}

/// Keeps the entities that do not stand on water, in order.
fn keep_dry(
    entities: Vec<Entity>,
    water_grid: &Grid<bool>,
    Ghost(placements): Ghost<Seq<(EntityType, [u32; 2], Team)>>,
) -> (kept: Vec<Entity>)
    requires
        water_grid.wf(),
        entities_placed(entities@, placements),
        forall|i: int| 0 <= i < placements.len() ==> (#[trigger] placements[i]).1[0] < 1000 && placements[i].1[1] < 1000,
    ensures
        entities_kept(kept@, placements, *water_grid),
{
    let mut rest = entities;
    let mut kept: Vec<Entity> = Vec::new();
    let n = rest.len();
    let ghost all = rest@;
    let mut k: usize = 0;
    while k < n
        invariant
            water_grid.wf(),
            n == all.len(),
            k <= n,
            entities_placed(all, placements),
            forall|i: int| 0 <= i < placements.len() ==> (#[trigger] placements[i]).1[0] < 1000 && placements[i].1[1] < 1000,
            rest@ == all.skip(k as int),
            kept@.len() == dry_indices(placements, *water_grid, k as nat).len(),
            forall|i: int| 0 <= i < kept@.len() ==> {
                let d = dry_indices(placements, *water_grid, k as nat);
                is_created(
                    #[trigger] kept@[i],
                    EntityId((d[i] + 1) as usize),
                    placements[d[i]].0,
                    placements[d[i]].1,
                    placements[d[i]].2,
                )
            },
            forall|i: int| 0 <= i < dry_indices(placements, *water_grid, k as nat).len() ==> 0 <= #[trigger] dry_indices(placements, *water_grid, k as nat)[i] < k,
        decreases n - k,
    {
        let entity = rest.remove(0);
        proof {
            assert(entity == all[k as int]);
            assert(rest@ =~= all.skip(k + 1));
            assert(is_created(all[k as int], EntityId((k + 1) as usize), placements[k as int].0, placements[k as int].1, placements[k as int].2));
        }
        let rect = entity.cell_rect();
        proof {
            assert(rect == placement_rect(placements[k as int].0, placements[k as int].1));
        }
        let wet = rect_has_water(water_grid, rect);
        let ghost d0 = dry_indices(placements, *water_grid, k as nat);
        if !wet {
            kept.push(entity);
        }
        proof {
            let d1 = dry_indices(placements, *water_grid, (k + 1) as nat);
            assert(d1 == if wet { d0 } else { d0.push(k as int) });
            assert forall|i: int| 0 <= i < kept@.len() implies {
                let d = dry_indices(placements, *water_grid, (k + 1) as nat);
                is_created(
                    #[trigger] kept@[i],
                    EntityId((d[i] + 1) as usize),
                    placements[d[i]].0,
                    placements[d[i]].1,
                    placements[d[i]].2,
                )
            } by {
                if !wet && i == kept@.len() - 1 {
                    assert(d1[i] == k);
                } else {
                    assert(d1[i] == d0[i]);
                }
            }
            assert forall|i: int| 0 <= i < d1.len() implies 0 <= #[trigger] d1[i] < k + 1 by {
                if i < d0.len() {
                    assert(d1[i] == d0[i]);
                }
            }
        }
        k = k + 1;
    }
    kept
}

/// Whether the tile grid holds the tiles of the water grid.
pub open spec fn tiles_match(tile_grid: Grid<TileId>, water_grid: Grid<bool>) -> bool {
    &&& tile_grid.wf()
    &&& tile_grid.spec_dimensions() == [
        (2 * water_grid.spec_dimensions()[0]) as u32,
        (2 * water_grid.spec_dimensions()[1]) as u32,
    ]
    &&& forall|p: [u32; 2]| in_bounds(tile_grid.spec_dimensions(), p) ==> #[trigger] tile_grid.cell(p)
        == Some(spec_tile(water_grid, p[0] as int, p[1] as int))
}

impl WorldInitData {
    /// Creates a map of the given kind: water is placed at random on the cells that may be
    /// water, the entities of the kind of map (and, for a load test, units placed at random)
    /// are created, and those that would stand on water are left out.
    pub fn create_from_type(map_type: MapType) -> (data: Self)
        ensures
            data.dimensions == map_dimensions(map_type),
            data.water_grid.wf(),
            data.water_grid.spec_dimensions() == data.dimensions,
            forall|p: [u32; 2]| #[trigger] data.water_grid.cell(p) == Some(true) ==> water_candidate(p[0] as int, p[1] as int),
            tiles_match(data.tile_grid, data.water_grid),
            map_type != MapType::LoadTest ==> entities_kept(data.entities@, fixed_placements(map_type), data.water_grid),
            map_type == MapType::LoadTest ==> exists|extra: Seq<(EntityType, [u32; 2], Team)>|
                load_test_placements_ok(extra) && entities_kept(
                    data.entities@,
                    fixed_placements(map_type) + extra,
                    data.water_grid,
                ),
    {
        let dimensions: [u32; 2] = match map_type {
            MapType::LoadTest => [100, 100],
            _ => [30, 20],
        };
        let mut rng = new_thread_rng();
        let water_grid = random_water_grid(&mut rng, dimensions);
        let extra = match map_type {
            MapType::LoadTest => random_load_test_units(&mut rng),
            _ => Vec::new(),
        };
        proof {
            if map_type != MapType::LoadTest {
                assert(fixed_placements(map_type) + extra@ =~= fixed_placements(map_type));
            }
        }
        Self::from_layout(map_type, water_grid, extra)
    }

    /// Puts a map of the given kind together from its water and the units placed on it
    /// besides those of the kind of map: the tiles are drawn for the water, and the entities
    /// that would stand on water are left out.
    pub fn from_layout(
        map_type: MapType,
        water_grid: Grid<bool>,
        extra: Vec<(EntityType, [u32; 2], Team)>,
    ) -> (data: Self)
        requires
            water_grid.wf(),
            water_grid.spec_dimensions() == map_dimensions(map_type),
            extra@.len() < 100_000,
            forall|i: int| 0 <= i < extra@.len() ==> (#[trigger] extra@[i]).1[0] < 1000 && extra@[i].1[1] < 1000,
        ensures
            data.dimensions == map_dimensions(map_type),
            data.water_grid == water_grid,
            tiles_match(data.tile_grid, data.water_grid),
            entities_kept(data.entities@, fixed_placements(map_type) + extra@, data.water_grid),
    {
        let dimensions: [u32; 2] = match map_type {
            MapType::LoadTest => [100, 100],
            _ => [30, 20],
        };
        proof {
            if dimensions[0] == 100 {
                assert(dimensions =~= [100u32, 100u32]);
                assert([(2 * 100u32) as u32, (2 * 100u32) as u32] =~= [200u32, 200u32]);
                assert(valid_dimensions([200u32, 200u32])) by (nonlinear_arith);
                assert(tile_dimensions_ok([100u32, 100u32]));
            } else {
                assert(dimensions =~= [30u32, 20u32]);
                assert([(2 * 30u32) as u32, (2 * 20u32) as u32] =~= [60u32, 40u32]);
                assert(valid_dimensions([60u32, 40u32])) by (nonlinear_arith);
                assert(tile_dimensions_ok([30u32, 20u32]));
            }
        }
        let tile_grid = create_tile_grid(&water_grid);
        let mut entities = fixed_entities(map_type);
        let ghost fixed = fixed_placements(map_type);
        push_all_created(&mut entities, Ghost(fixed), &extra);
        let ghost placements = fixed + extra@;
        proof {
            assert forall|i: int| 0 <= i < placements.len() implies (#[trigger] placements[i]).1[0] < 1000 && placements[i].1[1] < 1000 by {
                if i >= fixed.len() {
                    assert(placements[i] == extra@[i - fixed.len()]);
                }
            }
        }
        let kept = keep_dry(entities, &water_grid, Ghost(placements));
        WorldInitData { dimensions, entities: kept, water_grid, tile_grid }
    }
}

/// Whether `a` comes before `b` when the cells are walked column by column, each from the top.
pub open spec fn column_major_before(a: [u32; 2], b: [u32; 2]) -> bool {
    a[0] < b[0] || (a[0] == b[0] && a[1] < b[1])
}

/// The water cells of a water grid, column by column, each from the top.
pub fn water_cells(water_grid: &Grid<bool>) -> (cells: Vec<[u32; 2]>)
    requires
        water_grid.wf(),
    ensures
        forall|k: int| 0 <= k < cells@.len() ==> #[trigger] water_grid.cell(cells@[k]) == Some(true),
        forall|p: [u32; 2]| #[trigger] water_grid.cell(p) == Some(true) ==> cells@.contains(p),
        forall|i: int, j: int| 0 <= i < j < cells@.len() ==> column_major_before(#[trigger] cells@[i], #[trigger] cells@[j]),
{
    let dims = water_grid.dimensions();
    let mut cells: Vec<[u32; 2]> = Vec::new();
    let mut x: u32 = 0;
    while x < dims[0]
        invariant
            water_grid.wf(),
            dims == water_grid.spec_dimensions(),
            x <= dims[0],
            forall|k: int| 0 <= k < cells@.len() ==> #[trigger] water_grid.cell(cells@[k]) == Some(true),
            forall|k: int| 0 <= k < cells@.len() ==> (#[trigger] cells@[k])[0] < x,
            forall|p: [u32; 2]| #[trigger] water_grid.cell(p) == Some(true) && p[0] < x ==> cells@.contains(p),
            forall|i: int, j: int| 0 <= i < j < cells@.len() ==> column_major_before(#[trigger] cells@[i], #[trigger] cells@[j]),
        decreases dims[0] - x,
    {
        let mut y: u32 = 0;
        while y < dims[1]
            invariant
                water_grid.wf(),
                dims == water_grid.spec_dimensions(),
                x < dims[0],
                y <= dims[1],
                forall|k: int| 0 <= k < cells@.len() ==> #[trigger] water_grid.cell(cells@[k]) == Some(true),
                forall|k: int| 0 <= k < cells@.len() ==> column_major_before(#[trigger] cells@[k], [x, y]),
                forall|p: [u32; 2]| #[trigger] water_grid.cell(p) == Some(true) && column_major_before(p, [x, y]) ==> cells@.contains(p),
                forall|i: int, j: int| 0 <= i < j < cells@.len() ==> column_major_before(#[trigger] cells@[i], #[trigger] cells@[j]),
            decreases dims[1] - y,
        {
            let ghost before = cells@;
            if water_grid.get(&[x, y]) == Some(true) {
                cells.push([x, y]);
                proof {
                    assert(cells@[cells@.len() - 1] == [x, y]);
                }
            }
            proof {
                assert forall|p: [u32; 2]| #[trigger] water_grid.cell(p) == Some(true) && column_major_before(p, [x, (y + 1) as u32]) implies cells@.contains(p) by {
                    if p[0] == x && p[1] == y {
                        assert(p =~= [x, y]);
                        assert(cells@[cells@.len() - 1] == p);
                    } else {
                        assert(before.contains(p));
                        let i = choose|i: int| 0 <= i < before.len() && before[i] == p;
                        assert(cells@[i] == p);
                    }
                }
            }
            y = y + 1;
        }
        proof {
            assert forall|p: [u32; 2]| #[trigger] water_grid.cell(p) == Some(true) && p[0] < x + 1 implies cells@.contains(p) by {
                water_grid.lemma_cell_in_bounds(p);
                assert(column_major_before(p, [x, y]));
            }
        }
        x = x + 1;
    }
    proof {
        assert forall|p: [u32; 2]| #[trigger] water_grid.cell(p) == Some(true) implies cells@.contains(p) by {
            water_grid.lemma_cell_in_bounds(p);
        }
    }
    cells
}

/// The lines joined into one text, each followed by a newline.
pub open spec fn joined(lines: Seq<Seq<u8>>) -> Seq<u8>
    decreases lines.len(),
{
    if lines.len() == 0 {
        Seq::empty()
    } else {
        joined(lines.drop_last()) + lines.last() + seq![10u8]
    }
}

/// The first entity standing at `position`, if any.
pub open spec fn first_entity_at(entities: Seq<Entity>, position: [u32; 2]) -> Option<Entity>
    decreases entities.len(),
{
    if entities.len() == 0 {
        None
    } else if entities[0].position == position {
        Some(entities[0])
    } else {
        first_entity_at(entities.drop_first(), position)
    }
}

/// The first entity standing on the cell `[x, y]`, if any.
pub open spec fn first_at_cell(entities: Seq<Entity>, x: u32, y: u32) -> Option<Entity> {
    first_entity_at(entities, [x, y])
}

/// The character of a map file for an entity: `1` for a tech lab of the player, `2` for one
/// of the first enemy, `R` for a fuel rift; other entities have none.
pub open spec fn entity_symbol(entity_type: EntityType, team: Team) -> Option<u8> {
    if entity_type == EntityType::TechLab && team == Team::Player {
        Some('1' as u8)
    } else if entity_type == EntityType::TechLab && team == Team::Enemy1 {
        Some('2' as u8)
    } else if entity_type == EntityType::FuelRift && team == Team::Neutral {
        Some('R' as u8)
    } else {
        None
    }
}

/// The character of a map file for the cell `[x, y]`: `W` for water, else the symbol of
/// the first entity standing there, else a space.
pub open spec fn cell_symbol(water_grid: Grid<bool>, entities: Seq<Entity>, x: int, y: int) -> u8 {
    if water_at(water_grid, x, y) {
        'W' as u8
    } else {
        match first_at_cell(entities, x as u32, y as u32) {
            Some(e) => entity_symbol(e.entity_type, e.team)->0,
            None => ' ' as u8,
        }
    }
}

/// Whether every entity that a map file would show has a symbol: the first entity on each
/// cell without water.
pub open spec fn entities_have_symbols(water_grid: Grid<bool>, entities: Seq<Entity>) -> bool {
    forall|x: u32, y: u32|
        #![trigger first_at_cell(entities, x, y)]
        in_bounds(water_grid.spec_dimensions(), [x, y]) && !water_at(water_grid, x as int, y as int)
            ==> (first_at_cell(entities, x, y) matches Some(e) ==> entity_symbol(
            e.entity_type,
            e.team,
        ) is Some)
}

/// The border line of a map file: `X` over the width and the two border columns.
pub open spec fn border_line(width: int) -> Seq<u8> {
    Seq::new((width + 2) as nat, |i: int| 'X' as u8)
}

/// The line of a map file for row `y`: a border `X`, the cells, and another `X`.
pub open spec fn row_line(water_grid: Grid<bool>, entities: Seq<Entity>, y: int) -> Seq<u8> {
    let w = water_grid.spec_dimensions()[0] as int;
    seq!['X' as u8] + Seq::new(w as nat, |x: int| cell_symbol(water_grid, entities, x, y)) + seq!['X' as u8]
}

/// The lines of the map file of a water grid and its entities.
pub open spec fn map_lines(water_grid: Grid<bool>, entities: Seq<Entity>) -> Seq<Seq<u8>> {
    let w = water_grid.spec_dimensions()[0] as int;
    let h = water_grid.spec_dimensions()[1] as int;
    seq![border_line(w)] + Seq::new(h as nat, |y: int| row_line(water_grid, entities, y)) + seq![border_line(w)]
}

/// The symbol of the first entity at `position`, if one stands there.
fn symbol_at(entities: &[Entity], position: [u32; 2]) -> (symbol: Option<u8>)
    requires
        first_entity_at(entities@, position) matches Some(e) ==> entity_symbol(e.entity_type, e.team) is Some,
    ensures
        symbol == match first_entity_at(entities@, position) {
            Some(e) => entity_symbol(e.entity_type, e.team),
            None => None,
        },
{
    let n = entities.len();
    let mut k: usize = 0;
    proof {
        assert(entities@.skip(0) =~= entities@);
    }
    while k < n
        invariant
            n == entities@.len(),
            k <= n,
            first_entity_at(entities@, position) == first_entity_at(entities@.skip(k as int), position),
        decreases n - k,
    {
        proof {
            assert(entities@.skip(k as int).drop_first() =~= entities@.skip(k + 1));
            assert(entities@.skip(k as int)[0] == entities@[k as int]);
        }
        if entities[k].position[0] == position[0] && entities[k].position[1] == position[1] {
            let e = &entities[k];
            proof {
                assert(e.position =~= position);
            }
            return if e.entity_type == EntityType::TechLab && e.team == Team::Player {
                Some('1' as u8)
            } else if e.entity_type == EntityType::TechLab && e.team == Team::Enemy1 {
                Some('2' as u8)
            } else if e.entity_type == EntityType::FuelRift && e.team == Team::Neutral {
                Some('R' as u8)
            } else {
                None
            };
        }
        k = k + 1;
    }
    None
}

/// Appends a line and its newline to the text.
fn push_line(text: &mut Vec<u8>, line: &Vec<u8>, Ghost(lines): Ghost<Seq<Seq<u8>>>)
    requires
        old(text)@ == joined(lines),
        old(text)@.len() + line@.len() + 1 <= usize::MAX,
    ensures
        final(text)@ == joined(lines.push(line@)),
        final(text)@.len() == old(text)@.len() + line@.len() + 1,
{
    let ghost start = text@;
    let n = line.len();
    let mut k: usize = 0;
    while k < n
        invariant
            n == line@.len(),
            k <= n,
            text@ == start + line@.take(k as int),
            start.len() + n + 1 <= usize::MAX,
        decreases n - k,
    {
        text.push(line[k]);
        proof {
            assert(line@.take(k + 1) =~= line@.take(k as int).push(line@[k as int]));
            assert(text@ =~= start + line@.take(k + 1));
        }
        k = k + 1;
    }
    text.push(10u8);
    proof {
        assert(lines.push(line@).drop_last() =~= lines);
        assert(line@.take(n as int) =~= line@);
        assert(text@ =~= joined(lines.push(line@)));
    }
}

/// The text of a map file for a water grid and its entities: a border line, one line per
/// row of cells framed by border characters, and another border line. A cell shows `W` for
/// water, else the symbol of the first entity standing there, else a space.
pub fn map_file_contents(water_grid: &Grid<bool>, entities: &[Entity]) -> (text: Vec<u8>)
    requires
        water_grid.wf(),
        entities_have_symbols(*water_grid, entities@),
        (water_grid.spec_dimensions()[0] + 3) * (water_grid.spec_dimensions()[1] + 2) <= usize::MAX,
    ensures
        text@ == joined(map_lines(*water_grid, entities@)),
{
    let dims = water_grid.dimensions();
    let w = dims[0];
    let h = dims[1];
    let ghost lines = map_lines(*water_grid, entities@);
    proof {
        assert(lines.len() == h + 2);
        assert((w + 3) * (h + 2) == (w + 3) * h + 2 * (w + 3)) by (nonlinear_arith);
    }
    let mut text: Vec<u8> = Vec::new();
    let mut border: Vec<u8> = Vec::new();
    let border_len: u64 = w as u64 + 2;
    let mut i: u64 = 0;
    while i < border_len
        invariant
            border_len == w + 2,
            i <= border_len,
            border@ == Seq::new(i as nat, |j: int| 'X' as u8),
        decreases border_len - i,
    {
        border.push('X' as u8);
        proof {
            assert(border@ =~= Seq::new((i + 1) as nat, |j: int| 'X' as u8));
        }
        i = i + 1;
    }
    proof {
        assert(border@ =~= border_line(w as int));
        assert(text@ =~= joined(lines.take(0)));
        assert(lines.take(1) =~= lines.take(0).push(border@));
    }
    push_line(&mut text, &border, Ghost(lines.take(0)));
    let mut y: u32 = 0;
    while y < h
        invariant
            water_grid.wf(),
            dims == water_grid.spec_dimensions(),
            w == dims[0],
            h == dims[1],
            y <= h,
            lines == map_lines(*water_grid, entities@),
            entities_have_symbols(*water_grid, entities@),
            border@ == border_line(w as int),
            text@ == joined(lines.take(y + 1)),
            text@.len() == (y + 1) * (w + 3),
            (w + 3) * (h + 2) <= usize::MAX,
        decreases h - y,
    {
        let mut row: Vec<u8> = Vec::new();
        row.push('X' as u8);
        let mut x: u32 = 0;
        while x < w
            invariant
                water_grid.wf(),
                dims == water_grid.spec_dimensions(),
                w == dims[0],
                h == dims[1],
                y < h,
                x <= w,
                entities_have_symbols(*water_grid, entities@),
                row@ == seq!['X' as u8] + Seq::new(x as nat, |j: int| cell_symbol(*water_grid, entities@, j, y as int)),
            decreases w - x,
        {
            let is_water = match water_grid.get(&[x, y]) {
                Some(water) => water,
                None => false,
            };
            let symbol = if is_water {
                'W' as u8
            } else {
                proof {
                    water_grid.lemma_cell_in_bounds([x, y]);
                    assert(in_bounds(water_grid.spec_dimensions(), [x, y]));
                    assert(first_at_cell(entities@, x, y) matches Some(e) ==> entity_symbol(e.entity_type, e.team) is Some);
                }
                match symbol_at(entities, [x, y]) {
                    Some(s) => s,
                    None => ' ' as u8,
                }
            };
            row.push(symbol);
            proof {
                assert(symbol == cell_symbol(*water_grid, entities@, x as int, y as int));
                assert(row@ =~= seq!['X' as u8] + Seq::new((x + 1) as nat, |j: int| cell_symbol(*water_grid, entities@, j, y as int)));
            }
            x = x + 1;
        }
        row.push('X' as u8);
        proof {
            assert(row@ =~= row_line(*water_grid, entities@, y as int));
            assert(row@.len() == w + 2);
            assert(lines[y + 1] == row_line(*water_grid, entities@, y as int));
            assert(lines.take(y + 2) =~= lines.take(y + 1).push(row@));
            assert((y + 2) * (w + 3) <= (w + 3) * (h + 2)) by (nonlinear_arith)
                requires
                    y < h,
            ;
            assert((y + 1) * (w + 3) + (w + 3) == (y + 2) * (w + 3)) by (nonlinear_arith);
        }
        push_line(&mut text, &row, Ghost(lines.take(y + 1)));
        y = y + 1;
    }
    proof {
        assert(lines[h + 1] == border_line(w as int));
        assert(lines.take(h + 2) =~= lines.take(h + 1).push(border@));
        assert((h + 1) * (w + 3) + (w + 3) == (w + 3) * (h + 2)) by (nonlinear_arith);
    }
    push_line(&mut text, &border, Ghost(lines.take(h + 1)));
    proof {
        assert(lines.take(h + 2) =~= lines);
    }
    text
}

proof fn lemma_line_end_at(bytes: Seq<u8>, start: int, end: int)
    requires
        0 <= start <= end < bytes.len(),
        forall|i: int| start <= i < end ==> bytes[i] != 10u8,
        bytes[end] == 10u8,
    ensures
        line_end(bytes, start) == end,
    decreases end - start,
{
    if start < end {
        lemma_line_end_at(bytes, start + 1, end);
    }
}

proof fn lemma_joined_front(line: Seq<u8>, rest: Seq<Seq<u8>>)
    ensures
        joined(seq![line] + rest) == line + seq![10u8] + joined(rest),
    decreases rest.len(),
{
    if rest.len() == 0 {
        assert(seq![line] + rest =~= seq![line]);
        assert(seq![line].drop_last() =~= Seq::<Seq<u8>>::empty());
        assert(joined(Seq::<Seq<u8>>::empty()) =~= Seq::<u8>::empty());
        assert(seq![line].last() == line);
        assert(joined(seq![line]) =~= line + seq![10u8]);
        assert(joined(rest) =~= Seq::<u8>::empty());
    } else {
        lemma_joined_front(line, rest.drop_last());
        assert((seq![line] + rest).drop_last() =~= seq![line] + rest.drop_last());
        assert((seq![line] + rest).last() == rest.last());
        assert(joined(seq![line] + rest) =~= line + seq![10u8] + joined(rest));
    }
}

/// Whether a line can stand in a text that is split into lines again: it holds no newline
/// and does not end with a carriage return.
pub open spec fn plain_line(line: Seq<u8>) -> bool {
    &&& forall|i: int| 0 <= i < line.len() ==> line[i] != 10u8
    &&& line.len() > 0 ==> line.last() != 13u8
}

/// Plain lines joined with newlines split back into the same lines.
pub proof fn lemma_lines_of_joined(prefix: Seq<u8>, lines: Seq<Seq<u8>>)
    requires
        forall|i: int| 0 <= i < lines.len() ==> plain_line(#[trigger] lines[i]),
    ensures
        lines_from(prefix + joined(lines), prefix.len() as int) == lines,
    decreases lines.len(),
{
    let bytes = prefix + joined(lines);
    if lines.len() == 0 {
        assert(joined(lines) =~= Seq::<u8>::empty());
        assert(lines_from(bytes, prefix.len() as int) =~= lines);
    } else {
        let line = lines[0];
        let rest = lines.drop_first();
        assert(lines =~= seq![line] + rest);
        lemma_joined_front(line, rest);
        let next_prefix = prefix + line + seq![10u8];
        assert(bytes =~= next_prefix + joined(rest));
        let start = prefix.len() as int;
        let end = start + line.len();
        assert(plain_line(lines[0]));
        assert forall|i: int| start <= i < end implies bytes[i] != 10u8 by {
            assert(bytes[i] == line[i - start]);
        }
        assert(bytes[end] == 10u8);
        lemma_line_end_at(bytes, start, end);
        assert(bytes.subrange(start, end) =~= line);
        assert forall|i: int| 0 <= i < rest.len() implies plain_line(#[trigger] rest[i]) by {
            assert(rest[i] == lines[i + 1]);
        }
        lemma_lines_of_joined(next_prefix, rest);
        assert(next_prefix.len() == end + 1);
        assert(lines_from(bytes, start) =~= seq![line] + rest);
    }
}

/// A map file written for a water grid and its entities reads back as the same map: the
/// text is a valid map text of the grid's size, a cell reads as water exactly where the grid
/// has water, and elsewhere it places the first entity standing on the cell.
pub proof fn lemma_map_file_round_trip(water_grid: Grid<bool>, entities: Seq<Entity>)
    requires
        water_grid.wf(),
        tile_dimensions_ok(water_grid.spec_dimensions()),
        entities_have_symbols(water_grid, entities),
    ensures
        map_text_ok(joined(map_lines(water_grid, entities))),
        map_width(joined(map_lines(water_grid, entities))) == water_grid.spec_dimensions()[0],
        map_height(joined(map_lines(water_grid, entities))) == water_grid.spec_dimensions()[1],
        forall|x: u32, y: u32|
            #![trigger map_rows(joined(map_lines(water_grid, entities)))[y + 1][x + 1]]
            in_bounds(water_grid.spec_dimensions(), [x, y]) ==> {
                let c = map_rows(joined(map_lines(water_grid, entities)))[y + 1][x + 1];
                &&& (c == 'W' as u8) == water_at(water_grid, x as int, y as int)
                &&& map_symbol(c) == if water_at(water_grid, x as int, y as int) {
                    None
                } else {
                    match first_at_cell(entities, x, y) {
                        Some(e) => Some((e.entity_type, e.team)),
                        None => None,
                    }
                }
            },
{
    let lines = map_lines(water_grid, entities);
    let text = joined(lines);
    let w = water_grid.spec_dimensions()[0] as int;
    let h = water_grid.spec_dimensions()[1] as int;
    assert forall|i: int| 0 <= i < lines.len() implies plain_line(#[trigger] lines[i]) by {
        if i == 0 || i == h + 1 {
            assert(lines[i] == border_line(w));
        } else {
            let row = row_line(water_grid, entities, i - 1);
            assert(lines[i] == row);
            assert forall|j: int| 0 <= j < row.len() implies row[j] != 10u8 by {
                if 1 <= j <= w {
                    assert(row[j] == cell_symbol(water_grid, entities, j - 1, i - 1));
                    let x = (j - 1) as u32;
                    let y = (i - 1) as u32;
                    if !water_at(water_grid, x as int, y as int) {
                        water_grid.lemma_cell_in_bounds([x, y]);
                        assert(first_at_cell(entities, x, y) matches Some(e) ==> entity_symbol(e.entity_type, e.team) is Some);
                    }
                }
            }
        }
    }
    lemma_lines_of_joined(Seq::empty(), lines);
    assert(Seq::<u8>::empty() + text =~= text);
    assert(map_rows(text) == lines);
    assert forall|r: int| 0 <= r < lines.len() implies (#[trigger] lines[r]).len() == lines[0].len() by {
    }
    assert forall|x: u32, y: u32|
        #![trigger map_rows(joined(map_lines(water_grid, entities)))[y + 1][x + 1]]
        in_bounds(water_grid.spec_dimensions(), [x, y]) implies {
            let c = map_rows(joined(map_lines(water_grid, entities)))[y + 1][x + 1];
            &&& (c == 'W' as u8) == water_at(water_grid, x as int, y as int)
            &&& map_symbol(c) == if water_at(water_grid, x as int, y as int) {
                None
            } else {
                match first_at_cell(entities, x, y) {
                    Some(e) => Some((e.entity_type, e.team)),
                    None => None,
                }
            }
        } by {
        let row = row_line(water_grid, entities, y as int);
        assert(lines[y + 1] == row);
        assert(row[x + 1] == cell_symbol(water_grid, entities, x as int, y as int));
        if !water_at(water_grid, x as int, y as int) {
            water_grid.lemma_cell_in_bounds([x, y]);
            assert(first_at_cell(entities, x, y) matches Some(e) ==> entity_symbol(e.entity_type, e.team) is Some);
        }
    }
}

} // verus!
