//! Web Mercator tile arithmetic on fixed-point coordinates.
//!
//! A position is a point of the unit Mercator square, each coordinate an
//! integer count of `1 / 2^32`: `x` grows eastwards from the antimeridian,
//! `y` southwards from the northern edge. For a longitude and latitude in
//! degrees these are `(lon + 180) / 360` and `(1 - asinh(tan(lat)) / pi) / 2`,
//! scaled by `2^32` and rounded down; that step is the caller's. Positions
//! outside the square, as near the poles, are representable and are pulled
//! onto the nearest tile.
//!
//! At zoom level `z` the square is a grid of `2^z` by `2^z` tiles. Since
//! `2^z` divides `2^32`, the tile under a position is found exactly.

use vstd::prelude::*;
use vstd::arithmetic::div_mod::*;

verus! {

/// The deepest zoom level of the tile grid.
pub const MAX_ZOOM: u8 = 19;

/// How many fixed-point units make up the whole side of the Mercator square.
pub const UNIT: u64 = 0x1_0000_0000;

/// Side length of the tile grid at a zoom level: two to the power `zoom`.
pub open spec fn grid_side(zoom: nat) -> nat
    decreases zoom,
{
    if zoom == 0 {
        1
    } else {
        2 * grid_side((zoom - 1) as nat)
    }
}

/// Width of one tile at a zoom level, in fixed-point units.
pub open spec fn cell_width(zoom: nat) -> nat {
    grid_side((32 - zoom) as nat)
}

/// `v` pulled into `0 ..= n - 1`.
pub open spec fn clamp_index(v: int, n: int) -> int {
    if v < 0 {
        0
    } else if v >= n {
        n - 1
    } else {
        v
    }
}

/// The grid index under a fixed-point coordinate, before clamping.
pub open spec fn raw_index(coord: int, zoom: nat) -> int {
    (coord * grid_side(zoom)) / (UNIT as int)
}

/// The grid index under a fixed-point coordinate.
pub open spec fn tile_index(coord: int, zoom: nat) -> int {
    clamp_index(raw_index(coord, zoom), grid_side(zoom) as int)
}

/// One cell of the tile grid.
#[derive(Clone, Copy, Debug, PartialEq, Eq, Structural)]
pub struct TileId {
    pub x: u32,
    pub y: u32,
    pub zoom: u8,
}

/// A position on the Mercator plane, in units of `1 / 2^32` of the square's side.
#[derive(Clone, Copy, Debug, PartialEq, Eq, Structural)]
pub struct MercatorPoint {
    pub x: i64,
    pub y: i64,
}

/// A position on the global pixel plane of a zoom level, in units of
/// `1 / 2^32` of a pixel.
#[derive(Clone, Copy, Debug, PartialEq, Eq, Structural)]
pub struct PixelPoint {
    pub x: i128,
    pub y: i128,
}

impl TileId {
    /// The zoom level exists and both indices lie on its grid.
    pub open spec fn wf(self) -> bool {
        &&& self.zoom <= MAX_ZOOM
        &&& self.x < grid_side(self.zoom as nat)
        &&& self.y < grid_side(self.zoom as nat)
    }
}

/// The tile that holds `point` at `zoom`.
pub open spec fn tile_of(point: MercatorPoint, zoom: u8) -> TileId {
    TileId {
        x: tile_index(point.x as int, zoom as nat) as u32,
        y: tile_index(point.y as int, zoom as nat) as u32,
        zoom,
    }
}

/// The pixel position of `point` at `zoom` with tiles of `tile_size` pixels.
pub open spec fn pixel_of(point: MercatorPoint, zoom: u8, tile_size: u32) -> PixelPoint {
    PixelPoint {
        x: (point.x * grid_side(zoom as nat) * tile_size) as i128,
        y: (point.y * grid_side(zoom as nat) * tile_size) as i128,
    }
}

/// A grid has at least one tile a side, and at most `2^19` up to the deepest
/// zoom level.
pub proof fn lemma_grid_side_bounds(zoom: nat)
    ensures
        grid_side(zoom) >= 1,
        zoom <= 32 ==> grid_side(zoom) <= 0x1_0000_0000,
        zoom <= 19 ==> grid_side(zoom) <= 0x8_0000,
    decreases zoom,
{
    lemma_grid_side_values();
    if zoom > 0 {
        lemma_grid_side_bounds((zoom - 1) as nat);
    }
    if zoom <= 32 {
        lemma_grid_side_monotonic(zoom, 32);
    }
    if zoom <= 19 {
        lemma_grid_side_monotonic(zoom, 19);
    }
}

/// The grid sides that the bounds of this module rest on.
pub proof fn lemma_grid_side_values()
    ensures
        grid_side(19) == 0x8_0000,
        grid_side(32) == 0x1_0000_0000,
{
    assert(grid_side(3) == 8 && grid_side(4) == 16) by {
        reveal_with_fuel(grid_side, 5);
    }
    lemma_grid_side_product(4, 4);
    assert(grid_side(8) == 256);
    lemma_grid_side_product(8, 8);
    assert(grid_side(16) == 0x1_0000);
    lemma_grid_side_product(16, 3);
    lemma_grid_side_product(16, 16);
}

/// A deeper zoom level never has fewer tiles a side.
pub proof fn lemma_grid_side_monotonic(a: nat, b: nat)
    requires
        a <= b,
    ensures
        grid_side(a) <= grid_side(b),
    decreases b,
{
    if a < b {
        lemma_grid_side_monotonic(a, (b - 1) as nat);
    }
}

/// Powers of two multiply by adding exponents.
pub proof fn lemma_grid_side_product(a: nat, b: nat)
    ensures
        grid_side(a) * grid_side(b) == grid_side(a + b),
    decreases a,
{
    if a == 0 {
        assert(grid_side(0) == 1);
        assert(1 * grid_side(b) == grid_side(b));
    } else {
        lemma_grid_side_product((a - 1) as nat, b);
        let p = grid_side((a - 1) as nat);
        let q = grid_side(b);
        assert((2 * p) * q == 2 * (p * q)) by (nonlinear_arith);
        assert(((a - 1) as nat) + b == (a + b - 1) as nat);
        assert(grid_side(a + b) == 2 * grid_side((a + b - 1) as nat));
        assert(grid_side(a) == 2 * p);
        assert(p * q == grid_side((a + b - 1) as nat));
    }
}

/// The tiles of a zoom level tile the whole side exactly.
pub proof fn lemma_cells_fill_side(zoom: nat)
    requires
        zoom <= 32,
    ensures
        grid_side(zoom) * cell_width(zoom) == UNIT,
{
    lemma_grid_side_product(zoom, (32 - zoom) as nat);
    lemma_grid_side_values();
}

/// Number of tiles along one side of the grid at `zoom`.
pub fn grid_size(zoom: u8) -> (n: u32)
    requires
        zoom <= MAX_ZOOM,
    ensures
        n == grid_side(zoom as nat),
        1 <= n <= 0x8_0000,
{
    let mut n: u32 = 1;
    let mut level: u8 = 0;
    proof {
        lemma_grid_side_bounds(zoom as nat);
    }
    while level < zoom
        invariant
            level <= zoom <= MAX_ZOOM,
            n == grid_side(level as nat),
            n <= grid_side(zoom as nat) <= 0x8_0000,
        decreases zoom - level,
    {
        proof {
            lemma_grid_side_monotonic((level + 1) as nat, zoom as nat);
        }
        n = n * 2;
        level = level + 1;
    }
    n
}

/// The grid index under `coord` on a grid of `n` tiles a side.
fn index_of(coord: i64, n: u32, Ghost(zoom): Ghost<nat>) -> (index: u32)
    requires
        zoom <= 19,
        n == grid_side(zoom),
    ensures
        index == tile_index(coord as int, zoom),
        index < n,
{
    proof {
        lemma_grid_side_bounds(zoom);
    }
    if coord < 0 {
        proof {
            let product = coord * grid_side(zoom);
            assert(product < 0) by (nonlinear_arith)
                requires
                    coord < 0,
                    grid_side(zoom) >= 1,
                    product == coord * grid_side(zoom),
            ;
            assert(product / (UNIT as int) < 0);
        }
        0
    } else {
        assert(coord * n <= 0x7fff_ffff_ffff_ffff * 0x8_0000) by (nonlinear_arith)
            requires
                0 <= coord <= 0x7fff_ffff_ffff_ffff,
                0 <= n <= 0x8_0000,
        ;
        let product: u128 = (coord as u128) * (n as u128);
        let raw: u128 = product / (UNIT as u128);
        assert(product == coord * grid_side(zoom));
        proof {
            assert(coord * grid_side(zoom) >= 0) by (nonlinear_arith)
                requires
                    coord >= 0,
            ;
        }
        if raw >= n as u128 {
            n - 1
        } else {
            raw as u32
        }
    }
}

/// Maps a position to the tile that holds it. Positions beyond an edge of
/// the square fall onto the nearest tile of the first or last row or column.
pub fn gps_to_tile(point: MercatorPoint, zoom: u8) -> (tile: TileId)
    requires
        zoom <= MAX_ZOOM,
    ensures
        tile == tile_of(point, zoom),
        tile.wf(),
        tile.zoom == zoom,
{
    let n = grid_size(zoom);
    let x = index_of(point.x, n, Ghost(zoom as nat));
    let y = index_of(point.y, n, Ghost(zoom as nat));
    TileId { x, y, zoom }
}

/// Maps a position to the global pixel plane of `zoom`, keeping the
/// fraction of a pixel: neither floored nor clamped.
pub fn point_to_pixel(point: MercatorPoint, zoom: u8, tile_size: u32) -> (pixel: PixelPoint)
    requires
        zoom <= MAX_ZOOM,
    ensures
        pixel == pixel_of(point, zoom, tile_size),
        pixel.x == point.x * grid_side(zoom as nat) * tile_size,
        pixel.y == point.y * grid_side(zoom as nat) * tile_size,
{
    let n = grid_size(zoom);
    proof {
        lemma_scaled_fits(point.x as int, n as int, tile_size as int);
        lemma_scaled_fits(point.y as int, n as int, tile_size as int);
    }
    let scale: i128 = (n as i128) * (tile_size as i128);
    proof {
        assert(point.x * n * tile_size == point.x * (n * tile_size)) by (nonlinear_arith);
        assert(point.y * n * tile_size == point.y * (n * tile_size)) by (nonlinear_arith);
    }
    PixelPoint { x: (point.x as i128) * scale, y: (point.y as i128) * scale }
}

/// A coordinate scaled to pixels fits in 128 bits with room to spare.
proof fn lemma_scaled_fits(coord: int, n: int, tile_size: int)
    requires
        -0x8000_0000_0000_0000 <= coord < 0x8000_0000_0000_0000,
        1 <= n <= 0x8_0000,
        0 <= tile_size < 0x1_0000_0000,
    ensures
        0 <= n * tile_size < 0x8_0000_0000_0000,
        -0x4_0000_0000_0000_0000_0000_0000_0000 <= coord * (n * tile_size)
            < 0x4_0000_0000_0000_0000_0000_0000_0000,
        -0x4_0000_0000_0000_0000_0000_0000_0000 <= coord * n * tile_size
            < 0x4_0000_0000_0000_0000_0000_0000_0000,
{
    assert(0 <= n * tile_size < 0x8_0000_0000_0000) by (nonlinear_arith)
        requires
            1 <= n <= 0x8_0000,
            0 <= tile_size < 0x1_0000_0000,
    ;
    let scale = n * tile_size;
    assert(-0x4_0000_0000_0000_0000_0000_0000_0000 <= coord * scale
        < 0x4_0000_0000_0000_0000_0000_0000_0000) by (nonlinear_arith)
        requires
            -0x8000_0000_0000_0000 <= coord < 0x8000_0000_0000_0000,
            0 <= scale < 0x8_0000_0000_0000,
    ;
    assert(coord * n * tile_size == coord * (n * tile_size)) by (nonlinear_arith);
}

/// The top-left corner of a tile.
pub open spec fn origin_of(tile: TileId) -> MercatorPoint {
    MercatorPoint {
        x: (tile.x * cell_width(tile.zoom as nat)) as i64,
        y: (tile.y * cell_width(tile.zoom as nat)) as i64,
    }
}

/// The middle of a tile.
pub open spec fn center_of(tile: TileId) -> MercatorPoint {
    MercatorPoint {
        x: (tile.x * cell_width(tile.zoom as nat) + cell_width(tile.zoom as nat) / 2) as i64,
        y: (tile.y * cell_width(tile.zoom as nat) + cell_width(tile.zoom as nat) / 2) as i64,
    }
}

/// Whether `point` lies on `tile`: at or after its top-left corner and
/// before the corner of the next tile, on both axes.
pub open spec fn covers(tile: TileId, point: MercatorPoint) -> bool {
    let width = cell_width(tile.zoom as nat);
    &&& tile.x * width <= point.x < (tile.x + 1) * width
    &&& tile.y * width <= point.y < (tile.y + 1) * width
}

/// A tile on the grid lies within the square.
proof fn lemma_cell_bounds(tile: TileId)
    requires
        tile.wf(),
    ensures
        0x2000 <= cell_width(tile.zoom as nat) <= UNIT,
        grid_side(tile.zoom as nat) * cell_width(tile.zoom as nat) == UNIT,
        0 <= tile.x * cell_width(tile.zoom as nat),
        (tile.x + 1) * cell_width(tile.zoom as nat) <= UNIT,
        0 <= tile.y * cell_width(tile.zoom as nat),
        (tile.y + 1) * cell_width(tile.zoom as nat) <= UNIT,
{
    let zoom = tile.zoom as nat;
    let n = grid_side(zoom) as int;
    let width = cell_width(zoom) as int;
    lemma_cells_fill_side(zoom);
    lemma_grid_side_bounds(zoom);
    lemma_grid_side_bounds((32 - zoom) as nat);
    lemma_grid_side_monotonic(13, (32 - zoom) as nat);
    assert(grid_side(13) == 0x2000) by {
        assert(grid_side(3) == 8 && grid_side(5) == 32) by {
            reveal_with_fuel(grid_side, 6);
        }
        lemma_grid_side_product(5, 5);
        lemma_grid_side_product(10, 3);
    }
    let x = tile.x as int;
    let y = tile.y as int;
    assert(0 <= x * width && (x + 1) * width <= n * width) by (nonlinear_arith)
        requires
            0 <= x < n,
            0 <= width,
    ;
    assert(0 <= y * width && (y + 1) * width <= n * width) by (nonlinear_arith)
        requires
            0 <= y < n,
            0 <= width,
    ;
}

/// Width of one tile of `zoom`, in fixed-point units.
pub fn cell_size(zoom: u8) -> (width: u64)
    requires
        zoom <= MAX_ZOOM,
    ensures
        width == cell_width(zoom as nat),
        0x2000 <= width <= UNIT,
{
    let n = grid_size(zoom);
    proof {
        let probe = TileId { x: 0, y: 0, zoom };
        lemma_cell_bounds(probe);
        let w = cell_width(zoom as nat) as int;
        assert((n * w) / (n as int) == w) by (nonlinear_arith)
            requires
                n >= 1,
        ;
    }
    UNIT / (n as u64)
}

/// The top-left corner of `tile` on the Mercator plane.
pub fn tile_origin(tile: TileId) -> (point: MercatorPoint)
    requires
        tile.wf(),
    ensures
        point == origin_of(tile),
        covers(tile, point),
{
    let width = cell_size(tile.zoom);
    proof {
        lemma_cell_bounds(tile);
        assert((tile.x + 1) * width == tile.x * width + width) by (nonlinear_arith);
        assert((tile.y + 1) * width == tile.y * width + width) by (nonlinear_arith);
    }
    let x: u64 = (tile.x as u64) * width;
    let y: u64 = (tile.y as u64) * width;
    MercatorPoint { x: x as i64, y: y as i64 }
}

/// The middle of `tile` on the Mercator plane.
pub fn tile_center(tile: TileId) -> (point: MercatorPoint)
    requires
        tile.wf(),
    ensures
        point == center_of(tile),
        covers(tile, point),
{
    let width = cell_size(tile.zoom);
    proof {
        lemma_cell_bounds(tile);
        assert((tile.x + 1) * width == tile.x * width + width) by (nonlinear_arith);
        assert((tile.y + 1) * width == tile.y * width + width) by (nonlinear_arith);
    }
    let half: u64 = width / 2;
    let x: u64 = (tile.x as u64) * width + half;
    let y: u64 = (tile.y as u64) * width + half;
    MercatorPoint { x: x as i64, y: y as i64 }
}

/// A coordinate within the cell `index` has that grid index.
proof fn lemma_index_in_cell(index: int, coord: int, zoom: nat)
    requires
        zoom <= 19,
        0 <= index < grid_side(zoom),
        index * cell_width(zoom) <= coord < (index + 1) * cell_width(zoom),
    ensures
        tile_index(coord, zoom) == index,
{
    let n = grid_side(zoom) as int;
    let width = cell_width(zoom) as int;
    let unit = UNIT as int;
    lemma_cells_fill_side(zoom);
    lemma_grid_side_bounds(zoom);
    assert(index * unit <= coord * n < (index + 1) * unit) by (nonlinear_arith)
        requires
            n >= 1,
            width >= 0,
            n * width == unit,
            index * width <= coord < (index + 1) * width,
    ;
    lemma_fundamental_div_mod_converse(coord * n, unit, index, coord * n - index * unit);
}

/// Every position on a tile is mapped to that tile.
pub proof fn lemma_covered_point_maps_to_tile(tile: TileId, point: MercatorPoint)
    requires
        tile.wf(),
        covers(tile, point),
    ensures
        tile_of(point, tile.zoom) == tile,
{
    lemma_index_in_cell(tile.x as int, point.x as int, tile.zoom as nat);
    lemma_index_in_cell(tile.y as int, point.y as int, tile.zoom as nat);
}

/// A tile's top-left corner and its middle both map back to the tile, and
/// the corner lands on the whole pixel `(x * tile_size, y * tile_size)` of
/// the global pixel plane.
pub proof fn lemma_tile_round_trip(tile: TileId, tile_size: u32)
    requires
        tile.wf(),
    ensures
        tile_of(origin_of(tile), tile.zoom) == tile,
        tile_of(center_of(tile), tile.zoom) == tile,
        pixel_of(origin_of(tile), tile.zoom, tile_size).x == tile.x * tile_size * UNIT,
        pixel_of(origin_of(tile), tile.zoom, tile_size).y == tile.y * tile_size * UNIT,
{
    let zoom = tile.zoom as nat;
    let n = grid_side(zoom) as int;
    let width = cell_width(zoom) as int;
    let unit = UNIT as int;
    lemma_cell_bounds(tile);
    lemma_grid_side_bounds(zoom);
    assert((tile.x + 1) * width == tile.x * width + width) by (nonlinear_arith);
    assert((tile.y + 1) * width == tile.y * width + width) by (nonlinear_arith);
    lemma_covered_point_maps_to_tile(tile, origin_of(tile));
    lemma_covered_point_maps_to_tile(tile, center_of(tile));
    let origin = origin_of(tile);
    lemma_scaled_fits(origin.x as int, n, tile_size as int);
    lemma_scaled_fits(origin.y as int, n, tile_size as int);
    assert((tile.x * width) * n * tile_size == tile.x * tile_size * unit) by (nonlinear_arith)
        requires
            n * width == unit,
    ;
    assert((tile.y * width) * n * tile_size == tile.y * tile_size * unit) by (nonlinear_arith)
        requires
            n * width == unit,
    ;
}

/// The tile at offset `(a, b)` of the neighbourhood of `center`: `a` columns
/// and `b` rows after the top-left one, each index clamped to the grid on
/// its own.
pub open spec fn neighbor(center: TileId, radius: u32, a: int, b: int) -> TileId {
    let n = grid_side(center.zoom as nat) as int;
    TileId {
        x: clamp_index(center.x - radius + a, n) as u32,
        y: clamp_index(center.y - radius + b, n) as u32,
        zoom: center.zoom,
    }
}

/// Number of tiles along one side of a neighbourhood.
pub open spec fn block_side(radius: u32) -> int {
    2 * radius + 1
}

/// The square block of tiles around `center`, column by column from the
/// west, each column from the north. Tiles that would lie off the grid are
/// replaced by the nearest edge tile, so an edge tile may occur repeatedly.
pub open spec fn neighborhood_spec(center: TileId, radius: u32) -> Seq<TileId> {
    let side = block_side(radius);
    Seq::new((side * side) as nat, |k: int| neighbor(center, radius, k / side, k % side))
}

/// Whether a tile lies in the first or last row or column of its grid.
pub open spec fn on_boundary(tile: TileId) -> bool {
    let last = grid_side(tile.zoom as nat) - 1;
    tile.x == 0 || tile.y == 0 || tile.x == last || tile.y == last
}

/// The index `step` places after `base - radius`, pulled onto a grid of `n`
/// tiles a side.
fn clamped_offset(base: u32, radius: u32, step: u64, n: u32) -> (index: u32)
    requires
        n >= 1,
        step <= 2 * radius,
    ensures
        index == clamp_index(base - radius + step, n as int),
        index < n,
{
    let shifted: u64 = base as u64 + step;
    if shifted < radius as u64 {
        0
    } else {
        let v: u64 = shifted - radius as u64;
        if v >= n as u64 {
            n - 1
        } else {
            v as u32
        }
    }
}

/// All tiles within `radius` of `center` on either axis.
pub fn neighborhood(center: TileId, radius: u32) -> (tiles: Vec<TileId>)
    requires
        center.wf(),
        block_side(radius) * block_side(radius) <= usize::MAX,
    ensures
        tiles@ == neighborhood_spec(center, radius),
        tiles@.len() == block_side(radius) * block_side(radius),
        forall|k: int| 0 <= k < tiles@.len() ==> (#[trigger] tiles@[k]).wf(),
{
    let n = grid_size(center.zoom);
    let side: u64 = 2 * (radius as u64) + 1;
    let ghost total = side * side;
    let mut tiles: Vec<TileId> = Vec::new();
    let mut a: u64 = 0;
    while a < side
        invariant
            center.wf(),
            n == grid_side(center.zoom as nat),
            n >= 1,
            side == block_side(radius),
            total == side * side,
            total <= usize::MAX,
            a <= side,
            tiles@.len() == a * side,
            forall|k: int|
                0 <= k < tiles@.len() ==> #[trigger] tiles@[k] == neighbor(
                    center,
                    radius,
                    k / (side as int),
                    k % (side as int),
                ),
        decreases side - a,
    {
        let x = clamped_offset(center.x, radius, a, n);
        let mut b: u64 = 0;
        while b < side
            invariant
                center.wf(),
                n == grid_side(center.zoom as nat),
                n >= 1,
                side == block_side(radius),
                total == side * side,
                total <= usize::MAX,
                a < side,
                b <= side,
                x == clamp_index(center.x - radius + a, n as int),
                tiles@.len() == a * side + b,
                forall|k: int|
                    0 <= k < tiles@.len() ==> #[trigger] tiles@[k] == neighbor(
                        center,
                        radius,
                        k / (side as int),
                        k % (side as int),
                    ),
            decreases side - b,
        {
            let y = clamped_offset(center.y, radius, b, n);
            proof {
                lemma_fundamental_div_mod_converse(a * side + b, side as int, a as int, b as int);
                assert(a * side + b < side * side) by (nonlinear_arith)
                    requires
                        0 <= a < side,
                        0 <= b < side,
                ;
            }
            tiles.push(TileId { x, y, zoom: center.zoom });
            b = b + 1;
        }
        proof {
            assert(a * side + side == (a + 1) * side) by (nonlinear_arith);
        }
        a = a + 1;
    }
    proof {
        assert(tiles@ =~= neighborhood_spec(center, radius));
        assert forall|k: int| 0 <= k < tiles@.len() implies (#[trigger] tiles@[k]).wf() by {
            assert(tiles@[k] == neighbor(center, radius, k / (side as int), k % (side as int)));
        }
    }
    tiles
}

/// The tile under `point` and its eight neighbours.
pub fn get_surrounding_tiles(point: MercatorPoint, zoom: u8) -> (tiles: Vec<TileId>)
    requires
        zoom <= MAX_ZOOM,
    ensures
        tiles@ == neighborhood_spec(tile_of(point, zoom), 1),
        tiles@.len() == 9,
        forall|k: int| 0 <= k < tiles@.len() ==> (#[trigger] tiles@[k]).wf(),
{
    let center = gps_to_tile(point, zoom);
    assert(block_side(1) * block_side(1) == 9) by (nonlinear_arith)
        requires
            block_side(1) == 3,
    ;
    neighborhood(center, 1)
}

/// A neighbourhood has one entry for each offset of the block, and two
/// entries can only name the same tile where that tile lies on the
/// boundary of the grid.
pub proof fn lemma_neighborhood_duplicates(center: TileId, radius: u32, i: int, j: int)
    requires
        center.wf(),
        0 <= i < block_side(radius) * block_side(radius),
        0 <= j < block_side(radius) * block_side(radius),
        i != j,
        neighborhood_spec(center, radius)[i] == neighborhood_spec(center, radius)[j],
    ensures
        neighborhood_spec(center, radius).len() == block_side(radius) * block_side(radius),
        on_boundary(neighborhood_spec(center, radius)[i]),
{
    let side = block_side(radius);
    lemma_fundamental_div_mod(i, side);
    lemma_fundamental_div_mod(j, side);
    lemma_grid_side_bounds(center.zoom as nat);
    if i / side == j / side {
        assert(i % side != j % side);
    }
}

/// Where no index of the block is clamped, no tile occurs twice: that is
/// where the centre lies at least `radius` from every edge of the grid.
pub proof fn lemma_interior_neighborhood_distinct(center: TileId, radius: u32, i: int, j: int)
    requires
        center.wf(),
        radius <= center.x < grid_side(center.zoom as nat) - radius,
        radius <= center.y < grid_side(center.zoom as nat) - radius,
        0 <= i < j < block_side(radius) * block_side(radius),
    ensures
        neighborhood_spec(center, radius)[i] != neighborhood_spec(center, radius)[j],
{
    let side = block_side(radius);
    let tiles = neighborhood_spec(center, radius);
    let n = grid_side(center.zoom as nat) as int;
    lemma_grid_side_bounds(center.zoom as nat);
    lemma_fundamental_div_mod(i, side);
    lemma_fundamental_div_mod(j, side);
    lemma_mod_bound(i, side);
    lemma_mod_bound(j, side);
    lemma_div_bound(i, side);
    lemma_div_bound(j, side);
    assert(tiles[i] == neighbor(center, radius, i / side, i % side));
    assert(tiles[j] == neighbor(center, radius, j / side, j % side));
    if tiles[i] == tiles[j] {
        assert(0 <= center.x - radius + i / side < n);
        assert(0 <= center.x - radius + j / side < n);
        assert(0 <= center.y - radius + i % side < n);
        assert(0 <= center.y - radius + j % side < n);
        assert(i / side == j / side);
        assert(i % side == j % side);
        assert(false);
    }
}

/// A place in a block of `side * side` entries lies in one of its `side` columns.
proof fn lemma_div_bound(k: int, side: int)
    requires
        side > 0,
        0 <= k < side * side,
    ensures
        0 <= k / side < side,
{
    lemma_fundamental_div_mod(k, side);
    lemma_mod_bound(k, side);
    let q = k / side;
    assert(0 <= q < side) by (nonlinear_arith)
        requires
            side > 0,
            0 <= k < side * side,
            k == side * q + k % side,
            0 <= k % side < side,
    ;
}

} // verus!
