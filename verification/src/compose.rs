//! The compositor: stitches the tiles of a neighbourhood into one canvas,
//! cuts the frame around a position out of it and marks the position.

use vstd::prelude::*;
use vstd::arithmetic::div_mod::{lemma_fundamental_div_mod, lemma_fundamental_div_mod_converse, lemma_mod_bound};
use crate::bitmap::{
    blank_view, cropped, hides, in_disc, least, lemma_blank_pixel, lemma_cropped_pixel,
    lemma_cropped_wf,
    lemma_marked_pixel, marked, overlay_spec, spares, Bitmap, BitmapView, Rgba,
};
use crate::projection::{
    block_side, clamp_index, grid_side, lemma_grid_side_bounds, neighborhood_spec, pixel_of,
    point_to_pixel, MercatorPoint, TileId, MAX_ZOOM, UNIT,
};

verus! {

/// Why no canvas could be composed.
#[derive(Clone, Copy, Debug, PartialEq, Eq, Structural)]
pub enum CompositionError {
    /// There is no tile to compose, or no tile has an image.
    Empty,
    /// The canvas would be wider or higher than a bitmap can be, or would
    /// not fit the address space.
    TooLarge,
}

/// The columns and rows that a set of tiles spans, ends included.
#[derive(Clone, Copy, Debug, PartialEq, Eq, Structural)]
pub struct Extent {
    pub min_x: u32,
    pub max_x: u32,
    pub min_y: u32,
    pub max_y: u32,
}

/// The larger of two integers.
pub open spec fn greatest(a: int, b: int) -> int {
    if a >= b {
        a
    } else {
        b
    }
}

/// The column of each tile.
pub open spec fn columns(tiles: Seq<TileId>) -> Seq<int> {
    Seq::new(tiles.len(), |i: int| tiles[i].x as int)
}

/// The row of each tile.
pub open spec fn rows(tiles: Seq<TileId>) -> Seq<int> {
    Seq::new(tiles.len(), |i: int| tiles[i].y as int)
}

/// The least of `values`; zero where there is none.
pub open spec fn lowest(values: Seq<int>) -> int
    decreases values.len(),
{
    if values.len() == 0 {
        0
    } else if values.len() == 1 {
        values[0]
    } else {
        least(values.last(), lowest(values.drop_last()))
    }
}

/// The greatest of `values`; zero where there is none.
pub open spec fn highest(values: Seq<int>) -> int
    decreases values.len(),
{
    if values.len() == 0 {
        0
    } else if values.len() == 1 {
        values[0]
    } else {
        greatest(values.last(), highest(values.drop_last()))
    }
}

/// The least and the greatest of some values are among them and bound
/// them all.
pub proof fn lemma_lowest_highest(values: Seq<int>)
    requires
        values.len() > 0,
    ensures
        forall|i: int| 0 <= i < values.len() ==> lowest(values) <= #[trigger] values[i],
        forall|i: int| 0 <= i < values.len() ==> highest(values) >= #[trigger] values[i],
        exists|i: int| 0 <= i < values.len() && values[i] == lowest(values),
        exists|i: int| 0 <= i < values.len() && values[i] == highest(values),
    decreases values.len(),
{
    if values.len() == 1 {
        assert(values[0] == lowest(values));
        assert(values[0] == highest(values));
    } else {
        let front = values.drop_last();
        let last = values.len() - 1;
        lemma_lowest_highest(front);
        assert forall|i: int| 0 <= i < values.len() implies lowest(values) <= #[trigger] values[i]
            && highest(values) >= values[i] by {
            if i < last {
                assert(front[i] == values[i]);
            }
        }
        let low = choose|i: int| 0 <= i < front.len() && front[i] == lowest(front);
        let high = choose|i: int| 0 <= i < front.len() && front[i] == highest(front);
        assert(front[low] == values[low]);
        assert(front[high] == values[high]);
        if lowest(values) == values[last] {
            assert(values[last] == lowest(values));
        } else {
            assert(values[low] == lowest(values));
        }
        if highest(values) == values[last] {
            assert(values[last] == highest(values));
        } else {
            assert(values[high] == highest(values));
        }
    }
}

/// The extent of a set of tiles.
pub open spec fn extent_of(tiles: Seq<TileId>) -> Extent {
    Extent {
        min_x: lowest(columns(tiles)) as u32,
        max_x: highest(columns(tiles)) as u32,
        min_y: lowest(rows(tiles)) as u32,
        max_y: highest(rows(tiles)) as u32,
    }
}

/// The neighbourhood of a tile spans the columns and rows from `radius`
/// before the tile to `radius` after it, as far as the grid reaches.
pub proof fn lemma_neighborhood_extent(center: TileId, radius: u32)
    requires
        center.wf(),
    ensures
        ({
            let n = grid_side(center.zoom as nat) as int;
            let extent = extent_of(neighborhood_spec(center, radius));
            &&& extent.min_x == clamp_index(center.x - radius, n)
            &&& extent.max_x == clamp_index(center.x + radius, n)
            &&& extent.min_y == clamp_index(center.y - radius, n)
            &&& extent.max_y == clamp_index(center.y + radius, n)
        }),
{
    let n = grid_side(center.zoom as nat) as int;
    let side = block_side(radius);
    let tiles = neighborhood_spec(center, radius);
    let total = side * side;
    lemma_grid_side_bounds(center.zoom as nat);
    assert(total >= side) by (nonlinear_arith)
        requires
            side >= 1,
            total == side * side,
    ;
    let first = 0int;
    let last = total - 1;
    assert(tiles.len() == total);
    lemma_fundamental_div_mod_converse(first, side, 0, 0);
    assert(last == (side - 1) * side + (side - 1)) by (nonlinear_arith)
        requires
            last == side * side - 1,
    ;
    lemma_fundamental_div_mod_converse(last, side, side - 1, side - 1);
    let cols = columns(tiles);
    let rws = rows(tiles);
    lemma_lowest_highest(cols);
    lemma_lowest_highest(rws);
    assert forall|k: int| 0 <= k < total implies clamp_index(center.x - radius, n) <= #[trigger] cols[k]
        <= clamp_index(center.x + radius, n) && clamp_index(center.y - radius, n) <= rws[k]
        <= clamp_index(center.y + radius, n) by {
        lemma_fundamental_div_mod(k, side);
        lemma_mod_bound(k, side);
        let a = k / side;
        let b = k % side;
        assert(0 <= a < side) by (nonlinear_arith)
            requires
                side >= 1,
                0 <= k < side * side,
                k == side * a + b,
                0 <= b < side,
        ;
    }
    assert(cols[first] == clamp_index(center.x - radius, n));
    assert(rws[first] == clamp_index(center.y - radius, n));
    assert(cols[last] == clamp_index(center.x + radius, n));
    assert(rws[last] == clamp_index(center.y + radius, n));
}

/// Away from the edges of the grid, the canvas of a neighbourhood is a
/// square of `2 * radius + 1` tiles a side.
pub proof fn lemma_neighborhood_canvas(center: TileId, radius: u32, tile_size: u32)
    requires
        center.wf(),
        radius <= center.x < grid_side(center.zoom as nat) - radius,
        radius <= center.y < grid_side(center.zoom as nat) - radius,
    ensures
        canvas_width(extent_of(neighborhood_spec(center, radius)), tile_size) == block_side(radius)
            * tile_size,
        canvas_height(extent_of(neighborhood_spec(center, radius)), tile_size) == block_side(radius)
            * tile_size,
{
    lemma_neighborhood_extent(center, radius);
    lemma_grid_side_bounds(center.zoom as nat);
}

/// The least and greatest of one value more, from those of the values before.
proof fn lemma_extend(values: Seq<int>, count: int)
    requires
        1 <= count < values.len(),
    ensures
        lowest(values.take(count + 1)) == least(values[count], lowest(values.take(count))),
        highest(values.take(count + 1)) == greatest(values[count], highest(values.take(count))),
{
    assert(values.take(count + 1).drop_last() =~= values.take(count));
}

/// The columns and rows that `tiles` spans; `None` for no tiles.
pub fn tile_extent(tiles: &Vec<TileId>) -> (extent: Option<Extent>)
    ensures
        extent.is_some() <==> tiles@.len() > 0,
        extent.is_some() ==> extent.unwrap() == extent_of(tiles@),
        extent.is_some() ==> extent.unwrap().min_x <= extent.unwrap().max_x
            && extent.unwrap().min_y <= extent.unwrap().max_y,
{
    if tiles.len() == 0 {
        return None;
    }
    let mut found = Extent {
        min_x: tiles[0].x,
        max_x: tiles[0].x,
        min_y: tiles[0].y,
        max_y: tiles[0].y,
    };
    let mut i: usize = 1;
    while i < tiles.len()
        invariant
            1 <= i <= tiles@.len(),
            found.min_x == lowest(columns(tiles@).take(i as int)),
            found.max_x == highest(columns(tiles@).take(i as int)),
            found.min_y == lowest(rows(tiles@).take(i as int)),
            found.max_y == highest(rows(tiles@).take(i as int)),
            found.min_x <= found.max_x,
            found.min_y <= found.max_y,
        decreases tiles@.len() - i,
    {
        let tile = tiles[i];
        proof {
            lemma_extend(columns(tiles@), i as int);
            lemma_extend(rows(tiles@), i as int);
        }
        if tile.x < found.min_x {
            found.min_x = tile.x;
        }
        if tile.x > found.max_x {
            found.max_x = tile.x;
        }
        if tile.y < found.min_y {
            found.min_y = tile.y;
        }
        if tile.y > found.max_y {
            found.max_y = tile.y;
        }
        i = i + 1;
    }
    proof {
        assert(columns(tiles@).take(tiles@.len() as int) =~= columns(tiles@));
        assert(rows(tiles@).take(tiles@.len() as int) =~= rows(tiles@));
    }
    Some(found)
}

/// The image that came for the tile at place `i`, if one did: images and
/// tiles are paired by their places, and a tile past the end of the images
/// has none.
pub open spec fn image_at(images: Seq<Option<Bitmap>>, i: int) -> Option<BitmapView> {
    if 0 <= i < images.len() {
        match images[i] {
            Some(bitmap) => Some(bitmap@),
            None => None,
        }
    } else {
        None
    }
}

/// Whether one of the first `count` tiles has an image.
pub open spec fn has_image(images: Seq<Option<Bitmap>>, count: int) -> bool {
    exists|i: int| 0 <= i < count && (#[trigger] image_at(images, i)).is_some()
}

/// Where the tile in column `x` is painted on a canvas whose first column
/// of tiles is `min_x`; the same holds of rows.
pub open spec fn paint_offset(x: u32, min_x: u32, tile_size: u32) -> int {
    (x - min_x) * tile_size
}

/// `canvas` after the first `count` tiles have been painted in their
/// order, each that has an image at its offset from the extent's first
/// column and row. A tile without an image leaves the canvas as it is.
pub open spec fn painted(
    canvas: BitmapView,
    tiles: Seq<TileId>,
    images: Seq<Option<Bitmap>>,
    tile_size: u32,
    origin: Extent,
    count: nat,
) -> BitmapView
    decreases count,
{
    if count == 0 {
        canvas
    } else {
        let i = count - 1;
        let before = painted(canvas, tiles, images, tile_size, origin, i as nat);
        match image_at(images, i) {
            Some(image) => overlay_spec(
                before,
                image,
                paint_offset(tiles[i].x, origin.min_x, tile_size) as i64,
                paint_offset(tiles[i].y, origin.min_y, tile_size) as i64,
            ),
            None => before,
        }
    }
}

/// What the painting of the first `count` tiles settles of the canvas
/// pixel in column `px` of row `py`, without going into the blend. The
/// canvas starts transparent; an image that does not reach the pixel, or is
/// transparent there, leaves it; an image that is opaque there sets it; and
/// under a half-transparent pixel the outcome is left open (`None`) until
/// an opaque one settles it again.
pub open spec fn known_pixel(
    tiles: Seq<TileId>,
    images: Seq<Option<Bitmap>>,
    tile_size: u32,
    origin: Extent,
    count: nat,
    px: int,
    py: int,
) -> Option<Rgba>
    decreases count,
{
    if count == 0 {
        Some(Rgba { r: 0, g: 0, b: 0, a: 0 })
    } else {
        let i = count - 1;
        let before = known_pixel(tiles, images, tile_size, origin, i as nat, px, py);
        match image_at(images, i) {
            Some(image) => {
                let x = paint_offset(tiles[i].x, origin.min_x, tile_size) as i64;
                let y = paint_offset(tiles[i].y, origin.min_y, tile_size) as i64;
                if spares(image, x, y, px, py) {
                    before
                } else if hides(image, x, y, px, py) {
                    Some(image.pixel(px - x, py - y))
                } else {
                    None
                }
            },
            None => before,
        }
    }
}

/// Whether `pixel` is what is known of it, where anything is.
pub open spec fn agrees(known: Option<Rgba>, pixel: Rgba) -> bool {
    known matches Some(color) ==> pixel == color
}

/// No two tiles lie in the same column and row.
pub open spec fn apart(tiles: Seq<TileId>) -> bool {
    forall|a: int, b: int|
        0 <= a < b < tiles.len() ==> (#[trigger] tiles[a]).x != (#[trigger] tiles[b]).x
            || tiles[a].y != tiles[b].y
}

/// Whether the tiles at places `a` and `b` lie in the same column and row.
pub open spec fn same_place(tiles: Seq<TileId>, a: int, b: int) -> bool {
    tiles[a].x == tiles[b].x && tiles[a].y == tiles[b].y
}

/// Whether nothing is painted over the tile at place `k` after it: no
/// later tile of its column and row has an image. Of the tiles with an
/// image that share a column and row, this holds of the last.
pub open spec fn last_painted(tiles: Seq<TileId>, images: Seq<Option<Bitmap>>, k: int) -> bool {
    forall|m: int|
        k < m < tiles.len() && same_place(tiles, k, m) ==> (#[trigger] image_at(images, m))
            is None
}

/// Whether nothing at all is painted where the tile at place `k` lies: no
/// tile of its column and row has an image.
pub open spec fn unpainted(tiles: Seq<TileId>, images: Seq<Option<Bitmap>>, k: int) -> bool {
    forall|m: int|
        0 <= m < tiles.len() && same_place(tiles, k, m) ==> (#[trigger] image_at(images, m))
            is None
}

/// No image is wider or higher than a tile.
pub open spec fn tile_sized(images: Seq<Option<Bitmap>>, tile_size: u32) -> bool {
    forall|m: int|
        (#[trigger] image_at(images, m)) matches Some(image) ==> image.width <= tile_size
            && image.height <= tile_size
}

/// Whether the tile at place `k` has an image with an opaque pixel in
/// column `i` of row `j`.
pub open spec fn opaque_at(images: Seq<Option<Bitmap>>, k: int, i: int, j: int) -> bool {
    image_at(images, k) matches Some(image) && image.holds(i, j) && image.pixel(i, j).a == 255
}

/// Whether `canvas` shows, at the offset of the tile at place `k`, the
/// pixel in column `i` of row `j` of that tile's image.
pub open spec fn tile_shown(
    canvas: BitmapView,
    tiles: Seq<TileId>,
    images: Seq<Option<Bitmap>>,
    tile_size: u32,
    k: int,
    i: int,
    j: int,
) -> bool {
    let x = paint_offset(tiles[k].x, extent_of(tiles).min_x, tile_size) + i;
    let y = paint_offset(tiles[k].y, extent_of(tiles).min_y, tile_size) + j;
    &&& canvas.holds(x, y)
    &&& image_at(images, k) matches Some(image) && canvas.pixel(x, y) == image.pixel(i, j)
}

/// Whether nothing is painted where the tile at place `k` lies, and column
/// `i` of row `j` lies on a tile.
pub open spec fn gap_at(
    tiles: Seq<TileId>,
    images: Seq<Option<Bitmap>>,
    tile_size: u32,
    k: int,
    i: int,
    j: int,
) -> bool {
    &&& 0 <= k < tiles.len()
    &&& unpainted(tiles, images, k)
    &&& 0 <= i < tile_size
    &&& 0 <= j < tile_size
}

/// Whether `canvas` is transparent at the offset of the tile at place `k`,
/// in column `i` of row `j` of the tile.
pub open spec fn gap_shown(
    canvas: BitmapView,
    tiles: Seq<TileId>,
    tile_size: u32,
    k: int,
    i: int,
    j: int,
) -> bool {
    let x = paint_offset(tiles[k].x, extent_of(tiles).min_x, tile_size) + i;
    let y = paint_offset(tiles[k].y, extent_of(tiles).min_y, tile_size) + j;
    canvas.holds(x, y) && canvas.pixel(x, y) == (Rgba { r: 0, g: 0, b: 0, a: 0 })
}

/// Where no two tiles share a column and row, nothing is painted over any
/// tile.
pub proof fn lemma_apart_last_painted(tiles: Seq<TileId>, images: Seq<Option<Bitmap>>, k: int)
    requires
        apart(tiles),
        0 <= k < tiles.len(),
    ensures
        last_painted(tiles, images, k),
        image_at(images, k) is None ==> unpainted(tiles, images, k),
{
    assert forall|m: int| 0 <= m < tiles.len() && m != k implies !same_place(tiles, k, m) by {
        if m < k {
            assert(tiles[m].x != tiles[k].x || tiles[m].y != tiles[k].y);
        } else {
            assert(tiles[k].x != tiles[m].x || tiles[k].y != tiles[m].y);
        }
    }
}

/// Two tiles in different columns are painted a tile's width apart or more.
proof fn lemma_offsets_apart(x: u32, other: u32, min_x: u32, tile_size: u32)
    requires
        min_x <= x,
        min_x <= other,
        x != other,
    ensures
        paint_offset(x, min_x, tile_size) + tile_size <= paint_offset(other, min_x, tile_size)
            || paint_offset(other, min_x, tile_size) + tile_size <= paint_offset(
            x,
            min_x,
            tile_size,
        ),
{
    let a = x - min_x;
    let b = other - min_x;
    let t = tile_size as int;
    assert(a * t + t <= b * t || b * t + t <= a * t) by (nonlinear_arith)
        requires
            a != b,
            0 <= a,
            0 <= b,
            0 <= t,
    ;
}

/// An image no larger than a tile, painted at the place of the tile at
/// `m`, does not reach the pixels of another column or row of tiles.
proof fn lemma_elsewhere_spared(
    tiles: Seq<TileId>,
    images: Seq<Option<Bitmap>>,
    tile_size: u32,
    k: int,
    m: int,
    i: int,
    j: int,
)
    requires
        tile_sized(images, tile_size),
        0 <= k < tiles.len(),
        0 <= m < tiles.len(),
        !same_place(tiles, k, m),
        0 <= i < tile_size,
        0 <= j < tile_size,
        canvas_width(extent_of(tiles), tile_size) <= u32::MAX,
        canvas_height(extent_of(tiles), tile_size) <= u32::MAX,
    ensures
        image_at(images, m) matches Some(image) ==> spares(
            image,
            paint_offset(tiles[m].x, extent_of(tiles).min_x, tile_size) as i64,
            paint_offset(tiles[m].y, extent_of(tiles).min_y, tile_size) as i64,
            paint_offset(tiles[k].x, extent_of(tiles).min_x, tile_size) + i,
            paint_offset(tiles[k].y, extent_of(tiles).min_y, tile_size) + j,
        ),
{
    let extent = extent_of(tiles);
    lemma_lowest_highest(columns(tiles));
    lemma_lowest_highest(rows(tiles));
    assert(columns(tiles)[k] == tiles[k].x && rows(tiles)[k] == tiles[k].y);
    assert(columns(tiles)[m] == tiles[m].x && rows(tiles)[m] == tiles[m].y);
    lemma_offset_fits(tiles[m].x, extent.min_x, extent.max_x, tile_size);
    lemma_offset_fits(tiles[m].y, extent.min_y, extent.max_y, tile_size);
    if tiles[k].x != tiles[m].x {
        lemma_offsets_apart(tiles[k].x, tiles[m].x, extent.min_x, tile_size);
    }
    if tiles[k].y != tiles[m].y {
        lemma_offsets_apart(tiles[k].y, tiles[m].y, extent.min_y, tile_size);
    }
    if image_at(images, m).is_some() {
        let image = image_at(images, m).unwrap();
        assert(image.width <= tile_size && image.height <= tile_size);
    }
}

/// A place on a tile lies on the canvas.
proof fn lemma_place_on_canvas(tiles: Seq<TileId>, tile_size: u32, k: int, i: int, j: int)
    requires
        0 <= k < tiles.len(),
        0 <= i < tile_size,
        0 <= j < tile_size,
    ensures
        0 <= paint_offset(tiles[k].x, extent_of(tiles).min_x, tile_size) + i < canvas_width(
            extent_of(tiles),
            tile_size,
        ),
        0 <= paint_offset(tiles[k].y, extent_of(tiles).min_y, tile_size) + j < canvas_height(
            extent_of(tiles),
            tile_size,
        ),
{
    let extent = extent_of(tiles);
    lemma_lowest_highest(columns(tiles));
    lemma_lowest_highest(rows(tiles));
    assert(columns(tiles)[k] == tiles[k].x && rows(tiles)[k] == tiles[k].y);
    let t = tile_size as int;
    let a = tiles[k].x - extent.min_x;
    let span_x = extent.max_x - extent.min_x + 1;
    assert(0 <= a * t && a * t + t <= span_x * t) by (nonlinear_arith)
        requires
            0 <= a < span_x,
            0 <= t,
    ;
    let b = tiles[k].y - extent.min_y;
    let span_y = extent.max_y - extent.min_y + 1;
    assert(0 <= b * t && b * t + t <= span_y * t) by (nonlinear_arith)
        requires
            0 <= b < span_y,
            0 <= t,
    ;
}

/// Where no image exceeds a tile and nothing is painted over the tile at
/// `k`, an opaque pixel of its image is what is known of the canvas at its
/// place, from the painting of that tile on.
proof fn lemma_known_after(
    tiles: Seq<TileId>,
    images: Seq<Option<Bitmap>>,
    tile_size: u32,
    k: int,
    i: int,
    j: int,
    count: nat,
)
    requires
        tile_sized(images, tile_size),
        last_painted(tiles, images, k),
        0 <= k < count <= tiles.len(),
        opaque_at(images, k, i, j),
        canvas_width(extent_of(tiles), tile_size) <= u32::MAX,
        canvas_height(extent_of(tiles), tile_size) <= u32::MAX,
    ensures
        known_pixel(
            tiles,
            images,
            tile_size,
            extent_of(tiles),
            count,
            paint_offset(tiles[k].x, extent_of(tiles).min_x, tile_size) + i,
            paint_offset(tiles[k].y, extent_of(tiles).min_y, tile_size) + j,
        ) == Some(image_at(images, k).unwrap().pixel(i, j)),
    decreases count,
{
    let extent = extent_of(tiles);
    let m = count - 1;
    let image = image_at(images, k).unwrap();
    assert(image.width <= tile_size && image.height <= tile_size);
    if m > k {
        lemma_known_after(tiles, images, tile_size, k, i, j, m as nat);
        if image_at(images, m).is_some() {
            assert(!same_place(tiles, k, m));
            lemma_elsewhere_spared(tiles, images, tile_size, k, m, i, j);
        }
    } else {
        lemma_lowest_highest(columns(tiles));
        lemma_lowest_highest(rows(tiles));
        assert(columns(tiles)[k] == tiles[k].x && rows(tiles)[k] == tiles[k].y);
        lemma_offset_fits(tiles[k].x, extent.min_x, extent.max_x, tile_size);
        lemma_offset_fits(tiles[k].y, extent.min_y, extent.max_y, tile_size);
    }
}

/// The place of a tile shows the last image painted there, wherever that
/// image is opaque: if no image exceeds a tile and no later tile of the
/// same column and row has an image, what is known of the finished canvas
/// at the place of an opaque pixel of the tile's image is that pixel, and
/// the place lies on the canvas. The list may name a tile repeatedly.
pub proof fn lemma_tile_known(
    tiles: Seq<TileId>,
    images: Seq<Option<Bitmap>>,
    tile_size: u32,
    k: int,
    i: int,
    j: int,
)
    requires
        tile_sized(images, tile_size),
        last_painted(tiles, images, k),
        0 <= k < tiles.len(),
        opaque_at(images, k, i, j),
        canvas_width(extent_of(tiles), tile_size) <= u32::MAX,
        canvas_height(extent_of(tiles), tile_size) <= u32::MAX,
    ensures
        known_pixel(
            tiles,
            images,
            tile_size,
            extent_of(tiles),
            tiles.len(),
            paint_offset(tiles[k].x, extent_of(tiles).min_x, tile_size) + i,
            paint_offset(tiles[k].y, extent_of(tiles).min_y, tile_size) + j,
        ) == Some(image_at(images, k).unwrap().pixel(i, j)),
        0 <= paint_offset(tiles[k].x, extent_of(tiles).min_x, tile_size) + i < canvas_width(
            extent_of(tiles),
            tile_size,
        ),
        0 <= paint_offset(tiles[k].y, extent_of(tiles).min_y, tile_size) + j < canvas_height(
            extent_of(tiles),
            tile_size,
        ),
{
    lemma_known_after(tiles, images, tile_size, k, i, j, tiles.len());
    let image = image_at(images, k).unwrap();
    assert(image.width <= tile_size && image.height <= tile_size);
    lemma_place_on_canvas(tiles, tile_size, k, i, j);
}

/// Where no image exceeds a tile and nothing is painted at the place of
/// the tile at `k`, that place is known to stay transparent.
proof fn lemma_gap_after(
    tiles: Seq<TileId>,
    images: Seq<Option<Bitmap>>,
    tile_size: u32,
    k: int,
    i: int,
    j: int,
    count: nat,
)
    requires
        tile_sized(images, tile_size),
        gap_at(tiles, images, tile_size, k, i, j),
        count <= tiles.len(),
        canvas_width(extent_of(tiles), tile_size) <= u32::MAX,
        canvas_height(extent_of(tiles), tile_size) <= u32::MAX,
    ensures
        known_pixel(
            tiles,
            images,
            tile_size,
            extent_of(tiles),
            count,
            paint_offset(tiles[k].x, extent_of(tiles).min_x, tile_size) + i,
            paint_offset(tiles[k].y, extent_of(tiles).min_y, tile_size) + j,
        ) == Some(Rgba { r: 0, g: 0, b: 0, a: 0 }),
    decreases count,
{
    if count > 0 {
        let m = count - 1;
        lemma_gap_after(tiles, images, tile_size, k, i, j, m as nat);
        if image_at(images, m).is_some() {
            assert(!same_place(tiles, k, m));
            lemma_elsewhere_spared(tiles, images, tile_size, k, m, i, j);
        }
    }
}

/// The place of a tile stays transparent where nothing is painted there:
/// if no image exceeds a tile and no tile of the same column and row has
/// an image, what is known of the finished canvas at that place is that it
/// is transparent, and the place lies on the canvas.
pub proof fn lemma_gap_known(
    tiles: Seq<TileId>,
    images: Seq<Option<Bitmap>>,
    tile_size: u32,
    k: int,
    i: int,
    j: int,
)
    requires
        tile_sized(images, tile_size),
        gap_at(tiles, images, tile_size, k, i, j),
        canvas_width(extent_of(tiles), tile_size) <= u32::MAX,
        canvas_height(extent_of(tiles), tile_size) <= u32::MAX,
    ensures
        known_pixel(
            tiles,
            images,
            tile_size,
            extent_of(tiles),
            tiles.len(),
            paint_offset(tiles[k].x, extent_of(tiles).min_x, tile_size) + i,
            paint_offset(tiles[k].y, extent_of(tiles).min_y, tile_size) + j,
        ) == Some(Rgba { r: 0, g: 0, b: 0, a: 0 }),
        0 <= paint_offset(tiles[k].x, extent_of(tiles).min_x, tile_size) + i < canvas_width(
            extent_of(tiles),
            tile_size,
        ),
        0 <= paint_offset(tiles[k].y, extent_of(tiles).min_y, tile_size) + j < canvas_height(
            extent_of(tiles),
            tile_size,
        ),
{
    lemma_gap_after(tiles, images, tile_size, k, i, j, tiles.len());
    lemma_place_on_canvas(tiles, tile_size, k, i, j);
}

/// Width of the canvas for an extent: its columns times the tile size.
pub open spec fn canvas_width(extent: Extent, tile_size: u32) -> int {
    (extent.max_x - extent.min_x + 1) * tile_size
}

/// Height of the canvas for an extent: its rows times the tile size.
pub open spec fn canvas_height(extent: Extent, tile_size: u32) -> int {
    (extent.max_y - extent.min_y + 1) * tile_size
}

/// The canvas that `tiles` and their `images` compose to.
///
/// The canvas spans the extent of all tiles, with or without an image,
/// starts out transparent, and has each image painted at its tile's place.
/// Without a tile, or without any image, there is nothing to compose.
pub open spec fn composed(tiles: Seq<TileId>, images: Seq<Option<Bitmap>>, tile_size: u32) -> Result<
    BitmapView,
    CompositionError,
> {
    let extent = extent_of(tiles);
    let width = canvas_width(extent, tile_size);
    let height = canvas_height(extent, tile_size);
    if tiles.len() == 0 || !has_image(images, tiles.len() as int) {
        Err(CompositionError::Empty)
    } else if width > u32::MAX || height > u32::MAX || 4 * width * height > usize::MAX {
        Err(CompositionError::TooLarge)
    } else {
        Ok(painted(blank_view(width, height), tiles, images, tile_size, extent, tiles.len()))
    }
}

/// A composition with the bitmap taken as its view.
pub open spec fn canvas_view(canvas: Result<Bitmap, CompositionError>) -> Result<
    BitmapView,
    CompositionError,
> {
    match canvas {
        Ok(bitmap) => Ok(bitmap@),
        Err(error) => Err(error),
    }
}

/// Painting never changes the size of the canvas.
pub proof fn lemma_painted_size(
    canvas: BitmapView,
    tiles: Seq<TileId>,
    images: Seq<Option<Bitmap>>,
    tile_size: u32,
    origin: Extent,
    count: nat,
)
    ensures
        painted(canvas, tiles, images, tile_size, origin, count).width == canvas.width,
        painted(canvas, tiles, images, tile_size, origin, count).height == canvas.height,
    decreases count,
{
    if count > 0 {
        lemma_painted_size(canvas, tiles, images, tile_size, origin, (count - 1) as nat);
    }
}

/// A composed canvas is exactly as wide as the columns of its tiles and as
/// high as their rows, in tiles of `tile_size` pixels.
pub proof fn lemma_composed_size(tiles: Seq<TileId>, images: Seq<Option<Bitmap>>, tile_size: u32)
    requires
        composed(tiles, images, tile_size).is_ok(),
    ensures
        composed(tiles, images, tile_size).unwrap().width == canvas_width(
            extent_of(tiles),
            tile_size,
        ),
        composed(tiles, images, tile_size).unwrap().height == canvas_height(
            extent_of(tiles),
            tile_size,
        ),
{
    let extent = extent_of(tiles);
    lemma_painted_size(
        blank_view(canvas_width(extent, tile_size), canvas_height(extent, tile_size)),
        tiles,
        images,
        tile_size,
        extent,
        tiles.len(),
    );
}

/// The canvas depends on the tiles, the tile size and what the images
/// show, and on nothing else: the same images in other buffers compose to
/// the same canvas.
pub proof fn lemma_composed_alike(
    tiles: Seq<TileId>,
    images: Seq<Option<Bitmap>>,
    others: Seq<Option<Bitmap>>,
    tile_size: u32,
)
    requires
        forall|i: int| 0 <= i < tiles.len() ==> image_at(images, i) == image_at(others, i),
    ensures
        composed(tiles, images, tile_size) == composed(tiles, others, tile_size),
{
    let extent = extent_of(tiles);
    let start = blank_view(canvas_width(extent, tile_size), canvas_height(extent, tile_size));
    lemma_painted_alike(start, tiles, images, others, tile_size, extent, tiles.len());
    if has_image(images, tiles.len() as int) {
        let i = choose|i: int| 0 <= i < tiles.len() && (#[trigger] image_at(images, i)).is_some();
        assert(image_at(others, i).is_some());
    }
    if has_image(others, tiles.len() as int) {
        let i = choose|i: int| 0 <= i < tiles.len() && (#[trigger] image_at(others, i)).is_some();
        assert(image_at(images, i).is_some());
    }
}

/// Painting depends on the images only through what they show.
proof fn lemma_painted_alike(
    canvas: BitmapView,
    tiles: Seq<TileId>,
    images: Seq<Option<Bitmap>>,
    others: Seq<Option<Bitmap>>,
    tile_size: u32,
    origin: Extent,
    count: nat,
)
    requires
        count <= tiles.len(),
        forall|i: int| 0 <= i < tiles.len() ==> image_at(images, i) == image_at(others, i),
    ensures
        painted(canvas, tiles, images, tile_size, origin, count) == painted(
            canvas,
            tiles,
            others,
            tile_size,
            origin,
            count,
        ),
    decreases count,
{
    if count > 0 {
        lemma_painted_alike(canvas, tiles, images, others, tile_size, origin, (count - 1) as nat);
        assert(image_at(images, count - 1) == image_at(others, count - 1));
    }
}

/// Whether one of the first `count` tiles has an image.
fn any_image(images: &Vec<Option<Bitmap>>, count: usize) -> (found: bool)
    ensures
        found == has_image(images@, count as int),
{
    let mut i: usize = 0;
    while i < count && i < images.len()
        invariant
            i <= count,
            i <= images@.len(),
            !has_image(images@, i as int),
        decreases count - i,
    {
        if images[i].is_some() {
            assert(image_at(images@, i as int).is_some());
            return true;
        }
        proof {
            assert forall|j: int| 0 <= j < i + 1 implies !(#[trigger] image_at(
                images@,
                j,
            )).is_some() by {
                if j < i {
                    assert(!has_image(images@, i as int));
                }
            }
        }
        i = i + 1;
    }
    proof {
        assert forall|j: int| 0 <= j < count implies !(#[trigger] image_at(images@, j)).is_some() by {
            if j < i {
                assert(!has_image(images@, i as int));
            }
        }
    }
    false
}

/// Stitches `tiles` into one canvas. `images` holds, place for place, the
/// image that was fetched for each tile, or `None` where the fetch failed:
/// such a tile leaves its part of the canvas transparent.
///
/// Each pixel of the canvas is what `known_pixel` settles of it. So where
/// no image exceeds a tile, the place of a tile shows the last image that
/// was painted there, wherever that image is opaque, and is transparent
/// where none was; `tiles` may name a tile repeatedly.
pub fn combine_images(tiles: &Vec<TileId>, images: &Vec<Option<Bitmap>>, tile_size: u32) -> (canvas:
    Result<Bitmap, CompositionError>)
    ensures
        canvas_view(canvas) == composed(tiles@, images@, tile_size),
        canvas matches Ok(bitmap) ==> bitmap@.width == canvas_width(extent_of(tiles@), tile_size)
            && bitmap@.height == canvas_height(extent_of(tiles@), tile_size),
        canvas matches Ok(bitmap) ==> forall|px: int, py: int|
            bitmap@.holds(px, py) ==> agrees(
                known_pixel(
                    tiles@,
                    images@,
                    tile_size,
                    extent_of(tiles@),
                    tiles@.len(),
                    px,
                    py,
                ),
                #[trigger] bitmap@.pixel(px, py),
            ),
        canvas matches Ok(bitmap) ==> (tile_sized(images@, tile_size) ==> forall|
            k: int,
            i: int,
            j: int,
        |
            0 <= k < tiles@.len() && #[trigger] opaque_at(images@, k, i, j) && last_painted(
                tiles@,
                images@,
                k,
            ) ==> tile_shown(bitmap@, tiles@, images@, tile_size, k, i, j)),
        canvas matches Ok(bitmap) ==> (tile_sized(images@, tile_size) ==> forall|
            k: int,
            i: int,
            j: int,
        | #[trigger]
            gap_at(tiles@, images@, tile_size, k, i, j) ==> gap_shown(
                bitmap@,
                tiles@,
                tile_size,
                k,
                i,
                j,
            )),
{
    let extent = match tile_extent(tiles) {
        Some(extent) => extent,
        None => {
            return Err(CompositionError::Empty);
        },
    };
    if !any_image(images, tiles.len()) {
        return Err(CompositionError::Empty);
    }
    proof {
        assert(0 <= (extent.max_x - extent.min_x + 1) * tile_size <= 0x1_0000_0000 * 0xffff_ffff)
            by (nonlinear_arith)
            requires
                0 <= extent.max_x - extent.min_x + 1 <= 0x1_0000_0000,
                0 <= tile_size <= 0xffff_ffff,
        ;
        assert(0 <= (extent.max_y - extent.min_y + 1) * tile_size <= 0x1_0000_0000 * 0xffff_ffff)
            by (nonlinear_arith)
            requires
                0 <= extent.max_y - extent.min_y + 1 <= 0x1_0000_0000,
                0 <= tile_size <= 0xffff_ffff,
        ;
    }
    let wide: u64 = ((extent.max_x - extent.min_x) as u64 + 1) * (tile_size as u64);
    let high: u64 = ((extent.max_y - extent.min_y) as u64 + 1) * (tile_size as u64);
    if wide > u32::MAX as u64 || high > u32::MAX as u64 {
        return Err(CompositionError::TooLarge);
    }
    let width: u32 = wide as u32;
    let height: u32 = high as u32;
    let mut canvas = match Bitmap::blank(width, height) {
        Some(canvas) => canvas,
        None => {
            return Err(CompositionError::TooLarge);
        },
    };
    let ghost start = canvas@;
    proof {
        assert forall|px: int, py: int| canvas@.holds(px, py) implies agrees(
            known_pixel(tiles@, images@, tile_size, extent, 0, px, py),
            #[trigger] canvas@.pixel(px, py),
        ) by {
            lemma_blank_pixel(width as int, height as int, px, py);
        }
    }
    let mut i: usize = 0;
    while i < tiles.len()
        invariant
            i <= tiles@.len(),
            extent == extent_of(tiles@),
            extent.min_x <= extent.max_x,
            extent.min_y <= extent.max_y,
            width == canvas_width(extent, tile_size),
            height == canvas_height(extent, tile_size),
            canvas@ == painted(start, tiles@, images@, tile_size, extent, i as nat),
            canvas@.width == width,
            canvas@.height == height,
            forall|px: int, py: int|
                canvas@.holds(px, py) ==> agrees(
                    known_pixel(tiles@, images@, tile_size, extent, i as nat, px, py),
                    #[trigger] canvas@.pixel(px, py),
                ),
        decreases tiles@.len() - i,
    {
        let ghost before = canvas@;
        if i < images.len() {
            match &images[i] {
                Some(image) => {
                    let tile = tiles[i];
                    proof {
                        lemma_lowest_highest(columns(tiles@));
                        lemma_lowest_highest(rows(tiles@));
                        assert(columns(tiles@)[i as int] == tile.x);
                        assert(rows(tiles@)[i as int] == tile.y);
                        lemma_offset_fits(tile.x, extent.min_x, extent.max_x, tile_size);
                        lemma_offset_fits(tile.y, extent.min_y, extent.max_y, tile_size);
                    }
                    let dx: u64 = ((tile.x - extent.min_x) as u64) * (tile_size as u64);
                    let dy: u64 = ((tile.y - extent.min_y) as u64) * (tile_size as u64);
                    canvas = canvas.overlay(image, dx as i64, dy as i64);
                    proof {
                        assert forall|px: int, py: int| canvas@.holds(px, py) implies agrees(
                            known_pixel(tiles@, images@, tile_size, extent, (i + 1) as nat, px, py),
                            #[trigger] canvas@.pixel(px, py),
                        ) by {
                            assert(agrees(
                                known_pixel(tiles@, images@, tile_size, extent, i as nat, px, py),
                                before.pixel(px, py),
                            ));
                        }
                    }
                },
                None => {},
            }
        }
        proof {
            assert forall|px: int, py: int| canvas@.holds(px, py) implies agrees(
                known_pixel(tiles@, images@, tile_size, extent, (i + 1) as nat, px, py),
                #[trigger] canvas@.pixel(px, py),
            ) by {
                if image_at(images@, i as int) is None {
                    assert(agrees(
                        known_pixel(tiles@, images@, tile_size, extent, i as nat, px, py),
                        before.pixel(px, py),
                    ));
                }
            }
        }
        i = i + 1;
    }
    proof {
        if tile_sized(images@, tile_size) {
            assert forall|k: int, i: int, j: int|
                0 <= k < tiles@.len() && #[trigger] opaque_at(images@, k, i, j) && last_painted(
                    tiles@,
                    images@,
                    k,
                ) implies tile_shown(canvas@, tiles@, images@, tile_size, k, i, j) by {
                lemma_tile_known(tiles@, images@, tile_size, k, i, j);
                let x = paint_offset(tiles@[k].x, extent.min_x, tile_size) + i;
                let y = paint_offset(tiles@[k].y, extent.min_y, tile_size) + j;
                assert(canvas@.holds(x, y));
                assert(agrees(
                    known_pixel(tiles@, images@, tile_size, extent, tiles@.len(), x, y),
                    canvas@.pixel(x, y),
                ));
            }
            assert forall|k: int, i: int, j: int| #[trigger]
                gap_at(tiles@, images@, tile_size, k, i, j) implies gap_shown(
                canvas@,
                tiles@,
                tile_size,
                k,
                i,
                j,
            ) by {
                lemma_gap_known(tiles@, images@, tile_size, k, i, j);
                let x = paint_offset(tiles@[k].x, extent.min_x, tile_size) + i;
                let y = paint_offset(tiles@[k].y, extent.min_y, tile_size) + j;
                assert(canvas@.holds(x, y));
                assert(agrees(
                    known_pixel(tiles@, images@, tile_size, extent, tiles@.len(), x, y),
                    canvas@.pixel(x, y),
                ));
            }
        }
    }
    Ok(canvas)
}

/// A tile's offset lies on the canvas of its extent.
proof fn lemma_offset_fits(x: u32, min_x: u32, max_x: u32, tile_size: u32)
    requires
        min_x <= x <= max_x,
        (max_x - min_x + 1) * tile_size <= u32::MAX,
    ensures
        0 <= paint_offset(x, min_x, tile_size) <= u32::MAX,
{
    assert(0 <= (x - min_x) * tile_size <= (max_x - min_x + 1) * tile_size) by (nonlinear_arith)
        requires
            min_x <= x <= max_x,
            0 <= tile_size,
    ;
}

/// Radius of the position marker, in pixels.
pub const MARKER_RADIUS: u32 = 8;

/// Colour of the position marker: opaque red.
pub open spec fn marker_color_spec() -> Rgba {
    Rgba { r: 255, g: 0, b: 0, a: 255 }
}

/// Colour of the position marker: opaque red.
pub fn marker_color() -> (color: Rgba)
    ensures
        color == marker_color_spec(),
{
    Rgba { r: 255, g: 0, b: 0, a: 255 }
}

/// The whole pixel of a canvas under a position of the global pixel
/// plane, on one axis: the position's whole pixel, counted from the first
/// pixel of the canvas's first tile `origin_tile`.
pub open spec fn local_pixel(pixel: i128, origin_tile: u32, tile_size: u32) -> int {
    (pixel as int) / (UNIT as int) - origin_tile * tile_size
}

/// Where a window of `output` pixels starts on a canvas of `canvas`
/// pixels so that `local` comes to lie in its middle, on one axis. A window
/// that would reach over either end of the canvas is pushed back inside.
pub open spec fn crop_start(local: int, output: int, canvas: int) -> int {
    let wanted = local - output / 2;
    let limit = if canvas > output {
        canvas - output
    } else {
        0
    };
    if wanted < 0 {
        0
    } else if wanted > limit {
        limit
    } else {
        wanted
    }
}

/// The window never starts before the canvas and never ends after it. A
/// position in the first half window of the canvas, or before the canvas,
/// puts the start at zero; a position far enough from both ends lies
/// exactly in the window's middle.
pub proof fn lemma_crop_start_clamped(local: int, output: int, canvas: int)
    requires
        0 <= output,
        0 <= canvas,
    ensures
        0 <= crop_start(local, output, canvas),
        crop_start(local, output, canvas) + least(output, canvas) <= canvas,
        local <= output / 2 ==> crop_start(local, output, canvas) == 0,
        output / 2 <= local <= canvas - output + output / 2 ==> crop_start(local, output, canvas)
            + output / 2 == local,
{
}

/// Start of the window on one axis, for a position `pixel` of the global
/// pixel plane and a canvas whose first tile is `origin_tile`.
pub fn crop_origin(pixel: i128, origin_tile: u32, tile_size: u32, output: u32, canvas: u32) -> (start:
    u32)
    ensures
        start == crop_start(
            local_pixel(pixel, origin_tile, tile_size),
            output as int,
            canvas as int,
        ),
{
    proof {
        assert(0 <= origin_tile * tile_size <= 0xffff_ffff * 0xffff_ffff) by (nonlinear_arith)
            requires
                0 <= origin_tile <= 0xffff_ffff,
                0 <= tile_size <= 0xffff_ffff,
        ;
    }
    if pixel < 0 {
        assert((pixel as int) / (UNIT as int) < 0);
        return 0;
    }
    let whole: u128 = (pixel as u128) / (UNIT as u128);
    let base: u128 = (origin_tile as u128) * (tile_size as u128) + (output / 2) as u128;
    if whole <= base {
        return 0;
    }
    let wanted: u128 = whole - base;
    let limit: u32 = if canvas > output {
        canvas - output
    } else {
        0
    };
    if wanted > limit as u128 {
        limit
    } else {
        wanted as u32
    }
}

/// The frame of `output_size` cut from `canvas` around `center`, where
/// `origin` is the column and row of the canvas's first tile.
pub open spec fn centered_crop(
    canvas: BitmapView,
    origin: (u32, u32),
    zoom: u8,
    tile_size: u32,
    center: MercatorPoint,
    output_size: (u32, u32),
) -> BitmapView {
    let pixel = pixel_of(center, zoom, tile_size);
    let x = crop_start(local_pixel(pixel.x, origin.0, tile_size), output_size.0 as int, canvas.width);
    let y = crop_start(
        local_pixel(pixel.y, origin.1, tile_size),
        output_size.1 as int,
        canvas.height,
    );
    cropped(canvas, x, y, output_size.0 as int, output_size.1 as int)
}

/// A frame has the size asked for, or the canvas's own where that is
/// smaller.
pub proof fn lemma_centered_crop_size(
    canvas: BitmapView,
    origin: (u32, u32),
    zoom: u8,
    tile_size: u32,
    center: MercatorPoint,
    output_size: (u32, u32),
)
    requires
        canvas.wf(),
    ensures
        centered_crop(canvas, origin, zoom, tile_size, center, output_size).width == least(
            output_size.0 as int,
            canvas.width,
        ),
        centered_crop(canvas, origin, zoom, tile_size, center, output_size).height == least(
            output_size.1 as int,
            canvas.height,
        ),
{
    let pixel = pixel_of(center, zoom, tile_size);
    lemma_crop_start_clamped(
        local_pixel(pixel.x, origin.0, tile_size),
        output_size.0 as int,
        canvas.width,
    );
    lemma_crop_start_clamped(
        local_pixel(pixel.y, origin.1, tile_size),
        output_size.1 as int,
        canvas.height,
    );
}

/// Each pixel of a frame is the pixel of the canvas that lies under it,
/// the frame's first pixel lying on the canvas where the window starts.
pub proof fn lemma_centered_crop_pixel(
    canvas: BitmapView,
    origin: (u32, u32),
    zoom: u8,
    tile_size: u32,
    center: MercatorPoint,
    output_size: (u32, u32),
    i: int,
    j: int,
)
    requires
        canvas.wf(),
        centered_crop(canvas, origin, zoom, tile_size, center, output_size).holds(i, j),
    ensures
        ({
            let pixel = pixel_of(center, zoom, tile_size);
            let x = crop_start(
                local_pixel(pixel.x, origin.0, tile_size),
                output_size.0 as int,
                canvas.width,
            );
            let y = crop_start(
                local_pixel(pixel.y, origin.1, tile_size),
                output_size.1 as int,
                canvas.height,
            );
            &&& canvas.holds(x + i, y + j)
            &&& centered_crop(canvas, origin, zoom, tile_size, center, output_size).pixel(i, j)
                == canvas.pixel(x + i, y + j)
        }),
{
    let pixel = pixel_of(center, zoom, tile_size);
    let x = crop_start(local_pixel(pixel.x, origin.0, tile_size), output_size.0 as int, canvas.width);
    let y = crop_start(
        local_pixel(pixel.y, origin.1, tile_size),
        output_size.1 as int,
        canvas.height,
    );
    lemma_crop_start_clamped(
        local_pixel(pixel.x, origin.0, tile_size),
        output_size.0 as int,
        canvas.width,
    );
    lemma_crop_start_clamped(
        local_pixel(pixel.y, origin.1, tile_size),
        output_size.1 as int,
        canvas.height,
    );
    lemma_cropped_pixel(canvas, x, y, output_size.0 as int, output_size.1 as int, i, j);
}

/// Cuts the frame of `output_size` around `center` out of `canvas`, whose
/// first tile lies in column `origin.0` of row `origin.1` of the grid.
pub fn center_and_crop(
    canvas: &Bitmap,
    origin: (u32, u32),
    zoom: u8,
    tile_size: u32,
    center: MercatorPoint,
    output_size: (u32, u32),
) -> (frame: Bitmap)
    requires
        zoom <= MAX_ZOOM,
    ensures
        frame@ == centered_crop(canvas@, origin, zoom, tile_size, center, output_size),
        frame@.width == least(output_size.0 as int, canvas@.width),
        frame@.height == least(output_size.1 as int, canvas@.height),
{
    proof {
        use_type_invariant(canvas);
        lemma_centered_crop_size(canvas@, origin, zoom, tile_size, center, output_size);
    }
    let pixel = point_to_pixel(center, zoom, tile_size);
    let x = crop_origin(pixel.x, origin.0, tile_size, output_size.0, canvas.width());
    let y = crop_origin(pixel.y, origin.1, tile_size, output_size.1, canvas.height());
    canvas.crop(x, y, output_size.0, output_size.1)
}

/// Marks the position `pos` on `img` with the marker's disc.
pub fn draw_player_icon(img: &mut Bitmap, pos: (u32, u32))
    ensures
        final(img)@ == marked(
            old(img)@,
            pos.0 as int,
            pos.1 as int,
            MARKER_RADIUS as int,
            marker_color_spec(),
        ),
{
    img.draw_marker(pos.0, pos.1, MARKER_RADIUS, marker_color());
}

/// The frame that `render_centered_map` makes: the composed canvas, cut
/// around `center` to `display_size`, with the marker in the middle of the
/// frame, which is half its own width and height.
pub open spec fn rendered(
    tiles: Seq<TileId>,
    images: Seq<Option<Bitmap>>,
    tile_size: u32,
    zoom: u8,
    center: MercatorPoint,
    display_size: (u32, u32),
) -> Result<BitmapView, CompositionError> {
    match composed(tiles, images, tile_size) {
        Ok(canvas) => {
            let frame = centered_crop(
                canvas,
                (extent_of(tiles).min_x, extent_of(tiles).min_y),
                zoom,
                tile_size,
                center,
                display_size,
            );
            Ok(
                marked(
                    frame,
                    frame.width / 2,
                    frame.height / 2,
                    MARKER_RADIUS as int,
                    marker_color_spec(),
                ),
            )
        },
        Err(error) => Err(error),
    }
}

/// Where the window of a frame starts on the canvas of `tiles`, as column
/// and row.
pub open spec fn window_start(
    tiles: Seq<TileId>,
    tile_size: u32,
    zoom: u8,
    center: MercatorPoint,
    display_size: (u32, u32),
) -> (int, int) {
    let extent = extent_of(tiles);
    let pixel = pixel_of(center, zoom, tile_size);
    (
        crop_start(
            local_pixel(pixel.x, extent.min_x, tile_size),
            display_size.0 as int,
            canvas_width(extent, tile_size),
        ),
        crop_start(
            local_pixel(pixel.y, extent.min_y, tile_size),
            display_size.1 as int,
            canvas_height(extent, tile_size),
        ),
    )
}

/// Width and height of the frame: the size asked for, or the canvas's own
/// where that is smaller.
pub open spec fn frame_size(tiles: Seq<TileId>, tile_size: u32, display_size: (u32, u32)) -> (
    int,
    int,
) {
    (
        least(display_size.0 as int, canvas_width(extent_of(tiles), tile_size)),
        least(display_size.1 as int, canvas_height(extent_of(tiles), tile_size)),
    )
}

/// What is known of the frame's pixel in column `i` of row `j`: on the
/// marker's disc around the middle of the frame the marker's colour,
/// elsewhere what is known of the canvas pixel under it.
pub open spec fn frame_known(
    tiles: Seq<TileId>,
    images: Seq<Option<Bitmap>>,
    tile_size: u32,
    zoom: u8,
    center: MercatorPoint,
    display_size: (u32, u32),
    i: int,
    j: int,
) -> Option<Rgba> {
    let start = window_start(tiles, tile_size, zoom, center, display_size);
    let size = frame_size(tiles, tile_size, display_size);
    if in_disc(i - size.0 / 2, j - size.1 / 2, MARKER_RADIUS as int) {
        Some(marker_color_spec())
    } else {
        known_pixel(
            tiles,
            images,
            tile_size,
            extent_of(tiles),
            tiles.len(),
            start.0 + i,
            start.1 + j,
        )
    }
}

/// Composes `tiles` with their `images`, cuts the frame of `display_size`
/// around `center` and marks the middle of the frame. Where the canvas is
/// smaller than `display_size` the frame is the canvas's size, and the
/// marker lies in the middle of that.
pub fn render_centered_map(
    tiles: &Vec<TileId>,
    images: &Vec<Option<Bitmap>>,
    tile_size: u32,
    zoom: u8,
    center: MercatorPoint,
    display_size: (u32, u32),
) -> (frame: Result<Bitmap, CompositionError>)
    requires
        zoom <= MAX_ZOOM,
    ensures
        canvas_view(frame) == rendered(tiles@, images@, tile_size, zoom, center, display_size),
        frame matches Ok(bitmap) ==> bitmap@.width == frame_size(tiles@, tile_size, display_size).0
            && bitmap@.height == frame_size(tiles@, tile_size, display_size).1,
        frame matches Ok(bitmap) ==> forall|i: int, j: int|
            bitmap@.holds(i, j) ==> agrees(
                frame_known(tiles@, images@, tile_size, zoom, center, display_size, i, j),
                #[trigger] bitmap@.pixel(i, j),
            ),
{
    let canvas = match combine_images(tiles, images, tile_size) {
        Ok(canvas) => canvas,
        Err(error) => {
            return Err(error);
        },
    };
    let extent = match tile_extent(tiles) {
        Some(extent) => extent,
        None => {
            return Err(CompositionError::Empty);
        },
    };
    let mut frame = center_and_crop(
        &canvas,
        (extent.min_x, extent.min_y),
        zoom,
        tile_size,
        center,
        display_size,
    );
    let ghost cut = frame@;
    let middle = (frame.width() / 2, frame.height() / 2);
    draw_player_icon(&mut frame, middle);
    proof {
        use_type_invariant(&canvas);
        let origin = (extent.min_x, extent.min_y);
        let start = window_start(tiles@, tile_size, zoom, center, display_size);
        lemma_centered_crop_size(canvas@, origin, zoom, tile_size, center, display_size);
        assert forall|i: int, j: int| frame@.holds(i, j) implies agrees(
            frame_known(tiles@, images@, tile_size, zoom, center, display_size, i, j),
            #[trigger] frame@.pixel(i, j),
        ) by {
            lemma_centered_crop_pixel(
                canvas@,
                origin,
                zoom,
                tile_size,
                center,
                display_size,
                i,
                j,
            );
            lemma_cropped_wf(canvas@, start.0, start.1, display_size.0 as int, display_size.1 as int);
            lemma_marked_pixel(
                cut,
                cut.width / 2,
                cut.height / 2,
                MARKER_RADIUS as int,
                marker_color_spec(),
                i,
                j,
            );
            assert(agrees(
                known_pixel(
                    tiles@,
                    images@,
                    tile_size,
                    extent,
                    tiles@.len(),
                    start.0 + i,
                    start.1 + j,
                ),
                canvas@.pixel(start.0 + i, start.1 + j),
            ));
        }
    }
    Ok(frame)
}

} // verus!
