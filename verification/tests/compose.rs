use gps_map::bitmap::{Bitmap, Rgba};
use gps_map::compose::{
    center_and_crop, combine_images, crop_origin, draw_player_icon, marker_color,
    render_centered_map, tile_extent, CompositionError, Extent, MARKER_RADIUS,
};
use gps_map::projection::{
    get_surrounding_tiles, gps_to_tile, neighborhood, point_to_pixel, tile_center, tile_origin,
    MercatorPoint, TileId, UNIT,
};

const CLEAR: Rgba = Rgba { r: 0, g: 0, b: 0, a: 0 };
const RED: Rgba = Rgba { r: 255, g: 0, b: 0, a: 255 };

fn solid(size: u32, color: Rgba) -> Bitmap {
    let mut bytes = Vec::new();
    for _ in 0..(size as usize * size as usize) {
        bytes.extend_from_slice(&[color.r, color.g, color.b, color.a]);
    }
    Bitmap::from_raw(size, size, bytes).unwrap()
}

/// The colour that the tests give the tile in column x of row y.
fn shade(tile: TileId) -> Rgba {
    Rgba { r: (tile.x % 251) as u8, g: (tile.y % 251) as u8, b: 200, a: 255 }
}

fn all_present(tiles: &[TileId], size: u32) -> Vec<Option<Bitmap>> {
    tiles.iter().map(|t| Some(solid(size, shade(*t)))).collect()
}

fn tile(x: u32, y: u32) -> TileId {
    TileId { x, y, zoom: 17 }
}

fn mercator(lat: f64, lon: f64) -> MercatorPoint {
    let scale = UNIT as f64;
    let lat_rad = lat.to_radians();
    let x = (lon + 180.0) / 360.0;
    let y = (1.0 - (lat_rad.tan() + 1.0 / lat_rad.cos()).ln() / std::f64::consts::PI) / 2.0;
    MercatorPoint { x: (x * scale).floor() as i64, y: (y * scale).floor() as i64 }
}

#[test]
fn extent_of_tiles() {
    assert_eq!(tile_extent(&vec![]), None);
    assert_eq!(
        tile_extent(&vec![tile(6, 10)]),
        Some(Extent { min_x: 6, max_x: 6, min_y: 10, max_y: 10 })
    );
    let tiles = vec![tile(6, 10), tile(5, 9), tile(7, 9), tile(5, 10)];
    assert_eq!(tile_extent(&tiles), Some(Extent { min_x: 5, max_x: 7, min_y: 9, max_y: 10 }));
    let wide = vec![tile(u32::MAX, 0), tile(0, u32::MAX)];
    assert_eq!(
        tile_extent(&wide),
        Some(Extent { min_x: 0, max_x: u32::MAX, min_y: 0, max_y: u32::MAX })
    );
}

#[test]
fn extent_of_a_neighbourhood() {
    let inner = neighborhood(TileId { x: 10, y: 20, zoom: 5 }, 2);
    assert_eq!(tile_extent(&inner), Some(Extent { min_x: 8, max_x: 12, min_y: 18, max_y: 22 }));
    let corner = neighborhood(TileId { x: 0, y: 31, zoom: 5 }, 2);
    assert_eq!(tile_extent(&corner), Some(Extent { min_x: 0, max_x: 2, min_y: 29, max_y: 31 }));
    let world = neighborhood(TileId { x: 0, y: 0, zoom: 0 }, 1);
    assert_eq!(tile_extent(&world), Some(Extent { min_x: 0, max_x: 0, min_y: 0, max_y: 0 }));
    let images = all_present(&inner, 4);
    let canvas = combine_images(&inner, &images, 4).unwrap();
    assert_eq!((canvas.width(), canvas.height()), (20, 20));
    let edge = combine_images(&corner, &all_present(&corner, 4), 4).unwrap();
    assert_eq!((edge.width(), edge.height()), (12, 12));
}

#[test]
fn canvas_spans_the_tiles_and_each_is_painted_at_its_offset() {
    let mut tiles = Vec::new();
    for x in 5..=7 {
        for y in 9..=10 {
            tiles.push(tile(x, y));
        }
    }
    let images = all_present(&tiles, 256);
    let canvas = combine_images(&tiles, &images, 256).unwrap();
    assert_eq!((canvas.width(), canvas.height()), (768, 512));
    assert_eq!(canvas.get_pixel(256, 256), Some(shade(tile(6, 10))));
    assert_eq!(canvas.get_pixel(511, 511), Some(shade(tile(6, 10))));
    assert_eq!(canvas.get_pixel(255, 256), Some(shade(tile(5, 10))));
    assert_eq!(canvas.get_pixel(256, 255), Some(shade(tile(6, 9))));
    assert_eq!(canvas.get_pixel(512, 256), Some(shade(tile(7, 10))));
    for t in tiles.iter() {
        let (dx, dy) = ((t.x - 5) * 256, (t.y - 9) * 256);
        assert_eq!(canvas.get_pixel(dx, dy), Some(shade(*t)));
        assert_eq!(canvas.get_pixel(dx + 255, dy + 255), Some(shade(*t)));
    }
}

#[test]
fn every_opaque_pixel_of_every_tile_stands_at_its_offset() {
    let tiles = vec![tile(7, 3), tile(5, 4), tile(6, 3), tile(5, 3), tile(7, 4)];
    let size = 6u32;
    let images: Vec<Option<Bitmap>> = tiles
        .iter()
        .map(|t| {
            let mut bytes = Vec::new();
            for y in 0..size {
                for x in 0..size {
                    bytes.extend_from_slice(&[t.x as u8, t.y as u8, (y * size + x) as u8, 255]);
                }
            }
            Bitmap::from_raw(size, size, bytes)
        })
        .collect();
    let canvas = combine_images(&tiles, &images, size).unwrap();
    assert_eq!((canvas.width(), canvas.height()), (18, 12));
    for (k, t) in tiles.iter().enumerate() {
        let image = images[k].as_ref().unwrap();
        for j in 0..size {
            for i in 0..size {
                let place = ((t.x - 5) * size + i, (t.y - 3) * size + j);
                assert_eq!(canvas.get_pixel(place.0, place.1), image.get_pixel(i, j));
            }
        }
    }
    for j in 0..size {
        for i in 0..size {
            assert_eq!(canvas.get_pixel(size + i, size + j), Some(CLEAR));
        }
    }
}

#[test]
fn repeated_tile_shows_the_last_image_painted_there() {
    let corner = neighborhood(TileId { x: 0, y: 0, zoom: 3 }, 1);
    assert_eq!(corner.len(), 9);
    let size = 4u32;
    let images: Vec<Option<Bitmap>> = (0..corner.len())
        .map(|k| Some(solid(size, Rgba { r: k as u8, g: 0, b: 0, a: 255 })))
        .collect();
    let canvas = combine_images(&corner, &images, size).unwrap();
    assert_eq!((canvas.width(), canvas.height()), (8, 8));
    for (k, t) in corner.iter().enumerate() {
        let last = corner.iter().rposition(|o| o == t).unwrap();
        let expected = Rgba { r: last as u8, g: 0, b: 0, a: 255 };
        for j in 0..size {
            for i in 0..size {
                assert_eq!(canvas.get_pixel(t.x * size + i, t.y * size + j), Some(expected));
            }
        }
        assert!(last >= k);
    }
    let mut gaps = images;
    gaps[4] = None;
    gaps[0] = None;
    gaps[1] = None;
    gaps[3] = None;
    let holed = combine_images(&corner, &gaps, size).unwrap();
    for j in 0..size {
        for i in 0..size {
            assert_eq!(holed.get_pixel(i, j), Some(CLEAR));
            assert_eq!(holed.get_pixel(size + i, j), Some(Rgba { r: 7, g: 0, b: 0, a: 255 }));
        }
    }
}

#[test]
fn marker_lies_in_the_middle_of_a_frame_smaller_than_the_window() {
    let world = vec![TileId { x: 0, y: 0, zoom: 0 }];
    let green = Rgba { r: 0, g: 200, b: 0, a: 255 };
    let images = vec![Some(solid(256, green))];
    let position = MercatorPoint { x: (UNIT / 4) as i64, y: (UNIT / 4) as i64 };
    let frame = render_centered_map(&world, &images, 256, 0, position, (512, 512)).unwrap();
    assert_eq!((frame.width(), frame.height()), (256, 256));
    let mut red = 0;
    for y in 0..256u32 {
        for x in 0..256u32 {
            let (dx, dy) = (x as i64 - 128, y as i64 - 128);
            let expected = if dx * dx + dy * dy <= 64 {
                red += 1;
                RED
            } else {
                green
            };
            assert_eq!(frame.get_pixel(x, y), Some(expected));
        }
    }
    assert_eq!(red, 197);
    let wide = render_centered_map(&world, &images, 256, 0, position, (100, 512)).unwrap();
    assert_eq!((wide.width(), wide.height()), (100, 256));
    assert_eq!(wide.get_pixel(50, 128), Some(RED));
    assert_eq!(wide.get_pixel(50, 137), Some(green));
    assert_eq!(wide.get_pixel(99, 255), Some(green));
}

#[test]
fn composing_is_repeatable() {
    let tiles = vec![tile(1, 1), tile(2, 1), tile(1, 2), tile(2, 2)];
    let first = combine_images(&tiles, &all_present(&tiles, 8), 8).unwrap();
    let second = combine_images(&tiles, &all_present(&tiles, 8), 8).unwrap();
    assert_eq!(first.as_raw(), second.as_raw());
    assert_eq!((first.width(), first.height()), (16, 16));
}

#[test]
fn missing_tile_stays_transparent() {
    let tiles = vec![tile(3, 3), tile(4, 3)];
    let images = vec![Some(solid(4, RED)), None];
    let canvas = combine_images(&tiles, &images, 4).unwrap();
    assert_eq!((canvas.width(), canvas.height()), (8, 4));
    for y in 0..4 {
        for x in 0..8 {
            let expected = if x < 4 { RED } else { CLEAR };
            assert_eq!(canvas.get_pixel(x, y), Some(expected));
        }
    }
}

#[test]
fn tiles_past_the_images_have_none() {
    let tiles = vec![tile(3, 3), tile(4, 3), tile(5, 3)];
    let images = vec![None, Some(solid(2, RED))];
    let canvas = combine_images(&tiles, &images, 2).unwrap();
    assert_eq!((canvas.width(), canvas.height()), (6, 2));
    assert_eq!(canvas.get_pixel(1, 1), Some(CLEAR));
    assert_eq!(canvas.get_pixel(2, 0), Some(RED));
    assert_eq!(canvas.get_pixel(3, 1), Some(RED));
    assert_eq!(canvas.get_pixel(4, 1), Some(CLEAR));
}

#[test]
fn later_tile_is_painted_over_an_earlier_one() {
    let tiles = vec![tile(0, 0), tile(0, 0), tile(1, 0)];
    let blue = Rgba { r: 0, g: 0, b: 255, a: 255 };
    let images = vec![Some(solid(2, RED)), Some(solid(2, blue)), None];
    let canvas = combine_images(&tiles, &images, 2).unwrap();
    assert_eq!(canvas.get_pixel(0, 0), Some(blue));
    assert_eq!(canvas.get_pixel(1, 1), Some(blue));
    assert_eq!(canvas.get_pixel(2, 0), Some(CLEAR));
}

#[test]
fn no_tiles_is_an_empty_composition() {
    let none: Vec<TileId> = Vec::new();
    assert_eq!(combine_images(&none, &vec![], 256).unwrap_err(), CompositionError::Empty);
    let images = vec![Some(solid(2, RED))];
    assert_eq!(combine_images(&none, &images, 256).unwrap_err(), CompositionError::Empty);
}

#[test]
fn no_images_is_an_empty_composition() {
    let tiles = vec![tile(1, 1), tile(2, 1)];
    assert_eq!(combine_images(&tiles, &vec![None, None], 256).unwrap_err(), CompositionError::Empty);
    assert_eq!(combine_images(&tiles, &vec![], 256).unwrap_err(), CompositionError::Empty);
    let late = vec![None, None, Some(solid(2, RED))];
    assert_eq!(combine_images(&tiles, &late, 256).unwrap_err(), CompositionError::Empty);
}

#[test]
fn canvas_beyond_the_limits_is_refused() {
    let tiles = vec![tile(0, 0), tile(u32::MAX, 0)];
    let images = vec![Some(solid(1, RED)), None];
    assert_eq!(combine_images(&tiles, &images, 256).unwrap_err(), CompositionError::TooLarge);
    let tall = vec![tile(0, 0), tile(0, 1 << 24)];
    assert_eq!(combine_images(&tall, &images, 256).unwrap_err(), CompositionError::TooLarge);
    assert_eq!(
        combine_images(&vec![tile(0, 0)], &images, 0).unwrap().as_raw().len(),
        0
    );
}

#[test]
fn crop_origin_centres_the_position() {
    let pixel = |whole: i128| whole << 32;
    assert_eq!(crop_origin(pixel(1000), 0, 256, 512, 768), 256);
    assert_eq!(crop_origin(pixel(384), 0, 256, 512, 768), 128);
    assert_eq!(crop_origin(pixel(384) + 0xffff_ffff, 0, 256, 512, 768), 128);
    assert_eq!(crop_origin(pixel(256 * 5 + 300), 5, 256, 512, 768), 44);
    assert_eq!(crop_origin(pixel(300), 0, 256, 101, 768), 250);
}

#[test]
fn crop_origin_is_never_negative() {
    let pixel = |whole: i128| whole << 32;
    assert_eq!(crop_origin(pixel(0), 0, 256, 512, 768), 0);
    assert_eq!(crop_origin(pixel(255), 0, 256, 512, 768), 0);
    assert_eq!(crop_origin(pixel(256), 0, 256, 512, 768), 0);
    assert_eq!(crop_origin(pixel(257), 0, 256, 512, 768), 1);
    assert_eq!(crop_origin(-1, 0, 256, 512, 768), 0);
    assert_eq!(crop_origin(i128::MIN, 0, 256, 0, 768), 0);
    assert_eq!(crop_origin(pixel(256 * 5), 5, 256, 512, 768), 0);
    assert_eq!(crop_origin(pixel(256 * 4), 5, 256, 512, 768), 0);
    assert_eq!(crop_origin(pixel(10), u32::MAX, u32::MAX, u32::MAX, u32::MAX), 0);
}

#[test]
fn crop_origin_keeps_the_window_on_the_canvas() {
    let pixel = |whole: i128| whole << 32;
    assert_eq!(crop_origin(pixel(767), 0, 256, 512, 768), 256);
    assert_eq!(crop_origin(pixel(5000), 0, 256, 512, 768), 256);
    assert_eq!(crop_origin(i128::MAX, 0, 256, 512, 768), 256);
    assert_eq!(crop_origin(pixel(600), 0, 256, 768, 768), 0);
    assert_eq!(crop_origin(pixel(600), 0, 256, 1000, 768), 0);
    assert_eq!(crop_origin(pixel(600), 0, 256, 0, 768), 600);
    assert_eq!(crop_origin(pixel(900), 0, 256, 0, 768), 768);
}

#[test]
fn crop_around_the_top_left_corner_starts_at_zero() {
    let tiles = vec![tile(5, 9), tile(6, 9), tile(5, 10), tile(6, 10)];
    let canvas = combine_images(&tiles, &all_present(&tiles, 16), 16).unwrap();
    let corner = tile_origin(tile(5, 9));
    let frame = center_and_crop(&canvas, (5, 9), 17, 16, corner, (20, 20));
    assert_eq!((frame.width(), frame.height()), (20, 20));
    for y in 0..20 {
        for x in 0..20 {
            assert_eq!(frame.get_pixel(x, y), canvas.get_pixel(x, y));
        }
    }
    let before = MercatorPoint { x: corner.x - 100000, y: corner.y - 100000 };
    let same = center_and_crop(&canvas, (5, 9), 17, 16, before, (20, 20));
    assert_eq!(same.as_raw(), frame.as_raw());
}

#[test]
fn crop_around_the_middle_is_centred() {
    let tiles = vec![tile(5, 9), tile(6, 9), tile(5, 10), tile(6, 10)];
    let canvas = combine_images(&tiles, &all_present(&tiles, 16), 16).unwrap();
    let middle = tile_origin(tile(6, 10));
    assert_eq!(point_to_pixel(middle, 17, 16).x >> 32, 96);
    let frame = center_and_crop(&canvas, (5, 9), 17, 16, middle, (8, 6));
    assert_eq!((frame.width(), frame.height()), (8, 6));
    for y in 0..6 {
        for x in 0..8 {
            assert_eq!(frame.get_pixel(x, y), canvas.get_pixel(12 + x, 13 + y));
        }
    }
    assert_eq!(frame.get_pixel(4, 3), Some(shade(tile(6, 10))));
    assert_eq!(frame.get_pixel(3, 2), Some(shade(tile(5, 9))));
}

#[test]
fn crop_near_the_far_edge_is_shifted_inward() {
    let tiles = vec![tile(5, 9), tile(6, 9), tile(5, 10), tile(6, 10)];
    let canvas = combine_images(&tiles, &all_present(&tiles, 16), 16).unwrap();
    let far = MercatorPoint { x: i64::MAX, y: i64::MAX };
    let frame = center_and_crop(&canvas, (5, 9), 17, 16, far, (10, 12));
    assert_eq!((frame.width(), frame.height()), (10, 12));
    for y in 0..12 {
        for x in 0..10 {
            assert_eq!(frame.get_pixel(x, y), canvas.get_pixel(22 + x, 20 + y));
        }
    }
}

#[test]
fn frame_is_no_larger_than_the_canvas() {
    let tiles = vec![tile(5, 9)];
    let canvas = combine_images(&tiles, &all_present(&tiles, 16), 16).unwrap();
    let frame = center_and_crop(&canvas, (5, 9), 17, 16, tile_center(tile(5, 9)), (512, 4));
    assert_eq!((frame.width(), frame.height()), (16, 4));
    assert_eq!(frame.get_pixel(0, 0), canvas.get_pixel(0, 6));
}

#[test]
fn player_icon_is_a_red_disc_of_radius_eight() {
    assert_eq!(MARKER_RADIUS, 8);
    assert_eq!(marker_color(), RED);
    let mut frame = Bitmap::blank(40, 40).unwrap();
    draw_player_icon(&mut frame, (20, 20));
    let mut red = 0;
    for y in 0..40u32 {
        for x in 0..40u32 {
            let (dx, dy) = (x as i64 - 20, y as i64 - 20);
            let expected = if dx * dx + dy * dy <= 64 {
                red += 1;
                RED
            } else {
                CLEAR
            };
            assert_eq!(frame.get_pixel(x, y), Some(expected));
        }
    }
    assert_eq!(red, 197);
}

#[test]
fn end_to_end_frame_around_known_position() {
    let position = mercator(25.2048, 55.2708);
    let center = gps_to_tile(position, 17);
    assert_eq!(center, TileId { x: 85659, y: 56048, zoom: 17 });
    let tiles = get_surrounding_tiles(position, 17);
    assert_eq!(tiles.len(), 9);
    let images = all_present(&tiles, 256);
    let canvas = combine_images(&tiles, &images, 256).unwrap();
    assert_eq!((canvas.width(), canvas.height()), (768, 768));
    assert_eq!(canvas.get_pixel(256, 256), Some(shade(center)));

    let frame = render_centered_map(&tiles, &images, 256, 17, position, (512, 512)).unwrap();
    assert_eq!((frame.width(), frame.height()), (512, 512));
    // The position is pixel (21928827, 14348302) of the plane, the canvas
    // starts at tile (85658, 56047): the local pixel is (379, 270).
    let (x0, y0) = (379 - 256, 270 - 256);
    for (x, y) in [(0u32, 0u32), (511, 511), (100, 400), (256, 265), (247, 256), (262, 262)] {
        assert_eq!(frame.get_pixel(x, y), canvas.get_pixel(x0 + x, y0 + y));
    }
    for (x, y) in [(256u32, 256u32), (264, 256), (256, 248), (248, 256), (261, 261)] {
        assert_eq!(frame.get_pixel(x, y), Some(RED));
    }
}

#[test]
fn rendering_nothing_is_an_empty_composition() {
    let position = mercator(25.2048, 55.2708);
    let tiles = get_surrounding_tiles(position, 17);
    let images: Vec<Option<Bitmap>> = tiles.iter().map(|_| None).collect();
    assert_eq!(
        render_centered_map(&tiles, &images, 256, 17, position, (512, 512)).unwrap_err(),
        CompositionError::Empty
    );
    assert_eq!(
        render_centered_map(&vec![], &vec![], 256, 17, position, (512, 512)).unwrap_err(),
        CompositionError::Empty
    );
}
