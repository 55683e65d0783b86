use gps_map::bitmap::{within_disc, Bitmap, Rgba};

const RED: Rgba = Rgba { r: 255, g: 0, b: 0, a: 255 };
const BLUE: Rgba = Rgba { r: 0, g: 0, b: 255, a: 255 };
const CLEAR: Rgba = Rgba { r: 0, g: 0, b: 0, a: 0 };

fn solid(width: u32, height: u32, color: Rgba) -> Bitmap {
    let mut bytes = Vec::new();
    for _ in 0..(width as usize * height as usize) {
        bytes.extend_from_slice(&[color.r, color.g, color.b, color.a]);
    }
    Bitmap::from_raw(width, height, bytes).unwrap()
}

/// A bitmap whose pixel in column x of row y is (x, y, 7, 255).
fn gradient(width: u32, height: u32) -> Bitmap {
    let mut bytes = Vec::new();
    for y in 0..height {
        for x in 0..width {
            bytes.extend_from_slice(&[x as u8, y as u8, 7, 255]);
        }
    }
    Bitmap::from_raw(width, height, bytes).unwrap()
}

#[test]
fn from_raw_wants_four_bytes_per_pixel() {
    assert!(Bitmap::from_raw(2, 3, vec![0; 24]).is_some());
    assert!(Bitmap::from_raw(2, 3, vec![0; 23]).is_none());
    assert!(Bitmap::from_raw(2, 3, vec![0; 25]).is_none());
    assert!(Bitmap::from_raw(0, 3, vec![]).is_some());
    assert!(Bitmap::from_raw(0, 0, vec![1]).is_none());
    assert!(Bitmap::from_raw(u32::MAX, u32::MAX, vec![0; 4]).is_none());
}

#[test]
fn from_raw_keeps_size_and_bytes() {
    let bytes: Vec<u8> = (0..24).collect();
    let bitmap = Bitmap::from_raw(3, 2, bytes.clone()).unwrap();
    assert_eq!(bitmap.width(), 3);
    assert_eq!(bitmap.height(), 2);
    assert_eq!(bitmap.as_raw(), &bytes);
    assert_eq!(bitmap.get_pixel(1, 1), Some(Rgba { r: 16, g: 17, b: 18, a: 19 }));
    assert_eq!(bitmap.into_raw(), bytes);
}

#[test]
fn blank_is_transparent() {
    let bitmap = Bitmap::blank(3, 2).unwrap();
    assert_eq!(bitmap.width(), 3);
    assert_eq!(bitmap.height(), 2);
    assert_eq!(bitmap.as_raw(), &vec![0u8; 24]);
    let none = Bitmap::blank(0, 5).unwrap();
    assert_eq!(none.as_raw().len(), 0);
    assert_eq!(none.height(), 5);
}

#[test]
fn get_pixel_off_the_bitmap_is_none() {
    let bitmap = gradient(3, 2);
    assert_eq!(bitmap.get_pixel(2, 1), Some(Rgba { r: 2, g: 1, b: 7, a: 255 }));
    assert_eq!(bitmap.get_pixel(3, 1), None);
    assert_eq!(bitmap.get_pixel(2, 2), None);
    assert_eq!(bitmap.get_pixel(u32::MAX, u32::MAX), None);
}

#[test]
fn put_pixel_changes_one_pixel() {
    let mut bitmap = gradient(3, 2);
    bitmap.put_pixel(1, 1, RED);
    for y in 0..2 {
        for x in 0..3 {
            let expected = if (x, y) == (1, 1) {
                RED
            } else {
                Rgba { r: x as u8, g: y as u8, b: 7, a: 255 }
            };
            assert_eq!(bitmap.get_pixel(x, y), Some(expected));
        }
    }
    let before = bitmap.as_raw().clone();
    bitmap.put_pixel(3, 0, BLUE);
    bitmap.put_pixel(0, 2, BLUE);
    assert_eq!(bitmap.as_raw(), &before);
}

#[test]
fn crop_copies_the_rectangle() {
    let bitmap = gradient(5, 4);
    let part = bitmap.crop(1, 2, 3, 2);
    assert_eq!((part.width(), part.height()), (3, 2));
    for j in 0..2 {
        for i in 0..3 {
            assert_eq!(part.get_pixel(i, j), bitmap.get_pixel(1 + i, 2 + j));
        }
    }
    assert_eq!(part.get_pixel(0, 0), Some(Rgba { r: 1, g: 2, b: 7, a: 255 }));
}

#[test]
fn crop_is_cut_off_at_the_edges() {
    let bitmap = gradient(5, 4);
    let part = bitmap.crop(3, 3, 10, 10);
    assert_eq!((part.width(), part.height()), (2, 1));
    assert_eq!(part.get_pixel(0, 0), Some(Rgba { r: 3, g: 3, b: 7, a: 255 }));
    assert_eq!(part.get_pixel(1, 0), Some(Rgba { r: 4, g: 3, b: 7, a: 255 }));
    let outside = bitmap.crop(9, 9, 2, 2);
    assert_eq!((outside.width(), outside.height()), (0, 0));
    assert_eq!(outside.as_raw().len(), 0);
    let whole = bitmap.crop(0, 0, u32::MAX, u32::MAX);
    assert_eq!(whole.as_raw(), bitmap.as_raw());
    let flat = bitmap.crop(1, 1, 3, 0);
    assert_eq!((flat.width(), flat.height()), (3, 0));
}

#[test]
fn within_disc_is_the_closed_disc() {
    assert!(within_disc(10, 10, 10, 10, 0));
    assert!(!within_disc(11, 10, 10, 10, 0));
    assert!(within_disc(18, 10, 10, 10, 8));
    assert!(!within_disc(19, 10, 10, 10, 8));
    assert!(within_disc(2, 10, 10, 10, 8));
    assert!(within_disc(15, 16, 10, 10, 8));
    assert!(!within_disc(16, 16, 10, 10, 8));
    assert!(within_disc(0, u32::MAX, u32::MAX, u32::MAX, u32::MAX));
    assert!(!within_disc(0, u32::MAX, u32::MAX, u32::MAX, u32::MAX - 1));
    assert!(!within_disc(0, 0, u32::MAX, u32::MAX, u32::MAX));
    assert!(!within_disc(0, u32::MAX - 1, u32::MAX, u32::MAX, u32::MAX));
}

#[test]
fn marker_paints_the_disc_and_nothing_else() {
    let mut bitmap = gradient(40, 30);
    bitmap.draw_marker(20, 15, 8, RED);
    let mut painted = 0;
    for y in 0..30u32 {
        for x in 0..40u32 {
            let dx = x as i64 - 20;
            let dy = y as i64 - 15;
            let expected = if dx * dx + dy * dy <= 64 {
                painted += 1;
                RED
            } else {
                Rgba { r: x as u8, g: y as u8, b: 7, a: 255 }
            };
            assert_eq!(bitmap.get_pixel(x, y), Some(expected));
        }
    }
    assert_eq!(painted, 197);
}

#[test]
fn marker_of_radius_one_is_a_plus() {
    let mut bitmap = solid(5, 5, CLEAR);
    bitmap.draw_marker(2, 2, 1, BLUE);
    let blue: Vec<(u32, u32)> = (0..5u32)
        .flat_map(|y| (0..5u32).map(move |x| (x, y)))
        .filter(|&(x, y)| bitmap.get_pixel(x, y) == Some(BLUE))
        .collect();
    assert_eq!(blue, vec![(2, 1), (1, 2), (2, 2), (3, 2), (2, 3)]);
}

#[test]
fn marker_of_radius_zero_is_one_pixel() {
    let mut bitmap = solid(3, 3, CLEAR);
    bitmap.draw_marker(1, 2, 0, RED);
    for y in 0..3 {
        for x in 0..3 {
            let expected = if (x, y) == (1, 2) { RED } else { CLEAR };
            assert_eq!(bitmap.get_pixel(x, y), Some(expected));
        }
    }
}

#[test]
fn marker_is_clipped_to_the_bitmap() {
    let mut bitmap = solid(4, 4, CLEAR);
    bitmap.draw_marker(0, 0, 2, RED);
    let red: Vec<(u32, u32)> = (0..4u32)
        .flat_map(|y| (0..4u32).map(move |x| (x, y)))
        .filter(|&(x, y)| bitmap.get_pixel(x, y) == Some(RED))
        .collect();
    assert_eq!(red, vec![(0, 0), (1, 0), (2, 0), (0, 1), (1, 1), (0, 2)]);
    let mut off = solid(4, 4, CLEAR);
    off.draw_marker(100, 100, 8, RED);
    assert_eq!(off.as_raw(), solid(4, 4, CLEAR).as_raw());
    let mut reaching = solid(4, 4, CLEAR);
    reaching.draw_marker(5, 1, 2, RED);
    assert_eq!(reaching.get_pixel(3, 1), Some(RED));
    assert_eq!(reaching.get_pixel(2, 1), Some(CLEAR));
    assert_eq!(reaching.get_pixel(3, 0), Some(CLEAR));
}

#[test]
fn marker_larger_than_the_bitmap_fills_it() {
    let mut bitmap = gradient(6, 5);
    bitmap.draw_marker(3, 2, u32::MAX, BLUE);
    assert_eq!(bitmap.as_raw(), solid(6, 5, BLUE).as_raw());
}

#[test]
fn overlay_places_an_opaque_tile() {
    let canvas = Bitmap::blank(6, 4).unwrap();
    let tile = solid(2, 2, RED);
    let out = canvas.overlay(&tile, 3, 1);
    assert_eq!((out.width(), out.height()), (6, 4));
    for y in 0..4u32 {
        for x in 0..6u32 {
            let inside = (3..5).contains(&x) && (1..3).contains(&y);
            let expected = if inside { RED } else { CLEAR };
            assert_eq!(out.get_pixel(x, y), Some(expected));
        }
    }
}

#[test]
fn overlay_keeps_what_a_transparent_tile_covers() {
    let canvas = gradient(4, 4);
    let before = canvas.as_raw().clone();
    let out = canvas.overlay(&solid(2, 2, CLEAR), 1, 1);
    assert_eq!(out.as_raw(), &before);
}

#[test]
fn overlay_blends_a_translucent_tile() {
    let canvas = solid(2, 1, Rgba { r: 0, g: 0, b: 0, a: 255 });
    let veil = solid(1, 1, Rgba { r: 255, g: 255, b: 255, a: 128 });
    let out = canvas.overlay(&veil, 1, 0);
    assert_eq!(out.get_pixel(0, 0), Some(Rgba { r: 0, g: 0, b: 0, a: 255 }));
    let mixed = out.get_pixel(1, 0).unwrap();
    assert!(mixed.a >= 254);
    assert!(mixed.r > 100 && mixed.r < 160);
    assert_eq!((mixed.r, mixed.r), (mixed.g, mixed.b));
}

#[test]
fn overlay_with_a_bitmap_without_pixels_changes_nothing() {
    let flat = Bitmap::blank(0x4000_0000, 0).unwrap();
    let narrow = Bitmap::blank(0, 0x4000_0000).unwrap();
    let canvas = gradient(3, 3);
    let before = canvas.as_raw().clone();
    let out = canvas.overlay(&flat, 0, 0).overlay(&narrow, 1, 1);
    assert_eq!((out.width(), out.height()), (3, 3));
    assert_eq!(out.as_raw(), &before);
    let still_flat = flat.overlay(&solid(1, 1, RED), 0, 0);
    assert_eq!((still_flat.width(), still_flat.height()), (0x4000_0000, 0));
    assert_eq!(still_flat.as_raw().len(), 0);
    let still_narrow = narrow.overlay(&solid(1, 1, RED), 0, 0);
    assert_eq!((still_narrow.width(), still_narrow.height()), (0, 0x4000_0000));
}

#[test]
fn overlay_drops_what_falls_off() {
    let canvas = Bitmap::blank(3, 3).unwrap();
    let out = canvas.overlay(&solid(2, 2, BLUE), 2, -1);
    for y in 0..3u32 {
        for x in 0..3u32 {
            let expected = if (x, y) == (2, 0) { BLUE } else { CLEAR };
            assert_eq!(out.get_pixel(x, y), Some(expected));
        }
    }
    let untouched = out.overlay(&solid(2, 2, RED), 10, 10);
    assert_eq!(untouched.get_pixel(2, 0), Some(BLUE));
    assert_eq!(untouched.get_pixel(2, 2), Some(CLEAR));
    let far = untouched.overlay(&solid(2, 2, RED), i64::MIN, i64::MAX);
    assert_eq!(far.get_pixel(2, 0), Some(BLUE));
    assert_eq!(far.get_pixel(0, 0), Some(CLEAR));
}
