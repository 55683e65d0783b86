use gps_map::bitmap::{Bitmap, Rgba};
use gps_map::decimal::append_decimal;
use gps_map::projection::TileId;
use gps_map::store::{
    fetch_tile, load_tile, status_is_success, tile_from_raw, tile_path, tile_url, FetchAction,
    FetchError, FetchEvent, FetchState,
};
use std::collections::HashMap;

const ENDPOINT: &str = "https://tiles.example.org/osm";
const TILE: TileId = TileId { x: 85659, y: 56048, zoom: 17 };

/// A PNG of the given size whose pixel in column x of row y is (x, y, 9, 255).
fn png(width: u32, height: u32) -> Vec<u8> {
    let mut raw = Vec::new();
    for y in 0..height {
        for x in 0..width {
            raw.extend_from_slice(&[x as u8, y as u8, 9, 255]);
        }
    }
    let picture = image::RgbaImage::from_raw(width, height, raw).unwrap();
    let mut out = std::io::Cursor::new(Vec::new());
    picture.write_to(&mut out, image::ImageFormat::Png).unwrap();
    out.into_inner()
}

fn decimal_of(n: u32) -> String {
    let mut out = String::new();
    append_decimal(&mut out, n);
    out
}

#[test]
fn decimal_numerals() {
    assert_eq!(decimal_of(0), "0");
    assert_eq!(decimal_of(7), "7");
    assert_eq!(decimal_of(10), "10");
    assert_eq!(decimal_of(1234567890), "1234567890");
    assert_eq!(decimal_of(u32::MAX), "4294967295");
    assert_eq!(decimal_of(100), "100");
}

#[test]
fn decimal_is_appended() {
    let mut out = String::from("z=");
    append_decimal(&mut out, 17);
    append_decimal(&mut out, 0);
    assert_eq!(out, "z=170");
}

#[test]
fn tile_path_layout() {
    assert_eq!(tile_path(85659, 56048, 17), "tiles/17/85659/56048.png");
    assert_eq!(tile_path(0, 0, 0), "tiles/0/0/0.png");
    assert_eq!(tile_path(u32::MAX, 1, 255), "tiles/255/4294967295/1.png");
}

#[test]
fn distinct_tiles_have_distinct_paths() {
    let ids = [(1u32, 11u32, 1u8), (11, 1, 1), (1, 1, 11), (111, 1, 1), (1, 111, 1), (11, 11, 1)];
    for (i, a) in ids.iter().enumerate() {
        for (j, b) in ids.iter().enumerate() {
            assert_eq!(tile_path(a.0, a.1, a.2) == tile_path(b.0, b.1, b.2), i == j);
        }
    }
}

#[test]
fn tile_url_layout() {
    assert_eq!(tile_url(ENDPOINT, TILE), "https://tiles.example.org/osm/17/85659/56048.png");
    assert_eq!(tile_url("", TileId { x: 1, y: 2, zoom: 3 }), "/3/1/2.png");
}

#[test]
fn success_is_the_2xx_range() {
    assert!(!status_is_success(199));
    assert!(status_is_success(200));
    assert!(status_is_success(204));
    assert!(status_is_success(299));
    assert!(!status_is_success(300));
    assert!(!status_is_success(404));
    assert!(!status_is_success(0));
    assert!(!status_is_success(u16::MAX));
}

#[test]
fn load_tile_decodes_a_png() {
    let tile = load_tile(&png(3, 2)).unwrap();
    assert_eq!((tile.width(), tile.height()), (3, 2));
    assert_eq!(tile.get_pixel(2, 1), Some(Rgba { r: 2, g: 1, b: 9, a: 255 }));
    assert_eq!(tile.as_raw().len(), 24);
    assert_eq!(&tile.as_raw()[..8], &[0, 0, 9, 255, 1, 0, 9, 255]);
}

#[test]
fn load_tile_rejects_what_is_no_image() {
    assert_eq!(load_tile(&[]).unwrap_err(), FetchError::Decode);
    assert_eq!(load_tile(b"not a picture").unwrap_err(), FetchError::Decode);
    let mut cut = png(4, 4);
    cut.truncate(20);
    assert_eq!(load_tile(&cut).unwrap_err(), FetchError::Decode);
}

#[test]
fn load_tile_reads_png_only() {
    let gif: Vec<u8> = vec![
        0x47, 0x49, 0x46, 0x38, 0x39, 0x61, 0x01, 0x00, 0x01, 0x00, 0x80, 0x00, 0x00, 0x00, 0x00,
        0x00, 0xff, 0xff, 0xff, 0x2c, 0x00, 0x00, 0x00, 0x00, 0x01, 0x00, 0x01, 0x00, 0x00, 0x02,
        0x02, 0x44, 0x01, 0x00, 0x3b,
    ];
    assert_eq!(load_tile(&gif).unwrap_err(), FetchError::Decode);
    let bmp_head = b"BM\x3a\x00\x00\x00\x00\x00\x00\x00\x36\x00\x00\x00";
    assert_eq!(load_tile(bmp_head).unwrap_err(), FetchError::Decode);
    let mut spoiled = png(2, 2);
    spoiled[0] = 0x88;
    assert_eq!(load_tile(&spoiled).unwrap_err(), FetchError::Decode);
    assert!(load_tile(&png(2, 2)).is_ok());
}

#[test]
fn tile_from_raw_checks_the_buffer() {
    let tile = tile_from_raw(Some((1, 2, vec![1, 2, 3, 4, 5, 6, 7, 8]))).unwrap();
    assert_eq!(tile.get_pixel(0, 1), Some(Rgba { r: 5, g: 6, b: 7, a: 8 }));
    assert_eq!(tile_from_raw(Some((1, 2, vec![0; 7]))).unwrap_err(), FetchError::Decode);
    assert_eq!(tile_from_raw(None).unwrap_err(), FetchError::Decode);
}

#[test]
fn fetch_starts_with_the_cache() {
    let (state, action) = fetch_tile(TILE, ENDPOINT, FetchState::Idle, FetchEvent::Start);
    assert!(matches!(state, FetchState::ProbingCache));
    match action {
        FetchAction::ReadCache { path } => assert_eq!(path, "tiles/17/85659/56048.png"),
        other => panic!("{:?}", other),
    }
}

#[test]
fn cache_hit_is_delivered_without_a_request() {
    let (state, action) =
        fetch_tile(TILE, ENDPOINT, FetchState::ProbingCache, FetchEvent::CacheHit(png(2, 2)));
    assert!(matches!(state, FetchState::Finished));
    match action {
        FetchAction::Deliver { result: Ok(tile), persist_failed: false } => {
            assert_eq!((tile.width(), tile.height()), (2, 2));
            assert_eq!(tile.get_pixel(1, 1), Some(Rgba { r: 1, g: 1, b: 9, a: 255 }));
        }
        other => panic!("{:?}", other),
    }
}

#[test]
fn corrupt_cache_is_an_error_and_not_fetched_again() {
    let (state, action) =
        fetch_tile(TILE, ENDPOINT, FetchState::ProbingCache, FetchEvent::CacheHit(vec![1, 2, 3]));
    assert!(matches!(state, FetchState::Finished));
    assert!(matches!(
        action,
        FetchAction::Deliver { result: Err(FetchError::Decode), persist_failed: false }
    ));
}

#[test]
fn unreadable_cache_is_an_error() {
    let (state, action) =
        fetch_tile(TILE, ENDPOINT, FetchState::ProbingCache, FetchEvent::CacheUnreadable);
    assert!(matches!(state, FetchState::Finished));
    assert!(matches!(
        action,
        FetchAction::Deliver { result: Err(FetchError::CacheRead), persist_failed: false }
    ));
}

#[test]
fn cache_miss_asks_the_tile_service() {
    let (state, action) =
        fetch_tile(TILE, ENDPOINT, FetchState::ProbingCache, FetchEvent::CacheMiss);
    assert!(matches!(state, FetchState::Requesting));
    match action {
        FetchAction::Request { url } => {
            assert_eq!(url, "https://tiles.example.org/osm/17/85659/56048.png")
        }
        other => panic!("{:?}", other),
    }
}

#[test]
fn transport_failure_is_reported() {
    let (state, action) =
        fetch_tile(TILE, ENDPOINT, FetchState::Requesting, FetchEvent::TransportFailure);
    assert!(matches!(state, FetchState::Finished));
    assert!(matches!(
        action,
        FetchAction::Deliver { result: Err(FetchError::Transport), persist_failed: false }
    ));
}

#[test]
fn remote_status_is_reported_with_its_code() {
    for status in [404u16, 500, 301, 199, 300] {
        let event = FetchEvent::Response { status, body: png(1, 1) };
        let (state, action) = fetch_tile(TILE, ENDPOINT, FetchState::Requesting, event);
        assert!(matches!(state, FetchState::Finished));
        match action {
            FetchAction::Deliver { result: Err(FetchError::RemoteStatus(code)), persist_failed } => {
                assert_eq!(code, status);
                assert!(!persist_failed);
            }
            other => panic!("{:?}", other),
        }
    }
}

#[test]
fn download_is_persisted_then_delivered() {
    let body = png(2, 1);
    let event = FetchEvent::Response { status: 200, body: body.clone() };
    let (state, action) = fetch_tile(TILE, ENDPOINT, FetchState::Requesting, event);
    match action {
        FetchAction::Persist { path, bytes } => {
            assert_eq!(path, "tiles/17/85659/56048.png");
            assert_eq!(bytes, body);
        }
        other => panic!("{:?}", other),
    }
    assert!(matches!(state, FetchState::Persisting(Ok(_))));
    let (state, action) = fetch_tile(TILE, ENDPOINT, state, FetchEvent::Persisted);
    assert!(matches!(state, FetchState::Finished));
    match action {
        FetchAction::Deliver { result: Ok(tile), persist_failed: false } => {
            assert_eq!((tile.width(), tile.height()), (2, 1));
            assert_eq!(tile.get_pixel(1, 0), Some(Rgba { r: 1, g: 0, b: 9, a: 255 }));
        }
        other => panic!("{:?}", other),
    }
}

#[test]
fn failed_persist_still_delivers_the_tile() {
    let event = FetchEvent::Response { status: 299, body: png(1, 1) };
    let (state, _) = fetch_tile(TILE, ENDPOINT, FetchState::Requesting, event);
    let (state, action) = fetch_tile(TILE, ENDPOINT, state, FetchEvent::PersistFailed);
    assert!(matches!(state, FetchState::Finished));
    match action {
        FetchAction::Deliver { result: Ok(tile), persist_failed: true } => {
            assert_eq!(tile.get_pixel(0, 0), Some(Rgba { r: 0, g: 0, b: 9, a: 255 }));
        }
        other => panic!("{:?}", other),
    }
}

#[test]
fn undecodable_download_is_a_decode_error() {
    let event = FetchEvent::Response { status: 200, body: vec![9, 9, 9] };
    let (state, action) = fetch_tile(TILE, ENDPOINT, FetchState::Requesting, event);
    assert!(matches!(state, FetchState::Persisting(Err(FetchError::Decode))));
    assert!(matches!(action, FetchAction::Persist { .. }));
    let (_, action) = fetch_tile(TILE, ENDPOINT, state, FetchEvent::Persisted);
    assert!(matches!(
        action,
        FetchAction::Deliver { result: Err(FetchError::Decode), persist_failed: false }
    ));
}

#[test]
fn events_out_of_turn_are_ignored() {
    let (state, action) = fetch_tile(TILE, ENDPOINT, FetchState::Idle, FetchEvent::CacheMiss);
    assert!(matches!(state, FetchState::Idle));
    assert!(matches!(action, FetchAction::Ignore));
    let (state, action) = fetch_tile(TILE, ENDPOINT, FetchState::ProbingCache, FetchEvent::Start);
    assert!(matches!(state, FetchState::ProbingCache));
    assert!(matches!(action, FetchAction::Ignore));
    let (state, action) =
        fetch_tile(TILE, ENDPOINT, FetchState::Requesting, FetchEvent::CacheHit(png(1, 1)));
    assert!(matches!(state, FetchState::Requesting));
    assert!(matches!(action, FetchAction::Ignore));
    let (state, action) = fetch_tile(TILE, ENDPOINT, FetchState::Finished, FetchEvent::Persisted);
    assert!(matches!(state, FetchState::Finished));
    assert!(matches!(action, FetchAction::Ignore));
    let held = FetchState::Persisting(Err(FetchError::Decode));
    let (state, action) = fetch_tile(TILE, ENDPOINT, held, FetchEvent::TransportFailure);
    assert!(matches!(state, FetchState::Persisting(Err(FetchError::Decode))));
    assert!(matches!(action, FetchAction::Ignore));
}

/// Plays one resolution against a cache in memory and a tile service that
/// always answers 200 with `body`; counts the requests.
fn resolve(
    cache: &mut HashMap<String, Vec<u8>>,
    body: &[u8],
    requests: &mut u32,
) -> Result<Bitmap, FetchError> {
    let (mut state, mut action) = fetch_tile(TILE, ENDPOINT, FetchState::Idle, FetchEvent::Start);
    loop {
        let event = match action {
            FetchAction::ReadCache { path } => match cache.get(&path) {
                Some(bytes) => FetchEvent::CacheHit(bytes.clone()),
                None => FetchEvent::CacheMiss,
            },
            FetchAction::Request { .. } => {
                *requests += 1;
                FetchEvent::Response { status: 200, body: body.to_vec() }
            }
            FetchAction::Persist { path, bytes } => {
                cache.insert(path, bytes);
                FetchEvent::Persisted
            }
            FetchAction::Deliver { result, .. } => return result,
            FetchAction::Ignore => panic!("the protocol stalled"),
        };
        let next = fetch_tile(TILE, ENDPOINT, state, event);
        state = next.0;
        action = next.1;
    }
}

#[test]
fn cached_tile_is_resolved_alike_without_a_request() {
    let mut cache = HashMap::new();
    cache.insert(String::from("tiles/17/85659/56048.png"), png(3, 3));
    let mut requests = 0;
    let first = resolve(&mut cache, &png(1, 1), &mut requests).unwrap();
    let second = resolve(&mut cache, &png(1, 1), &mut requests).unwrap();
    assert_eq!(requests, 0);
    assert_eq!((first.width(), first.height()), (3, 3));
    assert_eq!(first.as_raw(), second.as_raw());
    assert_eq!(cache.len(), 1);
}

#[test]
fn downloaded_tile_is_cached_for_the_next_time() {
    let mut cache = HashMap::new();
    let mut requests = 0;
    let body = png(2, 2);
    let first = resolve(&mut cache, &body, &mut requests).unwrap();
    assert_eq!(requests, 1);
    assert_eq!(cache.get("tiles/17/85659/56048.png"), Some(&body));
    let second = resolve(&mut cache, &png(5, 5), &mut requests).unwrap();
    assert_eq!(requests, 1);
    assert_eq!(first.as_raw(), second.as_raw());
    assert_eq!((second.width(), second.height()), (2, 2));
}
