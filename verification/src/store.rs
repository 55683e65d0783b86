//! The tile store: where a tile lives on disk and on the network, how its
//! bytes become a bitmap, and the protocol that resolves a tile from the
//! cache first and the tile service second.
//!
//! The store itself touches neither disk nor network. Its protocol is a
//! transition function: the caller performs each action it names and
//! reports what happened as the next event.

use vstd::prelude::*;
use vstd::string::*;
use crate::bitmap::{Bitmap, BitmapView};
use crate::decimal::{
    append_decimal, decimal, digit_char, is_digit, lemma_decimal_digits, lemma_decimal_injective,
    lemma_same_head, lemma_same_tail, lemma_split_at_mark,
};
use crate::projection::TileId;

verus! {

/// Why a tile could not be resolved.
#[derive(Clone, Copy, Debug, PartialEq, Eq, Structural)]
pub enum FetchError {
    /// The bytes are not a readable image.
    Decode,
    /// The cached file exists but could not be read.
    CacheRead,
    /// The tile service could not be reached.
    Transport,
    /// The tile service answered with a status outside the 2xx range.
    RemoteStatus(u16),
}

/// Relative path of a tile in the cache: a directory per zoom level, one
/// per column below it, and the row as the file's name.
pub open spec fn tile_path_spec(x: u32, y: u32, zoom: u8) -> Seq<char> {
    "tiles/"@ + decimal(zoom as nat) + "/"@ + decimal(x as nat) + "/"@ + decimal(y as nat)
        + ".png"@
}

/// Address of a tile below the tile service's `endpoint`.
pub open spec fn tile_url_spec(endpoint: Seq<char>, tile: TileId) -> Seq<char> {
    endpoint + "/"@ + decimal(tile.zoom as nat) + "/"@ + decimal(tile.x as nat) + "/"@ + decimal(
        tile.y as nat,
    ) + ".png"@
}

/// Appends `{zoom}/{x}/{y}.png`, which ends both a tile's path and its address.
fn append_tile_suffix(out: &mut String, x: u32, y: u32, zoom: u8)
    ensures
        final(out)@ == old(out)@ + decimal(zoom as nat) + "/"@ + decimal(x as nat) + "/"@
            + decimal(y as nat) + ".png"@,
{
    append_decimal(out, zoom as u32);
    out.append("/");
    append_decimal(out, x);
    out.append("/");
    append_decimal(out, y);
    out.append(".png");
}

/// Where the tile in column `x` of row `y` at `zoom` is kept on disk.
pub fn tile_path(x: u32, y: u32, zoom: u8) -> (path: String)
    ensures
        path@ == tile_path_spec(x, y, zoom),
{
    let mut path = String::from_str("tiles/");
    append_tile_suffix(&mut path, x, y, zoom);
    path
}

/// Where the tile service below `endpoint` offers `tile`.
pub fn tile_url(endpoint: &str, tile: TileId) -> (url: String)
    ensures
        url@ == tile_url_spec(endpoint@, tile),
{
    let mut url = String::from_str(endpoint);
    url.append("/");
    append_tile_suffix(&mut url, tile.x, tile.y, tile.zoom);
    url
}

/// A tile's path, taken apart from the right: the directory of all tiles,
/// then the zoom level's numeral and a slash before what names the column,
/// which is the column's numeral and a slash before the row's and `.png`.
proof fn lemma_path_parts(x: u32, y: u32, zoom: u8)
    ensures
        tile_path_spec(x, y, zoom) == "tiles/"@ + (decimal(zoom as nat) + seq!['/'] + (decimal(
            x as nat,
        ) + seq!['/'] + (decimal(y as nat) + ".png"@))),
{
    reveal_strlit("/");
    assert("/"@ =~= seq!['/']);
    assert(tile_path_spec(x, y, zoom) =~= "tiles/"@ + (decimal(zoom as nat) + seq!['/'] + (decimal(
        x as nat,
    ) + seq!['/'] + (decimal(y as nat) + ".png"@))));
}

/// A slash is no digit.
proof fn lemma_slash_is_no_digit()
    ensures
        !is_digit('/'),
{
    assert forall|d: nat| d < 10 implies '/' != #[trigger] digit_char(d) by {}
}

/// Distinct tiles are kept in distinct files.
pub proof fn lemma_tile_paths_distinct(
    x: u32,
    y: u32,
    zoom: u8,
    other_x: u32,
    other_y: u32,
    other_zoom: u8,
)
    requires
        tile_path_spec(x, y, zoom) == tile_path_spec(other_x, other_y, other_zoom),
    ensures
        x == other_x,
        y == other_y,
        zoom == other_zoom,
{
    let row = decimal(y as nat) + ".png"@;
    let other_row = decimal(other_y as nat) + ".png"@;
    let column = decimal(x as nat) + seq!['/'] + row;
    let other_column = decimal(other_x as nat) + seq!['/'] + other_row;
    let level = decimal(zoom as nat) + seq!['/'] + column;
    let other_level = decimal(other_zoom as nat) + seq!['/'] + other_column;
    lemma_path_parts(x, y, zoom);
    lemma_path_parts(other_x, other_y, other_zoom);
    lemma_slash_is_no_digit();
    lemma_decimal_digits(zoom as nat);
    lemma_decimal_digits(x as nat);
    lemma_decimal_digits(other_zoom as nat);
    lemma_decimal_digits(other_x as nat);
    lemma_same_head("tiles/"@, level, other_level);
    lemma_split_at_mark(decimal(zoom as nat), column, decimal(other_zoom as nat), other_column, '/');
    lemma_split_at_mark(decimal(x as nat), row, decimal(other_x as nat), other_row, '/');
    lemma_same_tail(decimal(y as nat), decimal(other_y as nat), ".png"@);
    lemma_decimal_injective(zoom as nat, other_zoom as nat);
    lemma_decimal_injective(x as nat, other_x as nat);
    lemma_decimal_injective(y as nat, other_y as nat);
}

/// Whether an HTTP status reports success.
pub open spec fn is_success(status: u16) -> bool {
    200 <= status < 300
}

/// Whether an HTTP status reports success: one of the 2xx range.
pub fn status_is_success(status: u16) -> (ok: bool)
    ensures
        ok == is_success(status),
{
    200 <= status && status < 300
}

/// What `image::load_from_memory_with_format` makes of `bytes` read as a
/// PNG file, the picture then taken as 8-bit RGBA by
/// `DynamicImage::into_rgba8`: width, height and bytes of the picture, or
/// `None` where the bytes are no PNG picture.
pub uninterp spec fn decoded(bytes: Seq<u8>) -> Option<(u32, u32, Seq<u8>)>;

/// A decoder's answer with its buffer taken as a sequence.
pub open spec fn raw_view(raw: Option<(u32, u32, Vec<u8>)>) -> Option<(u32, u32, Seq<u8>)> {
    match raw {
        Some((width, height, data)) => Some((width, height, data@)),
        None => None,
    }
}

/// Hands `bytes` to `image::load_from_memory_with_format` with the format
/// fixed to PNG, and turns the picture into 8-bit RGBA with
/// `DynamicImage::into_rgba8`. Trusted: with the format given, the built-in
/// PNG decoder reads the bytes and nothing else decides the answer, so it
/// is `decoded(bytes@)`; nothing is claimed about what that is.
#[verifier::external_body]
fn decode_rgba(bytes: &[u8]) -> (raw: Option<(u32, u32, Vec<u8>)>)
    ensures
        raw_view(raw) == decoded(bytes@),
{
    match image::load_from_memory_with_format(bytes, image::ImageFormat::Png) {
        Ok(picture) => {
            let rgba = picture.into_rgba8();
            Some((rgba.width(), rgba.height(), rgba.into_raw()))
        },
        Err(_) => None,
    }
}

/// The bitmap that a decoder's answer stands for. An answer whose buffer
/// does not match its size counts as unreadable.
pub open spec fn bitmap_of(raw: Option<(u32, u32, Seq<u8>)>) -> Result<BitmapView, FetchError> {
    match raw {
        Some((width, height, data)) => if data.len() == 4 * width * height {
            Ok(BitmapView { width: width as int, height: height as int, data })
        } else {
            Err(FetchError::Decode)
        },
        None => Err(FetchError::Decode),
    }
}

/// The bitmap in encoded `bytes`, or the decode error.
pub open spec fn decode_spec(bytes: Seq<u8>) -> Result<BitmapView, FetchError> {
    bitmap_of(decoded(bytes))
}

/// A tile's outcome with the bitmap taken as its view.
pub open spec fn outcome_view(outcome: Result<Bitmap, FetchError>) -> Result<
    BitmapView,
    FetchError,
> {
    match outcome {
        Ok(bitmap) => Ok(bitmap@),
        Err(error) => Err(error),
    }
}

/// Turns a decoder's answer into a tile.
pub fn tile_from_raw(raw: Option<(u32, u32, Vec<u8>)>) -> (tile: Result<Bitmap, FetchError>)
    ensures
        outcome_view(tile) == bitmap_of(raw_view(raw)),
{
    match raw {
        Some((width, height, data)) => match Bitmap::from_raw(width, height, data) {
            Some(bitmap) => Ok(bitmap),
            None => Err(FetchError::Decode),
        },
        None => Err(FetchError::Decode),
    }
}

/// Decodes the bytes of a tile image.
pub fn load_tile(bytes: &[u8]) -> (tile: Result<Bitmap, FetchError>)
    ensures
        outcome_view(tile) == decode_spec(bytes@),
{
    tile_from_raw(decode_rgba(bytes))
}

/// How far the resolution of one tile has come.
#[derive(Debug)]
pub enum FetchState {
    /// Nothing has been asked yet.
    Idle,
    /// The cache has been asked for the tile's file.
    ProbingCache,
    /// The tile service has been asked for the tile.
    Requesting,
    /// The downloaded bytes are being written to the cache; the outcome of
    /// decoding them is kept until the write has ended.
    Persisting(Result<Bitmap, FetchError>),
    /// The outcome has been delivered.
    Finished,
}

/// What the caller reports back after performing an action.
#[derive(Debug)]
pub enum FetchEvent {
    /// The resolution begins.
    Start,
    /// The cached file exists and these are its bytes.
    CacheHit(Vec<u8>),
    /// No file is cached for the tile.
    CacheMiss,
    /// The cached file exists but reading it failed.
    CacheUnreadable,
    /// The tile service answered.
    Response { status: u16, body: Vec<u8> },
    /// The request did not get an answer.
    TransportFailure,
    /// The bytes were written to the cache.
    Persisted,
    /// Writing the bytes to the cache failed.
    PersistFailed,
}

/// What the caller is to do next.
#[derive(Debug)]
pub enum FetchAction {
    /// Read the file at `path`, if there is one.
    ReadCache { path: String },
    /// Send a GET request to `url`.
    Request { url: String },
    /// Write `bytes` to the file at `path`, creating its directories.
    Persist { path: String, bytes: Vec<u8> },
    /// The resolution has ended with `result`. `persist_failed` tells that
    /// the tile was downloaded but could not be written to the cache, which
    /// leaves `result` as good as it is.
    Deliver { result: Result<Bitmap, FetchError>, persist_failed: bool },
    /// The event is not one that the state waits for: nothing to do.
    Ignore,
}

/// A state of the resolution, over views.
pub enum StateView {
    Idle,
    ProbingCache,
    Requesting,
    Persisting(Result<BitmapView, FetchError>),
    Finished,
}

/// An event of the resolution, over views.
pub enum EventView {
    Start,
    CacheHit(Seq<u8>),
    CacheMiss,
    CacheUnreadable,
    Response { status: u16, body: Seq<u8> },
    TransportFailure,
    Persisted,
    PersistFailed,
}

/// An action of the resolution, over views.
pub enum ActionView {
    ReadCache { path: Seq<char> },
    Request { url: Seq<char> },
    Persist { path: Seq<char>, bytes: Seq<u8> },
    Deliver { result: Result<BitmapView, FetchError>, persist_failed: bool },
    Ignore,
}

impl View for FetchState {
    type V = StateView;

/// The state with its bitmap taken as a view.
    open spec fn view(&self) -> StateView {
        match *self {
            FetchState::Idle => StateView::Idle,
            FetchState::ProbingCache => StateView::ProbingCache,
            FetchState::Requesting => StateView::Requesting,
            FetchState::Persisting(outcome) => StateView::Persisting(outcome_view(outcome)),
            FetchState::Finished => StateView::Finished,
        }
    }
}

impl View for FetchEvent {
    type V = EventView;

/// The event with its bytes taken as a sequence.
    open spec fn view(&self) -> EventView {
        match *self {
            FetchEvent::Start => EventView::Start,
            FetchEvent::CacheHit(bytes) => EventView::CacheHit(bytes@),
            FetchEvent::CacheMiss => EventView::CacheMiss,
            FetchEvent::CacheUnreadable => EventView::CacheUnreadable,
            FetchEvent::Response { status, body } => EventView::Response { status, body: body@ },
            FetchEvent::TransportFailure => EventView::TransportFailure,
            FetchEvent::Persisted => EventView::Persisted,
            FetchEvent::PersistFailed => EventView::PersistFailed,
        }
    }
}

impl View for FetchAction {
    type V = ActionView;

/// The action with its texts, bytes and bitmap taken as views.
    open spec fn view(&self) -> ActionView {
        match *self {
            FetchAction::ReadCache { path } => ActionView::ReadCache { path: path@ },
            FetchAction::Request { url } => ActionView::Request { url: url@ },
            FetchAction::Persist { path, bytes } => ActionView::Persist {
                path: path@,
                bytes: bytes@,
            },
            FetchAction::Deliver { result, persist_failed } => ActionView::Deliver {
                result: outcome_view(result),
                persist_failed,
            },
            FetchAction::Ignore => ActionView::Ignore,
        }
    }
}

/// One move of the resolution of `tile`: the state that follows `state` on
/// `event`, and what the caller is to do.
///
/// The cache is asked first. A cached file decides the outcome, readable or
/// not: the tile service is only asked on a miss. A 2xx answer is written
/// to the cache whatever it holds, and the outcome of decoding it is
/// delivered once the write has ended, however it ended. An event that the
/// state does not wait for changes nothing.
pub open spec fn step(tile: TileId, endpoint: Seq<char>, state: StateView, event: EventView) -> (
    StateView,
    ActionView,
) {
    match (state, event) {
        (StateView::Idle, EventView::Start) => (
            StateView::ProbingCache,
            ActionView::ReadCache { path: tile_path_spec(tile.x, tile.y, tile.zoom) },
        ),
        (StateView::ProbingCache, EventView::CacheHit(bytes)) => (
            StateView::Finished,
            ActionView::Deliver { result: decode_spec(bytes), persist_failed: false },
        ),
        (StateView::ProbingCache, EventView::CacheUnreadable) => (
            StateView::Finished,
            ActionView::Deliver { result: Err(FetchError::CacheRead), persist_failed: false },
        ),
        (StateView::ProbingCache, EventView::CacheMiss) => (
            StateView::Requesting,
            ActionView::Request { url: tile_url_spec(endpoint, tile) },
        ),
        (StateView::Requesting, EventView::TransportFailure) => (
            StateView::Finished,
            ActionView::Deliver { result: Err(FetchError::Transport), persist_failed: false },
        ),
        (StateView::Requesting, EventView::Response { status, body }) => if is_success(status) {
            (
                StateView::Persisting(decode_spec(body)),
                ActionView::Persist {
                    path: tile_path_spec(tile.x, tile.y, tile.zoom),
                    bytes: body,
                },
            )
        } else {
            (
                StateView::Finished,
                ActionView::Deliver {
                    result: Err(FetchError::RemoteStatus(status)),
                    persist_failed: false,
                },
            )
        },
        (StateView::Persisting(outcome), EventView::Persisted) => (
            StateView::Finished,
            ActionView::Deliver { result: outcome, persist_failed: false },
        ),
        (StateView::Persisting(outcome), EventView::PersistFailed) => (
            StateView::Finished,
            ActionView::Deliver { result: outcome, persist_failed: true },
        ),
        (other, _) => (other, ActionView::Ignore),
    }
}

/// Advances the resolution of `tile` by one event and names the next
/// action. The caller starts with `FetchState::Idle` and
/// `FetchEvent::Start`, performs each action and reports its outcome, until
/// an action delivers the result.
pub fn fetch_tile(tile: TileId, endpoint: &str, state: FetchState, event: FetchEvent) -> (next: (
    FetchState,
    FetchAction,
))
    ensures
        (next.0@, next.1@) == step(tile, endpoint@, state@, event@),
{
    match (state, event) {
        (FetchState::Idle, FetchEvent::Start) => (
            FetchState::ProbingCache,
            FetchAction::ReadCache { path: tile_path(tile.x, tile.y, tile.zoom) },
        ),
        (FetchState::ProbingCache, FetchEvent::CacheHit(bytes)) => (
            FetchState::Finished,
            FetchAction::Deliver { result: load_tile(bytes.as_slice()), persist_failed: false },
        ),
        (FetchState::ProbingCache, FetchEvent::CacheUnreadable) => (
            FetchState::Finished,
            FetchAction::Deliver { result: Err(FetchError::CacheRead), persist_failed: false },
        ),
        (FetchState::ProbingCache, FetchEvent::CacheMiss) => (
            FetchState::Requesting,
            FetchAction::Request { url: tile_url(endpoint, tile) },
        ),
        (FetchState::Requesting, FetchEvent::TransportFailure) => (
            FetchState::Finished,
            FetchAction::Deliver { result: Err(FetchError::Transport), persist_failed: false },
        ),
        (FetchState::Requesting, FetchEvent::Response { status, body }) => {
            if status_is_success(status) {
                let outcome = load_tile(body.as_slice());
                (
                    FetchState::Persisting(outcome),
                    FetchAction::Persist {
                        path: tile_path(tile.x, tile.y, tile.zoom),
                        bytes: body,
                    },
                )
            } else {
                (
                    FetchState::Finished,
                    FetchAction::Deliver {
                        result: Err(FetchError::RemoteStatus(status)),
                        persist_failed: false,
                    },
                )
            }
        },
        (FetchState::Persisting(outcome), FetchEvent::Persisted) => (
            FetchState::Finished,
            FetchAction::Deliver { result: outcome, persist_failed: false },
        ),
        (FetchState::Persisting(outcome), FetchEvent::PersistFailed) => (
            FetchState::Finished,
            FetchAction::Deliver { result: outcome, persist_failed: true },
        ),
        (other, _) => (other, FetchAction::Ignore),
    }
}

/// What the tile service would do if it were asked.
pub enum RemoteView {
    Unreachable,
    Answer { status: u16, body: Seq<u8> },
}

/// How one resolution ended: what was delivered, what the cache holds
/// afterwards, and whether the tile service was asked.
pub struct Resolution {
    pub result: Result<BitmapView, FetchError>,
    pub cache: Map<Seq<char>, Seq<u8>>,
    pub requested: bool,
}

/// What the cache reports for `path`.
pub open spec fn cache_event(cache: Map<Seq<char>, Seq<u8>>, path: Seq<char>) -> EventView {
    if cache.contains_key(path) {
        EventView::CacheHit(cache[path])
    } else {
        EventView::CacheMiss
    }
}

/// What the tile service reports.
pub open spec fn remote_event(remote: RemoteView) -> EventView {
    match remote {
        RemoteView::Unreachable => EventView::TransportFailure,
        RemoteView::Answer { status, body } => EventView::Response { status, body },
    }
}

/// One whole resolution of `tile`, played against a cache of readable
/// files, a tile service that behaves as `remote`, and a disk that takes
/// writes or not: every action that `step` names is performed on them and
/// its outcome fed back, from the start until the delivery.
pub open spec fn resolve(
    tile: TileId,
    endpoint: Seq<char>,
    cache: Map<Seq<char>, Seq<u8>>,
    remote: RemoteView,
    writable: bool,
) -> Resolution {
    let idle = Resolution { result: Err(FetchError::Transport), cache, requested: false };
    let (probing, first) = step(tile, endpoint, StateView::Idle, EventView::Start);
    match first {
        ActionView::ReadCache { path } => {
            let (asked, second) = step(tile, endpoint, probing, cache_event(cache, path));
            match second {
                ActionView::Deliver { result, persist_failed } => Resolution {
                    result,
                    cache,
                    requested: false,
                },
                ActionView::Request { url } => {
                    let (answered, third) = step(tile, endpoint, asked, remote_event(remote));
                    match third {
                        ActionView::Deliver { result, persist_failed } => Resolution {
                            result,
                            cache,
                            requested: true,
                        },
                        ActionView::Persist { path, bytes } => {
                            let written = if writable {
                                EventView::Persisted
                            } else {
                                EventView::PersistFailed
                            };
                            let kept = if writable {
                                cache.insert(path, bytes)
                            } else {
                                cache
                            };
                            let (ended, last) = step(tile, endpoint, answered, written);
                            match last {
                                ActionView::Deliver { result, persist_failed } => Resolution {
                                    result,
                                    cache: kept,
                                    requested: true,
                                },
                                _ => idle,
                            }
                        },
                        _ => idle,
                    }
                },
                _ => idle,
            }
        },
        _ => idle,
    }
}

/// A tile that is cached is resolved from the cache alone: the tile service
/// is not asked, the cache stays as it is, and what is delivered is what
/// the cached bytes decode to.
pub proof fn lemma_cached_tile_needs_no_request(
    tile: TileId,
    endpoint: Seq<char>,
    cache: Map<Seq<char>, Seq<u8>>,
    remote: RemoteView,
    writable: bool,
)
    requires
        cache.contains_key(tile_path_spec(tile.x, tile.y, tile.zoom)),
    ensures
        !resolve(tile, endpoint, cache, remote, writable).requested,
        resolve(tile, endpoint, cache, remote, writable).cache == cache,
        resolve(tile, endpoint, cache, remote, writable).result == decode_spec(
            cache[tile_path_spec(tile.x, tile.y, tile.zoom)],
        ),
{
}

/// Resolving a cached tile twice delivers the same both times, and the
/// second time asks nothing of the tile service, whatever the service and
/// the disk would have done on either occasion.
pub proof fn lemma_cached_tile_resolves_alike(
    tile: TileId,
    endpoint: Seq<char>,
    cache: Map<Seq<char>, Seq<u8>>,
    first_remote: RemoteView,
    first_writable: bool,
    second_remote: RemoteView,
    second_writable: bool,
)
    requires
        cache.contains_key(tile_path_spec(tile.x, tile.y, tile.zoom)),
    ensures
        ({
            let first = resolve(tile, endpoint, cache, first_remote, first_writable);
            let second = resolve(tile, endpoint, first.cache, second_remote, second_writable);
            &&& second.result == first.result
            &&& !second.requested
            &&& second.cache == cache
        }),
{
    lemma_cached_tile_needs_no_request(tile, endpoint, cache, first_remote, first_writable);
    lemma_cached_tile_needs_no_request(tile, endpoint, cache, second_remote, second_writable);
}

/// A tile that was downloaded and written to the cache is resolved from the
/// cache from then on, to the same outcome as the download.
pub proof fn lemma_downloaded_tile_is_cached(
    tile: TileId,
    endpoint: Seq<char>,
    cache: Map<Seq<char>, Seq<u8>>,
    status: u16,
    body: Seq<u8>,
    later_remote: RemoteView,
    later_writable: bool,
)
    requires
        !cache.contains_key(tile_path_spec(tile.x, tile.y, tile.zoom)),
        is_success(status),
    ensures
        ({
            let first = resolve(tile, endpoint, cache, RemoteView::Answer { status, body }, true);
            let second = resolve(tile, endpoint, first.cache, later_remote, later_writable);
            &&& first.requested
            &&& first.result == decode_spec(body)
            &&& first.cache == cache.insert(tile_path_spec(tile.x, tile.y, tile.zoom), body)
            &&& second.result == first.result
            &&& !second.requested
        }),
{
    let first = resolve(tile, endpoint, cache, RemoteView::Answer { status, body }, true);
    lemma_cached_tile_needs_no_request(tile, endpoint, first.cache, later_remote, later_writable);
}

/// Only a 2xx answer is written to the cache: after any other resolution
/// the cache is what it was, and a tile that could not be downloaded is
/// reported with the reason.
pub proof fn lemma_failed_download_leaves_cache(
    tile: TileId,
    endpoint: Seq<char>,
    cache: Map<Seq<char>, Seq<u8>>,
    remote: RemoteView,
    writable: bool,
)
    requires
        !cache.contains_key(tile_path_spec(tile.x, tile.y, tile.zoom)),
        !(remote matches RemoteView::Answer { status, body } && is_success(status) && writable),
    ensures
        ({
            let ended = resolve(tile, endpoint, cache, remote, writable);
            &&& ended.requested
            &&& ended.cache == cache
            &&& ended.result == match remote {
                RemoteView::Unreachable => Err(FetchError::Transport),
                RemoteView::Answer { status, body } => if is_success(status) {
                    decode_spec(body)
                } else {
                    Err(FetchError::RemoteStatus(status))
                },
            }
        }),
{
}

} // verus!
