//! A GPS-centred slippy map: Web Mercator tile arithmetic, the tile cache
//! protocol, and the compositor that stitches tiles into a frame.

pub mod bitmap;
pub mod compose;
pub mod decimal;
pub mod projection;
pub mod store;
