//! Geohashes: latitude/longitude points encoded as hierarchical bit strings
//! and base32 strings by interval bisection, decoded back to bounding boxes,
//! and moved to neighbouring cells.
//!
//! Coordinates are fixed-point integers counted in ticks
//! (`TICKS_PER_DEGREE` to the degree), so the bisections of cells of up to 64
//! bits are exact; deeper ones round each midpoint down to a whole tick.
pub mod base32;
pub mod binary;
pub mod bisection;
pub mod boundingbox;
pub mod error;
pub mod geolocation;
pub mod neighbor;
mod text;

pub use base32::{decode, encode};
pub use binary::BinaryHash;
pub use boundingbox::BoundingBox;
pub use error::GeohashError;
pub use geolocation::{GeoLocation, TICKS_PER_DEGREE, TICKS_PER_NANODEGREE};
pub use neighbor::{neighbor, neighbors};
