//! Hex tile boundaries: a sparse hexagonal tile grid and the closed polygon
//! loops that separate solid tiles from free space, maintained incrementally.
//!
//! - [`hex`]: axial coordinates, neighbours and exact corner geometry.
//! - [`handle`]: generation-checked tile handles.
//! - [`index`]: the position-to-tile index and the dirty set.
//! - [`dedup`]: tolerance-based point merging and edge registration.
//! - [`tracer`]: pairing edges head to tail and walking them into loops.
//! - [`world`]: the tile context and its throttled recompute pass.
//! - [`level`]: the starting ring of wall tiles.
pub mod dedup;
pub mod handle;
pub mod hex;
pub mod index;
pub mod level;
pub mod tracer;
pub mod world;
