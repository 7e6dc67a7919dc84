//! Verified core of the arrowtiles pipeline: PMTiles tile-id arithmetic,
//! Hilbert cell indexing, voxel bucketing of points into zoom levels,
//! zoom partitioning, tile-run grouping for the packer, validation of IPC framing
//! and archive metadata.

pub mod tile_id;
pub mod hilbert;
pub mod occupancy;
pub mod voxel;
pub mod runs;
pub mod grouper;
pub mod framing;
pub mod partition;
pub mod schema;
pub mod metadata;
pub mod udf;
