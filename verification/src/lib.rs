//! A storage arena of fixed-size cells in one memory map.
//!
//! An arena holds `2^capacity_pow2` cells of equal size. Each cell starts
//! with a header whose lock word says whether the cell is occupied; the rest
//! of the cell is payload, which the arena hands out as bytes. An arena never
//! grows: a larger one is made over a new map, and the occupied cells of the
//! old one are copied into it, each to the index that keeps its low bits.
//!
//! The arena works on a map that its caller has made, and says where the file
//! behind a new map should go; making, mapping and removing files is left to
//! the caller.

pub mod growth;
pub mod header;
pub mod laws;
pub mod layout;
pub mod mapping;
pub mod occupancy;
pub mod placement;
pub mod stats;
pub mod storage;
pub mod timing;
pub mod views;

pub use header::Header;
pub use placement::BackingFile;
pub use stats::BucketStats;
pub use storage::{BucketStorage, BucketStorageError, MaxSearch, DEFAULT_CAPACITY_POW2};
