//! Segmented header storage for a light client, with a background worker that saves segments.

pub mod atomic_write;
pub mod encoding;
pub mod error;
pub mod filter_data;
pub mod filter_laws;
pub mod filters;
pub mod headers;
pub mod index;
pub mod index_file;
pub mod index_laws;
pub mod io;
pub mod manager;
pub mod memory_laws;
pub mod metadata;
pub mod metadata_laws;
pub mod name_laws;
pub mod names;
pub mod reading_laws;
pub mod segment_laws;
pub mod segment_map;
pub mod segments;
pub mod storing_laws;
pub mod worker;
pub mod worker_laws;

use vstd::prelude::*;

verus! {

/// Number of headers per segment file.
pub const HEADERS_PER_SEGMENT: u32 = 50_000;

/// Maximum number of segments to keep in memory.
pub const MAX_ACTIVE_SEGMENTS: usize = 10;

} // verus!
