use vstd::prelude::*;

verus! {

/// Edge length of a chunk along both horizontal axes, in blocks.
pub const CHUNK_SIZE: usize = 16;

/// Height of one section of a chunk, in blocks.
pub const SECTION_HEIGHT: usize = 16;

/// Height of the world, in blocks.
pub const WORLD_HEIGHT: usize = 384;

/// Edge length of the playable world, in chunks.
pub const WORLD_SIZE: usize = 1000;

/// Highest layer that open water fills.
pub const SEA_LEVEL: usize = 126;

/// Default streaming radius around the viewer, in chunks.
pub const VIEW_DISTANCE: i32 = 12;

/// The value of a noise sample that stands for 1: samples run from 0 to
/// this value.
pub const NOISE_ONE: u32 = 65536;

/// The one frequency, in thousandths, at which terrain noise is sampled.
pub const TERRAIN_FREQUENCY: u32 = 20;

/// Distance in blocks up to which a climate anchor counts, unless a map is
/// made with another.
pub const ANCHOR_RADIUS: u16 = 256;

/// Largest number of chunks that are loaded or made at the same time.
pub const MAX_LOAD_TASKS: usize = 5;

/// Number of cells in one section.
pub const SECTION_VOLUME: usize = 4096;

/// Number of sections stacked in one chunk.
pub const SECTIONS_PER_CHUNK: usize = 24;

} // verus!
