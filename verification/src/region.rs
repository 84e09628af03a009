use vstd::prelude::*;
use crate::biome_map::BiomeMap;
use crate::chunk::Chunk;
use crate::height_map::HeightMap;
use crate::terrain::{generate_chunk, is_terrain};
use crate::chunk::chunk_is_whole;

verus! {

/// Number of chunks along one edge of a region file.
pub const REGION_SIZE: i32 = 32;

/// Size in bytes of one sector of a region file; its two headers take one
/// sector each.
pub const SECTOR_SIZE: usize = 4096;

/// The region that holds chunk `(x, z)`: both divided by 32 and rounded
/// down.
pub open spec fn region_of(x: int, z: int) -> (int, int) {
    (x / 32, z / 32)
}

/// The place of chunk `(x, z)` inside its region: what the division by 32
/// leaves, from 0 to 31.
pub open spec fn place_in_region(x: int, z: int) -> (int, int) {
    (x % 32, z % 32)
}

/// The region that holds chunk `(x, z)`.
pub fn region_coords(x: i32, z: i32) -> (r: (i32, i32))
    ensures
        (r.0 as int, r.1 as int) == region_of(x as int, z as int),
{
    let rx: i32 = match x.checked_div_euclid(REGION_SIZE) {
        Some(q) => q,
        None => 0,
    };
    let rz: i32 = match z.checked_div_euclid(REGION_SIZE) {
        Some(q) => q,
        None => 0,
    };
    (rx, rz)
}

/// The place of chunk `(x, z)` inside its region.
pub fn region_local(x: i32, z: i32) -> (r: (u8, u8))
    ensures
        (r.0 as int, r.1 as int) == place_in_region(x as int, z as int),
        r.0 < 32,
        r.1 < 32,
{
    let lx: i32 = match x.checked_rem_euclid(REGION_SIZE) {
        Some(q) => q,
        None => 0,
    };
    let lz: i32 = match z.checked_rem_euclid(REGION_SIZE) {
        Some(q) => q,
        None => 0,
    };
    (lx as u8, lz as u8)
}

/// What a region file holds for one chunk.
#[derive(Debug, Clone, Copy, PartialEq, Eq, Structural)]
pub enum RegionEntry {
    /// The file is too short to hold its headers, the chunk's data would
    /// reach beyond its end, or the data is empty.
    Corrupt,
    /// The chunk was never written.
    Missing,
    /// The chunk's data lies from `start` up to, not including, `end`, and
    /// is packed in the way that `compression` names.
    Present { compression: u8, start: usize, end: usize },
}

/// Where the location of chunk `(x, z)` stands in the first header.
pub open spec fn header_offset(x: int, z: int) -> int {
    4 * (x + z * 32)
}

/// The number that three bytes spell, the highest first.
pub open spec fn be24(a: u8, b: u8, c: u8) -> int {
    a * 65536 + b * 256 + c
}

/// The number that four bytes spell, the highest first.
pub open spec fn be32(a: u8, b: u8, c: u8, d: u8) -> int {
    a * 16777216 + b * 65536 + c * 256 + d
}

/// What the bytes of a region file hold for the chunk at place `(x, z)`.
/// The first header holds, for each chunk, the sector at which its data
/// starts, in three bytes, and a count of sectors; a chunk whose first and
/// last location byte are 0 was never written. The data starts with its
/// length in four bytes, counted from the byte behind them, and one byte
/// that names the compression; the rest is the packed chunk.
pub open spec fn entry_of(data: Seq<u8>, x: int, z: int) -> RegionEntry {
    let offset = header_offset(x, z);
    if data.len() < 8192 {
        RegionEntry::Corrupt
    } else if data[offset] == 0 && data[offset + 3] == 0 {
        RegionEntry::Missing
    } else {
        let start = be24(data[offset], data[offset + 1], data[offset + 2]) * 4096;
        if data.len() < start + 4 {
            RegionEntry::Corrupt
        } else {
            let length = be32(data[start], data[start + 1], data[start + 2], data[start + 3]);
            if length < 1 || data.len() < start + 4 + length {
                RegionEntry::Corrupt
            } else {
                RegionEntry::Present {
                    compression: data[start + 4],
                    start: (start + 5) as usize,
                    end: (start + 4 + length) as usize,
                }
            }
        }
    }
}

/// What `data`, the bytes of a region file, holds for the chunk at place
/// `(x, z)`. A caller that reads the chunk's data afterwards stays inside
/// `data`.
pub fn region_entry(data: &Vec<u8>, x: u8, z: u8) -> (entry: RegionEntry)
    requires
        x < 32,
        z < 32,
    ensures
        entry == entry_of(data@, x as int, z as int),
        entry matches RegionEntry::Present { compression, start, end } ==> 5 <= start <= end
            <= data@.len(),
{
    if data.len() < 2 * SECTOR_SIZE {
        return RegionEntry::Corrupt;
    }
    let offset: usize = 4 * (x as usize + z as usize * 32);
    if data[offset] == 0 && data[offset + 3] == 0 {
        return RegionEntry::Missing;
    }
    let sector: u64 = data[offset] as u64 * 65536 + data[offset + 1] as u64 * 256 + data[offset
        + 2] as u64;
    let start: u64 = sector * 4096;
    let total: u64 = data.len() as u64;
    if total < start + 4 {
        return RegionEntry::Corrupt;
    }
    let first: usize = start as usize;
    let length: u64 = data[first] as u64 * 16777216 + data[first + 1] as u64 * 65536 + data[first
        + 2] as u64 * 256 + data[first + 3] as u64;
    if length < 1 || total < start + 4 + length {
        return RegionEntry::Corrupt;
    }
    RegionEntry::Present {
        compression: data[first + 4],
        start: first + 5,
        end: (start + 4 + length) as usize,
    }
}

/// The chunk that stands for what was read for chunk position `(x, z)`:
/// the chunk read, where it stands at `(x, z)` and is whole; otherwise the
/// empty chunk, as if nothing had been found. A whole chunk is taken
/// whatever names its palettes hold: a name of no kind reads as air.
pub open spec fn accepted(x: i32, z: i32, loaded: Option<Chunk>) -> Option<Chunk> {
    match loaded {
        Some(chunk) => if chunk.x == x && chunk.z == z && chunk.is_whole() {
            Some(chunk)
        } else {
            None
        },
        None => None,
    }
}

/// Takes what was read for chunk position `(x, z)`: the chunk read, where
/// it stands at `(x, z)` and is whole; otherwise the empty chunk that says
/// that nothing was found.
pub fn accept_loaded(x: i32, z: i32, loaded: Option<Chunk>) -> (chunk: Chunk)
    ensures
        chunk.x == x,
        chunk.z == z,
        chunk.wf(),
        accepted(x, z, loaded) is Some ==> chunk == accepted(x, z, loaded)->0,
        accepted(x, z, loaded) is None ==> chunk.sections@.len() == 0,
{
    match loaded {
        Some(chunk) => {
            if chunk.x == x && chunk.z == z && chunk_is_whole(&chunk) {
                chunk
            } else {
                Chunk::new(x, z)
            }
        },
        None => Chunk::new(x, z),
    }
}

/// A whole chunk that was saved from chunk position `(x, z)` is taken back
/// as it is when it is read for that position.
pub proof fn lemma_saved_chunk_accepted(chunk: Chunk)
    requires
        chunk.is_whole(),
    ensures
        accepted(chunk.x, chunk.z, Some(chunk)) == Some(chunk),
{
}

/// The chunk for chunk position `(x, z)`: what was read for it, where that
/// is a whole chunk at `(x, z)`; otherwise its terrain, made from the noise
/// samples and the biome map.
pub fn load_or_generate(
    x: i32,
    z: i32,
    loaded: Option<Chunk>,
    noise: &[u32; 256],
    biomes_map: &BiomeMap,
    height_map: &HeightMap,
) -> (chunk: Chunk)
    ensures
        chunk.x == x,
        chunk.z == z,
        chunk.is_whole(),
        accepted(x, z, loaded) is Some ==> chunk == accepted(x, z, loaded)->0,
        accepted(x, z, loaded) is None ==> is_terrain(chunk, x, z, noise@, *biomes_map),
{
    let found = accept_loaded(x, z, loaded);
    if found.sections.len() > 0 {
        found
    } else {
        let made = generate_chunk(x, z, noise, biomes_map, height_map);
        proof {
            made.lemma_complete_is_whole();
        }
        made
    }
}

} // verus!
