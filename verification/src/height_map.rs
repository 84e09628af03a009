use vstd::prelude::*;
use crate::biome_map::BiomeMap;
use crate::constants::{CHUNK_SIZE, NOISE_ONE, WORLD_HEIGHT};

verus! {

/// Turns noise samples into the heights of terrain columns.
#[derive(Debug, Clone, Copy, Default)]
pub struct HeightMap {}

/// The height of a column whose terrain starts at `base` and rises by up
/// to `amplitude`, for a noise sample from 0 to 65536 that stands for 0 to
/// 1: `base + sample * amplitude`, rounded down, and kept inside the world.
/// A sample above 65536 counts as 65536.
pub open spec fn column_height(base: nat, amplitude: nat, sample: nat) -> nat {
    let part = if sample > 65536 {
        65536
    } else {
        sample
    };
    let height = base + part * amplitude / 65536;
    if height > 383 {
        383
    } else {
        height
    }
}

/// The world coordinate of local column `local` of chunk `chunk`.
pub open spec fn world_coordinate(chunk: int, local: int) -> int {
    chunk * 16 + local
}

/// Whether the world coordinates of the columns of a chunk at `chunk`
/// along one axis fit 64 bits.
pub open spec fn chunk_in_reach(chunk: int) -> bool {
    -0x0800_0000_0000_0000 <= chunk < 0x0800_0000_0000_0000
}

/// The height of local column `(lx, lz)` of chunk `(chunk_x, chunk_z)`.
pub open spec fn height_at(
    map: BiomeMap,
    chunk_x: int,
    chunk_z: int,
    noise: Seq<u32>,
    lx: int,
    lz: int,
) -> nat {
    let relief = map.relief(world_coordinate(chunk_x, lx), world_coordinate(chunk_z, lz));
    column_height(relief.0, relief.1, noise[lx * 16 + lz] as nat)
}

/// The height of one column.
pub fn height_of_column(base: usize, amplitude: usize, sample: u32) -> (h: usize)
    ensures
        h == column_height(base as nat, amplitude as nat, sample as nat),
        h < 384,
{
    let part: u128 = if sample > NOISE_ONE {
        NOISE_ONE as u128
    } else {
        sample as u128
    };
    assert(part * amplitude <= 65536 * 0xffff_ffff_ffff_ffff) by (nonlinear_arith)
        requires
            part <= 65536,
            amplitude <= 0xffff_ffff_ffff_ffff,
    ;
    let rise: u128 = part * amplitude as u128 / NOISE_ONE as u128;
    let height: u128 = base as u128 + rise;
    if height > (WORLD_HEIGHT - 1) as u128 {
        WORLD_HEIGHT - 1
    } else {
        height as usize
    }
}

impl HeightMap {
    /// A height map.
    pub fn new() -> (h: HeightMap) {
        HeightMap {  }
    }

    /// The heights of the 256 columns of chunk `(chunk_x, chunk_z)`, by
    /// local `x` and then local `z`. `noise` holds one sample for each
    /// column, at `x * 16 + z`; base height and amplitude of a column are
    /// blended over the biomes around it. The world coordinates of the
    /// chunk's columns must fit 64 bits.
    pub fn get_chunk(&self, chunk_x: i64, chunk_z: i64, biomes_map: &BiomeMap, noise: &[u32; 256]) -> (heights:
        Vec<Vec<usize>>)
        requires
            chunk_in_reach(chunk_x as int),
            chunk_in_reach(chunk_z as int),
        ensures
            heights@.len() == 16,
            forall|lx: int| 0 <= lx < 16 ==> (#[trigger] heights@[lx])@.len() == 16,
            forall|lx: int, lz: int|
                0 <= lx < 16 && 0 <= lz < 16 ==> (#[trigger] heights@[lx]@[lz]) == height_at(
                    *biomes_map,
                    chunk_x as int,
                    chunk_z as int,
                    noise@,
                    lx,
                    lz,
                ),
            forall|lx: int, lz: int| 0 <= lx < 16 && 0 <= lz < 16 ==> (#[trigger] heights@[lx]@[lz]) < 384,
    {
        let mut chunk_heightmap: Vec<Vec<usize>> = Vec::new();
        let mut local_x: usize = 0;
        while local_x < CHUNK_SIZE
            invariant
                local_x <= 16,
                chunk_in_reach(chunk_x as int),
                chunk_in_reach(chunk_z as int),
                chunk_heightmap@.len() == local_x,
                forall|lx: int| 0 <= lx < local_x ==> (#[trigger] chunk_heightmap@[lx])@.len() == 16,
                forall|lx: int, lz: int|
                    0 <= lx < local_x && 0 <= lz < 16 ==> (#[trigger] chunk_heightmap@[lx]@[lz])
                        == height_at(*biomes_map, chunk_x as int, chunk_z as int, noise@, lx, lz),
                forall|lx: int, lz: int|
                    0 <= lx < local_x && 0 <= lz < 16 ==> (#[trigger] chunk_heightmap@[lx]@[lz]) < 384,
            decreases 16 - local_x,
        {
            let mut row: Vec<usize> = Vec::new();
            let mut local_z: usize = 0;
            while local_z < CHUNK_SIZE
                invariant
                    local_x < 16,
                    local_z <= 16,
                    chunk_in_reach(chunk_x as int),
                    chunk_in_reach(chunk_z as int),
                    row@.len() == local_z,
                    forall|lz: int|
                        0 <= lz < local_z ==> (#[trigger] row@[lz]) == height_at(
                            *biomes_map,
                            chunk_x as int,
                            chunk_z as int,
                            noise@,
                            local_x as int,
                            lz,
                        ),
                    forall|lz: int| 0 <= lz < local_z ==> (#[trigger] row@[lz]) < 384,
                decreases 16 - local_z,
            {
                let world_x: i64 = chunk_x * 16 + local_x as i64;
                let world_z: i64 = chunk_z * 16 + local_z as i64;
                let (base, amplitude) = biomes_map.blend_relief(world_x, world_z);
                let sample: u32 = noise[local_x * CHUNK_SIZE + local_z];
                row.push(height_of_column(base, amplitude, sample));
                local_z += 1;
            }
            chunk_heightmap.push(row);
            local_x += 1;
        }
        chunk_heightmap
    }
}

} // verus!
