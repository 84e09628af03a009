use vstd::prelude::*;
use crate::block::BlockType;

verus! {

/// The kinds of landscape.
#[derive(Debug, Clone, Copy, PartialEq, Eq, Hash, Structural)]
pub enum BiomeType {
    Mountain,
    Plain,
    Beach,
    Ocean,
    Abyss,
}

/// What a biome looks like. Fractions are held in thousandths: a
/// `frequency` of 20 stands for 0.02, a `continentalness` of -100 for -0.1.
#[derive(Debug, Clone, Copy, PartialEq, Eq, Structural)]
pub struct Biome {
    /// In thousandths.
    pub temperature: i32,
    /// In thousandths.
    pub humidity: i32,
    /// In thousandths.
    pub continentalness: i32,
    /// Height of the lowest terrain, in blocks.
    pub base_height: usize,
    /// Height of the relief above `base_height`, in blocks.
    pub amplitude: usize,
    /// Roughness of the relief, in thousandths.
    pub frequency: u32,
    /// Relative extent, in thousandths.
    pub size_factor: u32,
    /// Kind of the block on top of a column.
    pub surface_block: BlockType,
    /// Kind of the blocks below the top.
    pub underground_block: BlockType,
}

/// The table of biomes.
pub open spec fn biome_data(biome_type: BiomeType) -> Biome {
    match biome_type {
        BiomeType::Mountain => Biome {
            temperature: 0,
            humidity: 0,
            continentalness: 1000,
            base_height: 136,
            amplitude: 200,
            frequency: 100,
            size_factor: 1500,
            surface_block: BlockType::Rock,
            underground_block: BlockType::Rock,
        },
        BiomeType::Plain => Biome {
            temperature: 0,
            humidity: 0,
            continentalness: 500,
            base_height: 130,
            amplitude: 5,
            frequency: 20,
            size_factor: 1000,
            surface_block: BlockType::Grass,
            underground_block: BlockType::Rock,
        },
        BiomeType::Beach => Biome {
            temperature: 0,
            humidity: 0,
            continentalness: 0,
            base_height: 130,
            amplitude: 5,
            frequency: 20,
            size_factor: 1000,
            surface_block: BlockType::Sand,
            underground_block: BlockType::Rock,
        },
        BiomeType::Ocean => Biome {
            temperature: 0,
            humidity: 1000,
            continentalness: -100i32,
            base_height: 46,
            amplitude: 25,
            frequency: 5,
            size_factor: 2000,
            surface_block: BlockType::Air,
            underground_block: BlockType::Sand,
        },
        BiomeType::Abyss => Biome {
            temperature: 0,
            humidity: 1000,
            continentalness: -500i32,
            base_height: 16,
            amplitude: 100,
            frequency: 5,
            size_factor: 1000,
            surface_block: BlockType::Air,
            underground_block: BlockType::Rock,
        },
    }
}

/// Whether a biome lies under the sea.
pub open spec fn is_sea(biome_type: BiomeType) -> bool {
    biome_type == BiomeType::Ocean || biome_type == BiomeType::Abyss
}

/// The biome at position `i` of the list of all biomes, counted round.
pub open spec fn biome_of_index(i: int) -> BiomeType {
    let k = i % 5;
    if k == 0 {
        BiomeType::Mountain
    } else if k == 1 {
        BiomeType::Plain
    } else if k == 2 {
        BiomeType::Beach
    } else if k == 3 {
        BiomeType::Ocean
    } else {
        BiomeType::Abyss
    }
}

/// The description of a biome. Heights relate to the sea level of 126:
/// mountains start 10 above it, plains and beaches 4 above, oceans 80 and
/// abysses 110 below.
pub fn get_biome_data(biome_type: BiomeType) -> (b: Biome)
    ensures
        b == biome_data(biome_type),
        b.base_height + b.amplitude < 384,
{
    match biome_type {
        BiomeType::Mountain => Biome {
            temperature: 0,
            humidity: 0,
            continentalness: 1000,
            base_height: crate::constants::SEA_LEVEL + 10,
            amplitude: 200,
            frequency: 100,
            size_factor: 1500,
            surface_block: BlockType::Rock,
            underground_block: BlockType::Rock,
        },
        BiomeType::Plain => Biome {
            temperature: 0,
            humidity: 0,
            continentalness: 500,
            base_height: crate::constants::SEA_LEVEL + 4,
            amplitude: 5,
            frequency: 20,
            size_factor: 1000,
            surface_block: BlockType::Grass,
            underground_block: BlockType::Rock,
        },
        BiomeType::Beach => Biome {
            temperature: 0,
            humidity: 0,
            continentalness: 0,
            base_height: crate::constants::SEA_LEVEL + 4,
            amplitude: 5,
            frequency: 20,
            size_factor: 1000,
            surface_block: BlockType::Sand,
            underground_block: BlockType::Rock,
        },
        BiomeType::Ocean => Biome {
            temperature: 0,
            humidity: 1000,
            continentalness: -100,
            base_height: crate::constants::SEA_LEVEL - 80,
            amplitude: 25,
            frequency: 5,
            size_factor: 2000,
            surface_block: BlockType::Air,
            underground_block: BlockType::Sand,
        },
        BiomeType::Abyss => Biome {
            temperature: 0,
            humidity: 1000,
            continentalness: -500,
            base_height: crate::constants::SEA_LEVEL - 110,
            amplitude: 100,
            frequency: 5,
            size_factor: 1000,
            surface_block: BlockType::Air,
            underground_block: BlockType::Rock,
        },
    }
}

/// The biome at position `i` of the list of all biomes, counted round.
pub fn biome_from_index(i: u32) -> (b: BiomeType)
    ensures
        b == biome_of_index(i as int),
{
    let k: u32 = i % 5;
    if k == 0 {
        BiomeType::Mountain
    } else if k == 1 {
        BiomeType::Plain
    } else if k == 2 {
        BiomeType::Beach
    } else if k == 3 {
        BiomeType::Ocean
    } else {
        BiomeType::Abyss
    }
}

} // verus!
