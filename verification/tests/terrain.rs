use voxel_world::biome::{get_biome_data, biome_from_index, BiomeType};
use voxel_world::biome_map::{BiomeMap, ClimatePoint};
use voxel_world::block::BlockType;
use voxel_world::height_map::{height_of_column, HeightMap};
use voxel_world::terrain::{block_for_column, generate_chunk};

#[test]
fn biome_table() {
    let mountain = get_biome_data(BiomeType::Mountain);
    assert_eq!(mountain.base_height, 136);
    assert_eq!(mountain.amplitude, 200);
    assert_eq!(mountain.frequency, 100);
    assert_eq!(mountain.size_factor, 1500);
    assert_eq!(mountain.continentalness, 1000);
    assert_eq!(mountain.surface_block, BlockType::Rock);
    assert_eq!(mountain.underground_block, BlockType::Rock);
    let plain = get_biome_data(BiomeType::Plain);
    assert_eq!((plain.base_height, plain.amplitude, plain.frequency), (130, 5, 20));
    assert_eq!(plain.surface_block, BlockType::Grass);
    assert_eq!(plain.continentalness, 500);
    let beach = get_biome_data(BiomeType::Beach);
    assert_eq!((beach.base_height, beach.amplitude, beach.frequency), (130, 5, 20));
    assert_eq!(beach.surface_block, BlockType::Sand);
    assert_eq!(beach.underground_block, BlockType::Rock);
    let ocean = get_biome_data(BiomeType::Ocean);
    assert_eq!((ocean.base_height, ocean.amplitude, ocean.frequency), (46, 25, 5));
    assert_eq!(ocean.humidity, 1000);
    assert_eq!(ocean.continentalness, -100);
    assert_eq!(ocean.size_factor, 2000);
    assert_eq!(ocean.surface_block, BlockType::Air);
    assert_eq!(ocean.underground_block, BlockType::Sand);
    let abyss = get_biome_data(BiomeType::Abyss);
    assert_eq!((abyss.base_height, abyss.amplitude, abyss.frequency), (16, 100, 5));
    assert_eq!(abyss.continentalness, -500);
    assert_eq!(abyss.underground_block, BlockType::Rock);
}

#[test]
fn biomes_by_index() {
    assert_eq!(biome_from_index(0), BiomeType::Mountain);
    assert_eq!(biome_from_index(1), BiomeType::Plain);
    assert_eq!(biome_from_index(2), BiomeType::Beach);
    assert_eq!(biome_from_index(3), BiomeType::Ocean);
    assert_eq!(biome_from_index(4), BiomeType::Abyss);
    assert_eq!(biome_from_index(5), BiomeType::Mountain);
    assert_eq!(biome_from_index(4_294_967_295), BiomeType::Mountain);
}

#[test]
fn land_column() {
    assert_eq!(block_for_column(BiomeType::Beach, 130, 131), BlockType::Air);
    assert_eq!(block_for_column(BiomeType::Beach, 130, 383), BlockType::Air);
    assert_eq!(block_for_column(BiomeType::Beach, 130, 130), BlockType::Sand);
    assert_eq!(block_for_column(BiomeType::Beach, 130, 129), BlockType::Rock);
    assert_eq!(block_for_column(BiomeType::Beach, 130, 127), BlockType::Rock);
    assert_eq!(block_for_column(BiomeType::Beach, 130, 126), BlockType::Rock);
    assert_eq!(block_for_column(BiomeType::Beach, 130, 0), BlockType::Rock);
    assert_eq!(block_for_column(BiomeType::Plain, 130, 130), BlockType::Grass);
    assert_eq!(block_for_column(BiomeType::Plain, 130, 131), BlockType::Air);
    assert_eq!(block_for_column(BiomeType::Mountain, 300, 300), BlockType::Rock);
    assert_eq!(block_for_column(BiomeType::Mountain, 300, 301), BlockType::Air);
}

#[test]
fn land_column_near_the_bottom() {
    assert_eq!(block_for_column(BiomeType::Plain, 0, 0), BlockType::Grass);
    assert_eq!(block_for_column(BiomeType::Plain, 0, 1), BlockType::Air);
    assert_eq!(block_for_column(BiomeType::Beach, 2, 0), BlockType::Rock);
    assert_eq!(block_for_column(BiomeType::Beach, 2, 2), BlockType::Sand);
}

#[test]
fn sea_column() {
    assert_eq!(block_for_column(BiomeType::Ocean, 50, 0), BlockType::Sand);
    assert_eq!(block_for_column(BiomeType::Ocean, 50, 50), BlockType::Sand);
    assert_eq!(block_for_column(BiomeType::Ocean, 50, 51), BlockType::Water);
    assert_eq!(block_for_column(BiomeType::Ocean, 50, 126), BlockType::Water);
    assert_eq!(block_for_column(BiomeType::Ocean, 50, 127), BlockType::Air);
    assert_eq!(block_for_column(BiomeType::Abyss, 20, 20), BlockType::Rock);
    assert_eq!(block_for_column(BiomeType::Abyss, 20, 21), BlockType::Water);
    assert_eq!(block_for_column(BiomeType::Abyss, 200, 150), BlockType::Rock);
    assert_eq!(block_for_column(BiomeType::Abyss, 200, 201), BlockType::Air);
}

#[test]
fn column_height_formula() {
    assert_eq!(height_of_column(130, 5, 0), 130);
    assert_eq!(height_of_column(130, 5, 65536), 135);
    assert_eq!(height_of_column(130, 5, 32768), 132);
    assert_eq!(height_of_column(130, 5, 13108), 131);
    assert_eq!(height_of_column(130, 5, 13107), 130);
    assert_eq!(height_of_column(136, 200, 65536), 336);
    assert_eq!(height_of_column(16, 100, 16384), 41);
}

#[test]
fn column_height_stays_in_the_world() {
    assert_eq!(height_of_column(300, 200, 65536), 383);
    assert_eq!(height_of_column(384, 384, 65536), 383);
    assert_eq!(height_of_column(0, 0, 0), 0);
    assert_eq!(height_of_column(130, 5, 4_000_000_000), 135);
}

#[test]
fn heights_of_a_chunk_without_anchors() {
    let map = BiomeMap::new();
    let mut noise = [0u32; 256];
    noise[3 * 16 + 7] = 65536;
    noise[15 * 16 + 15] = 32768;
    let heights = HeightMap::new().get_chunk(0, 0, &map, &noise);
    assert_eq!(heights.len(), 16);
    for row in heights.iter() {
        assert_eq!(row.len(), 16);
    }
    assert_eq!(heights[0][0], 130);
    assert_eq!(heights[3][7], 135);
    assert_eq!(heights[7][3], 130);
    assert_eq!(heights[15][15], 132);
}

#[test]
fn terrain_of_the_plain() {
    let map = BiomeMap::new();
    let mut noise = [0u32; 256];
    noise[2 * 16 + 5] = 65536;
    let chunk = generate_chunk(3, -4, &noise, &map, &HeightMap::new());
    assert_eq!(chunk.x, 3);
    assert_eq!(chunk.z, -4);
    assert_eq!(chunk.sections.len(), 24);
    for i in 0..24 {
        assert_eq!(chunk.sections[i].y as usize, i);
        assert_eq!(chunk.sections[i].blocks.len(), 4096);
    }
    assert_eq!(chunk.get_block_at(0, 130, 0), BlockType::Grass);
    assert_eq!(chunk.get_block_at(0, 131, 0), BlockType::Air);
    assert_eq!(chunk.get_block_at(0, 129, 0), BlockType::Rock);
    assert_eq!(chunk.get_block_at(0, 0, 0), BlockType::Rock);
    assert_eq!(chunk.get_block_at(2, 135, 5), BlockType::Grass);
    assert_eq!(chunk.get_block_at(2, 134, 5), BlockType::Rock);
    assert_eq!(chunk.get_block_at(2, 136, 5), BlockType::Air);
    assert_eq!(chunk.get_block_at(5, 135, 2), BlockType::Air);
    assert_eq!(chunk.get_block_at(15, 383, 15), BlockType::Air);
}

#[test]
fn terrain_palettes_follow_first_use() {
    let map = BiomeMap::new();
    let noise = [0u32; 256];
    let chunk = generate_chunk(0, 0, &noise, &map, &HeightMap::new());
    assert_eq!(chunk.sections[0].palette, vec!["minecraft:rock".to_string()]);
    assert_eq!(
        chunk.sections[8].palette,
        vec![
            "minecraft:rock".to_string(),
            "minecraft:grass".to_string(),
            "minecraft:air".to_string()
        ]
    );
    assert_eq!(chunk.sections[9].palette, vec!["minecraft:air".to_string()]);
    assert_eq!(chunk.sections[8].blocks[(0 * 16 + 0) * 16 + 0], 0);
    assert_eq!(chunk.sections[8].blocks[(2 * 16 + 0) * 16 + 0], 1);
    assert_eq!(chunk.sections[8].blocks[(3 * 16 + 0) * 16 + 0], 2);
    for section in chunk.sections.iter() {
        for index in section.blocks.iter() {
            assert!((*index as usize) < section.palette.len());
        }
    }
}

#[test]
fn terrain_is_the_same_when_made_twice() {
    let mut map = BiomeMap::new();
    map.generate(7, 40, 200);
    let mut noise = [0u32; 256];
    for i in 0..256 {
        noise[i] = (i as u32) * 257;
    }
    let first = generate_chunk(1, 2, &noise, &map, &HeightMap::new());
    let second = generate_chunk(1, 2, &noise, &map, &HeightMap::new());
    assert_eq!(first.sections.len(), second.sections.len());
    for i in 0..first.sections.len() {
        assert_eq!(first.sections[i].y, second.sections[i].y);
        assert_eq!(first.sections[i].blocks, second.sections[i].blocks);
        assert_eq!(first.sections[i].palette, second.sections[i].palette);
    }
}

#[test]
fn terrain_under_the_sea() {
    let anchor = ClimatePoint {
        x: 8,
        z: 8,
        temperature: 0,
        humidity: 1000,
        altitude: 0,
        biome: BiomeType::Ocean,
    };
    let map = BiomeMap::with_anchors(vec![anchor], 1000);
    let noise = [0u32; 256];
    let chunk = generate_chunk(0, 0, &noise, &map, &HeightMap::new());
    assert_eq!(chunk.get_block_at(4, 46, 4), BlockType::Sand);
    assert_eq!(chunk.get_block_at(4, 0, 4), BlockType::Sand);
    assert_eq!(chunk.get_block_at(4, 47, 4), BlockType::Water);
    assert_eq!(chunk.get_block_at(4, 126, 4), BlockType::Water);
    assert_eq!(chunk.get_block_at(4, 127, 4), BlockType::Air);
}

#[test]
fn heights_of_a_far_chunk() {
    let map = BiomeMap::new();
    let noise = [65536u32; 256];
    let far = (1i64 << 59) - 1;
    let heights = HeightMap::new().get_chunk(far, -(1i64 << 59), &map, &noise);
    assert_eq!(heights.len(), 16);
    assert!(heights.iter().all(|row| row.len() == 16 && row.iter().all(|h| *h == 135)));
}
