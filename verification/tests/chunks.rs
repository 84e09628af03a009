use voxel_world::block::BlockType;
use voxel_world::chunk::{get_or_insert_block_id, section_is_wf, Chunk, ChunkSection};

#[test]
fn blank_section_reads_as_air() {
    let section = ChunkSection::empty(3);
    assert_eq!(section.y, 3);
    assert_eq!(section.blocks.len(), 4096);
    assert!(section.palette.is_empty());
    assert_eq!(section.get_block(0, 0, 0), BlockType::Air);
    assert_eq!(section.get_block(15, 15, 15), BlockType::Air);
    assert!(section_is_wf(&section));
}

#[test]
fn cell_position_is_y_then_z_then_x() {
    let mut section = ChunkSection::empty(0);
    section.set_block(3, 2, 1, BlockType::Rock);
    assert_eq!(section.blocks[(2 * 16 + 1) * 16 + 3], 0);
    assert_eq!(section.palette, vec!["minecraft:rock".to_string()]);
    section.set_block(4, 2, 1, BlockType::Sand);
    assert_eq!(section.blocks[(2 * 16 + 1) * 16 + 4], 1);
    assert_eq!(section.get_block(3, 2, 1), BlockType::Rock);
    assert_eq!(section.get_block(4, 2, 1), BlockType::Sand);
}

#[test]
fn palette_grows_by_first_use_without_repeats() {
    let mut section = ChunkSection::empty(0);
    let order = [
        BlockType::Rock,
        BlockType::Grass,
        BlockType::Rock,
        BlockType::Water,
        BlockType::Grass,
        BlockType::Air,
        BlockType::Water,
        BlockType::Brick,
        BlockType::Dirt,
        BlockType::Sand,
        BlockType::Sand,
    ];
    let mut x = 0;
    for kind in order {
        section.set_block(x, 0, 0, kind);
        x += 1;
    }
    assert_eq!(
        section.palette,
        vec![
            "minecraft:rock".to_string(),
            "minecraft:grass".to_string(),
            "minecraft:water".to_string(),
            "minecraft:air".to_string(),
            "minecraft:brick".to_string(),
            "minecraft:dirt".to_string(),
            "minecraft:sand".to_string(),
        ]
    );
    for index in section.blocks.iter() {
        assert!((*index as usize) < section.palette.len());
    }
    for i in 0..section.palette.len() {
        for j in 0..i {
            assert_ne!(section.palette[i], section.palette[j]);
        }
    }
    let mut x = 0;
    for kind in order {
        assert_eq!(section.get_block(x, 0, 0), kind);
        x += 1;
    }
    assert!(section_is_wf(&section));
}

#[test]
fn first_write_into_blank_section_names_every_cell() {
    let mut section = ChunkSection::empty(0);
    section.set_block(0, 0, 0, BlockType::Rock);
    assert_eq!(section.get_block(9, 9, 9), BlockType::Rock);
    section.set_block(9, 9, 9, BlockType::Air);
    assert_eq!(section.get_block(9, 9, 9), BlockType::Air);
    assert_eq!(section.get_block(0, 0, 0), BlockType::Rock);
}

#[test]
fn get_or_insert_finds_or_appends() {
    let mut palette: Vec<String> = vec![];
    assert_eq!(get_or_insert_block_id(&mut palette, &BlockType::Dirt), 0);
    assert_eq!(get_or_insert_block_id(&mut palette, &BlockType::Water), 1);
    assert_eq!(get_or_insert_block_id(&mut palette, &BlockType::Dirt), 0);
    assert_eq!(palette, vec!["minecraft:dirt".to_string(), "minecraft:water".to_string()]);
}

#[test]
fn section_reads_outside_as_air() {
    let mut section = ChunkSection::empty(0);
    section.set_block(0, 0, 0, BlockType::Rock);
    assert_eq!(section.get_block(16, 0, 0), BlockType::Air);
    assert_eq!(section.get_block(0, 16, 0), BlockType::Air);
    assert_eq!(section.get_block(0, 0, 16), BlockType::Air);
    assert_eq!(section.get_block(usize::MAX, usize::MAX, usize::MAX), BlockType::Air);
}

#[test]
fn unknown_palette_name_reads_as_air() {
    let section = ChunkSection {
        y: 0,
        blocks: vec![0; 4096],
        palette: vec!["minecraft:obsidian".to_string()],
    };
    assert_eq!(section.get_block(1, 1, 1), BlockType::Air);
    assert!(!section_is_wf(&section));
}

#[test]
fn index_beyond_palette_reads_as_air() {
    let section = ChunkSection {
        y: 0,
        blocks: vec![5; 4096],
        palette: vec!["minecraft:rock".to_string()],
    };
    assert_eq!(section.get_block(1, 1, 1), BlockType::Air);
    assert!(!section_is_wf(&section));
}

#[test]
fn repeated_palette_name_is_not_well_formed() {
    let section = ChunkSection {
        y: 0,
        blocks: vec![0; 4096],
        palette: vec!["minecraft:rock".to_string(), "minecraft:rock".to_string()],
    };
    assert!(!section_is_wf(&section));
}

#[test]
fn new_chunk_has_no_sections_and_reads_as_air() {
    let chunk = Chunk::new(4, -7);
    assert_eq!(chunk.x, 4);
    assert_eq!(chunk.z, -7);
    assert!(chunk.sections.is_empty());
    assert_eq!(chunk.get_block_at(0, 0, 0), BlockType::Air);
    assert_eq!(chunk.get_block_at(15, 383, 15), BlockType::Air);
}

#[test]
fn chunk_reads_through_its_sections() {
    let mut chunk = Chunk::blank(0, 0);
    assert_eq!(chunk.sections.len(), 24);
    for i in 0..24 {
        assert_eq!(chunk.sections[i].y as usize, i);
    }
    chunk.set_block_at(1, 0, 2, BlockType::Rock);
    chunk.set_block_at(1, 17, 2, BlockType::Water);
    chunk.set_block_at(15, 383, 15, BlockType::Grass);
    assert_eq!(chunk.get_block_at(1, 0, 2), BlockType::Rock);
    assert_eq!(chunk.get_block_at(1, 17, 2), BlockType::Water);
    assert_eq!(chunk.get_block_at(15, 383, 15), BlockType::Grass);
    assert_eq!(chunk.sections[1].blocks[(1 * 16 + 2) * 16 + 1], 0);
    assert_eq!(chunk.sections[1].palette, vec!["minecraft:water".to_string()]);
    assert_eq!(chunk.sections[2].palette.len(), 0);
}

#[test]
fn chunk_reads_out_of_range_as_air() {
    let mut chunk = Chunk::blank(0, 0);
    chunk.set_block_at(0, 383, 0, BlockType::Rock);
    chunk.set_block_at(0, 0, 0, BlockType::Rock);
    assert_eq!(chunk.get_block_at(0, 384, 0), BlockType::Air);
    assert_eq!(chunk.get_block_at(0, 4096, 0), BlockType::Air);
    assert_eq!(chunk.get_block_at(0, usize::MAX, 0), BlockType::Air);
    assert_eq!(chunk.get_block_at(16, 0, 0), BlockType::Air);
    assert_eq!(chunk.get_block_at(0, 0, 16), BlockType::Air);
    assert_eq!(chunk.get_block_at(usize::MAX, 0, usize::MAX), BlockType::Air);
}

#[test]
fn chunk_reads_the_first_section_of_a_height() {
    let mut low = ChunkSection::empty(0);
    low.set_block(0, 0, 0, BlockType::Sand);
    let mut again = ChunkSection::empty(0);
    again.set_block(0, 0, 0, BlockType::Rock);
    let mut high = ChunkSection::empty(5);
    high.set_block(0, 0, 0, BlockType::Water);
    let chunk = Chunk { x: 0, z: 0, sections: vec![high, low, again] };
    assert_eq!(chunk.get_block_at(0, 0, 0), BlockType::Sand);
    assert_eq!(chunk.get_block_at(0, 80, 0), BlockType::Water);
    assert_eq!(chunk.get_block_at(0, 16, 0), BlockType::Air);
    assert_eq!(chunk.find_section(0), Some(1));
    assert_eq!(chunk.find_section(5), Some(0));
    assert_eq!(chunk.find_section(1), None);
}

#[test]
fn set_index_stores_only_known_indices() {
    let mut chunk = Chunk::blank(0, 0);
    chunk.set_block_at(0, 40, 0, BlockType::Rock);
    chunk.set_block_at(1, 40, 0, BlockType::Grass);
    assert!(chunk.set_index_at(5, 41, 5, 1));
    assert_eq!(chunk.get_block_at(5, 41, 5), BlockType::Grass);
    assert!(!chunk.set_index_at(5, 41, 5, 2));
    assert_eq!(chunk.get_block_at(5, 41, 5), BlockType::Grass);
    assert!(!chunk.set_index_at(16, 41, 5, 0));
    assert!(!chunk.set_index_at(5, 384, 5, 0));
    assert!(!chunk.set_index_at(5, 0, 5, 0));
    assert_eq!(chunk.get_block_at(0, 40, 0), BlockType::Rock);
}
