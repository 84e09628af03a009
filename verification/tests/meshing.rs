use voxel_world::block::BlockType;
use voxel_world::chunk::{Chunk, ChunkSection};
use voxel_world::chunk_mesh::{generate_chunk_sections_mesh, generate_mesh_from_chunk};
use voxel_world::greedy::{create_quad_from_position, generate_quads_from_mask};
use voxel_world::mesher::{
    direction_at, fill_mask, generate_quads_for_direction, generate_quads_for_section,
    generate_quads_for_window,
};
use voxel_world::quad::{
    convert_uvw_to_xyz, get_dimensions_for_direction, get_neighbor_coords, should_render_face,
    Direction, Quad,
};
use voxel_world::window::{decode_palette, BlockWindow};
use voxel_world::world::WorldData;

const ALL_KINDS: [BlockType; 7] = [
    BlockType::Air,
    BlockType::Grass,
    BlockType::Dirt,
    BlockType::Rock,
    BlockType::Brick,
    BlockType::Water,
    BlockType::Sand,
];

const ALL_DIRECTIONS: [Direction; 6] = [
    Direction::Up,
    Direction::Down,
    Direction::North,
    Direction::South,
    Direction::East,
    Direction::West,
];

fn quad(x: usize, y: usize, z: usize, width: usize, height: usize, direction: Direction, kind: BlockType) -> Quad {
    Quad { x, y, z, width, height, direction, type_blocks: kind }
}

fn count_in(quads: &[Quad], direction: Direction) -> usize {
    quads.iter().filter(|q| q.direction == direction).count()
}

fn exposed_faces(section: &ChunkSection) -> usize {
    let mut n = 0;
    for x in 0..16usize {
        for y in 0..16usize {
            for z in 0..16usize {
                let here = section.get_block(x, y, z);
                for d in ALL_DIRECTIONS {
                    let (nx, ny, nz) = get_neighbor_coords(x, y, z, d);
                    let there = if nx < 0 || ny < 0 || nz < 0 || nx > 15 || ny > 15 || nz > 15 {
                        BlockType::Air
                    } else {
                        section.get_block(nx as usize, ny as usize, nz as usize)
                    };
                    if should_render_face(here, there) {
                        n += 1;
                    }
                }
            }
        }
    }
    n
}

fn covered_cells(quads: &[Quad]) -> usize {
    quads.iter().map(|q| q.width * q.height).sum()
}

#[test]
fn exposure_policy() {
    for kind in ALL_KINDS {
        assert!(!should_render_face(BlockType::Air, kind));
        assert_eq!(should_render_face(kind, BlockType::Air), kind != BlockType::Air);
        assert!(!should_render_face(kind, kind));
    }
    assert!(!should_render_face(BlockType::Water, BlockType::Water));
    assert!(should_render_face(BlockType::Water, BlockType::Rock));
    assert!(should_render_face(BlockType::Water, BlockType::Sand));
    assert!(should_render_face(BlockType::Rock, BlockType::Water));
    assert!(should_render_face(BlockType::Grass, BlockType::Water));
    assert!(!should_render_face(BlockType::Rock, BlockType::Rock));
    assert!(should_render_face(BlockType::Rock, BlockType::Dirt));
    assert!(should_render_face(BlockType::Dirt, BlockType::Rock));
    for a in ALL_KINDS {
        for b in ALL_KINDS {
            assert_eq!(should_render_face(a, b), a != BlockType::Air && a != b);
        }
    }
}

#[test]
fn layer_coordinates() {
    assert_eq!(convert_uvw_to_xyz(1, 2, 3, Direction::Up), (1, 3, 2));
    assert_eq!(convert_uvw_to_xyz(1, 2, 3, Direction::Down), (1, 3, 2));
    assert_eq!(convert_uvw_to_xyz(1, 2, 3, Direction::North), (1, 2, 3));
    assert_eq!(convert_uvw_to_xyz(1, 2, 3, Direction::South), (1, 2, 3));
    assert_eq!(convert_uvw_to_xyz(1, 2, 3, Direction::East), (3, 2, 1));
    assert_eq!(convert_uvw_to_xyz(1, 2, 3, Direction::West), (3, 2, 1));
    for d in ALL_DIRECTIONS {
        assert_eq!(get_dimensions_for_direction(d), (16, 16, 16));
    }
    for i in 0..6 {
        assert_eq!(direction_at(i), ALL_DIRECTIONS[i]);
    }
}

#[test]
fn neighbor_coordinates() {
    assert_eq!(get_neighbor_coords(5, 6, 7, Direction::Up), (5, 7, 7));
    assert_eq!(get_neighbor_coords(5, 6, 7, Direction::Down), (5, 5, 7));
    assert_eq!(get_neighbor_coords(5, 6, 7, Direction::North), (5, 6, 6));
    assert_eq!(get_neighbor_coords(5, 6, 7, Direction::South), (5, 6, 8));
    assert_eq!(get_neighbor_coords(5, 6, 7, Direction::East), (6, 6, 7));
    assert_eq!(get_neighbor_coords(5, 6, 7, Direction::West), (4, 6, 7));
    assert_eq!(get_neighbor_coords(0, 0, 0, Direction::West), (-1, 0, 0));
    assert_eq!(get_neighbor_coords(15, 15, 15, Direction::Up), (15, 16, 15));
}

#[test]
fn window_of_a_lone_section() {
    let mut section = ChunkSection::empty(0);
    section.set_block(0, 0, 0, BlockType::Rock);
    section.set_block(15, 15, 15, BlockType::Water);
    section.set_block(1, 0, 0, BlockType::Air);
    let win = BlockWindow::from_section(&section);
    assert_eq!(win.get(0, 0, 0), BlockType::Rock);
    assert_eq!(win.get(15, 15, 15), BlockType::Water);
    assert_eq!(win.get(1, 0, 0), BlockType::Air);
    assert_eq!(win.get(2, 0, 0), BlockType::Rock);
    assert_eq!(win.get(-1, 0, 0), BlockType::Air);
    assert_eq!(win.get(16, 15, 15), BlockType::Air);
    assert_eq!(win.get(0, -1, 0), BlockType::Air);
    assert_eq!(win.get(-2, 0, 0), BlockType::Air);
    assert_eq!(win.get(17, 17, 17), BlockType::Air);
    assert_eq!(win.get(i32::MIN, i32::MAX, 0), BlockType::Air);
    assert_eq!(
        decode_palette(&section.palette),
        vec![BlockType::Rock, BlockType::Water, BlockType::Air]
    );
}

#[test]
fn mask_of_a_layer() {
    let mut section = ChunkSection::empty(0);
    section.set_block(0, 0, 0, BlockType::Air);
    section.set_block(2, 5, 3, BlockType::Rock);
    section.set_block(2, 6, 3, BlockType::Rock);
    let win = BlockWindow::from_section(&section);
    let mut mask = vec![None; 256];
    fill_mask(&mut mask, &win, Direction::Up, 5);
    assert!(mask.iter().all(|m| m.is_none()));
    fill_mask(&mut mask, &win, Direction::Up, 6);
    for i in 0..256 {
        assert_eq!(mask[i], if i == 2 * 16 + 3 { Some(BlockType::Rock) } else { None });
    }
    fill_mask(&mut mask, &win, Direction::East, 2);
    for i in 0..256 {
        let wanted = if i == 3 * 16 + 5 || i == 3 * 16 + 6 { Some(BlockType::Rock) } else { None };
        assert_eq!(mask[i], wanted);
    }
    fill_mask(&mut mask, &win, Direction::East, 3);
    assert!(mask.iter().all(|m| m.is_none()));
}

#[test]
fn quad_grows_wide_first_and_then_high() {
    let mut mask = vec![None; 256];
    for u in 2..6 {
        for v in 3..5 {
            mask[u * 16 + v] = Some(BlockType::Rock);
        }
    }
    mask[6 * 16 + 3] = Some(BlockType::Rock);
    let mut visited = vec![false; 256];
    let q = create_quad_from_position(&mask, &mut visited, 2, 3, 9, Direction::North, BlockType::Rock);
    assert_eq!(q, quad(2, 3, 9, 5, 1, Direction::North, BlockType::Rock));
    for i in 0..256 {
        let u = i / 16;
        let v = i % 16;
        assert_eq!(visited[i], (2..7).contains(&u) && v == 3);
    }
    let q = create_quad_from_position(&mask, &mut visited, 2, 4, 9, Direction::North, BlockType::Rock);
    assert_eq!(q, quad(2, 4, 9, 4, 1, Direction::North, BlockType::Rock));
}

#[test]
fn quad_stops_at_other_kinds_and_visited_cells() {
    let mut mask = vec![None; 256];
    mask[0] = Some(BlockType::Rock);
    mask[16] = Some(BlockType::Dirt);
    mask[1] = Some(BlockType::Rock);
    mask[2] = Some(BlockType::Rock);
    let mut visited = vec![false; 256];
    visited[2] = true;
    let q = create_quad_from_position(&mask, &mut visited, 0, 0, 0, Direction::Up, BlockType::Rock);
    assert_eq!(q, quad(0, 0, 0, 1, 2, Direction::Up, BlockType::Rock));
    assert!(visited[0] && visited[1] && visited[2] && !visited[16]);
}

#[test]
fn quad_reaches_the_edges_of_the_layer() {
    let mask = vec![Some(BlockType::Sand); 256];
    let mut visited = vec![false; 256];
    let q = create_quad_from_position(&mask, &mut visited, 0, 0, 15, Direction::East, BlockType::Sand);
    assert_eq!(q, quad(15, 0, 0, 16, 16, Direction::East, BlockType::Sand));
    assert!(visited.iter().all(|v| *v));
    let mut visited = vec![false; 256];
    let q = create_quad_from_position(&mask, &mut visited, 15, 15, 0, Direction::Up, BlockType::Sand);
    assert_eq!(q, quad(15, 0, 15, 1, 1, Direction::Up, BlockType::Sand));
}

#[test]
fn layer_with_an_l_shape() {
    let mut mask = vec![None; 256];
    mask[0 * 16 + 0] = Some(BlockType::Rock);
    mask[1 * 16 + 0] = Some(BlockType::Rock);
    mask[0 * 16 + 1] = Some(BlockType::Rock);
    let (opaque, water) = generate_quads_from_mask(&mask, Direction::Up, 4);
    assert!(water.is_empty());
    assert_eq!(
        opaque,
        vec![
            quad(0, 4, 0, 2, 1, Direction::Up, BlockType::Rock),
            quad(0, 4, 1, 1, 1, Direction::Up, BlockType::Rock),
        ]
    );
}

#[test]
fn layer_splits_kinds_and_water() {
    let mut mask = vec![None; 256];
    for v in 0..16 {
        mask[3 * 16 + v] = Some(if v < 8 { BlockType::Water } else { BlockType::Grass });
        mask[4 * 16 + v] = Some(if v < 8 { BlockType::Water } else { BlockType::Sand });
    }
    let (opaque, water) = generate_quads_from_mask(&mask, Direction::South, 0);
    assert_eq!(water, vec![quad(3, 0, 0, 2, 8, Direction::South, BlockType::Water)]);
    assert_eq!(
        opaque,
        vec![
            quad(3, 8, 0, 1, 8, Direction::South, BlockType::Grass),
            quad(4, 8, 0, 1, 8, Direction::South, BlockType::Sand),
        ]
    );
}

#[test]
fn empty_and_full_layers() {
    let (opaque, water) = generate_quads_from_mask(&vec![None; 256], Direction::Down, 7);
    assert!(opaque.is_empty() && water.is_empty());
    let (opaque, water) = generate_quads_from_mask(&vec![Some(BlockType::Water); 256], Direction::Down, 7);
    assert!(opaque.is_empty());
    assert_eq!(water, vec![quad(0, 7, 0, 16, 16, Direction::Down, BlockType::Water)]);
}

#[test]
fn checkerboard_layer_merges_nothing() {
    let mut mask = vec![None; 256];
    let mut faces = 0;
    for u in 0..16 {
        for v in 0..16 {
            if (u + v) % 2 == 0 {
                mask[u * 16 + v] = Some(BlockType::Brick);
                faces += 1;
            }
        }
    }
    let (opaque, water) = generate_quads_from_mask(&mask, Direction::West, 1);
    assert_eq!(opaque.len(), faces);
    assert!(water.is_empty());
    for q in opaque.iter() {
        assert_eq!((q.width, q.height), (1, 1));
    }
}

#[test]
fn one_block_has_six_quads() {
    let mut section = ChunkSection::empty(0);
    section.set_block(0, 0, 0, BlockType::Air);
    section.set_block(5, 6, 7, BlockType::Rock);
    let (opaque, water) = generate_quads_for_section(&section);
    assert!(water.is_empty());
    assert_eq!(
        opaque,
        vec![
            quad(5, 6, 7, 1, 1, Direction::Up, BlockType::Rock),
            quad(5, 6, 7, 1, 1, Direction::Down, BlockType::Rock),
            quad(5, 6, 7, 1, 1, Direction::North, BlockType::Rock),
            quad(5, 6, 7, 1, 1, Direction::South, BlockType::Rock),
            quad(5, 6, 7, 1, 1, Direction::East, BlockType::Rock),
            quad(5, 6, 7, 1, 1, Direction::West, BlockType::Rock),
        ]
    );
    assert_eq!(exposed_faces(&section), 6);
}

#[test]
fn two_blocks_side_by_side_share_quads() {
    let mut section = ChunkSection::empty(0);
    section.set_block(0, 0, 0, BlockType::Air);
    section.set_block(5, 5, 5, BlockType::Rock);
    section.set_block(6, 5, 5, BlockType::Rock);
    let (opaque, water) = generate_quads_for_section(&section);
    assert!(water.is_empty());
    assert_eq!(exposed_faces(&section), 10);
    assert_eq!(opaque.len(), 6);
    assert!(opaque.len() < exposed_faces(&section));
    assert_eq!(covered_cells(&opaque), 10);
    assert_eq!(opaque[0], quad(5, 5, 5, 2, 1, Direction::Up, BlockType::Rock));
    assert_eq!(opaque[4], quad(6, 5, 5, 1, 1, Direction::East, BlockType::Rock));
    assert_eq!(opaque[5], quad(5, 5, 5, 1, 1, Direction::West, BlockType::Rock));
}

#[test]
fn two_blocks_on_top_of_each_other_share_quads() {
    let mut section = ChunkSection::empty(0);
    section.set_block(0, 0, 0, BlockType::Air);
    section.set_block(5, 5, 5, BlockType::Sand);
    section.set_block(5, 6, 5, BlockType::Sand);
    let (opaque, _) = generate_quads_for_section(&section);
    assert_eq!(opaque.len(), 6);
    assert_eq!(exposed_faces(&section), 10);
    assert_eq!(opaque[2], quad(5, 5, 5, 1, 2, Direction::North, BlockType::Sand));
    assert_eq!(opaque[4], quad(5, 5, 5, 1, 2, Direction::East, BlockType::Sand));
}

#[test]
fn full_section_has_one_quad_for_each_side() {
    let mut section = ChunkSection::empty(0);
    section.set_block(0, 0, 0, BlockType::Rock);
    let (opaque, water) = generate_quads_for_section(&section);
    assert!(water.is_empty());
    assert_eq!(
        opaque,
        vec![
            quad(0, 15, 0, 16, 16, Direction::Up, BlockType::Rock),
            quad(0, 0, 0, 16, 16, Direction::Down, BlockType::Rock),
            quad(0, 0, 0, 16, 16, Direction::North, BlockType::Rock),
            quad(0, 0, 15, 16, 16, Direction::South, BlockType::Rock),
            quad(15, 0, 0, 16, 16, Direction::East, BlockType::Rock),
            quad(0, 0, 0, 16, 16, Direction::West, BlockType::Rock),
        ]
    );
    assert_eq!(exposed_faces(&section), 6 * 256);
}

#[test]
fn blank_section_has_no_quads() {
    let section = ChunkSection::empty(0);
    let (opaque, water) = generate_quads_for_section(&section);
    assert!(opaque.is_empty() && water.is_empty());
}

#[test]
fn quads_never_outnumber_faces() {
    let mut section = ChunkSection::empty(0);
    section.set_block(0, 0, 0, BlockType::Air);
    let mut state: u32 = 12345;
    for x in 0..16 {
        for y in 0..16 {
            for z in 0..16 {
                state = state.wrapping_mul(1664525).wrapping_add(1013904223);
                let kind = match (state >> 24) % 6 {
                    0 | 1 | 2 => BlockType::Air,
                    3 => BlockType::Rock,
                    4 => BlockType::Water,
                    _ => BlockType::Grass,
                };
                section.set_block(x, y, z, kind);
            }
        }
    }
    let (opaque, water) = generate_quads_for_section(&section);
    let faces = exposed_faces(&section);
    assert!(opaque.len() + water.len() < faces);
    assert_eq!(covered_cells(&opaque) + covered_cells(&water), faces);
    assert!(opaque.iter().all(|q| q.type_blocks != BlockType::Water && q.type_blocks != BlockType::Air));
    assert!(water.iter().all(|q| q.type_blocks == BlockType::Water));
}

#[test]
fn water_beside_rock() {
    let mut section = ChunkSection::empty(0);
    section.set_block(0, 0, 0, BlockType::Air);
    section.set_block(4, 8, 8, BlockType::Rock);
    section.set_block(5, 8, 8, BlockType::Water);
    let (opaque, water) = generate_quads_for_section(&section);
    assert_eq!(count_in(&water, Direction::East), 1);
    assert_eq!(water.iter().find(|q| q.direction == Direction::East), Some(&quad(5, 8, 8, 1, 1, Direction::East, BlockType::Water)));
    assert_eq!(count_in(&opaque, Direction::West), 1);
    assert_eq!(opaque.iter().find(|q| q.direction == Direction::West), Some(&quad(4, 8, 8, 1, 1, Direction::West, BlockType::Rock)));
    assert_eq!(count_in(&opaque, Direction::East), 1);
    assert_eq!(count_in(&water, Direction::West), 1);
    assert_eq!(opaque.len(), 6);
    assert_eq!(water.len(), 6);
}

#[test]
fn water_beside_water_is_one_surface() {
    let mut section = ChunkSection::empty(0);
    section.set_block(0, 0, 0, BlockType::Air);
    for x in 0..16 {
        for z in 0..16 {
            section.set_block(x, 3, z, BlockType::Water);
        }
    }
    let (opaque, water) = generate_quads_for_section(&section);
    assert!(opaque.is_empty());
    assert_eq!(water.len(), 6);
    assert_eq!(water[0], quad(0, 3, 0, 16, 16, Direction::Up, BlockType::Water));
    assert_eq!(water[1], quad(0, 3, 0, 16, 16, Direction::Down, BlockType::Water));
    assert_eq!(water[2], quad(0, 3, 0, 16, 1, Direction::North, BlockType::Water));
}

#[test]
fn directions_come_one_after_the_other() {
    let mut section = ChunkSection::empty(0);
    section.set_block(0, 0, 0, BlockType::Air);
    section.set_block(1, 1, 1, BlockType::Dirt);
    section.set_block(1, 9, 1, BlockType::Dirt);
    let win = BlockWindow::from_section(&section);
    let (up, _) = generate_quads_for_direction(&win, Direction::Up);
    assert_eq!(
        up,
        vec![
            quad(1, 1, 1, 1, 1, Direction::Up, BlockType::Dirt),
            quad(1, 9, 1, 1, 1, Direction::Up, BlockType::Dirt),
        ]
    );
    let (all, _) = generate_quads_for_window(&win);
    assert_eq!(all.len(), 12);
    for i in 0..6 {
        assert_eq!(all[2 * i].direction, ALL_DIRECTIONS[i]);
        assert_eq!(all[2 * i + 1].direction, ALL_DIRECTIONS[i]);
    }
}

fn rock_chunk(x: i32, z: i32) -> Chunk {
    let mut chunk = Chunk::blank(x, z);
    for i in 0..24 {
        chunk.set_block_at(0, i * 16, 0, BlockType::Rock);
    }
    chunk
}

#[test]
fn lone_chunk_is_meshed_section_by_section() {
    let chunk = rock_chunk(2, -3);
    let geometry = generate_mesh_from_chunk(&chunk);
    assert_eq!(geometry.len(), 24);
    for i in 0..24 {
        assert_eq!(geometry[i].section, i as i32);
        assert_eq!(geometry[i].origin, (32, 16 * i as i32, -48));
        assert_eq!(geometry[i].opaque_quads.len(), 6);
        assert!(geometry[i].water_quads.is_empty());
        assert_eq!(geometry[i].opaque_mesh.positions.len(), 24);
        assert_eq!(geometry[i].opaque_mesh.indices.len(), 36);
        assert!(geometry[i].water_mesh.is_empty());
        assert!(!geometry[i].opaque_mesh.is_empty());
    }
    assert!(generate_mesh_from_chunk(&Chunk::new(0, 0)).is_empty());
}

#[test]
fn faces_between_resident_neighbors_are_hidden() {
    let mut world = WorldData::new();
    world.insert_chunk(rock_chunk(0, 0));
    let alone = generate_chunk_sections_mesh(&world, 0, 0);
    assert_eq!(alone.len(), 24);
    assert_eq!(alone[0].opaque_quads.len(), 5);
    assert_eq!(count_in(&alone[0].opaque_quads, Direction::Up), 0);
    assert_eq!(count_in(&alone[0].opaque_quads, Direction::Down), 1);
    assert_eq!(alone[23].opaque_quads.len(), 5);
    assert_eq!(count_in(&alone[23].opaque_quads, Direction::Up), 1);
    assert_eq!(alone[10].opaque_quads.len(), 4);
    assert_eq!(alone[10].origin, (0, 160, 0));

    world.insert_chunk(rock_chunk(1, 0));
    world.insert_chunk(rock_chunk(0, -1));
    let joined = generate_chunk_sections_mesh(&world, 0, 0);
    assert_eq!(joined[10].opaque_quads.len(), 2);
    assert_eq!(count_in(&joined[10].opaque_quads, Direction::East), 0);
    assert_eq!(count_in(&joined[10].opaque_quads, Direction::North), 0);
    assert_eq!(count_in(&joined[10].opaque_quads, Direction::West), 1);
    assert_eq!(count_in(&joined[10].opaque_quads, Direction::South), 1);

    let absent = generate_chunk_sections_mesh(&world, 7, 7);
    assert_eq!(absent.len(), 24);
    assert!(absent.iter().all(|g| g.opaque_quads.is_empty() && g.water_quads.is_empty()));
}

#[test]
fn window_over_the_world() {
    let mut world = WorldData::new();
    let mut here = Chunk::blank(-1, 2);
    here.set_block_at(0, 16, 0, BlockType::Rock);
    here.set_block_at(15, 31, 15, BlockType::Sand);
    here.set_block_at(3, 15, 3, BlockType::Water);
    here.set_block_at(3, 32, 3, BlockType::Grass);
    world.insert_chunk(here);
    let mut west = Chunk::blank(-2, 2);
    west.set_block_at(15, 20, 4, BlockType::Brick);
    world.insert_chunk(west);
    let mut south = Chunk::blank(-1, 3);
    south.set_block_at(6, 20, 0, BlockType::Dirt);
    world.insert_chunk(south);
    let win = world.section_window(-1, 2, 1);
    assert_eq!(win.get(0, 0, 0), BlockType::Rock);
    assert_eq!(win.get(15, 15, 15), BlockType::Sand);
    assert_eq!(win.get(3, -1, 3), BlockType::Water);
    assert_eq!(win.get(3, 16, 3), BlockType::Grass);
    assert_eq!(win.get(-1, 4, 4), BlockType::Brick);
    assert_eq!(win.get(6, 4, 16), BlockType::Dirt);
    assert_eq!(win.get(16, 4, 4), BlockType::Air);
    assert_eq!(win.get(4, 4, -1), BlockType::Air);
    let bottom = world.section_window(-1, 2, 0);
    assert_eq!(bottom.get(3, 15, 3), BlockType::Water);
    assert_eq!(bottom.get(0, 16, 0), BlockType::Rock);
    assert_eq!(bottom.get(0, -1, 0), BlockType::Air);
}

#[test]
fn snapshot_gives_the_same_geometry() {
    let mut world = WorldData::new();
    for x in -1..=1 {
        for z in -1..=1 {
            let mut chunk = Chunk::blank(x, z);
            for i in 0..24 {
                chunk.set_block_at(0, i * 16, 0, BlockType::Air);
            }
            chunk.set_block_at(0, 20, 5, BlockType::Rock);
            chunk.set_block_at(15, 20, 5, BlockType::Rock);
            chunk.set_block_at(7, 20, 0, BlockType::Water);
            chunk.set_block_at(7, 20, 15, BlockType::Water);
            world.insert_chunk(chunk);
        }
    }
    let direct = generate_chunk_sections_mesh(&world, 0, 0);
    let through = generate_chunk_sections_mesh(&world.snapshot_around(0, 0), 0, 0);
    assert_eq!(direct.len(), through.len());
    for i in 0..24 {
        assert_eq!(direct[i].opaque_quads, through[i].opaque_quads);
        assert_eq!(direct[i].water_quads, through[i].water_quads);
        assert_eq!(direct[i].opaque_mesh.positions, through[i].opaque_mesh.positions);
        assert_eq!(direct[i].water_mesh.indices, through[i].water_mesh.indices);
    }
    assert_eq!(direct[1].opaque_quads.len(), 10);
    assert_eq!(direct[1].water_quads.len(), 10);
}
