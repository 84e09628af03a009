use voxel_world::block::BlockType;
use voxel_world::geometry::{corners_of, normal_of, quads_to_mesh, texels_of, MeshData};
use voxel_world::quad::{Direction, Quad};

fn quad(x: usize, y: usize, z: usize, width: usize, height: usize, direction: Direction) -> Quad {
    Quad { x, y, z, width, height, direction, type_blocks: BlockType::Rock }
}

#[test]
fn normals() {
    assert_eq!(normal_of(Direction::Up), (0, 1, 0));
    assert_eq!(normal_of(Direction::Down), (0, -1, 0));
    assert_eq!(normal_of(Direction::North), (0, 0, -1));
    assert_eq!(normal_of(Direction::South), (0, 0, 1));
    assert_eq!(normal_of(Direction::East), (1, 0, 0));
    assert_eq!(normal_of(Direction::West), (-1, 0, 0));
}

#[test]
fn corners_of_each_direction() {
    assert_eq!(
        corners_of(&quad(1, 2, 3, 4, 5, Direction::Up)),
        [(1, 3, 8), (5, 3, 8), (5, 3, 3), (1, 3, 3)]
    );
    assert_eq!(
        corners_of(&quad(1, 2, 3, 4, 5, Direction::Down)),
        [(1, 2, 3), (5, 2, 3), (5, 2, 8), (1, 2, 8)]
    );
    assert_eq!(
        corners_of(&quad(1, 2, 3, 4, 5, Direction::North)),
        [(5, 2, 3), (1, 2, 3), (1, 7, 3), (5, 7, 3)]
    );
    assert_eq!(
        corners_of(&quad(1, 2, 3, 4, 5, Direction::South)),
        [(1, 2, 4), (5, 2, 4), (5, 7, 4), (1, 7, 4)]
    );
    assert_eq!(
        corners_of(&quad(1, 2, 3, 4, 5, Direction::West)),
        [(1, 2, 3), (1, 2, 7), (1, 7, 7), (1, 7, 3)]
    );
    assert_eq!(
        corners_of(&quad(1, 2, 3, 4, 5, Direction::East)),
        [(2, 2, 7), (2, 2, 3), (2, 7, 3), (2, 7, 7)]
    );
}

#[test]
fn texture_positions_of_each_direction() {
    assert_eq!(texels_of(&quad(1, 2, 3, 4, 5, Direction::Up)), [(1, 8), (5, 8), (5, 3), (1, 3)]);
    assert_eq!(texels_of(&quad(1, 2, 3, 4, 5, Direction::Down)), [(1, 8), (5, 8), (5, 3), (1, 3)]);
    assert_eq!(texels_of(&quad(1, 2, 3, 4, 5, Direction::North)), [(1, 7), (5, 7), (5, 2), (1, 2)]);
    assert_eq!(texels_of(&quad(1, 2, 3, 4, 5, Direction::South)), [(1, 7), (5, 7), (5, 2), (1, 2)]);
    assert_eq!(texels_of(&quad(1, 2, 3, 4, 5, Direction::East)), [(3, 7), (7, 7), (7, 2), (3, 2)]);
    assert_eq!(texels_of(&quad(1, 2, 3, 4, 5, Direction::West)), [(3, 7), (7, 7), (7, 2), (3, 2)]);
}

#[test]
fn mesh_of_no_quads() {
    let mesh = quads_to_mesh(&vec![]);
    assert!(mesh.is_empty());
    assert!(mesh.positions.is_empty());
    assert!(mesh.normals.is_empty());
    assert!(mesh.uvs.is_empty());
    assert!(mesh.kinds.is_empty());
    assert!(MeshData::new().is_empty());
}

#[test]
fn mesh_of_two_quads() {
    let mut water = quad(0, 0, 0, 16, 16, Direction::South);
    water.type_blocks = BlockType::Water;
    let quads = vec![quad(1, 2, 3, 2, 3, Direction::Up), water];
    let mesh = quads_to_mesh(&quads);
    assert!(!mesh.is_empty());
    assert_eq!(
        mesh.positions,
        vec![
            (1, 3, 6),
            (3, 3, 6),
            (3, 3, 3),
            (1, 3, 3),
            (0, 0, 1),
            (16, 0, 1),
            (16, 16, 1),
            (0, 16, 1),
        ]
    );
    assert_eq!(
        mesh.normals,
        vec![
            (0, 1, 0),
            (0, 1, 0),
            (0, 1, 0),
            (0, 1, 0),
            (0, 0, 1),
            (0, 0, 1),
            (0, 0, 1),
            (0, 0, 1),
        ]
    );
    assert_eq!(
        mesh.uvs,
        vec![(1, 6), (3, 6), (3, 3), (1, 3), (0, 16), (16, 16), (16, 0), (0, 0)]
    );
    assert_eq!(
        mesh.kinds,
        vec![
            BlockType::Rock,
            BlockType::Rock,
            BlockType::Rock,
            BlockType::Rock,
            BlockType::Water,
            BlockType::Water,
            BlockType::Water,
            BlockType::Water,
        ]
    );
    assert_eq!(mesh.indices, vec![0, 1, 2, 2, 3, 0, 4, 5, 6, 6, 7, 4]);
}
