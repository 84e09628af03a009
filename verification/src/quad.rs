use vstd::prelude::*;
use crate::block::BlockType;

verus! {

/// The six directions a face can look in.
#[derive(Debug, Clone, Copy, PartialEq, Eq, Structural)]
pub enum Direction {
    /// Towards greater `y`.
    Up,
    /// Towards smaller `y`.
    Down,
    /// Towards smaller `z`.
    North,
    /// Towards greater `z`.
    South,
    /// Towards greater `x`.
    East,
    /// Towards smaller `x`.
    West,
}

/// A rectangle of equal faces in one layer of a section. `(x, y, z)` is the
/// cell at its lowest corner; `width` and `height` count cells along the
/// two axes of the layer.
#[derive(Debug, Clone, Copy, PartialEq, Eq, Structural)]
pub struct Quad {
    pub x: usize,
    pub y: usize,
    pub z: usize,
    pub width: usize,
    pub height: usize,
    pub direction: Direction,
    pub type_blocks: BlockType,
}

/// Position of a direction in the order in which a section is meshed.
pub open spec fn direction_index(d: Direction) -> int {
    match d {
        Direction::Up => 0,
        Direction::Down => 1,
        Direction::North => 2,
        Direction::South => 3,
        Direction::East => 4,
        Direction::West => 5,
    }
}

/// The cell at in-layer position `(u, v)` of layer `w`: for `Up` and `Down`
/// the layer is a height and `(u, v)` is `(x, z)`; for `North` and `South`
/// it is a depth and `(u, v)` is `(x, y)`; for `East` and `West` it is a
/// column and `(u, v)` is `(z, y)`.
pub open spec fn uvw_to_xyz(u: int, v: int, w: int, d: Direction) -> (int, int, int) {
    match d {
        Direction::Up | Direction::Down => (u, w, v),
        Direction::North | Direction::South => (u, v, w),
        Direction::East | Direction::West => (w, v, u),
    }
}

/// The step from a cell to the cell that its face in direction `d` touches.
pub open spec fn neighbor_offset(d: Direction) -> (int, int, int) {
    match d {
        Direction::Up => (0, 1, 0),
        Direction::Down => (0, -1, 0),
        Direction::North => (0, 0, -1),
        Direction::South => (0, 0, 1),
        Direction::East => (1, 0, 0),
        Direction::West => (-1, 0, 0),
    }
}

/// Whether the face of a `current` block towards a `neighbor` block is
/// drawn. Air has no faces. Towards air every face is drawn. Water is drawn
/// towards everything but water, and hides no face of another kind. Two
/// blocks of the same kind hide the faces between them; two solid blocks of
/// different kinds show them.
pub open spec fn face_exposed(current: BlockType, neighbor: BlockType) -> bool {
    match (current, neighbor) {
        (BlockType::Air, _) => false,
        (_, BlockType::Air) => true,
        (BlockType::Water, BlockType::Water) => false,
        (BlockType::Water, _) => true,
        (_, BlockType::Water) => true,
        (a, b) => a != b,
    }
}

/// Position of in-layer cell `(u, v)` in a layer's mask.
pub open spec fn cell_of(u: int, v: int) -> int {
    u * 16 + v
}

/// Whether `(u, v)` lies inside a layer.
pub open spec fn in_layer(u: int, v: int) -> bool {
    0 <= u < 16 && 0 <= v < 16
}

/// Number of a layer among the 96 layers of a section: 16 for each
/// direction, in meshing order.
pub open spec fn layer_key(d: Direction, w: int) -> int {
    direction_index(d) * 16 + w
}

impl Quad {
    /// The layer the quad lies in.
    pub open spec fn layer(&self) -> int {
        match self.direction {
            Direction::Up | Direction::Down => self.y as int,
            Direction::North | Direction::South => self.z as int,
            Direction::East | Direction::West => self.x as int,
        }
    }

    /// In-layer position of the quad's first cell along the axis of its
    /// width.
    pub open spec fn u(&self) -> int {
        match self.direction {
            Direction::Up | Direction::Down => self.x as int,
            Direction::North | Direction::South => self.x as int,
            Direction::East | Direction::West => self.z as int,
        }
    }

    /// In-layer position of the quad's first cell along the axis of its
    /// height.
    pub open spec fn v(&self) -> int {
        match self.direction {
            Direction::Up | Direction::Down => self.z as int,
            Direction::North | Direction::South => self.y as int,
            Direction::East | Direction::West => self.y as int,
        }
    }

    /// The quad is not empty and lies inside its section.
    pub open spec fn fits(&self) -> bool {
        &&& 1 <= self.width
        &&& 1 <= self.height
        &&& 0 <= self.layer() < 16
        &&& self.u() + self.width <= 16
        &&& self.v() + self.height <= 16
    }

    /// Whether in-layer cell `(u, v)` lies under the quad.
    pub open spec fn covers(&self, u: int, v: int) -> bool {
        &&& self.u() <= u < self.u() + self.width
        &&& self.v() <= v < self.v() + self.height
    }

    /// Rank of the quad's first cell in meshing order: by layer, then by
    /// `u`, then by `v`.
    pub open spec fn seed_key(&self) -> int {
        layer_key(self.direction, self.layer()) * 256 + cell_of(self.u(), self.v())
    }
}

/// The extent of a section along the two in-layer axes and across layers.
pub fn get_dimensions_for_direction(direction: Direction) -> (dims: (usize, usize, usize))
    ensures
        dims == (16usize, 16usize, 16usize),
{
    match direction {
        Direction::Up | Direction::Down => (16, 16, 16),
        Direction::North | Direction::South => (16, 16, 16),
        Direction::East | Direction::West => (16, 16, 16),
    }
}

/// The cell at in-layer position `(u, v)` of layer `w`.
pub fn convert_uvw_to_xyz(u: usize, v: usize, w: usize, direction: Direction) -> (p: (
    usize,
    usize,
    usize,
))
    ensures
        (p.0 as int, p.1 as int, p.2 as int) == uvw_to_xyz(u as int, v as int, w as int, direction),
{
    match direction {
        Direction::Up | Direction::Down => (u, w, v),
        Direction::North | Direction::South => (u, v, w),
        Direction::East | Direction::West => (w, v, u),
    }
}

/// The cell that the face of `(x, y, z)` in `direction` touches.
pub fn get_neighbor_coords(x: usize, y: usize, z: usize, direction: Direction) -> (p: (
    i32,
    i32,
    i32,
))
    requires
        x < 16,
        y < 16,
        z < 16,
    ensures
        p.0 == x + neighbor_offset(direction).0,
        p.1 == y + neighbor_offset(direction).1,
        p.2 == z + neighbor_offset(direction).2,
{
    let (dx, dy, dz): (i32, i32, i32) = match direction {
        Direction::Up => (0, 1, 0),
        Direction::Down => (0, -1, 0),
        Direction::North => (0, 0, -1),
        Direction::South => (0, 0, 1),
        Direction::East => (1, 0, 0),
        Direction::West => (-1, 0, 0),
    };
    (x as i32 + dx, y as i32 + dy, z as i32 + dz)
}

/// Whether the face of a `current` block towards a `neighbor` block is
/// drawn.
pub fn should_render_face(current: BlockType, neighbor: BlockType) -> (r: bool)
    ensures
        r == face_exposed(current, neighbor),
        r == (current != BlockType::Air && current != neighbor),
{
    match (current, neighbor) {
        (BlockType::Air, _) => false,
        (_, BlockType::Air) => true,
        (BlockType::Water, BlockType::Water) => false,
        (BlockType::Water, _) => true,
        (_, BlockType::Water) => true,
        (a, b) => a != b,
    }
}

} // verus!
