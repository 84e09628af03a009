use vstd::prelude::*;
use crate::block::BlockType;
use crate::quad::{Direction, Quad};

verus! {

/// A point of the block grid.
pub type GridPoint = (u32, u32, u32);

/// A unit step along one axis.
pub type GridNormal = (i32, i32, i32);

/// A texture position in blocks, before it is scaled into a tile of a
/// texture atlas.
pub type TexelCell = (u32, u32);

/// The triangles of a list of quads, on the block grid: four vertices and
/// six indices for each quad. Per vertex it holds the position, the normal,
/// the texture position and the kind of block that picks the texture.
pub struct MeshData {
    pub positions: Vec<GridPoint>,
    pub normals: Vec<GridNormal>,
    pub uvs: Vec<TexelCell>,
    pub kinds: Vec<BlockType>,
    pub indices: Vec<u32>,
}

/// Largest coordinate and size of a quad whose corners can be computed.
pub open spec fn quad_limit() -> int {
    0x4000_0000
}

/// Whether the corners of `q` fit the grid's number type.
pub open spec fn quad_in_range(q: Quad) -> bool {
    &&& q.x < quad_limit()
    &&& q.y < quad_limit()
    &&& q.z < quad_limit()
    &&& q.width < quad_limit()
    &&& q.height < quad_limit()
}

/// The outward normal of a face in direction `d`.
pub open spec fn quad_normal(d: Direction) -> (int, int, int) {
    match d {
        Direction::Up => (0, 1, 0),
        Direction::Down => (0, -1, 0),
        Direction::North => (0, 0, -1),
        Direction::South => (0, 0, 1),
        Direction::East => (1, 0, 0),
        Direction::West => (-1, 0, 0),
    }
}

/// Corner `k` (0 to 3) of `q`, in the order in which the vertices are
/// emitted: counter-clockwise when seen from outside. A face that looks
/// towards a greater coordinate lies one block further along its axis.
pub open spec fn quad_corner(q: Quad, k: int) -> (int, int, int) {
    let x = q.x as int;
    let y = q.y as int;
    let z = q.z as int;
    let w = q.width as int;
    let h = q.height as int;
    match q.direction {
        Direction::Up => if k == 0 {
            (x, y + 1, z + h)
        } else if k == 1 {
            (x + w, y + 1, z + h)
        } else if k == 2 {
            (x + w, y + 1, z)
        } else {
            (x, y + 1, z)
        },
        Direction::Down => if k == 0 {
            (x, y, z)
        } else if k == 1 {
            (x + w, y, z)
        } else if k == 2 {
            (x + w, y, z + h)
        } else {
            (x, y, z + h)
        },
        Direction::North => if k == 0 {
            (x + w, y, z)
        } else if k == 1 {
            (x, y, z)
        } else if k == 2 {
            (x, y + h, z)
        } else {
            (x + w, y + h, z)
        },
        Direction::South => if k == 0 {
            (x, y, z + 1)
        } else if k == 1 {
            (x + w, y, z + 1)
        } else if k == 2 {
            (x + w, y + h, z + 1)
        } else {
            (x, y + h, z + 1)
        },
        Direction::West => if k == 0 {
            (x, y, z)
        } else if k == 1 {
            (x, y, z + w)
        } else if k == 2 {
            (x, y + h, z + w)
        } else {
            (x, y + h, z)
        },
        Direction::East => if k == 0 {
            (x + 1, y, z + w)
        } else if k == 1 {
            (x + 1, y, z)
        } else if k == 2 {
            (x + 1, y + h, z)
        } else {
            (x + 1, y + h, z + w)
        },
    }
}

/// Where the texture of `q` starts along the two axes of its layer.
pub open spec fn quad_texel_origin(q: Quad) -> (int, int) {
    match q.direction {
        Direction::Up | Direction::Down => (q.x as int, q.z as int),
        Direction::North | Direction::South => (q.x as int, q.y as int),
        Direction::East | Direction::West => (q.z as int, q.y as int),
    }
}

/// The texture position of vertex `k` (0 to 3) of `q`: top left, top right,
/// bottom right, bottom left of the rectangle that starts at the quad's
/// origin and is as wide and as high as the quad.
pub open spec fn quad_texel(q: Quad, k: int) -> (int, int) {
    let (u, v) = quad_texel_origin(q);
    let w = q.width as int;
    let h = q.height as int;
    if k == 0 {
        (u, v + h)
    } else if k == 1 {
        (u + w, v + h)
    } else if k == 2 {
        (u + w, v)
    } else {
        (u, v)
    }
}

/// Index `k` (0 to 5) of the two triangles of the quad whose first vertex
/// is `first`.
pub open spec fn quad_index(first: int, k: int) -> int {
    if k == 0 {
        first
    } else if k == 1 {
        first + 1
    } else if k == 2 {
        first + 2
    } else if k == 3 {
        first + 2
    } else if k == 4 {
        first + 3
    } else {
        first
    }
}

/// `mesh` holds the triangles of the first `n` quads of `quads`, quad after
/// quad.
pub open spec fn mesh_holds(mesh: MeshData, quads: Seq<Quad>, n: int) -> bool {
    &&& mesh.positions@.len() == 4 * n
    &&& mesh.normals@.len() == 4 * n
    &&& mesh.uvs@.len() == 4 * n
    &&& mesh.kinds@.len() == 4 * n
    &&& mesh.indices@.len() == 6 * n
    &&& forall|j: int|
        0 <= j < 4 * n ==> {
            let p = #[trigger] mesh.positions@[j];
            (p.0 as int, p.1 as int, p.2 as int) == quad_corner(quads[j / 4], j % 4)
        }
    &&& forall|j: int|
        0 <= j < 4 * n ==> {
            let m = #[trigger] mesh.normals@[j];
            (m.0 as int, m.1 as int, m.2 as int) == quad_normal(quads[j / 4].direction)
        }
    &&& forall|j: int|
        0 <= j < 4 * n ==> {
            let t = #[trigger] mesh.uvs@[j];
            (t.0 as int, t.1 as int) == quad_texel(quads[j / 4], j % 4)
        }
    &&& forall|j: int| 0 <= j < 4 * n ==> #[trigger] mesh.kinds@[j] == quads[j / 4].type_blocks
    &&& forall|j: int|
        0 <= j < 6 * n ==> #[trigger] mesh.indices@[j] as int == quad_index(4 * (j / 6), j % 6)
}

impl MeshData {
    /// A mesh without triangles.
    pub fn new() -> (mesh: MeshData)
        ensures
            mesh_holds(mesh, Seq::<Quad>::empty(), 0),
    {
        MeshData {
            positions: Vec::new(),
            normals: Vec::new(),
            uvs: Vec::new(),
            kinds: Vec::new(),
            indices: Vec::new(),
        }
    }

    /// Whether the mesh has no triangle.
    pub fn is_empty(&self) -> (r: bool)
        ensures
            r == (self.indices@.len() == 0),
    {
        self.indices.len() == 0
    }
}

/// The normal of a face in `direction`.
pub fn normal_of(direction: Direction) -> (m: GridNormal)
    ensures
        (m.0 as int, m.1 as int, m.2 as int) == quad_normal(direction),
{
    match direction {
        Direction::Up => (0, 1, 0),
        Direction::Down => (0, -1, 0),
        Direction::North => (0, 0, -1),
        Direction::South => (0, 0, 1),
        Direction::East => (1, 0, 0),
        Direction::West => (-1, 0, 0),
    }
}

/// The four corners of `quad`, in emission order.
pub fn corners_of(quad: &Quad) -> (c: [GridPoint; 4])
    requires
        quad_in_range(*quad),
    ensures
        forall|k: int|
            0 <= k < 4 ==> (c@[k].0 as int, c@[k].1 as int, c@[k].2 as int) == quad_corner(
                *quad,
                k,
            ),
{
    let x: u32 = quad.x as u32;
    let y: u32 = quad.y as u32;
    let z: u32 = quad.z as u32;
    let w: u32 = quad.width as u32;
    let h: u32 = quad.height as u32;
    match quad.direction {
        Direction::Up => [(x, y + 1, z + h), (x + w, y + 1, z + h), (x + w, y + 1, z), (x, y + 1, z)],
        Direction::Down => [(x, y, z), (x + w, y, z), (x + w, y, z + h), (x, y, z + h)],
        Direction::North => [(x + w, y, z), (x, y, z), (x, y + h, z), (x + w, y + h, z)],
        Direction::South => [
            (x, y, z + 1),
            (x + w, y, z + 1),
            (x + w, y + h, z + 1),
            (x, y + h, z + 1),
        ],
        Direction::West => [(x, y, z), (x, y, z + w), (x, y + h, z + w), (x, y + h, z)],
        Direction::East => [
            (x + 1, y, z + w),
            (x + 1, y, z),
            (x + 1, y + h, z),
            (x + 1, y + h, z + w),
        ],
    }
}

/// The texture positions of the four vertices of `quad`.
pub fn texels_of(quad: &Quad) -> (t: [TexelCell; 4])
    requires
        quad_in_range(*quad),
    ensures
        forall|k: int| 0 <= k < 4 ==> (t@[k].0 as int, t@[k].1 as int) == quad_texel(*quad, k),
{
    let (u, v): (u32, u32) = match quad.direction {
        Direction::Up | Direction::Down => (quad.x as u32, quad.z as u32),
        Direction::North | Direction::South => (quad.x as u32, quad.y as u32),
        Direction::East | Direction::West => (quad.z as u32, quad.y as u32),
    };
    let w: u32 = quad.width as u32;
    let h: u32 = quad.height as u32;
    [(u, v + h), (u + w, v + h), (u + w, v), (u, v)]
}

/// The triangles of `quads`: for each quad, in order, its four corners with
/// their normal, texture positions and kind, and the indices of two
/// triangles, `0 1 2` and `2 3 0` counted from the quad's first vertex.
pub fn quads_to_mesh(quads: &Vec<Quad>) -> (mesh: MeshData)
    requires
        quads@.len() <= 0x3fff_ffff,
        forall|i: int| 0 <= i < quads@.len() ==> quad_in_range(#[trigger] quads@[i]),
    ensures
        mesh_holds(mesh, quads@, quads@.len() as int),
{
    let mut mesh = MeshData::new();
    let mut i: usize = 0;
    while i < quads.len()
        invariant
            i <= quads@.len(),
            quads@.len() <= 0x3fff_ffff,
            forall|k: int| 0 <= k < quads@.len() ==> quad_in_range(#[trigger] quads@[k]),
            mesh_holds(mesh, quads@, i as int),
        decreases quads@.len() - i,
    {
        let quad = &quads[i];
        let corners = corners_of(quad);
        let texels = texels_of(quad);
        let normal = normal_of(quad.direction);
        let first: u32 = (i * 4) as u32;
        let ghost before = mesh;
        let mut k: usize = 0;
        while k < 4
            invariant
                k <= 4,
                i < quads@.len(),
                *quad == quads@[i as int],
                forall|c: int|
                    0 <= c < 4 ==> (corners@[c].0 as int, corners@[c].1 as int, corners@[c].2 as int)
                        == quad_corner(*quad, c),
                forall|c: int|
                    0 <= c < 4 ==> (texels@[c].0 as int, texels@[c].1 as int) == quad_texel(
                        *quad,
                        c,
                    ),
                (normal.0 as int, normal.1 as int, normal.2 as int) == quad_normal(quad.direction),
                mesh.indices@ == before.indices@,
                mesh.positions@ == before.positions@ + corners@.subrange(0, k as int),
                mesh.uvs@ == before.uvs@ + texels@.subrange(0, k as int),
                mesh.normals@.len() == 4 * i + k,
                mesh.kinds@.len() == 4 * i + k,
                forall|j: int| 0 <= j < 4 * i ==> mesh.normals@[j] == before.normals@[j],
                forall|j: int| 0 <= j < 4 * i ==> mesh.kinds@[j] == before.kinds@[j],
                forall|j: int| 4 * i <= j < 4 * i + k ==> mesh.normals@[j] == normal,
                forall|j: int| 4 * i <= j < 4 * i + k ==> mesh.kinds@[j] == quad.type_blocks,
                mesh_holds(before, quads@, i as int),
            decreases 4 - k,
        {
            mesh.positions.push(corners[k]);
            mesh.normals.push(normal);
            mesh.uvs.push(texels[k]);
            mesh.kinds.push(quad.type_blocks);
            proof {
                assert(corners@.subrange(0, k as int + 1) =~= corners@.subrange(0, k as int).push(
                    corners@[k as int],
                ));
                assert(texels@.subrange(0, k as int + 1) =~= texels@.subrange(0, k as int).push(
                    texels@[k as int],
                ));
            }
            k += 1;
        }
        mesh.indices.push(first);
        mesh.indices.push(first + 1);
        mesh.indices.push(first + 2);
        mesh.indices.push(first + 2);
        mesh.indices.push(first + 3);
        mesh.indices.push(first);
        proof {
            let n = i as int;
            assert forall|j: int| 0 <= j < 4 * (n + 1) implies {
                let p = #[trigger] mesh.positions@[j];
                (p.0 as int, p.1 as int, p.2 as int) == quad_corner(quads@[j / 4], j % 4)
            } by {
                if j < 4 * n {
                    assert(mesh.positions@[j] == before.positions@[j]);
                } else {
                    assert(mesh.positions@[j] == corners@[j - 4 * n]);
                    assert(j / 4 == n && j % 4 == j - 4 * n);
                }
            }
            assert forall|j: int| 0 <= j < 4 * (n + 1) implies {
                let t = #[trigger] mesh.uvs@[j];
                (t.0 as int, t.1 as int) == quad_texel(quads@[j / 4], j % 4)
            } by {
                if j < 4 * n {
                    assert(mesh.uvs@[j] == before.uvs@[j]);
                } else {
                    assert(mesh.uvs@[j] == texels@[j - 4 * n]);
                    assert(j / 4 == n && j % 4 == j - 4 * n);
                }
            }
            assert forall|j: int| 0 <= j < 4 * (n + 1) implies {
                let m = #[trigger] mesh.normals@[j];
                (m.0 as int, m.1 as int, m.2 as int) == quad_normal(quads@[j / 4].direction)
            } by {
                if j < 4 * n {
                    assert(mesh.normals@[j] == before.normals@[j]);
                } else {
                    assert(j / 4 == n);
                }
            }
            assert forall|j: int| 0 <= j < 4 * (n + 1) implies #[trigger] mesh.kinds@[j]
                == quads@[j / 4].type_blocks by {
                if j < 4 * n {
                    assert(mesh.kinds@[j] == before.kinds@[j]);
                } else {
                    assert(j / 4 == n);
                }
            }
            assert forall|j: int| 0 <= j < 6 * (n + 1) implies #[trigger] mesh.indices@[j] as int
                == quad_index(4 * (j / 6), j % 6) by {
                if j < 6 * n {
                    assert(mesh.indices@[j] == before.indices@[j]);
                } else {
                    assert(j / 6 == n && j % 6 == j - 6 * n);
                }
            }
        }
        i += 1;
    }
    mesh
}

} // verus!
