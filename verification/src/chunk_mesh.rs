use vstd::prelude::*;
use crate::chunk::Chunk;
use crate::geometry::{MeshData, mesh_holds, quad_in_range, quads_to_mesh};
use crate::greedy::{Faces, in_mesh, mesh_of, quad_ok};
use crate::mesh_laws::{lemma_face_set_finite, lemma_quads_at_most_faces};
use crate::mesher::{
    Blocks, block_faces, generate_quads_for_section, generate_quads_for_window, section_blocks,
    window_blocks,
};
use crate::quad::Quad;
use crate::world::WorldData;

verus! {

/// The geometry of one section: the quads of its greedy mesh and their
/// triangles, water apart from everything else, and the world position of
/// the section's lowest corner, to which the triangles are relative.
pub struct SectionGeometry {
    /// Position of the section in its chunk, counted from the bottom.
    pub section: i32,
    /// World position of the section's lowest corner, in blocks.
    pub origin: (i32, i32, i32),
    pub opaque_quads: Vec<Quad>,
    pub water_quads: Vec<Quad>,
    pub opaque_mesh: MeshData,
    pub water_mesh: MeshData,
}

/// The world position of the lowest corner of section `section` of chunk
/// `(x, z)`, each coordinate as far as it fits.
pub open spec fn section_origin(x: i32, section: int, z: i32) -> (int, int, int) {
    (clamped(x * 16), section * 16, clamped(z * 16))
}

/// `v`, or the nearest number that fits 32 bits.
pub open spec fn clamped(v: int) -> int {
    if v < -0x8000_0000 {
        -0x8000_0000
    } else if v > 0x7fff_ffff {
        0x7fff_ffff
    } else {
        v
    }
}

/// `geometry` is the geometry of a section whose blocks, with those around
/// it, are `blocks`: its quads are the greedy mesh of the section's faces,
/// and its meshes hold the triangles of these quads.
pub open spec fn is_geometry_of(geometry: SectionGeometry, blocks: Blocks) -> bool {
    &&& mesh_of(block_faces(blocks), geometry.opaque_quads@, geometry.water_quads@, 0, 96)
    &&& mesh_holds(geometry.opaque_mesh, geometry.opaque_quads@, geometry.opaque_quads@.len() as int)
    &&& mesh_holds(geometry.water_mesh, geometry.water_quads@, geometry.water_quads@.len() as int)
}

/// `v`, or the nearest number that fits 32 bits.
fn clamp_i32(v: i64) -> (r: i32)
    ensures
        r == clamped(v as int),
{
    if v < -0x8000_0000 {
        -0x8000_0000
    } else if v > 0x7fff_ffff {
        0x7fff_ffff
    } else {
        v as i32
    }
}

/// The triangles of the two lists of quads of a greedy mesh.
fn meshes_of(faces: Ghost<Faces>, opaque: &Vec<Quad>, water: &Vec<Quad>) -> (r: (MeshData, MeshData))
    requires
        mesh_of(faces@, opaque@, water@, 0, 96),
    ensures
        mesh_holds(r.0, opaque@, opaque@.len() as int),
        mesh_holds(r.1, water@, water@.len() as int),
{
    proof {
        lemma_quads_at_most_faces(faces@, opaque@, water@);
        lemma_face_set_finite(faces@);
        assert forall|i: int| 0 <= i < opaque@.len() implies quad_in_range(#[trigger] opaque@[i]) by {
            assert(opaque@.contains(opaque@[i]));
            assert(in_mesh(opaque@, water@, opaque@[i]));
            assert(quad_ok(faces@, opaque@[i], 0, 96));
        }
        assert forall|i: int| 0 <= i < water@.len() implies quad_in_range(#[trigger] water@[i]) by {
            assert(water@.contains(water@[i]));
            assert(in_mesh(opaque@, water@, water@[i]));
            assert(quad_ok(faces@, water@[i], 0, 96));
        }
    }
    (quads_to_mesh(opaque), quads_to_mesh(water))
}

/// The geometry of every section of `chunk`, each meshed as if it stood
/// alone with air around it, in the order of the sections.
pub fn generate_mesh_from_chunk(chunk: &Chunk) -> (meshes: Vec<SectionGeometry>)
    ensures
        meshes@.len() == chunk.sections@.len(),
        forall|i: int|
            0 <= i < meshes@.len() ==> is_geometry_of(
                #[trigger] meshes@[i],
                section_blocks(chunk.sections@[i]),
            ),
        forall|i: int|
            0 <= i < meshes@.len() ==> (#[trigger] meshes@[i]).section == chunk.sections@[i].y
                && (meshes@[i].origin.0 as int, meshes@[i].origin.1 as int, meshes@[i].origin.2 as int)
                == section_origin(chunk.x, chunk.sections@[i].y as int, chunk.z),
{
    let mut meshes: Vec<SectionGeometry> = Vec::new();
    let mut i: usize = 0;
    while i < chunk.sections.len()
        invariant
            i <= chunk.sections@.len(),
            meshes@.len() == i,
            forall|k: int|
                0 <= k < i ==> is_geometry_of(
                    #[trigger] meshes@[k],
                    section_blocks(chunk.sections@[k]),
                ),
            forall|k: int|
                0 <= k < i ==> (#[trigger] meshes@[k]).section == chunk.sections@[k].y && (
                    meshes@[k].origin.0 as int,
                    meshes@[k].origin.1 as int,
                    meshes@[k].origin.2 as int,
                ) == section_origin(chunk.x, chunk.sections@[k].y as int, chunk.z),
        decreases chunk.sections@.len() - i,
    {
        let section = &chunk.sections[i];
        let (opaque_quads, water_quads) = generate_quads_for_section(section);
        let (opaque_mesh, water_mesh) = meshes_of(
            Ghost(block_faces(section_blocks(*section))),
            &opaque_quads,
            &water_quads,
        );
        let origin = (
            clamp_i32(chunk.x as i64 * 16),
            section.y as i32 * 16,
            clamp_i32(chunk.z as i64 * 16),
        );
        meshes.push(
            SectionGeometry {
                section: section.y as i32,
                origin,
                opaque_quads,
                water_quads,
                opaque_mesh,
                water_mesh,
            },
        );
        i += 1;
    }
    meshes
}

/// The blocks around section `section` of chunk position `(x, z)` in
/// `world`, by coordinates local to the section.
pub open spec fn world_section_blocks(world: WorldData, x: i32, z: i32, section: int) -> Blocks {
    |bx: int, by: int, bz: int| world.block_at(x * 16 + bx, section * 16 + by, z * 16 + bz)
}

/// The geometry of the 24 sections of chunk position `(chunk_x, chunk_z)`
/// as the world holds it, from the bottom up. The faces at the edge of a
/// section are judged against the blocks of the sections and chunks that
/// touch it; what is not resident counts as air.
pub fn generate_chunk_sections_mesh(world: &WorldData, chunk_x: i32, chunk_z: i32) -> (meshes: Vec<
    SectionGeometry,
>)
    requires
        world.wf(),
    ensures
        meshes@.len() == 24,
        forall|i: int|
            0 <= i < 24 ==> is_geometry_of(
                #[trigger] meshes@[i],
                world_section_blocks(*world, chunk_x, chunk_z, i),
            ),
        forall|i: int|
            0 <= i < 24 ==> (#[trigger] meshes@[i]).section == i && (
                meshes@[i].origin.0 as int,
                meshes@[i].origin.1 as int,
                meshes@[i].origin.2 as int,
            ) == section_origin(chunk_x, i, chunk_z),
{
    let mut meshes: Vec<SectionGeometry> = Vec::new();
    let mut section: usize = 0;
    while section < 24
        invariant
            section <= 24,
            world.wf(),
            meshes@.len() == section,
            forall|k: int|
                0 <= k < section ==> is_geometry_of(
                    #[trigger] meshes@[k],
                    world_section_blocks(*world, chunk_x, chunk_z, k),
                ),
            forall|k: int|
                0 <= k < section ==> (#[trigger] meshes@[k]).section == k && (
                    meshes@[k].origin.0 as int,
                    meshes@[k].origin.1 as int,
                    meshes@[k].origin.2 as int,
                ) == section_origin(chunk_x, k, chunk_z),
        decreases 24 - section,
    {
        let win = world.section_window(chunk_x, chunk_z, section);
        let (opaque_quads, water_quads) = generate_quads_for_window(&win);
        proof {
            crate::mesher::lemma_faces_of_same_blocks(
                window_blocks(win),
                world_section_blocks(*world, chunk_x, chunk_z, section as int),
                opaque_quads@,
                water_quads@,
            );
        }
        let (opaque_mesh, water_mesh) = meshes_of(
            Ghost(block_faces(world_section_blocks(*world, chunk_x, chunk_z, section as int))),
            &opaque_quads,
            &water_quads,
        );
        let origin = (
            clamp_i32(chunk_x as i64 * 16),
            section as i32 * 16,
            clamp_i32(chunk_z as i64 * 16),
        );
        meshes.push(
            SectionGeometry {
                section: section as i32,
                origin,
                opaque_quads,
                water_quads,
                opaque_mesh,
                water_mesh,
            },
        );
        section += 1;
    }
    meshes
}

/// The geometry that is made from a snapshot around a chunk is the
/// geometry of the chunk in the world itself: a snapshot holds every block
/// that the faces of the chunk are judged against.
pub proof fn lemma_snapshot_geometry(
    world: WorldData,
    snapshot: WorldData,
    x: i32,
    z: i32,
    section: int,
    geometry: SectionGeometry,
)
    requires
        0 <= section < 24,
        forall|bx: int, by: int, bz: int|
            crate::world::beside(bx / 16, bz / 16, x as int, z as int)
                ==> #[trigger] snapshot.block_at(bx, by, bz) == world.block_at(bx, by, bz),
        is_geometry_of(geometry, world_section_blocks(snapshot, x, z, section)),
    ensures
        is_geometry_of(geometry, world_section_blocks(world, x, z, section)),
{
    let own = world_section_blocks(snapshot, x, z, section);
    let other = world_section_blocks(world, x, z, section);
    assert forall|bx: int, by: int, bz: int| crate::window::in_window(bx, by, bz) implies #[trigger] own(
        bx,
        by,
        bz,
    ) == other(bx, by, bz) by {
        let wx = x * 16 + bx;
        let wz = z * 16 + bz;
        assert(crate::world::beside(wx / 16, wz / 16, x as int, z as int));
        assert(snapshot.block_at(wx, section * 16 + by, wz) == world.block_at(
            wx,
            section * 16 + by,
            wz,
        ));
    }
    crate::mesher::lemma_faces_of_same_blocks(
        own,
        other,
        geometry.opaque_quads@,
        geometry.water_quads@,
    );
}

} // verus!
