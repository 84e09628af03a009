use vstd::prelude::*;
use crate::block::BlockType;
use crate::chunk::ChunkSection;
use crate::greedy::{
    Faces, mask_faces, in_mesh, same_layer, covered_in, cell_blocked, width_closed, height_closed,
    seeds_ascend, quad_ok, mesh_of, generate_quads_from_mask, lemma_closed_stays,
};
use crate::quad::{
    Direction, Quad, cell_of, in_layer, layer_key, direction_index, uvw_to_xyz, neighbor_offset,
    face_exposed, convert_uvw_to_xyz, get_neighbor_coords, should_render_face,
};
use crate::window::BlockWindow;

verus! {

/// The block kinds around a section, by local coordinates.
pub type Blocks = spec_fn(int, int, int) -> BlockType;

/// The kind of the face drawn at in-layer cell `(u, v)` of layer `w` in
/// direction `d`: the kind of the block there, if the block is not air and
/// its face towards the next cell in that direction is exposed.
pub open spec fn face_kind(blocks: Blocks, d: Direction, w: int, u: int, v: int) -> Option<
    BlockType,
> {
    let (x, y, z) = uvw_to_xyz(u, v, w, d);
    let (dx, dy, dz) = neighbor_offset(d);
    let current = blocks(x, y, z);
    let neighbor = blocks(x + dx, y + dy, z + dz);
    if in_layer(u, v) && 0 <= w < 16 && face_exposed(current, neighbor) {
        Some(current)
    } else {
        None
    }
}

/// All faces of the section whose blocks, with those around it, are
/// `blocks`.
pub open spec fn block_faces(blocks: Blocks) -> Faces {
    |d: Direction, w: int, u: int, v: int| face_kind(blocks, d, w, u, v)
}

/// The blocks that a window holds.
pub open spec fn window_blocks(win: BlockWindow) -> Blocks {
    |x: int, y: int, z: int| win.at(x, y, z)
}

/// The blocks of a section that stands alone, with air around it.
pub open spec fn section_blocks(section: ChunkSection) -> Blocks {
    |x: int, y: int, z: int| section.block_at(x, y, z)
}

/// The direction at position `i` of the meshing order.
pub fn direction_at(i: usize) -> (d: Direction)
    requires
        i < 6,
    ensures
        direction_index(d) == i,
{
    if i == 0 {
        Direction::Up
    } else if i == 1 {
        Direction::Down
    } else if i == 2 {
        Direction::North
    } else if i == 3 {
        Direction::South
    } else if i == 4 {
        Direction::East
    } else {
        Direction::West
    }
}

/// Fills `mask` with the faces of layer `w` in `direction`: at position
/// `u * 16 + v` the kind of the face drawn at in-layer cell `(u, v)`.
pub fn fill_mask(mask: &mut Vec<Option<BlockType>>, win: &BlockWindow, direction: Direction, w: usize)
    requires
        old(mask)@.len() == 256,
        w < 16,
    ensures
        final(mask)@.len() == 256,
        forall|u: int, v: int|
            in_layer(u, v) ==> final(mask)@[#[trigger] cell_of(u, v)] == face_kind(
                window_blocks(*win),
                direction,
                w as int,
                u,
                v,
            ),
        forall|i: int| 0 <= i < 256 ==> final(mask)@[i] != Some(BlockType::Air),
{
    let mut p: usize = 0;
    while p < 256
        invariant
            p <= 256,
            w < 16,
            mask@.len() == 256,
            forall|i: int|
                0 <= i < p ==> mask@[i] == face_kind(
                    window_blocks(*win),
                    direction,
                    w as int,
                    i / 16,
                    i % 16,
                ),
        decreases 256 - p,
    {
        let u: usize = p / 16;
        let v: usize = p % 16;
        let (x, y, z) = convert_uvw_to_xyz(u, v, w, direction);
        let (nx, ny, nz) = get_neighbor_coords(x, y, z, direction);
        let current_block = win.get(x as i32, y as i32, z as i32);
        let neighbor_block = win.get(nx, ny, nz);
        if current_block != BlockType::Air && should_render_face(current_block, neighbor_block) {
            mask.set(p, Some(current_block));
        } else {
            mask.set(p, None);
        }
        p += 1;
    }
    proof {
        assert forall|u: int, v: int| in_layer(u, v) implies mask@[#[trigger] cell_of(u, v)]
            == face_kind(window_blocks(*win), direction, w as int, u, v) by {
            let i = cell_of(u, v);
            assert(i / 16 == u && i % 16 == v);
        }
    }
}

/// A mesh of no layers is empty.
pub proof fn lemma_mesh_empty(faces: Faces, lo: int)
    ensures
        mesh_of(faces, Seq::<Quad>::empty(), Seq::<Quad>::empty(), lo, lo),
{
    assert(forall|q: Quad| !(#[trigger] in_mesh(Seq::<Quad>::empty(), Seq::<Quad>::empty(), q)));
}

/// A mesh of some layers is a mesh of the same layers of any faces that
/// agree with its own in these layers.
pub proof fn lemma_mesh_same_faces(
    faces: Faces,
    other: Faces,
    opaque: Seq<Quad>,
    water: Seq<Quad>,
    lo: int,
    hi: int,
)
    requires
        mesh_of(faces, opaque, water, lo, hi),
        forall|d: Direction, w: int, a: int, b: int|
            lo <= layer_key(d, w) < hi && 0 <= w < 16 && in_layer(a, b) ==> #[trigger] faces(
                d,
                w,
                a,
                b,
            ) == other(d, w, a, b),
    ensures
        mesh_of(other, opaque, water, lo, hi),
{
    assert forall|q: Quad| #[trigger] in_mesh(opaque, water, q) implies quad_ok(
        other,
        q,
        lo,
        hi,
    ) && width_closed(other, opaque, water, q) && height_closed(other, opaque, water, q) by {
        assert(quad_ok(faces, q, lo, hi));
        assert forall|a: int, b: int| #[trigger] q.covers(a, b) implies other(
            q.direction,
            q.layer(),
            a,
            b,
        ) == Some(q.type_blocks) by {
            assert(faces(q.direction, q.layer(), a, b) == Some(q.type_blocks));
        }
        assert(width_closed(faces, opaque, water, q));
        if q.u() + q.width != 16 {
            let a = q.u() + q.width;
            assert(faces(q.direction, q.layer(), a, q.v()) == other(
                q.direction,
                q.layer(),
                a,
                q.v(),
            ));
        }
        assert(height_closed(faces, opaque, water, q));
        if q.v() + q.height != 16 {
            let k = choose|k: int|
                q.u() <= k < q.u() + q.width && #[trigger] cell_blocked(
                    faces,
                    opaque,
                    water,
                    q,
                    k,
                    q.v() + q.height,
                );
            assert(faces(q.direction, q.layer(), k, q.v() + q.height) == other(
                q.direction,
                q.layer(),
                k,
                q.v() + q.height,
            ));
            assert(cell_blocked(other, opaque, water, q, k, q.v() + q.height));
        }
    }
    assert forall|d: Direction, w: int, a: int, b: int|
        lo <= layer_key(d, w) < hi && 0 <= w < 16 && in_layer(a, b) && (#[trigger] other(
            d,
            w,
            a,
            b,
        )) is Some implies covered_in(opaque, water, d, w, a, b) by {
        assert(faces(d, w, a, b) == other(d, w, a, b));
    }
}

/// A quad is in the concatenation of two lists exactly if it is in one of
/// them.
pub proof fn lemma_contains_concat(first: Seq<Quad>, second: Seq<Quad>)
    ensures
        forall|q: Quad| #[trigger]
            (first + second).contains(q) <==> (first.contains(q) || second.contains(q)),
{
    let both = first + second;
    assert forall|q: Quad| #[trigger] both.contains(q) <==> (first.contains(q) || second.contains(
        q,
    )) by {
        if both.contains(q) {
            let i = choose|i: int| 0 <= i < both.len() && both[i] == q;
            if i < first.len() {
                assert(first[i] == q);
            } else {
                assert(second[i - first.len()] == q);
            }
        }
        if first.contains(q) {
            let i = choose|i: int| 0 <= i < first.len() && first[i] == q;
            assert(both[i] == q);
        }
        if second.contains(q) {
            let i = choose|i: int| 0 <= i < second.len() && second[i] == q;
            assert(both[first.len() + i] == q);
        }
    }
}

/// The mesh of the layers from `lo` up to `mid`, followed by the mesh of
/// the layers from `mid` up to `hi`, is the mesh of the layers from `lo` up
/// to `hi`.
pub proof fn lemma_mesh_concat(
    faces: Faces,
    opaque1: Seq<Quad>,
    water1: Seq<Quad>,
    opaque2: Seq<Quad>,
    water2: Seq<Quad>,
    lo: int,
    mid: int,
    hi: int,
)
    requires
        lo <= mid <= hi,
        mesh_of(faces, opaque1, water1, lo, mid),
        mesh_of(faces, opaque2, water2, mid, hi),
    ensures
        mesh_of(faces, opaque1 + opaque2, water1 + water2, lo, hi),
{
    let opaque = opaque1 + opaque2;
    let water = water1 + water2;
    lemma_contains_concat(opaque1, opaque2);
    lemma_contains_concat(water1, water2);
    assert forall|q: Quad| #[trigger] in_mesh(opaque, water, q) <==> (in_mesh(opaque1, water1, q)
        || in_mesh(opaque2, water2, q)) by {}
    assert forall|q: Quad| #[trigger] in_mesh(opaque, water, q) implies quad_ok(faces, q, lo, hi)
        && width_closed(faces, opaque, water, q) && height_closed(faces, opaque, water, q) by {
        if in_mesh(opaque1, water1, q) {
            assert(quad_ok(faces, q, lo, mid));
            lemma_closed_stays(faces, opaque1, water1, opaque, water, q);
        } else {
            assert(in_mesh(opaque2, water2, q));
            assert(quad_ok(faces, q, mid, hi));
            lemma_closed_stays(faces, opaque2, water2, opaque, water, q);
        }
    }
    assert forall|q1: Quad, q2: Quad, a: int, b: int|
        in_mesh(opaque, water, q1) && in_mesh(opaque, water, q2) && same_layer(q1, q2)
            && #[trigger] q1.covers(a, b) && #[trigger] q2.covers(a, b) implies q1 == q2 by {
        let first1 = in_mesh(opaque1, water1, q1);
        let first2 = in_mesh(opaque1, water1, q2);
        if first1 {
            assert(quad_ok(faces, q1, lo, mid));
        } else {
            assert(in_mesh(opaque2, water2, q1));
            assert(quad_ok(faces, q1, mid, hi));
        }
        if first2 {
            assert(quad_ok(faces, q2, lo, mid));
        } else {
            assert(in_mesh(opaque2, water2, q2));
            assert(quad_ok(faces, q2, mid, hi));
        }
    }
    assert forall|d: Direction, w: int, a: int, b: int|
        lo <= layer_key(d, w) < hi && 0 <= w < 16 && in_layer(a, b) && (#[trigger] faces(
            d,
            w,
            a,
            b,
        )) is Some implies covered_in(opaque, water, d, w, a, b) by {
        if layer_key(d, w) < mid {
            assert(covered_in(opaque1, water1, d, w, a, b));
            let q = choose|q: Quad| #[trigger]
                in_mesh(opaque1, water1, q) && q.direction == d && q.layer() == w && q.covers(
                    a,
                    b,
                );
            assert(in_mesh(opaque, water, q));
        } else {
            assert(covered_in(opaque2, water2, d, w, a, b));
            let q = choose|q: Quad| #[trigger]
                in_mesh(opaque2, water2, q) && q.direction == d && q.layer() == w && q.covers(
                    a,
                    b,
                );
            assert(in_mesh(opaque, water, q));
        }
    }
    lemma_ascend_concat(faces, opaque1, water1, opaque2, water2, lo, mid, hi);
}

/// Lists in meshing order of earlier and of later layers stay in order
/// when joined.
proof fn lemma_ascend_concat(
    faces: Faces,
    opaque1: Seq<Quad>,
    water1: Seq<Quad>,
    opaque2: Seq<Quad>,
    water2: Seq<Quad>,
    lo: int,
    mid: int,
    hi: int,
)
    requires
        mesh_of(faces, opaque1, water1, lo, mid),
        mesh_of(faces, opaque2, water2, mid, hi),
    ensures
        seeds_ascend(opaque1 + opaque2),
        seeds_ascend(water1 + water2),
{
    let opaque = opaque1 + opaque2;
    let water = water1 + water2;
    assert forall|i: int, j: int| 0 <= i < j < opaque.len() implies opaque[i].seed_key()
        < opaque[j].seed_key() by {
        if i < opaque1.len() && j >= opaque1.len() {
            let p = opaque1[i];
            let q = opaque2[j - opaque1.len()];
            assert(opaque1.contains(p));
            assert(opaque2.contains(q));
            assert(in_mesh(opaque1, water1, p));
            assert(in_mesh(opaque2, water2, q));
            assert(quad_ok(faces, p, lo, mid));
            assert(quad_ok(faces, q, mid, hi));
        } else if j < opaque1.len() {
        } else {
            assert(opaque[i] == opaque2[i - opaque1.len()]);
            assert(opaque[j] == opaque2[j - opaque1.len()]);
        }
    }
    assert forall|i: int, j: int| 0 <= i < j < water.len() implies water[i].seed_key()
        < water[j].seed_key() by {
        if i < water1.len() && j >= water1.len() {
            let p = water1[i];
            let q = water2[j - water1.len()];
            assert(water1.contains(p));
            assert(water2.contains(q));
            assert(in_mesh(opaque1, water1, p));
            assert(in_mesh(opaque2, water2, q));
            assert(quad_ok(faces, p, lo, mid));
            assert(quad_ok(faces, q, mid, hi));
        } else if j < water1.len() {
        } else {
            assert(water[i] == water2[i - water1.len()]);
            assert(water[j] == water2[j - water1.len()]);
        }
    }
}

/// The greedy mesh of the 16 layers of one direction, layer by layer.
pub fn generate_quads_for_direction(win: &BlockWindow, direction: Direction) -> (r: (
    Vec<Quad>,
    Vec<Quad>,
))
    ensures
        mesh_of(
            block_faces(window_blocks(*win)),
            r.0@,
            r.1@,
            layer_key(direction, 0),
            layer_key(direction, 0) + 16,
        ),
{
    let mut opaque_quads: Vec<Quad> = Vec::new();
    let mut water_quads: Vec<Quad> = Vec::new();
    let (u_max, v_max, w_max) = crate::quad::get_dimensions_for_direction(direction);
    let mut mask: Vec<Option<BlockType>> = Vec::new();
    let mut n: usize = 0;
    while n < u_max * v_max
        invariant
            u_max == 16,
            v_max == 16,
            n <= 256,
            mask@.len() == n,
        decreases 256 - n,
    {
        mask.push(None);
        n += 1;
    }
    let ghost faces = block_faces(window_blocks(*win));
    let ghost base = layer_key(direction, 0);
    proof {
        lemma_mesh_empty(faces, base);
        assert(opaque_quads@ =~= Seq::<Quad>::empty());
        assert(water_quads@ =~= Seq::<Quad>::empty());
    }
    let mut w: usize = 0;
    while w < w_max
        invariant
            w_max == 16,
            w <= 16,
            mask@.len() == 256,
            faces == block_faces(window_blocks(*win)),
            base == layer_key(direction, 0),
            mesh_of(faces, opaque_quads@, water_quads@, base, base + w),
        decreases 16 - w,
    {
        fill_mask(&mut mask, win, direction, w);
        let (mut opaque, mut water) = generate_quads_from_mask(&mask, direction, w);
        proof {
            let own = mask_faces(mask@, direction, w as int);
            assert forall|d: Direction, l: int, a: int, b: int|
                base + w <= layer_key(d, l) < base + w + 1 && 0 <= l < 16 && in_layer(a, b)
                    implies #[trigger] own(d, l, a, b) == faces(d, l, a, b) by {
                assert(d == direction && l == w);
                assert(mask@[cell_of(a, b)] == face_kind(
                    window_blocks(*win),
                    direction,
                    w as int,
                    a,
                    b,
                ));
            }
            lemma_mesh_same_faces(own, faces, opaque@, water@, base + w, base + w + 1);
            lemma_mesh_concat(
                faces,
                opaque_quads@,
                water_quads@,
                opaque@,
                water@,
                base,
                base + w,
                base + w + 1,
            );
        }
        opaque_quads.append(&mut opaque);
        water_quads.append(&mut water);
        w += 1;
    }
    (opaque_quads, water_quads)
}

/// The greedy mesh of the section in `win`, direction by direction: the
/// quads of water faces second, those of all other faces first.
pub fn generate_quads_for_window(win: &BlockWindow) -> (r: (Vec<Quad>, Vec<Quad>))
    ensures
        mesh_of(block_faces(window_blocks(*win)), r.0@, r.1@, 0, 96),
{
    let mut opaque_quads: Vec<Quad> = Vec::new();
    let mut water_quads: Vec<Quad> = Vec::new();
    let ghost faces = block_faces(window_blocks(*win));
    proof {
        lemma_mesh_empty(faces, 0);
        assert(opaque_quads@ =~= Seq::<Quad>::empty());
        assert(water_quads@ =~= Seq::<Quad>::empty());
    }
    let mut i: usize = 0;
    while i < 6
        invariant
            i <= 6,
            faces == block_faces(window_blocks(*win)),
            mesh_of(faces, opaque_quads@, water_quads@, 0, 16 * i),
        decreases 6 - i,
    {
        let direction = direction_at(i);
        let (mut opaque, mut water) = generate_quads_for_direction(win, direction);
        proof {
            lemma_mesh_concat(
                faces,
                opaque_quads@,
                water_quads@,
                opaque@,
                water@,
                0,
                16 * i,
                16 * i + 16,
            );
        }
        opaque_quads.append(&mut opaque);
        water_quads.append(&mut water);
        i += 1;
    }
    (opaque_quads, water_quads)
}

/// The mesh of a section does not depend on blocks beyond those that touch
/// it: a mesh of the faces of `blocks` is a mesh of the faces of any blocks
/// that agree with them on the section and the cells around it.
pub proof fn lemma_faces_of_same_blocks(
    blocks: Blocks,
    other: Blocks,
    opaque: Seq<Quad>,
    water: Seq<Quad>,
)
    requires
        mesh_of(block_faces(blocks), opaque, water, 0, 96),
        forall|x: int, y: int, z: int|
            crate::window::in_window(x, y, z) ==> #[trigger] blocks(x, y, z) == other(x, y, z),
    ensures
        mesh_of(block_faces(other), opaque, water, 0, 96),
{
    let own = block_faces(blocks);
    let faces = block_faces(other);
    assert forall|d: Direction, w: int, a: int, b: int|
        0 <= layer_key(d, w) < 96 && 0 <= w < 16 && in_layer(a, b) implies #[trigger] own(
        d,
        w,
        a,
        b,
    ) == faces(d, w, a, b) by {
        let (x, y, z) = uvw_to_xyz(a, b, w, d);
        let (dx, dy, dz) = neighbor_offset(d);
        assert(blocks(x, y, z) == other(x, y, z));
        assert(blocks(x + dx, y + dy, z + dz) == other(x + dx, y + dy, z + dz));
    }
    lemma_mesh_same_faces(own, faces, opaque, water, 0, 96);
}

/// The greedy mesh of a section that stands alone, with air around it.
pub fn generate_quads_for_section(section: &ChunkSection) -> (r: (Vec<Quad>, Vec<Quad>))
    ensures
        mesh_of(block_faces(section_blocks(*section)), r.0@, r.1@, 0, 96),
{
    let win = BlockWindow::from_section(section);
    let r = generate_quads_for_window(&win);
    proof {
        let own = block_faces(window_blocks(win));
        let faces = block_faces(section_blocks(*section));
        assert forall|d: Direction, w: int, a: int, b: int|
            0 <= layer_key(d, w) < 96 && 0 <= w < 16 && in_layer(a, b) implies #[trigger] own(
            d,
            w,
            a,
            b,
        ) == faces(d, w, a, b) by {
            let (x, y, z) = uvw_to_xyz(a, b, w, d);
            let (dx, dy, dz) = neighbor_offset(d);
            assert(win.at(x, y, z) == section.block_at(x, y, z));
            assert(win.at(x + dx, y + dy, z + dz) == section.block_at(x + dx, y + dy, z + dz));
        }
        lemma_mesh_same_faces(own, faces, r.0@, r.1@, 0, 96);
    }
    r
}

} // verus!
