use vstd::prelude::*;
use vstd::set_lib::{lemma_int_range, lemma_len_subset, set_int_range};
use crate::block::BlockType;
use crate::greedy::{
    Faces, in_mesh, same_layer, covered_in, covered_before, cell_blocked, width_closed,
    height_closed, quad_ok, mesh_of,
};
use crate::quad::{Direction, Quad, cell_of, in_layer, layer_key};

verus! {

/// Number of face positions in a section: six directions, 16 layers each,
/// 256 cells in a layer.
pub open spec fn face_positions() -> int {
    24576
}

/// The direction at position `i` of the meshing order.
pub open spec fn direction_of(i: int) -> Direction {
    if i == 0 {
        Direction::Up
    } else if i == 1 {
        Direction::Down
    } else if i == 2 {
        Direction::North
    } else if i == 3 {
        Direction::South
    } else if i == 4 {
        Direction::East
    } else {
        Direction::West
    }
}

/// Rank of a face position in meshing order.
pub open spec fn face_key(d: Direction, w: int, a: int, b: int) -> int {
    layer_key(d, w) * 256 + cell_of(a, b)
}

/// The face at the position of rank `k`.
pub open spec fn face_of_key(faces: Faces, k: int) -> Option<BlockType> {
    faces(direction_of(k / 4096), (k / 256) % 16, (k / 16) % 16, k % 16)
}

/// The ranks of the positions at which a face is drawn.
pub open spec fn face_set(faces: Faces) -> Set<int> {
    Set::new(|k: int| 0 <= k < face_positions() && face_of_key(faces, k) is Some)
}

/// Number of faces drawn: the number of quads of a mesh that gives every
/// face of every block a quad of its own.
pub open spec fn face_count(faces: Faces) -> nat {
    face_set(faces).len()
}

/// A face position is found again from its rank.
pub proof fn lemma_face_key(d: Direction, w: int, a: int, b: int)
    requires
        0 <= w < 16,
        in_layer(a, b),
    ensures
        0 <= face_key(d, w, a, b) < face_positions(),
        direction_of(face_key(d, w, a, b) / 4096) == d,
        (face_key(d, w, a, b) / 256) % 16 == w,
        (face_key(d, w, a, b) / 16) % 16 == a,
        face_key(d, w, a, b) % 16 == b,
{
}

/// The set of drawn faces is finite.
pub proof fn lemma_face_set_finite(faces: Faces)
    ensures
        face_set(faces).finite(),
        face_set(faces).len() <= face_positions(),
{
    lemma_int_range(0, face_positions());
    assert(face_set(faces).subset_of(set_int_range(0, face_positions())));
    lemma_len_subset(face_set(faces), set_int_range(0, face_positions()));
}

/// The ranks of the first cells of the quads of a mesh.
pub open spec fn seed_keys(opaque: Seq<Quad>, water: Seq<Quad>) -> Seq<int> {
    Seq::new((opaque + water).len(), |i: int| (opaque + water)[i].seed_key())
}

/// No two quads of a mesh start at the same cell, and every quad starts at
/// a drawn face.
proof fn lemma_seed_keys(faces: Faces, opaque: Seq<Quad>, water: Seq<Quad>)
    requires
        mesh_of(faces, opaque, water, 0, 96),
    ensures
        seed_keys(opaque, water).no_duplicates(),
        seed_keys(opaque, water).to_set().subset_of(face_set(faces)),
        forall|k: int|
            seed_keys(opaque, water).to_set().contains(k) ==> exists|q: Quad| #[trigger]
                in_mesh(opaque, water, q) && q.seed_key() == k,
{
    let all = opaque + water;
    let keys = seed_keys(opaque, water);
    assert forall|i: int| 0 <= i < all.len() implies in_mesh(opaque, water, #[trigger] all[i]) by {
        if i < opaque.len() {
            assert(opaque[i] == all[i]);
            assert(opaque.contains(all[i]));
        } else {
            assert(water[i - opaque.len()] == all[i]);
            assert(water.contains(all[i]));
        }
    }
    assert forall|i: int, j: int| 0 <= i < keys.len() && 0 <= j < keys.len() && i != j implies keys[i]
        != keys[j] by {
        let p = all[i];
        let q = all[j];
        assert(in_mesh(opaque, water, p));
        assert(in_mesh(opaque, water, q));
        assert(quad_ok(faces, p, 0, 96));
        assert(quad_ok(faces, q, 0, 96));
        if p.seed_key() == q.seed_key() {
            lemma_seed_known(p, q);
            assert(p.covers(p.u(), p.v()));
            assert(q.covers(p.u(), p.v()));
            assert(p == q);
            if i < opaque.len() && j < opaque.len() {
            } else if i >= opaque.len() && j >= opaque.len() {
                assert(water[i - opaque.len()].seed_key() == water[j - opaque.len()].seed_key());
            } else if i < opaque.len() {
                assert(opaque[i].type_blocks != BlockType::Water);
                assert(water[j - opaque.len()].type_blocks == BlockType::Water);
            } else {
                assert(opaque[j].type_blocks != BlockType::Water);
                assert(water[i - opaque.len()].type_blocks == BlockType::Water);
            }
        }
    }
    assert forall|k: int| keys.to_set().contains(k) implies face_set(faces).contains(k) && exists|
        q: Quad,
    | #[trigger] in_mesh(opaque, water, q) && q.seed_key() == k by {
        let i = choose|i: int| 0 <= i < keys.len() && keys[i] == k;
        let q = all[i];
        assert(in_mesh(opaque, water, q));
        assert(quad_ok(faces, q, 0, 96));
        assert(q.covers(q.u(), q.v()));
        lemma_face_key(q.direction, q.layer(), q.u(), q.v());
        assert(faces(q.direction, q.layer(), q.u(), q.v()) == Some(q.type_blocks));
    }
}

/// Two quads that fit and start at the same rank start at the same cell of
/// the same layer.
proof fn lemma_seed_known(p: Quad, q: Quad)
    requires
        p.fits(),
        q.fits(),
        p.seed_key() == q.seed_key(),
    ensures
        same_layer(p, q),
        p.u() == q.u(),
        p.v() == q.v(),
{
    lemma_face_key(p.direction, p.layer(), p.u(), p.v());
    lemma_face_key(q.direction, q.layer(), q.u(), q.v());
}

/// A greedy mesh never has more quads than faces are drawn.
pub proof fn lemma_quads_at_most_faces(faces: Faces, opaque: Seq<Quad>, water: Seq<Quad>)
    requires
        mesh_of(faces, opaque, water, 0, 96),
    ensures
        opaque.len() + water.len() <= face_count(faces),
{
    let keys = seed_keys(opaque, water);
    lemma_seed_keys(faces, opaque, water);
    lemma_face_set_finite(faces);
    keys.unique_seq_to_set();
    lemma_len_subset(keys.to_set(), face_set(faces));
}

/// A face under a quad that is not the quad's first cell is a drawn face at
/// which no quad of the mesh starts.
proof fn lemma_face_without_seed(
    faces: Faces,
    opaque: Seq<Quad>,
    water: Seq<Quad>,
    q: Quad,
    a: int,
    b: int,
)
    requires
        mesh_of(faces, opaque, water, 0, 96),
        in_mesh(opaque, water, q),
        q.covers(a, b),
        a != q.u() || b != q.v(),
    ensures
        face_set(faces).contains(face_key(q.direction, q.layer(), a, b)),
        forall|p: Quad| #[trigger]
            in_mesh(opaque, water, p) ==> p.seed_key() != face_key(q.direction, q.layer(), a, b),
{
    assert(quad_ok(faces, q, 0, 96));
    lemma_face_key(q.direction, q.layer(), a, b);
    assert(faces(q.direction, q.layer(), a, b) == Some(q.type_blocks));
    assert forall|p: Quad| #[trigger] in_mesh(opaque, water, p) implies p.seed_key() != face_key(
        q.direction,
        q.layer(),
        a,
        b,
    ) by {
        assert(quad_ok(faces, p, 0, 96));
        if p.seed_key() == face_key(q.direction, q.layer(), a, b) {
            lemma_face_key(p.direction, p.layer(), p.u(), p.v());
            assert(p.direction == q.direction && p.layer() == q.layer());
            assert(p.u() == a && p.v() == b);
            assert(p.covers(a, b));
            assert(p == q);
        }
    }
}

/// A mesh in which some drawn face is no quad's first cell has fewer quads
/// than faces are drawn.
proof fn lemma_spare_face(faces: Faces, opaque: Seq<Quad>, water: Seq<Quad>, k: int)
    requires
        mesh_of(faces, opaque, water, 0, 96),
        face_set(faces).contains(k),
        forall|p: Quad| #[trigger] in_mesh(opaque, water, p) ==> p.seed_key() != k,
    ensures
        opaque.len() + water.len() < face_count(faces),
{
    let keys = seed_keys(opaque, water);
    lemma_seed_keys(faces, opaque, water);
    lemma_face_set_finite(faces);
    keys.unique_seq_to_set();
    lemma_len_subset(keys.to_set(), face_set(faces));
    let more = keys.to_set().insert(k);
    assert(!keys.to_set().contains(k)) by {
        if keys.to_set().contains(k) {
            let q = choose|q: Quad| #[trigger] in_mesh(opaque, water, q) && q.seed_key() == k;
            assert(false);
        }
    }
    assert(more.subset_of(face_set(faces)));
    lemma_len_subset(more, face_set(faces));
}

/// Where two faces of the same kind lie side by side in one layer, along
/// either axis of the layer, the greedy mesh has fewer quads than faces are
/// drawn.
pub proof fn lemma_adjacent_faces_merge(
    faces: Faces,
    opaque: Seq<Quad>,
    water: Seq<Quad>,
    d: Direction,
    w: int,
    a: int,
    b: int,
    a2: int,
    b2: int,
)
    requires
        mesh_of(faces, opaque, water, 0, 96),
        0 <= w < 16,
        in_layer(a, b),
        in_layer(a2, b2),
        (a2 == a + 1 && b2 == b) || (a2 == a && b2 == b + 1),
        faces(d, w, a, b) is Some,
        faces(d, w, a, b) == faces(d, w, a2, b2),
    ensures
        opaque.len() + water.len() < face_count(faces),
{
    assert(0 <= layer_key(d, w) < 96);
    assert(covered_in(opaque, water, d, w, a, b));
    let qa = choose|q: Quad| #[trigger]
        in_mesh(opaque, water, q) && q.direction == d && q.layer() == w && q.covers(a, b);
    assert(covered_in(opaque, water, d, w, a2, b2));
    let qb = choose|q: Quad| #[trigger]
        in_mesh(opaque, water, q) && q.direction == d && q.layer() == w && q.covers(a2, b2);
    assert(quad_ok(faces, qa, 0, 96));
    assert(quad_ok(faces, qb, 0, 96));
    if qa.u() != a || qa.v() != b {
        lemma_face_without_seed(faces, opaque, water, qa, a, b);
        lemma_spare_face(faces, opaque, water, face_key(d, w, a, b));
    } else if qb.u() != a2 || qb.v() != b2 {
        lemma_face_without_seed(faces, opaque, water, qb, a2, b2);
        lemma_spare_face(faces, opaque, water, face_key(d, w, a2, b2));
    } else if qa.width >= 2 {
        assert(qa.covers(a + 1, b));
        lemma_face_without_seed(faces, opaque, water, qa, a + 1, b);
        lemma_spare_face(faces, opaque, water, face_key(d, w, a + 1, b));
    } else if qa.height >= 2 {
        assert(qa.covers(a, b + 1));
        lemma_face_without_seed(faces, opaque, water, qa, a, b + 1);
        lemma_spare_face(faces, opaque, water, face_key(d, w, a, b + 1));
    } else {
        assert(qa.covers(a, b));
        assert(faces(d, w, a, b) == Some(qa.type_blocks));
        assert(width_closed(faces, opaque, water, qa));
        assert(height_closed(faces, opaque, water, qa));
        assert(qb.covers(a2, b2));
        if a2 == a + 1 {
            assert(cell_blocked(faces, opaque, water, qa, a2, b2));
            assert(covered_before(opaque, water, qa, a2, b2));
            let p = choose|p: Quad| #[trigger]
                in_mesh(opaque, water, p) && same_layer(p, qa) && p.seed_key() < qa.seed_key()
                    && p.covers(a2, b2);
            assert(same_layer(p, qb));
            assert(p == qb);
            assert(false);
        } else {
            let k = choose|k: int|
                qa.u() <= k < qa.u() + qa.width && #[trigger] cell_blocked(
                    faces,
                    opaque,
                    water,
                    qa,
                    k,
                    qa.v() + qa.height,
                );
            assert(k == a);
            assert(covered_before(opaque, water, qa, a2, b2));
            let p = choose|p: Quad| #[trigger]
                in_mesh(opaque, water, p) && same_layer(p, qa) && p.seed_key() < qa.seed_key()
                    && p.covers(a2, b2);
            assert(same_layer(p, qb));
            assert(p == qb);
            assert(false);
        }
    }
}

} // verus!
