use vstd::prelude::*;
use crate::block::BlockType;
use crate::quad::{Direction, Quad, cell_of, in_layer, layer_key, convert_uvw_to_xyz};

verus! {

/// The faces of a section: for a direction, a layer and an in-layer cell,
/// the kind of the face drawn there, if one is drawn.
pub type Faces = spec_fn(Direction, int, int, int) -> Option<BlockType>;

/// The faces that a 16 x 16 mask holds for layer `w` of direction `d`; no
/// face in any other layer.
pub open spec fn mask_faces(mask: Seq<Option<BlockType>>, d: Direction, w: int) -> Faces {
    |d2: Direction, w2: int, a: int, b: int|
        if d2 == d && w2 == w && in_layer(a, b) && cell_of(a, b) < mask.len() {
            mask[cell_of(a, b)]
        } else {
            None
        }
}

/// Whether `q` is one of the quads of the mesh made of `opaque` and `water`.
pub open spec fn in_mesh(opaque: Seq<Quad>, water: Seq<Quad>, q: Quad) -> bool {
    opaque.contains(q) || water.contains(q)
}

/// Whether two quads lie in the same layer of the same direction.
pub open spec fn same_layer(p: Quad, q: Quad) -> bool {
    p.direction == q.direction && p.layer() == q.layer()
}

/// Every cell under `q` holds a face of the quad's kind.
pub open spec fn quad_matches(faces: Faces, q: Quad) -> bool {
    forall|a: int, b: int| #[trigger]
        q.covers(a, b) ==> faces(q.direction, q.layer(), a, b) == Some(q.type_blocks)
}

/// Whether some quad of the mesh in layer `w` of direction `d` lies over
/// in-layer cell `(a, b)`.
pub open spec fn covered_in(
    opaque: Seq<Quad>,
    water: Seq<Quad>,
    d: Direction,
    w: int,
    a: int,
    b: int,
) -> bool {
    exists|q: Quad| #[trigger]
        in_mesh(opaque, water, q) && q.direction == d && q.layer() == w && q.covers(a, b)
}

/// Whether a quad of the mesh that starts before `q` in its layer lies over
/// in-layer cell `(a, b)`.
pub open spec fn covered_before(opaque: Seq<Quad>, water: Seq<Quad>, q: Quad, a: int, b: int) -> bool {
    exists|p: Quad| #[trigger]
        in_mesh(opaque, water, p) && same_layer(p, q) && p.seed_key() < q.seed_key() && p.covers(
            a,
            b,
        )
}

/// Whether the cell `(a, b)` of `q`'s layer could not be merged into `q`:
/// it holds no face of the quad's kind, or an earlier quad lies over it.
pub open spec fn cell_blocked(faces: Faces, opaque: Seq<Quad>, water: Seq<Quad>, q: Quad, a: int, b: int) -> bool {
    faces(q.direction, q.layer(), a, b) != Some(q.type_blocks) || covered_before(
        opaque,
        water,
        q,
        a,
        b,
    )
}

/// `q` is as wide as it can be: its first row ends at the edge of the
/// layer or at a cell that could not be merged.
pub open spec fn width_closed(faces: Faces, opaque: Seq<Quad>, water: Seq<Quad>, q: Quad) -> bool {
    q.u() + q.width == 16 || cell_blocked(faces, opaque, water, q, q.u() + q.width, q.v())
}

/// `q` is as high as it can be at its width: it ends at the edge of the
/// layer or below a row that holds a cell that could not be merged.
pub open spec fn height_closed(faces: Faces, opaque: Seq<Quad>, water: Seq<Quad>, q: Quad) -> bool {
    q.v() + q.height == 16 || exists|k: int|
        q.u() <= k < q.u() + q.width && #[trigger] cell_blocked(
            faces,
            opaque,
            water,
            q,
            k,
            q.v() + q.height,
        )
}

/// The quads of `list` come in meshing order, each starting at another cell.
pub open spec fn seeds_ascend(list: Seq<Quad>) -> bool {
    forall|i: int, j: int| 0 <= i < j < list.len() ==> list[i].seed_key() < list[j].seed_key()
}

/// What holds of one quad of a mesh of the layers from `lo` up to `hi`: it
/// fits, lies in one of these layers, and lies over faces of its kind only.
pub open spec fn quad_ok(faces: Faces, q: Quad, lo: int, hi: int) -> bool {
    &&& q.fits()
    &&& lo <= layer_key(q.direction, q.layer()) < hi
    &&& quad_matches(faces, q)
}

/// `opaque` and `water` are the greedy mesh of the faces in the layers
/// numbered from `lo` up to `hi`:
/// every quad lies over faces of its own kind; no two quads overlap; every
/// face lies under a quad; every quad is as wide as the faces not yet taken
/// by earlier quads allow, and then as high; both lists are in meshing
/// order; `water` holds the water quads and `opaque` all others.
pub open spec fn mesh_of(faces: Faces, opaque: Seq<Quad>, water: Seq<Quad>, lo: int, hi: int) -> bool {
    &&& forall|q: Quad| #[trigger] in_mesh(opaque, water, q) ==> quad_ok(faces, q, lo, hi)
    &&& forall|q1: Quad, q2: Quad, a: int, b: int|
        in_mesh(opaque, water, q1) && in_mesh(opaque, water, q2) && same_layer(q1, q2)
            && #[trigger] q1.covers(a, b) && #[trigger] q2.covers(a, b) ==> q1 == q2
    &&& forall|d: Direction, w: int, a: int, b: int|
        lo <= layer_key(d, w) < hi && 0 <= w < 16 && in_layer(a, b) && (#[trigger] faces(
            d,
            w,
            a,
            b,
        )) is Some ==> covered_in(opaque, water, d, w, a, b)
    &&& forall|q: Quad| #[trigger]
        in_mesh(opaque, water, q) ==> width_closed(faces, opaque, water, q) && height_closed(
            faces,
            opaque,
            water,
            q,
        )
    &&& seeds_ascend(opaque)
    &&& seeds_ascend(water)
    &&& forall|i: int| 0 <= i < opaque.len() ==> (#[trigger] opaque[i]).type_blocks != BlockType::Water
    &&& forall|i: int| 0 <= i < water.len() ==> (#[trigger] water[i]).type_blocks == BlockType::Water
}

/// The kind that `mask` holds at in-layer cell `(u, v)`.
pub open spec fn mask_kind(mask: Seq<Option<BlockType>>, u: int, v: int) -> Option<BlockType> {
    if in_layer(u, v) && cell_of(u, v) < mask.len() {
        mask[cell_of(u, v)]
    } else {
        None
    }
}

/// Whether `flag` is set for in-layer cell `(u, v)`.
pub open spec fn flag_at(flags: Seq<bool>, u: int, v: int) -> bool {
    in_layer(u, v) && cell_of(u, v) < flags.len() && flags[cell_of(u, v)]
}

/// Whether the cell `(u, v)` of a mask can join a quad of kind `kind`: it
/// holds a face of that kind and no quad lies over it yet.
pub open spec fn cell_free(mask: Seq<Option<BlockType>>, visited: Seq<bool>, kind: BlockType, u: int, v: int) -> bool {
    mask_kind(mask, u, v) == Some(kind) && !flag_at(visited, u, v)
}

/// Whether the cell `(u, v)` of `mask` holds a face of kind `kind` that no
/// quad lies over yet.
fn is_free(mask: &Vec<Option<BlockType>>, visited: &Vec<bool>, kind: BlockType, u: usize, v: usize) -> (r: bool)
    requires
        mask@.len() == 256,
        visited@.len() == 256,
        u < 16,
        v < 16,
    ensures
        r == cell_free(mask@, visited@, kind, u as int, v as int),
{
    let index: usize = u * 16 + v;
    match mask[index] {
        Some(k) => k == kind && !visited[index],
        None => false,
    }
}

/// The largest quad that the greedy rule grows from the free cell
/// `(start_u, start_v)`: first as wide as free cells of the same kind
/// follow in the first row, then as high as whole rows of such cells
/// follow. Marks the cells under the quad as visited.
pub fn create_quad_from_position(
    mask: &Vec<Option<BlockType>>,
    visited: &mut Vec<bool>,
    start_u: usize,
    start_v: usize,
    w: usize,
    direction: Direction,
    block_type: BlockType,
) -> (q: Quad)
    requires
        mask@.len() == 256,
        old(visited)@.len() == 256,
        start_u < 16,
        start_v < 16,
        w < 16,
        cell_free(mask@, old(visited)@, block_type, start_u as int, start_v as int),
    ensures
        final(visited)@.len() == 256,
        q.direction == direction,
        q.type_blocks == block_type,
        q.layer() == w,
        q.u() == start_u,
        q.v() == start_v,
        q.fits(),
        forall|a: int, b: int| #[trigger]
            q.covers(a, b) ==> cell_free(mask@, old(visited)@, block_type, a, b),
        forall|a: int, b: int|
            in_layer(a, b) ==> (#[trigger] flag_at(final(visited)@, a, b) == (flag_at(
                old(visited)@,
                a,
                b,
            ) || q.covers(a, b))),
        start_u + q.width == 16 || !cell_free(
            mask@,
            old(visited)@,
            block_type,
            start_u + q.width,
            start_v as int,
        ),
        start_v + q.height == 16 || exists|k: int|
            start_u <= k < start_u + q.width && !#[trigger] cell_free(
                mask@,
                old(visited)@,
                block_type,
                k,
                start_v + q.height,
            ),
{
    let mut width: usize = 1;
    while start_u + width < 16
        invariant
            mask@.len() == 256,
            visited@.len() == 256,
            visited@ == old(visited)@,
            start_u < 16,
            start_v < 16,
            1 <= width,
            start_u + width <= 16,
            forall|a: int|
                start_u <= a < start_u + width ==> #[trigger] cell_free(
                    mask@,
                    visited@,
                    block_type,
                    a,
                    start_v as int,
                ),
        ensures
            1 <= width,
            start_u + width <= 16,
            forall|a: int|
                start_u <= a < start_u + width ==> #[trigger] cell_free(
                    mask@,
                    visited@,
                    block_type,
                    a,
                    start_v as int,
                ),
            start_u + width == 16 || !cell_free(
                mask@,
                visited@,
                block_type,
                start_u + width,
                start_v as int,
            ),
        decreases 16 - width,
    {
        if is_free(mask, visited, block_type, start_u + width, start_v) {
            width += 1;
        } else {
            break ;
        }
    }

    let mut height: usize = 1;
    let mut blocked: bool = false;
    while start_v + height < 16 && !blocked
        invariant
            mask@.len() == 256,
            visited@.len() == 256,
            visited@ == old(visited)@,
            start_u < 16,
            start_v < 16,
            1 <= width,
            start_u + width <= 16,
            1 <= height,
            start_v + height <= 16,
            forall|a: int, b: int|
                start_u <= a < start_u + width && start_v <= b < start_v + height
                    ==> #[trigger] cell_free(mask@, visited@, block_type, a, b),
            blocked ==> exists|k: int|
                start_u <= k < start_u + width && !#[trigger] cell_free(
                    mask@,
                    visited@,
                    block_type,
                    k,
                    start_v + height,
                ),
        decreases 16 - height + (if blocked { 0int } else { 1int }),
    {
        let mut u: usize = start_u;
        let mut row_free: bool = true;
        while u < start_u + width && row_free
            invariant
                mask@.len() == 256,
                visited@.len() == 256,
                start_u <= u <= start_u + width,
                start_u + width <= 16,
                start_v + height < 16,
                row_free ==> forall|a: int|
                    start_u <= a < u ==> #[trigger] cell_free(
                        mask@,
                        visited@,
                        block_type,
                        a,
                        start_v + height,
                    ),
                !row_free ==> exists|k: int|
                    start_u <= k < start_u + width && !#[trigger] cell_free(
                        mask@,
                        visited@,
                        block_type,
                        k,
                        start_v + height,
                    ),
            decreases start_u + width - u + (if row_free { 1int } else { 0int }),
        {
            if is_free(mask, visited, block_type, u, start_v + height) {
                u += 1;
            } else {
                row_free = false;
            }
        }
        if row_free {
            height += 1;
        } else {
            blocked = true;
        }
    }

    let mut u: usize = start_u;
    while u < start_u + width
        invariant
            mask@.len() == 256,
            visited@.len() == 256,
            start_u <= u <= start_u + width,
            start_u + width <= 16,
            start_v + height <= 16,
            forall|a: int, b: int|
                in_layer(a, b) ==> (#[trigger] flag_at(visited@, a, b) == (flag_at(
                    old(visited)@,
                    a,
                    b,
                ) || (start_u <= a < u && start_v <= b < start_v + height))),
        decreases start_u + width - u,
    {
        let mut v: usize = start_v;
        while v < start_v + height
            invariant
                mask@.len() == 256,
                visited@.len() == 256,
                start_u <= u < start_u + width,
                start_u + width <= 16,
                start_v <= v <= start_v + height,
                start_v + height <= 16,
                forall|a: int, b: int|
                    in_layer(a, b) ==> (#[trigger] flag_at(visited@, a, b) == (flag_at(
                        old(visited)@,
                        a,
                        b,
                    ) || (start_u <= a < u && start_v <= b < start_v + height) || (a == u
                        && start_v <= b < v))),
            decreases start_v + height - v,
        {
            let ghost prev = visited@;
            visited.set(u * 16 + v, true);
            proof {
                assert forall|a: int, b: int| in_layer(a, b) implies (#[trigger] flag_at(
                    visited@,
                    a,
                    b,
                ) == (flag_at(old(visited)@, a, b) || (start_u <= a < u && start_v <= b < start_v
                    + height) || (a == u && start_v <= b < v + 1))) by {
                    assert(flag_at(prev, a, b) == (flag_at(old(visited)@, a, b) || (start_u <= a
                        < u && start_v <= b < start_v + height) || (a == u && start_v <= b < v)));
                    if cell_of(a, b) == cell_of(u as int, v as int) {
                        assert(a == u && b == v);
                    }
                }
            }
            v += 1;
        }
        u += 1;
    }

    let (x, y, z) = convert_uvw_to_xyz(start_u, start_v, w, direction);
    Quad { x, y, z, width, height, direction, type_blocks: block_type }
}

/// A quad is in a list that grew by `q0` exactly if it was there before or
/// is `q0`.
pub proof fn lemma_contains_push(list: Seq<Quad>, q0: Quad)
    ensures
        forall|q: Quad| #[trigger] list.push(q0).contains(q) <==> (list.contains(q) || q == q0),
{
    assert forall|q: Quad| #[trigger] list.push(q0).contains(q) <==> (list.contains(q) || q
        == q0) by {
        let grown = list.push(q0);
        if grown.contains(q) {
            let i = choose|i: int| 0 <= i < grown.len() && grown[i] == q;
            if i < list.len() {
                assert(list[i] == q);
            }
        }
        if list.contains(q) {
            let i = choose|i: int| 0 <= i < list.len() && list[i] == q;
            assert(grown[i] == q);
        }
        if q == q0 {
            assert(grown[list.len() as int] == q);
        }
    }
}

/// What holds while a layer is scanned, when every cell before position
/// `p` has been looked at: the quads made so far lie over exactly the
/// visited cells, every face before `p` is visited, and the quads have all
/// the properties of a greedy mesh.
pub open spec fn scan_inv(
    mask: Seq<Option<BlockType>>,
    d: Direction,
    w: int,
    opaque: Seq<Quad>,
    water: Seq<Quad>,
    visited: Seq<bool>,
    p: int,
) -> bool {
    let faces = mask_faces(mask, d, w);
    &&& mask.len() == 256
    &&& visited.len() == 256
    &&& 0 <= w < 16
    &&& forall|q: Quad| #[trigger]
        in_mesh(opaque, water, q) ==> q.fits() && quad_matches(faces, q) && q.direction == d
            && q.layer() == w && cell_of(q.u(), q.v()) < p
    &&& forall|q: Quad, a: int, b: int|
        in_mesh(opaque, water, q) && #[trigger] q.covers(a, b) ==> flag_at(visited, a, b)
    &&& forall|a: int, b: int|
        in_layer(a, b) && #[trigger] flag_at(visited, a, b) ==> covered_in(
            opaque,
            water,
            d,
            w,
            a,
            b,
        )
    &&& forall|a: int, b: int|
        in_layer(a, b) && cell_of(a, b) < p && mask_kind(mask, a, b) is Some ==> #[trigger] flag_at(
            visited,
            a,
            b,
        )
    &&& forall|q1: Quad, q2: Quad, a: int, b: int|
        in_mesh(opaque, water, q1) && in_mesh(opaque, water, q2) && same_layer(q1, q2)
            && #[trigger] q1.covers(a, b) && #[trigger] q2.covers(a, b) ==> q1 == q2
    &&& forall|q: Quad| #[trigger]
        in_mesh(opaque, water, q) ==> width_closed(faces, opaque, water, q) && height_closed(
            faces,
            opaque,
            water,
            q,
        )
    &&& seeds_ascend(opaque)
    &&& seeds_ascend(water)
    &&& forall|i: int| 0 <= i < opaque.len() ==> (#[trigger] opaque[i]).type_blocks != BlockType::Water
    &&& forall|i: int| 0 <= i < water.len() ==> (#[trigger] water[i]).type_blocks == BlockType::Water
}

/// A cell that could not be merged into `q` stays so when the mesh grows.
pub proof fn lemma_blocked_stays(
    faces: Faces,
    opaque: Seq<Quad>,
    water: Seq<Quad>,
    opaque2: Seq<Quad>,
    water2: Seq<Quad>,
    q: Quad,
    a: int,
    b: int,
)
    requires
        forall|x: Quad| in_mesh(opaque, water, x) ==> in_mesh(opaque2, water2, x),
        cell_blocked(faces, opaque, water, q, a, b),
    ensures
        cell_blocked(faces, opaque2, water2, q, a, b),
{
    if covered_before(opaque, water, q, a, b) {
        let p = choose|p: Quad| #[trigger]
            in_mesh(opaque, water, p) && same_layer(p, q) && p.seed_key() < q.seed_key()
                && p.covers(a, b);
        assert(in_mesh(opaque2, water2, p));
    }
}

/// A quad that is as wide and as high as it can be stays so when the mesh
/// grows.
pub proof fn lemma_closed_stays(
    faces: Faces,
    opaque: Seq<Quad>,
    water: Seq<Quad>,
    opaque2: Seq<Quad>,
    water2: Seq<Quad>,
    q: Quad,
)
    requires
        forall|x: Quad| in_mesh(opaque, water, x) ==> in_mesh(opaque2, water2, x),
        width_closed(faces, opaque, water, q),
        height_closed(faces, opaque, water, q),
    ensures
        width_closed(faces, opaque2, water2, q),
        height_closed(faces, opaque2, water2, q),
{
    if q.u() + q.width != 16 {
        lemma_blocked_stays(faces, opaque, water, opaque2, water2, q, q.u() + q.width, q.v());
    }
    if q.v() + q.height != 16 {
        let k = choose|k: int|
            q.u() <= k < q.u() + q.width && #[trigger] cell_blocked(
                faces,
                opaque,
                water,
                q,
                k,
                q.v() + q.height,
            );
        lemma_blocked_stays(faces, opaque, water, opaque2, water2, q, k, q.v() + q.height);
    }
}

/// The scan may pass a cell that holds no face or is visited already.
proof fn lemma_scan_skip(
    mask: Seq<Option<BlockType>>,
    d: Direction,
    w: int,
    opaque: Seq<Quad>,
    water: Seq<Quad>,
    visited: Seq<bool>,
    p: int,
)
    requires
        scan_inv(mask, d, w, opaque, water, visited, p),
        0 <= p < 256,
        mask[p] is None || visited[p],
    ensures
        scan_inv(mask, d, w, opaque, water, visited, p + 1),
{
    assert forall|a: int, b: int|
        in_layer(a, b) && cell_of(a, b) < p + 1 && mask_kind(mask, a, b) is Some implies #[trigger] flag_at(
        visited,
        a,
        b,
    ) by {
        if cell_of(a, b) == p {
        } else {
            assert(cell_of(a, b) < p);
        }
    }
}

/// The scan after a quad was grown from the free cell at position `p` and
/// added to the list of its kind.
proof fn lemma_scan_emit(
    mask: Seq<Option<BlockType>>,
    d: Direction,
    w: int,
    opaque: Seq<Quad>,
    water: Seq<Quad>,
    visited: Seq<bool>,
    marked: Seq<bool>,
    q0: Quad,
    p: int,
)
    requires
        scan_inv(mask, d, w, opaque, water, visited, p),
        marked.len() == 256,
        in_layer(q0.u(), q0.v()),
        p == cell_of(q0.u(), q0.v()),
        q0.direction == d,
        q0.layer() == w,
        q0.fits(),
        q0.type_blocks != BlockType::Air,
        forall|a: int, b: int| #[trigger]
            q0.covers(a, b) ==> cell_free(mask, visited, q0.type_blocks, a, b),
        forall|a: int, b: int|
            in_layer(a, b) ==> (#[trigger] flag_at(marked, a, b) == (flag_at(visited, a, b)
                || q0.covers(a, b))),
        q0.u() + q0.width == 16 || !cell_free(
            mask,
            visited,
            q0.type_blocks,
            q0.u() + q0.width,
            q0.v(),
        ),
        q0.v() + q0.height == 16 || exists|k: int|
            q0.u() <= k < q0.u() + q0.width && !#[trigger] cell_free(
                mask,
                visited,
                q0.type_blocks,
                k,
                q0.v() + q0.height,
            ),
    ensures
        q0.type_blocks == BlockType::Water ==> scan_inv(
            mask,
            d,
            w,
            opaque,
            water.push(q0),
            marked,
            p + 1,
        ),
        q0.type_blocks != BlockType::Water ==> scan_inv(
            mask,
            d,
            w,
            opaque.push(q0),
            water,
            marked,
            p + 1,
        ),
{
    let faces = mask_faces(mask, d, w);
    let is_water = q0.type_blocks == BlockType::Water;
    let opaque2 = if is_water {
        opaque
    } else {
        opaque.push(q0)
    };
    let water2 = if is_water {
        water.push(q0)
    } else {
        water
    };
    lemma_contains_push(opaque, q0);
    lemma_contains_push(water, q0);
    assert forall|q: Quad| #[trigger] in_mesh(opaque2, water2, q) <==> (in_mesh(opaque, water, q)
        || q == q0) by {}
    assert(q0.covers(q0.u(), q0.v()));
    assert(quad_matches(faces, q0)) by {
        assert forall|a: int, b: int| #[trigger] q0.covers(a, b) implies faces(
            q0.direction,
            q0.layer(),
            a,
            b,
        ) == Some(q0.type_blocks) by {
            assert(cell_free(mask, visited, q0.type_blocks, a, b));
        }
    }
    assert forall|q: Quad| #[trigger] in_mesh(opaque2, water2, q) implies q.fits()
        && quad_matches(faces, q) && q.direction == d && q.layer() == w && cell_of(q.u(), q.v())
        < p + 1 by {
        if q != q0 {
            assert(in_mesh(opaque, water, q));
        }
    }
    assert forall|q: Quad, a: int, b: int|
        in_mesh(opaque2, water2, q) && #[trigger] q.covers(a, b) implies flag_at(marked, a, b) by {
        if q == q0 {
            assert(cell_free(mask, visited, q0.type_blocks, a, b));
        } else {
            assert(in_mesh(opaque, water, q));
            assert(flag_at(visited, a, b));
        }
    }
    assert forall|a: int, b: int| in_layer(a, b) && #[trigger] flag_at(marked, a, b) implies covered_in(
        opaque2,
        water2,
        d,
        w,
        a,
        b,
    ) by {
        if flag_at(visited, a, b) {
            assert(covered_in(opaque, water, d, w, a, b));
            let q = choose|q: Quad| #[trigger]
                in_mesh(opaque, water, q) && q.direction == d && q.layer() == w && q.covers(a, b);
            assert(in_mesh(opaque2, water2, q));
        } else {
            assert(q0.covers(a, b));
            assert(in_mesh(opaque2, water2, q0));
        }
    }
    assert forall|a: int, b: int|
        in_layer(a, b) && cell_of(a, b) < p + 1 && mask_kind(mask, a, b) is Some implies #[trigger] flag_at(
        marked,
        a,
        b,
    ) by {
        if cell_of(a, b) == p {
            assert(a == q0.u() && b == q0.v());
        } else {
            assert(flag_at(visited, a, b));
        }
    }
    assert forall|q1: Quad, q2: Quad, a: int, b: int|
        in_mesh(opaque2, water2, q1) && in_mesh(opaque2, water2, q2) && same_layer(q1, q2)
            && #[trigger] q1.covers(a, b) && #[trigger] q2.covers(a, b) implies q1 == q2 by {
        if q1 == q0 && q2 != q0 {
            assert(in_mesh(opaque, water, q2));
            assert(flag_at(visited, a, b));
            assert(cell_free(mask, visited, q0.type_blocks, a, b));
        } else if q2 == q0 && q1 != q0 {
            assert(in_mesh(opaque, water, q1));
            assert(flag_at(visited, a, b));
            assert(cell_free(mask, visited, q0.type_blocks, a, b));
        } else if q1 != q0 && q2 != q0 {
            assert(in_mesh(opaque, water, q1));
            assert(in_mesh(opaque, water, q2));
        }
    }
    assert forall|a: int, b: int|
        in_layer(a, b) && !cell_free(mask, visited, q0.type_blocks, a, b) implies cell_blocked(
        faces,
        opaque2,
        water2,
        q0,
        a,
        b,
    ) by {
        if mask_kind(mask, a, b) == Some(q0.type_blocks) {
            assert(flag_at(visited, a, b));
            assert(covered_in(opaque, water, d, w, a, b));
            let q = choose|q: Quad| #[trigger]
                in_mesh(opaque, water, q) && q.direction == d && q.layer() == w && q.covers(a, b);
            assert(in_mesh(opaque2, water2, q));
            assert(cell_of(q.u(), q.v()) < p);
            assert(q.seed_key() < q0.seed_key());
            assert(same_layer(q, q0));
            assert(covered_before(opaque2, water2, q0, a, b));
        }
    }
    assert forall|q: Quad| #[trigger] in_mesh(opaque2, water2, q) implies width_closed(
        faces,
        opaque2,
        water2,
        q,
    ) && height_closed(faces, opaque2, water2, q) by {
        if q == q0 {
            if q0.u() + q0.width != 16 {
                assert(in_layer(q0.u() + q0.width, q0.v()));
            }
            if q0.v() + q0.height != 16 {
                let k = choose|k: int|
                    q0.u() <= k < q0.u() + q0.width && !#[trigger] cell_free(
                        mask,
                        visited,
                        q0.type_blocks,
                        k,
                        q0.v() + q0.height,
                    );
                assert(in_layer(k, q0.v() + q0.height));
                assert(cell_blocked(faces, opaque2, water2, q0, k, q0.v() + q0.height));
            }
        } else {
            assert(in_mesh(opaque, water, q));
            lemma_closed_stays(faces, opaque, water, opaque2, water2, q);
        }
    }
    assert(seeds_ascend(opaque2)) by {
        assert forall|i: int, j: int| 0 <= i < j < opaque2.len() implies opaque2[i].seed_key()
            < opaque2[j].seed_key() by {
            if !is_water && j == opaque.len() {
                assert(opaque.contains(opaque[i]));
                assert(in_mesh(opaque, water, opaque[i]));
            }
        }
    }
    assert(seeds_ascend(water2)) by {
        assert forall|i: int, j: int| 0 <= i < j < water2.len() implies water2[i].seed_key()
            < water2[j].seed_key() by {
            if is_water && j == water.len() {
                assert(water.contains(water[i]));
                assert(in_mesh(opaque, water, water[i]));
            }
        }
    }
    assert(scan_inv(mask, d, w, opaque2, water2, marked, p + 1));
}

/// A finished scan has made the greedy mesh of the layer.
proof fn lemma_scan_done(
    mask: Seq<Option<BlockType>>,
    d: Direction,
    w: int,
    opaque: Seq<Quad>,
    water: Seq<Quad>,
    visited: Seq<bool>,
)
    requires
        scan_inv(mask, d, w, opaque, water, visited, 256),
    ensures
        mesh_of(mask_faces(mask, d, w), opaque, water, layer_key(d, w), layer_key(d, w) + 1),
{
    let faces = mask_faces(mask, d, w);
    let key = layer_key(d, w);
    assert forall|d2: Direction, w2: int, a: int, b: int|
        key <= layer_key(d2, w2) < key + 1 && 0 <= w2 < 16 && in_layer(a, b) && (#[trigger] faces(
            d2,
            w2,
            a,
            b,
        )) is Some implies covered_in(opaque, water, d2, w2, a, b) by {
        assert(d2 == d && w2 == w);
        assert(mask_kind(mask, a, b) is Some);
        assert(flag_at(visited, a, b));
    }
}

/// The greedy mesh of one layer. `mask` holds, for each in-layer cell
/// `(u, v)` at position `u * 16 + v`, the kind of the face drawn there.
/// Cells are scanned by `u`, then by `v`; from each face that no quad lies
/// over yet a quad is grown along `u` and then along `v`. Water quads are
/// returned second, all others first.
pub fn generate_quads_from_mask(mask: &Vec<Option<BlockType>>, direction: Direction, w: usize) -> (r: (
    Vec<Quad>,
    Vec<Quad>,
))
    requires
        mask@.len() == 256,
        w < 16,
        forall|i: int| 0 <= i < 256 ==> mask@[i] != Some(BlockType::Air),
    ensures
        mesh_of(
            mask_faces(mask@, direction, w as int),
            r.0@,
            r.1@,
            layer_key(direction, w as int),
            layer_key(direction, w as int) + 1,
        ),
{
    let mut opaque_quads: Vec<Quad> = Vec::new();
    let mut water_quads: Vec<Quad> = Vec::new();
    let mut visited: Vec<bool> = Vec::new();
    let mut n: usize = 0;
    while n < 256
        invariant
            n <= 256,
            visited@.len() == n,
            forall|i: int| 0 <= i < n ==> !visited@[i],
        decreases 256 - n,
    {
        visited.push(false);
        n += 1;
    }
    proof {
        assert(forall|q: Quad| !(#[trigger] in_mesh(opaque_quads@, water_quads@, q)));
    }
    let mut p: usize = 0;
    while p < 256
        invariant
            p <= 256,
            w < 16,
            forall|i: int| 0 <= i < 256 ==> mask@[i] != Some(BlockType::Air),
            scan_inv(mask@, direction, w as int, opaque_quads@, water_quads@, visited@, p as int),
        decreases 256 - p,
    {
        let u: usize = p / 16;
        let v: usize = p % 16;
        match mask[p] {
            Some(block_type) => {
                if !visited[p] {
                    let ghost before = visited@;
                    let quad = create_quad_from_position(
                        mask,
                        &mut visited,
                        u,
                        v,
                        w,
                        direction,
                        block_type,
                    );
                    proof {
                        lemma_scan_emit(
                            mask@,
                            direction,
                            w as int,
                            opaque_quads@,
                            water_quads@,
                            before,
                            visited@,
                            quad,
                            p as int,
                        );
                    }
                    if block_type == BlockType::Water {
                        water_quads.push(quad);
                    } else {
                        opaque_quads.push(quad);
                    }
                } else {
                    proof {
                        lemma_scan_skip(
                            mask@,
                            direction,
                            w as int,
                            opaque_quads@,
                            water_quads@,
                            visited@,
                            p as int,
                        );
                    }
                }
            },
            None => {
                proof {
                    lemma_scan_skip(
                        mask@,
                        direction,
                        w as int,
                        opaque_quads@,
                        water_quads@,
                        visited@,
                        p as int,
                    );
                }
            },
        }
        p += 1;
    }
    proof {
        lemma_scan_done(mask@, direction, w as int, opaque_quads@, water_quads@, visited@);
    }
    (opaque_quads, water_quads)
}

} // verus!
